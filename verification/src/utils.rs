//! Byte strings cut at a delimiter.

use vstd::prelude::*;
use vstd::slice::slice_to_vec;

verus! {

/// Whether `delimiter` stands in `data` at `i`.
pub open spec fn occurs_at(data: Seq<u8>, delimiter: Seq<u8>, i: int) -> bool {
    0 <= i && i + delimiter.len() <= data.len() && data.subrange(i, i + delimiter.len())
        == delimiter
}

/// Whether no occurrence of `delimiter` in `data` begins inside another.
pub open spec fn occurrences_apart(data: Seq<u8>, delimiter: Seq<u8>) -> bool {
    forall|i: int, j: int|
        #![trigger occurs_at(data, delimiter, i), occurs_at(data, delimiter, j)]
        occurs_at(data, delimiter, i) && occurs_at(data, delimiter, j) && i < j ==> i
            + delimiter.len() <= j
}

/// The pieces of `data` from `start` on, where the places before `i` have
/// been looked at already. An occurrence of the delimiter ends a piece, and
/// the next piece starts behind it. What follows the last occurrence is a
/// piece too, unless it is empty.
pub open spec fn pieces_from(data: Seq<u8>, delimiter: Seq<u8>, i: int, start: int) -> Seq<
    Seq<u8>,
>
    decreases data.len() - i,
{
    if delimiter.len() == 0 || i < 0 || i + delimiter.len() > data.len() {
        if 0 <= start < data.len() {
            seq![data.subrange(start, data.len() as int)]
        } else {
            Seq::empty()
        }
    } else if occurs_at(data, delimiter, i) {
        seq![data.subrange(start, i)] + pieces_from(data, delimiter, i + 1, i + delimiter.len())
    } else {
        pieces_from(data, delimiter, i + 1, start)
    }
}

/// The byte strings that `pieces` hold.
pub open spec fn piece_views(pieces: Seq<Vec<u8>>) -> Seq<Seq<u8>> {
    Seq::new(pieces.len(), |k: int| pieces[k]@)
}

/// Whether `delimiter` stands in `data` at `i`.
pub fn delimiter_at(data: &[u8], delimiter: &[u8], i: usize) -> (found: bool)
    requires
        i + delimiter@.len() <= data@.len(),
    ensures
        found == occurs_at(data@, delimiter@, i as int),
{
    let n: usize = data.len();
    let m: usize = delimiter.len();
    let mut j: usize = 0;
    while j < m
        invariant
            n == data@.len(),
            m == delimiter@.len(),
            i + m <= n,
            j <= m,
            forall|k: int| 0 <= k < j ==> data@[i + k] == delimiter@[k],
        decreases m - j,
    {
        if data[i + j] != delimiter[j] {
            assert(data@.subrange(i as int, i + m)[j as int] != delimiter@[j as int]);
            return false;
        }
        j = j + 1;
    }
    assert(data@.subrange(i as int, i + m) =~= delimiter@);
    true
}

/// Cuts `data` at each occurrence of `delimiter`, from left to right. The
/// pieces between the occurrences are returned in order, the empty ones
/// too; what follows the last occurrence is returned unless it is empty.
///
/// The delimiter must not be empty, and no occurrence of it may begin
/// inside another.
pub fn split_by_utf8_delimiter(data: Vec<u8>, delimiter: &[u8]) -> (result: Vec<Vec<u8>>)
    requires
        delimiter@.len() > 0,
        occurrences_apart(data@, delimiter@),
    ensures
        piece_views(result@) == pieces_from(data@, delimiter@, 0, 0),
{
    let n: usize = data.len();
    let m: usize = delimiter.len();
    let mut result: Vec<Vec<u8>> = Vec::new();
    let mut start: usize = 0;
    let mut i: usize = 0;
    assert(piece_views(result@) + pieces_from(data@, delimiter@, 0, 0) =~= pieces_from(
        data@,
        delimiter@,
        0,
        0,
    ));
    while m <= n && i <= n - m
        invariant
            n == data@.len(),
            m == delimiter@.len(),
            m > 0,
            occurrences_apart(data@, delimiter@),
            start <= n,
            i <= n,
            start == 0 || (m <= start && start - m < i && occurs_at(
                data@,
                delimiter@,
                start - m,
            )),
            piece_views(result@) + pieces_from(data@, delimiter@, i as int, start as int)
                == pieces_from(data@, delimiter@, 0, 0),
        decreases n - i,
    {
        let ghost before = piece_views(result@);
        if delimiter_at(data.as_slice(), delimiter, i) {
            assert(start <= i) by {
                if start > 0 {
                    assert(occurs_at(data@, delimiter@, start - m) && occurs_at(
                        data@,
                        delimiter@,
                        i as int,
                    ));
                }
            }
            let piece: Vec<u8> = slice_to_vec(&data.as_slice()[start..i]);
            result.push(piece);
            start = i + m;
            proof {
                assert(piece_views(result@) =~= before.push(piece@));
                assert(before.push(piece@) + pieces_from(data@, delimiter@, i + 1, i + m)
                    =~= before + (seq![piece@] + pieces_from(data@, delimiter@, i + 1, i + m)));
            }
        }
        i = i + 1;
    }
    let ghost before = piece_views(result@);
    if start < n {
        let piece: Vec<u8> = slice_to_vec(&data.as_slice()[start..n]);
        result.push(piece);
        assert(piece_views(result@) =~= before.push(piece@));
        assert(before.push(piece@) =~= before + seq![piece@]);
    } else {
        assert(before + Seq::<Seq<u8>>::empty() =~= before);
    }
    result
}

} // verus!
