//! Names of Chinese administrative divisions, looked up by their six-digit
//! region codes in a compact binary catalog.
//!
//! A catalog starts with a header of six bytes. Behind it lie the records,
//! one for each unit and of varying length, in ascending order of their
//! codes; then the province index, which tells where the records of each
//! province start; and at the end the character dictionary, a GBK text.
//! A record packs the code of a unit with its administrative level, and
//! holds the name as 12-bit numbers of characters of the dictionary, three
//! nibbles each. A retired code carries the year of its retirement in the
//! nibbles behind the name.
//!
//! [`region::Region`] holds a catalog in memory and answers lookups in two
//! ways: [`region::Region::search_with_data`] reads only the records of the
//! province of the code, where they lie; [`region::Region::search_with_trie`]
//! builds a prefix tree of all units once and walks it. The module
//! [`agreement`] proves that both give the same answer for the codes that a
//! well-formed catalog holds.
//!
//! This module holds the answer and error types and the readers of numbers
//! and nibbles that the other modules build on.

use vstd::prelude::*;

pub mod agreement;
pub mod code;
pub mod dictionary;
pub mod header;
pub mod index;
pub mod layout;
pub mod name;
pub mod record;
pub mod region;
pub mod text;
pub mod trie;
pub mod utils;

verus! {

/// Why a lookup or a decoding step failed.
#[derive(Debug, Clone, Copy, PartialEq, Eq, Structural)]
pub enum RegionError {
    /// The code is not made of exactly six decimal digits.
    InvalidInput,
    /// The code is well formed but the catalog holds no unit for it.
    NotFound,
    /// The catalog could not be read from its storage.
    IOFailure,
    /// The catalog bytes do not follow the catalog format.
    DecodeFailure,
}

impl RegionError {
    /// A short description of the error, for display.
    pub fn message(&self) -> (text: String)
        ensures
            text@ == self.message_text(),
    {
        match self {
            RegionError::InvalidInput => "region_code's length must be 6 and its characters digits".to_owned(),
            RegionError::NotFound => "cannot find record".to_owned(),
            RegionError::IOFailure => "cannot read the catalog".to_owned(),
            RegionError::DecodeFailure => "the catalog is corrupt".to_owned(),
        }
    }

    /// The text that [`RegionError::message`] returns.
    pub open spec fn message_text(&self) -> Seq<char> {
        match self {
            RegionError::InvalidInput => "region_code's length must be 6 and its characters digits"@,
            RegionError::NotFound => "cannot find record"@,
            RegionError::IOFailure => "cannot read the catalog"@,
            RegionError::DecodeFailure => "the catalog is corrupt"@,
        }
    }
}

/// The answer to a lookup: the names of the unit and of the units around it.
#[derive(Debug)]
pub struct RegionItem {
    /// The six-digit code that was looked up.
    pub region_code: String,
    /// The names of all matched levels, joined from the outermost inwards.
    pub name: String,
    /// The name of each matched level, outermost first.
    pub region_slice: Vec<String>,
    /// The year in which the code was retired, or 0 while it is in use.
    pub discard_year: u32,
}

/// What a [`RegionItem`] holds, as mathematical values.
pub struct RegionItemView {
    /// The six-digit code that was looked up.
    pub region_code: Seq<char>,
    /// The names of all matched levels, joined.
    pub name: Seq<char>,
    /// The name of each matched level, outermost first.
    pub region_slice: Seq<Seq<char>>,
    /// The year in which the code was retired, or 0.
    pub discard_year: u32,
}

/// The texts of a list of strings.
pub open spec fn texts(names: Seq<String>) -> Seq<Seq<char>> {
    Seq::new(names.len(), |i: int| names[i]@)
}

impl View for RegionItem {
    type V = RegionItemView;

    open spec fn view(&self) -> RegionItemView {
        RegionItemView {
            region_code: self.region_code@,
            name: self.name@,
            region_slice: texts(self.region_slice@),
            discard_year: self.discard_year,
        }
    }
}

/// The view of a lookup's outcome.
pub open spec fn outcome_view(r: Result<RegionItem, RegionError>) -> Result<
    RegionItemView,
    RegionError,
> {
    match r {
        Ok(item) => Ok(item@),
        Err(e) => Err(e),
    }
}

/// All the texts of `parts` one after another.
pub open spec fn joined(parts: Seq<Seq<char>>) -> Seq<char>
    decreases parts.len(),
{
    if parts.len() == 0 {
        Seq::empty()
    } else {
        joined(parts.drop_last()) + parts.last()
    }
}

/// The number denoted by `bytes` read as big-endian base-256 digits.
pub open spec fn be_value(bytes: Seq<u8>) -> nat
    decreases bytes.len(),
{
    if bytes.len() == 0 {
        0
    } else {
        be_value(bytes.drop_last()) * 256 + bytes.last() as nat
    }
}

/// The number denoted by up to four big-endian bytes in two's complement:
/// four bytes whose first bit is set denote a negative number.
pub open spec fn signed_be_value(bytes: Seq<u8>) -> int {
    let unsigned = be_value(bytes);
    if bytes.len() == 4 && unsigned >= 0x8000_0000 {
        unsigned - 0x1_0000_0000
    } else {
        unsigned as int
    }
}

/// Reads up to four big-endian bytes as an `i32`.
pub fn be_u8_slice_to_i32(bytes: &[u8]) -> (res: i32)
    requires
        bytes@.len() <= 4,
    ensures
        res == signed_be_value(bytes@),
        bytes@.len() < 4 ==> res == be_value(bytes@),
{
    let n: usize = bytes.len();
    let mut value: i64 = 0;
    let mut i: usize = 0;
    while i < n
        invariant
            n == bytes@.len(),
            n <= 4,
            i <= n,
            value == be_value(bytes@.take(i as int)),
            i == 0 ==> value == 0,
            i == 1 ==> value < 0x100,
            i == 2 ==> value < 0x1_0000,
            i == 3 ==> value < 0x100_0000,
            i == 4 ==> value < 0x1_0000_0000,
        decreases n - i,
    {
        assert(bytes@.take(i + 1).drop_last() == bytes@.take(i as int));
        assert(bytes@.take(i + 1).last() == bytes@[i as int]);
        value = value * 256 + bytes[i] as i64;
        i += 1;
    }
    assert(bytes@.take(n as int) == bytes@);
    if value >= 0x8000_0000 {
        (value - 0x1_0000_0000) as i32
    } else {
        value as i32
    }
}

/// Two bytes make a number below 2 to the power 16.
pub proof fn lemma_be_value_two(bytes: Seq<u8>)
    requires
        bytes.len() == 2,
    ensures
        be_value(bytes) == bytes[0] * 256 + bytes[1],
        be_value(bytes) < 0x1_0000,
{
    reveal_with_fuel(be_value, 3);
    let one = bytes.drop_last();
    assert(one.drop_last().len() == 0);
    assert(one.last() == bytes[0]);
}

/// Three bytes make a number below 2 to the power 24.
pub proof fn lemma_be_value_three(bytes: Seq<u8>)
    requires
        bytes.len() == 3,
    ensures
        be_value(bytes) == bytes[0] * 65536 + bytes[1] * 256 + bytes[2],
        be_value(bytes) < 0x100_0000,
{
    reveal_with_fuel(be_value, 4);
    let two = bytes.drop_last();
    let one = two.drop_last();
    assert(one.drop_last().len() == 0);
    assert(one.last() == bytes[0]);
    assert(two.last() == bytes[1]);
}

/// The 4-bit halves of `bytes` in order, the high half of each byte first.
pub open spec fn nibbles(bytes: Seq<u8>) -> Seq<u8> {
    Seq::new(
        2 * bytes.len(),
        |i: int|
            if i % 2 == 0 {
                bytes[i / 2] / 16
            } else {
                bytes[i / 2] % 16
            },
    )
}

/// The number denoted by `digits` read as big-endian base-16 digits.
pub open spec fn nibble_value(digits: Seq<u8>) -> nat
    decreases digits.len(),
{
    if digits.len() == 0 {
        0
    } else {
        nibble_value(digits.drop_last()) * 16 + digits.last() as nat
    }
}

/// The 12-bit number made of the three nibbles of group `g`.
pub open spec fn group_value(nib: Seq<u8>, g: int) -> int {
    nib[3 * g] * 256 + nib[3 * g + 1] * 16 + nib[3 * g + 2]
}

/// The least 12-bit number that stands for a character of the dictionary.
/// Smaller numbers are reserved: the first group that holds one ends the name.
pub const FIRST_CHAR_INDEX: u32 = 64;

/// How many groups, from group `g` on, hold character indexes before the
/// first group that is reserved or not complete.
pub open spec fn name_groups_from(nib: Seq<u8>, g: int) -> nat
    decreases nib.len() - 3 * g,
{
    if g >= 0 && 3 * g + 3 <= nib.len() && group_value(nib, g) >= FIRST_CHAR_INDEX {
        1 + name_groups_from(nib, g + 1)
    } else {
        0
    }
}

/// The character indexes of the packed name `bytes`: the values of its
/// groups of three nibbles up to the first group that is reserved.
pub open spec fn name_indexes(bytes: Seq<u8>) -> Seq<u32> {
    let nib = nibbles(bytes);
    Seq::new(name_groups_from(nib, 0), |g: int| group_value(nib, g) as u32)
}

/// The nibbles of the packed name `bytes` that hold the year of retirement:
/// all that follow the character indexes, from the first reserved group on.
pub open spec fn discard_nibbles(bytes: Seq<u8>) -> Seq<u8> {
    nibbles(bytes).skip(3 * (name_indexes(bytes).len() as int))
}

/// The number that the packed name `bytes` holds behind its character
/// indexes: 0 for a code in use, else the distance of the year of retirement
/// from the epoch.
pub open spec fn discard_value(bytes: Seq<u8>) -> nat {
    nibble_value(discard_nibbles(bytes))
}

/// 16 to the power `n`.
pub open spec fn pow16(n: nat) -> nat
    decreases n,
{
    if n == 0 {
        1
    } else {
        16 * pow16((n - 1) as nat)
    }
}

/// The position of a nibble in `bytes`: the index of its byte doubled, plus
/// one for the low half.
pub open spec fn nibble_pos(byte: int, low: bool) -> int {
    2 * byte + if low {
        1int
    } else {
        0int
    }
}

/// A number of `digits.len()` base-16 digits is below 16 to that power.
pub proof fn lemma_nibble_value_bound(digits: Seq<u8>)
    requires
        forall|i: int| 0 <= i < digits.len() ==> digits[i] < 16,
    ensures
        nibble_value(digits) < pow16(digits.len()),
    decreases digits.len(),
{
    if digits.len() > 0 {
        lemma_nibble_value_bound(digits.drop_last());
    }
}

/// A zero in front of a number does not change it.
pub proof fn lemma_nibble_value_leading_zero(digits: Seq<u8>)
    requires
        digits.len() > 0,
        digits[0] == 0,
    ensures
        nibble_value(digits) == nibble_value(digits.skip(1)),
    decreases digits.len(),
{
    let rest = digits.skip(1);
    if digits.len() == 1 {
        assert(nibble_value(digits.drop_last()) == 0);
        assert(digits.last() == 0);
        assert(nibble_value(rest) == 0);
    } else {
        lemma_nibble_value_leading_zero(digits.drop_last());
        assert(digits.drop_last().skip(1) =~= rest.drop_last());
        assert(rest.last() == digits.last());
        assert(nibble_value(rest) == nibble_value(rest.drop_last()) * 16 + rest.last());
    }
}

/// The group behind the character indexes is reserved or not complete.
pub proof fn lemma_name_groups_end(nib: Seq<u8>, g: int)
    requires
        g >= 0,
    ensures
        name_groups_from(nib, g + name_groups_from(nib, g)) == 0,
        name_groups_from(nib, g) == 0 || 3 * (g + name_groups_from(nib, g)) <= nib.len(),
    decreases nib.len() - 3 * g,
{
    if 3 * g + 3 <= nib.len() && group_value(nib, g) >= FIRST_CHAR_INDEX {
        lemma_name_groups_end(nib, g + 1);
    }
}

/// A year of at most eight nibbles is below 2 to the power 28: where it has
/// three nibbles or more, these start with a reserved group, whose first
/// nibble is 0.
pub proof fn lemma_discard_value_bound(bytes: Seq<u8>)
    requires
        discard_nibbles(bytes).len() <= 8,
    ensures
        discard_value(bytes) < 0x1000_0000,
{
    let nib = nibbles(bytes);
    let count = name_indexes(bytes).len() as int;
    let tail = discard_nibbles(bytes);
    reveal_with_fuel(pow16, 9);
    lemma_name_groups_end(nib, 0);
    assert(0 <= 3 * count <= nib.len());
    assert forall|i: int| 0 <= i < tail.len() implies tail[i] < 16 by {
        assert(tail[i] == nib[3 * count + i]);
    }
    if tail.len() == 8 {
        assert(group_value(nib, count) < FIRST_CHAR_INDEX);
        assert(tail[0] == nib[3 * count]);
        assert(tail[0] == 0);
        lemma_nibble_value_leading_zero(tail);
        let rest = tail.skip(1);
        assert forall|i: int| 0 <= i < rest.len() implies rest[i] < 16 by {
            assert(rest[i] == tail[i + 1]);
        }
        lemma_nibble_value_bound(rest);
    } else {
        lemma_nibble_value_bound(tail);
    }
}

/// Reads the character indexes of a packed name: the groups of three
/// nibbles up to the first one that is reserved.
pub fn read_name_indexes(bytes: &[u8]) -> (names: Vec<u32>)
    ensures
        names@ == name_indexes(bytes@),
        3 * names@.len() <= 2 * bytes@.len(),
{
    let n: usize = bytes.len();
    let ghost nib = nibbles(bytes@);
    let mut names: Vec<u32> = Vec::new();
    let mut k: usize = 0;
    let mut low: bool = false;
    let mut open: bool = true;
    while open && n - k >= 2
        invariant
            n == bytes@.len(),
            nib == nibbles(bytes@),
            k <= n,
            low ==> k < n,
            nibble_pos(k as int, low) == 3 * names@.len(),
            name_groups_from(nib, 0) == names@.len() + name_groups_from(nib, names@.len() as int),
            forall|g: int| 0 <= g < names@.len() ==> names@[g] == group_value(nib, g) as u32,
            !open ==> name_groups_from(nib, names@.len() as int) == 0,
        decreases n - k + if open { 1int } else { 0int },
    {
        let first: u8 = bytes[k];
        let second: u8 = bytes[k + 1];
        let value: u32 = if low {
            (first & 15) as u32 * 256 + second as u32
        } else {
            first as u32 * 16 + (second >> 4) as u32
        };
        proof {
            assert(first & 15 == first % 16) by (bit_vector);
            assert(second >> 4 == second / 16) by (bit_vector);
            let p = 3 * (names@.len() as int);
            if low {
                assert(nib[p] == first % 16);
                assert(nib[p + 1] == second / 16);
                assert(nib[p + 2] == second % 16);
            } else {
                assert(nib[p] == first / 16);
                assert(nib[p + 1] == first % 16);
                assert(nib[p + 2] == second / 16);
            }
            assert(value == group_value(nib, names@.len() as int));
        }
        if value < FIRST_CHAR_INDEX {
            open = false;
        } else {
            names.push(value);
            if low {
                k = k + 2;
                low = false;
            } else {
                k = k + 1;
                low = true;
            }
        }
    }
    assert(names@ =~= name_indexes(bytes@));
    names
}

/// Reads the nibbles of `bytes` from the given place to the end as one
/// big-endian number.
pub fn read_nibble_tail(bytes: &[u8], byte: usize, low: bool) -> (value: u32)
    requires
        byte <= bytes@.len(),
        low ==> byte < bytes@.len(),
        2 * bytes@.len() - nibble_pos(byte as int, low) <= 8,
    ensures
        value == nibble_value(nibbles(bytes@).skip(nibble_pos(byte as int, low))),
{
    let n: usize = bytes.len();
    let ghost nib = nibbles(bytes@);
    let ghost start = nibble_pos(byte as int, low);
    let ghost tail = nib.skip(start);
    let mut value: u32 = 0;
    let mut k: usize = byte;
    if low {
        let first: u8 = bytes[k];
        value = (first & 15) as u32;
        k = k + 1;
        proof {
            assert(first & 15 == first % 16) by (bit_vector);
            assert(tail.take(1).drop_last() =~= Seq::<u8>::empty());
            assert(nibble_value(tail.take(1).drop_last()) == 0);
            assert(tail.take(1).last() == nib[start]);
        }
    } else {
        assert(tail.take(0) =~= Seq::<u8>::empty());
    }
    proof {
        reveal_with_fuel(pow16, 9);
    }
    while k < n
        invariant
            n == bytes@.len(),
            nib == nibbles(bytes@),
            tail == nib.skip(start),
            0 <= start <= 2 * k <= 2 * n,
            2 * n - start <= 8,
            value == nibble_value(tail.take(2 * k - start)),
            value < pow16((2 * k - start) as nat),
        decreases n - k,
    {
        let b: u8 = bytes[k];
        proof {
            reveal_with_fuel(pow16, 9);
            let c = 2 * k - start;
            let two = tail.take(c + 2);
            let one = tail.take(c + 1);
            assert(two.drop_last() =~= one);
            assert(one.drop_last() =~= tail.take(c));
            assert(one.last() == b / 16);
            assert(two.last() == b % 16);
            assert(nibble_value(one) == value * 16 + b / 16);
            assert(nibble_value(two) == nibble_value(one) * 16 + b % 16);
        }
        value = value * 256 + b as u32;
        k = k + 1;
    }
    assert(tail.take(2 * n - start) =~= tail);
    value
}

/// Splits a packed name into its character indexes and the number that
/// follows them.
///
/// The number has to fit in 32 bits: at most eight nibbles may follow the
/// groups of the character indexes.
pub fn decode_u8_list(u8_list: &Vec<u8>) -> (res: (Vec<u32>, u32))
    requires
        discard_nibbles(u8_list@).len() <= 8,
    ensures
        res.0@ == name_indexes(u8_list@),
        res.1 == discard_value(u8_list@),
{
    let names: Vec<u32> = read_name_indexes(u8_list.as_slice());
    let count: usize = names.len();
    assert(count + count / 2 <= u8_list.len());
    let value: u32 = read_nibble_tail(u8_list.as_slice(), count + count / 2, count % 2 == 1);
    (names, value)
}

} // verus!
