//! Where the records of a province lie in a catalog, and why the block of
//! records that the province index leads to holds exactly the records of
//! that province.

use vstd::prelude::*;
use crate::agreement::{
    catalog_records, lemma_well_ordered_drop_last, province_records, well_ordered,
};
use crate::header::{header_index_offset, HEADER_LEN};
use crate::record::{packed_field, record_at, records_from, RawRecord, RECORD_HEADER_LEN};
use crate::region::{block_window, catalog_parts, WINDOW_LEN};

verus! {

/// Whether `records` lie back to back in `bytes` from `pos` on: each is a
/// whole record with a code other than 0.
pub open spec fn tiles(bytes: Seq<u8>, pos: int, records: Seq<RawRecord>) -> bool
    decreases records.len(),
{
    if records.len() == 0 {
        true
    } else {
        &&& 0 <= pos
        &&& pos + RECORD_HEADER_LEN <= bytes.len()
        &&& bytes[pos] >= RECORD_HEADER_LEN
        &&& pos + bytes[pos] <= bytes.len()
        &&& records[0] == record_at(bytes, pos)
        &&& records[0].code != 0
        &&& tiles(bytes, pos + bytes[pos], records.skip(1))
    }
}

/// The place behind the first `count` records that lie in `bytes` from `pos`
/// on.
pub open spec fn end_pos(bytes: Seq<u8>, pos: int, count: nat) -> int
    decreases count,
{
    if count == 0 {
        pos
    } else {
        end_pos(bytes, pos + bytes[pos], (count - 1) as nat)
    }
}

/// Records that are read up to the end of the bytes lie back to back and
/// fill the bytes.
pub proof fn lemma_read_tiles(bytes: Seq<u8>, pos: int, records: Seq<RawRecord>)
    requires
        0 <= pos <= bytes.len(),
        records_from(bytes, pos, None) == Some(records),
    ensures
        tiles(bytes, pos, records),
        end_pos(bytes, pos, records.len()) == bytes.len(),
    decreases bytes.len() - pos,
{
    if pos < bytes.len() {
        let size = bytes[pos] as int;
        let rest = records_from(bytes, pos + size, None)->Some_0;
        assert(records =~= seq![record_at(bytes, pos)] + rest);
        assert(records.skip(1) =~= rest);
        lemma_read_tiles(bytes, pos + size, rest);
    }
}

/// The places of records that lie back to back ascend and stay inside the
/// bytes; the records from any of these places on lie back to back, and so
/// do the records between two of them.
pub proof fn lemma_tiles_parts(bytes: Seq<u8>, pos: int, records: Seq<RawRecord>, from: int, to: int)
    requires
        0 <= pos <= bytes.len(),
        tiles(bytes, pos, records),
        0 <= from <= to <= records.len(),
    ensures
        pos <= end_pos(bytes, pos, from as nat) <= end_pos(bytes, pos, to as nat) <= bytes.len(),
        tiles(bytes, end_pos(bytes, pos, from as nat), records.subrange(from, to)),
        end_pos(bytes, end_pos(bytes, pos, from as nat), (to - from) as nat) == end_pos(
            bytes,
            pos,
            to as nat,
        ),
        to < records.len() ==> records[to] == record_at(bytes, end_pos(bytes, pos, to as nat))
            && end_pos(bytes, pos, to as nat) + RECORD_HEADER_LEN <= bytes.len(),
    decreases to,
{
    if to == 0 {
        assert(records.subrange(0, 0) =~= Seq::<RawRecord>::empty());
    } else {
        let step = pos + bytes[pos];
        let rest = records.skip(1);
        if from == 0 {
            lemma_tiles_parts(bytes, step, rest, 0, to - 1);
            assert(records.subrange(0, to).skip(1) =~= rest.subrange(0, to - 1));
            assert(records.subrange(0, to)[0] == records[0]);
            if to < records.len() {
                assert(rest[to - 1] == records[to]);
            }
        } else {
            lemma_tiles_parts(bytes, step, rest, from - 1, to - 1);
            assert(records.subrange(from, to) =~= rest.subrange(from - 1, to - 1));
            if to < records.len() {
                assert(rest[to - 1] == records[to]);
            }
        }
    }
}

/// Whether `first` from `at` on and `second` from `to` on hold the same
/// `len` bytes.
pub open spec fn same_bytes(first: Seq<u8>, at: int, second: Seq<u8>, to: int, len: int) -> bool {
    &&& 0 <= at && 0 <= to && 0 <= len
    &&& at + len <= first.len()
    &&& to + len <= second.len()
    &&& first.subrange(at, at + len) == second.subrange(to, to + len)
}

/// Bytes that are the same hold the same byte at each place, and the same
/// bytes in each part.
pub proof fn lemma_same_bytes(
    first: Seq<u8>,
    at: int,
    second: Seq<u8>,
    to: int,
    len: int,
    from: int,
    upto: int,
)
    requires
        same_bytes(first, at, second, to, len),
        0 <= from <= upto <= len,
    ensures
        first.subrange(at + from, at + upto) == second.subrange(to + from, to + upto),
        same_bytes(first, at + from, second, to + from, upto - from),
        from < len ==> first[at + from] == second[to + from],
{
    let a = first.subrange(at, at + len);
    let b = second.subrange(to, to + len);
    assert(first.subrange(at + from, at + upto) =~= a.subrange(from, upto));
    assert(second.subrange(to + from, to + upto) =~= b.subrange(from, upto));
    if from < len {
        assert(a[from] == first[at + from]);
        assert(b[from] == second[to + from]);
    }
}

/// Records that lie back to back in some bytes lie back to back wherever
/// the same bytes stand.
#[verifier::rlimit(40)]
pub proof fn lemma_tiles_moved(
    first: Seq<u8>,
    at: int,
    second: Seq<u8>,
    to: int,
    records: Seq<RawRecord>,
)
    requires
        0 <= at <= first.len(),
        tiles(first, at, records),
        same_bytes(first, at, second, to, end_pos(first, at, records.len()) - at),
    ensures
        tiles(second, to, records),
        end_pos(second, to, records.len()) - to == end_pos(first, at, records.len()) - at,
    decreases records.len(),
{
    if records.len() > 0 {
        let len = end_pos(first, at, records.len()) - at;
        let size = first[at] as int;
        let rest = records.skip(1);
        lemma_tiles_parts(first, at, records, 0, records.len() as int);
        lemma_tiles_parts(first, at, records, 1, records.len() as int);
        assert(end_pos(first, at, 1) == at + size) by {
            reveal_with_fuel(end_pos, 2);
        }
        assert(size <= len);
        lemma_same_bytes(first, at, second, to, len, 0, size);
        lemma_same_bytes(first, at, second, to, len, 1, 4);
        lemma_same_bytes(first, at, second, to, len, 4, size);
        lemma_same_bytes(first, at, second, to, len, size, len);
        assert(record_at(second, to) == record_at(first, at));
        assert(end_pos(first, at + size, rest.len()) == end_pos(first, at, records.len()));
        lemma_tiles_moved(first, at + size, second, to + size, rest);
    }
}

/// Records of one province that lie back to back are what is read of that
/// province from their place on, where the bytes end behind them or the
/// next four bytes do not start a record of the province.
pub proof fn lemma_tiles_read(bytes: Seq<u8>, pos: int, records: Seq<RawRecord>, province: nat)
    requires
        0 <= pos <= bytes.len(),
        tiles(bytes, pos, records),
        forall|j: int| 0 <= j < records.len() ==> (#[trigger] records[j]).code / 10000 == province,
        ({
            let end = end_pos(bytes, pos, records.len());
            end == bytes.len() || (end + RECORD_HEADER_LEN <= bytes.len() && record_at(
                bytes,
                end,
            ).code / 10000 != province)
        }),
    ensures
        records_from(bytes, pos, Some(province)) == Some(records),
    decreases records.len(),
{
    if records.len() == 0 {
        assert(records =~= Seq::<RawRecord>::empty());
    } else {
        let size = bytes[pos] as int;
        let rest = records.skip(1);
        assert(records[0].code / 10000 == province);
        assert forall|j: int| 0 <= j < rest.len() implies (#[trigger] rest[j]).code / 10000
            == province by {
            assert(rest[j] == records[j + 1]);
        }
        lemma_tiles_read(bytes, pos + size, rest, province);
        assert(records =~= seq![records[0]] + rest);
    }
}

/// How many of `records` have a code below `bound`.
pub open spec fn count_below(records: Seq<RawRecord>, bound: nat) -> nat
    decreases records.len(),
{
    if records.len() == 0 {
        0
    } else if records.last().code < bound {
        count_below(records.drop_last(), bound) + 1
    } else {
        count_below(records.drop_last(), bound)
    }
}

/// Among records in ascending order, those with a code below a bound come
/// first.
pub proof fn lemma_count_below(records: Seq<RawRecord>, bound: nat)
    requires
        well_ordered(records),
    ensures
        count_below(records, bound) <= records.len(),
        forall|j: int|
            0 <= j < records.len() ==> ((#[trigger] records[j]).code < bound <==> j < count_below(
                records,
                bound,
            )),
    decreases records.len(),
{
    if records.len() > 0 {
        let before = records.drop_last();
        let n = records.len() - 1;
        lemma_well_ordered_drop_last(records);
        lemma_count_below(before, bound);
        assert forall|j: int| 0 <= j < records.len() implies ((#[trigger] records[j]).code < bound
            <==> j < count_below(records, bound)) by {
            if j < n {
                assert(before[j] == records[j]);
                assert(records[j].code < records[n].code);
            }
            if n > 0 {
                assert(before[n - 1] == records[n - 1]);
                assert(records[n - 1].code < records[n].code);
            }
        }
    }
}

/// How many of `records` come before those of `province`.
pub open spec fn province_first(records: Seq<RawRecord>, province: nat) -> nat {
    count_below(records, province * 10000)
}

/// How many of `records` come before those of the provinces after
/// `province`.
pub open spec fn province_last(records: Seq<RawRecord>, province: nat) -> nat {
    count_below(records, (province + 1) * 10000)
}

/// Among records in ascending order, those of one province lie together.
#[verifier::rlimit(40)]
pub proof fn lemma_province_block(records: Seq<RawRecord>, province: nat)
    requires
        well_ordered(records),
    ensures
        province_first(records, province) <= province_last(records, province) <= records.len(),
        province_records(records, province) == records.subrange(
            province_first(records, province) as int,
            province_last(records, province) as int,
        ),
    decreases records.len(),
{
    let low = province * 10000;
    let high = (province + 1) * 10000;
    lemma_count_below(records, low);
    lemma_count_below(records, high);
    if records.len() == 0 {
        assert(records.subrange(0, 0) =~= Seq::<RawRecord>::empty());
    } else {
        let before = records.drop_last();
        let last = records.last();
        let n = records.len() - 1;
        lemma_well_ordered_drop_last(records);
        lemma_province_block(before, province);
        lemma_count_below(before, low);
        lemma_count_below(before, high);
        let first = province_first(before, province) as int;
        let end = province_last(before, province) as int;
        assert(last.code / 10000 == province <==> low <= last.code < high);
        if n > 0 {
            assert(before[n - 1] == records[n - 1]);
            assert(records[n - 1].code < records[n].code);
        }
        if last.code < low {
            assert(first == n && end == n);
            assert(records.subrange(n + 1, n + 1) =~= before.subrange(n, n));
        } else if last.code < high {
            assert(end == n);
            assert(records.subrange(first, n + 1) =~= before.subrange(first, n).push(last));
        } else {
            assert(records.subrange(first, end) =~= before.subrange(first, end));
        }
    }
}

/// The place in the catalog `data` where the records of `province` start.
pub open spec fn province_start(data: Seq<u8>, records: Seq<RawRecord>, province: nat) -> int {
    end_pos(data, HEADER_LEN as int, province_first(records, province))
}

/// The place in the catalog `data` where the records of `province` end.
pub open spec fn province_end(data: Seq<u8>, records: Seq<RawRecord>, province: nat) -> int {
    end_pos(data, HEADER_LEN as int, province_last(records, province))
}

/// Whether the records of `province` can be read from `start` on: they
/// start there; they and the four bytes behind them lie in the window; and
/// where they are the last records of the catalog, the bytes behind them,
/// with which the province index starts, do not look like one more record
/// of the province.
pub open spec fn leads_to_province(data: Seq<u8>, records: Seq<RawRecord>, province: nat, start: int)
    -> bool {
    &&& start == province_start(data, records, province)
    &&& province_end(data, records, province) + RECORD_HEADER_LEN <= start + WINDOW_LEN
    &&& province_end(data, records, province) == header_index_offset(data) ==> packed_field(
        data,
        province_end(data, records, province),
    ) / 16 / 10000 != province
}

/// The records of a catalog lie back to back behind its header, up to the
/// province index.
pub proof fn lemma_catalog_tiles(data: Seq<u8>)
    requires
        catalog_parts(data) is Some,
        catalog_records(data) is Some,
    ensures
        tiles(data, HEADER_LEN as int, catalog_records(data)->Some_0),
        end_pos(data, HEADER_LEN as int, catalog_records(data)->Some_0.len())
            == header_index_offset(data),
{
    let region = catalog_parts(data)->Some_0.records;
    let records = catalog_records(data)->Some_0;
    lemma_read_tiles(region, 0, records);
    assert(region.subrange(0, region.len() as int) =~= region);
    lemma_tiles_moved(region, 0, data, HEADER_LEN as int, records);
}

/// The block of records that starts where the records of a province start
/// holds exactly the records of that province.
#[verifier::rlimit(40)]
pub proof fn lemma_block_of_province(data: Seq<u8>, province: nat, start: int)
    requires
        catalog_parts(data) is Some,
        catalog_records(data) is Some,
        well_ordered(catalog_records(data)->Some_0),
        leads_to_province(data, catalog_records(data)->Some_0, province, start),
    ensures
        0 <= start,
        records_from(block_window(data, start as nat), 0, Some(province)) == Some(
            province_records(catalog_records(data)->Some_0, province),
        ),
{
    let records = catalog_records(data)->Some_0;
    let first = province_first(records, province) as int;
    let last = province_last(records, province) as int;
    let block = province_records(records, province);
    let end = province_end(data, records, province);
    let index = header_index_offset(data) as int;
    lemma_catalog_tiles(data);
    lemma_province_block(records, province);
    lemma_count_below(records, province * 10000);
    lemma_count_below(records, (province + 1) * 10000);
    lemma_tiles_parts(data, HEADER_LEN as int, records, first, last);
    lemma_tiles_parts(data, HEADER_LEN as int, records, last, records.len() as int);
    assert(end <= index);
    let window = block_window(data, start as nat);
    let len = end - start;
    assert(end + RECORD_HEADER_LEN <= data.len());
    assert(window.len() >= len + RECORD_HEADER_LEN);
    assert(data.subrange(start, start + len) =~= window.subrange(0, len));
    lemma_tiles_moved(data, start, window, 0, block);
    assert forall|j: int| 0 <= j < block.len() implies (#[trigger] block[j]).code / 10000
        == province by {
        assert(block[j] == records[first + j]);
    }
    assert(window.subrange(len + 1, len + 4) =~= data.subrange(end + 1, end + 4));
    if last < records.len() {
        assert(records[last] == record_at(data, end));
        assert(records[last].code >= (province + 1) * 10000);
    } else {
        assert(end == index);
    }
    assert(record_at(window, len).code / 10000 != province);
    lemma_tiles_read(window, 0, block, province);
}

} // verus!
