//! The records of a catalog, and the search among the records of one
//! province.

use vstd::prelude::*;
use crate::code::{code_segments, is_region_code, parse_region_code, parsed_code, RegionCode};
use crate::dictionary::CharacterDictionary;
use crate::name::{decode_name, decoded_name, join_names, level_names};
use crate::text::{decimal, decimal_string};
use crate::{
    be_u8_slice_to_i32, be_value, joined, lemma_be_value_three, outcome_view, texts, RegionError,
    RegionItem, RegionItemView,
};

verus! {

/// One record of a catalog before its name is decoded.
pub struct RawRecord {
    /// The region code as a number.
    pub code: nat,
    /// The administrative level, which selects the label after the name.
    pub level: nat,
    /// The packed name: character indexes, then the year of retirement.
    pub data: Seq<u8>,
}

/// The least length of a record: one byte of length and three bytes that
/// pack the code with the level.
pub const RECORD_HEADER_LEN: usize = 4;

/// The three bytes after the length of the record at `pos`, as one number.
pub open spec fn packed_field(bytes: Seq<u8>, pos: int) -> nat {
    be_value(bytes.subrange(pos + 1, pos + 4))
}

/// The record that starts at `pos`. The code is the packed field without its
/// last four bits; the level is what remains of the packed field when it is
/// divided by the code.
pub open spec fn record_at(bytes: Seq<u8>, pos: int) -> RawRecord {
    let packed = packed_field(bytes, pos);
    let code = packed / 16;
    RawRecord {
        code,
        level: packed % code,
        data: bytes.subrange(pos + 4, pos + bytes[pos]),
    }
}

/// The records that lie back to back in `bytes` from `pos` on. With a
/// province given, the records end before the first one of another
/// province; else they end with the bytes. `None` where a record is cut
/// short by the end of the bytes, is shorter than its header, or has the
/// code 0.
pub open spec fn records_from(bytes: Seq<u8>, pos: int, province: Option<nat>) -> Option<
    Seq<RawRecord>,
>
    decreases bytes.len() - pos,
{
    if pos < 0 || pos >= bytes.len() {
        Some(Seq::empty())
    } else if pos + RECORD_HEADER_LEN > bytes.len() {
        None
    } else {
        let size = bytes[pos] as int;
        let record = record_at(bytes, pos);
        if province is Some && record.code / 10000 != province->Some_0 {
            Some(Seq::empty())
        } else if size < RECORD_HEADER_LEN || pos + size > bytes.len() || record.code == 0 {
            None
        } else {
            match records_from(bytes, pos + size, province) {
                Some(rest) => Some(seq![record] + rest),
                None => None,
            }
        }
    }
}

/// `first` followed by what `rest` holds, or `None` where `rest` is `None`.
pub open spec fn prepend<A>(first: Seq<A>, rest: Option<Seq<A>>) -> Option<Seq<A>> {
    match rest {
        Some(r) => Some(first + r),
        None => None,
    }
}

/// What is read from the place of a whole record on is that record and what
/// is read behind it; so what was read before it, with the record added,
/// goes before what is read behind it.
pub proof fn lemma_records_step(
    bytes: Seq<u8>,
    pos: int,
    province: Option<nat>,
    seen: Seq<RawRecord>,
)
    requires
        0 <= pos,
        pos + RECORD_HEADER_LEN <= bytes.len(),
        RECORD_HEADER_LEN <= bytes[pos],
        pos + bytes[pos] <= bytes.len(),
        record_at(bytes, pos).code != 0,
        province matches Some(p) ==> record_at(bytes, pos).code / 10000 == p,
    ensures
        records_from(bytes, pos, province) == prepend(
            seq![record_at(bytes, pos)],
            records_from(bytes, pos + bytes[pos], province),
        ),
        prepend(seen, records_from(bytes, pos, province)) == prepend(
            seen.push(record_at(bytes, pos)),
            records_from(bytes, pos + bytes[pos], province),
        ),
        seen.push(record_at(bytes, pos)).drop_last() == seen,
{
    let record = record_at(bytes, pos);
    let rest = records_from(bytes, pos + bytes[pos], province);
    if rest is Some {
        assert(seen + (seq![record] + rest->Some_0) =~= seen.push(record) + rest->Some_0);
    }
    assert(seen.push(record).drop_last() =~= seen);
}

/// Whether `code` is the query itself, its city or its province.
pub open spec fn is_target(code: nat, query: RegionCode) -> bool {
    code == query.province_number() || code == query.city_number() || code == query.number()
}

/// The levels that `records` hold for `query`, in the order of the records:
/// for each record whose code is the query, its city or its province, the
/// decoded name, and the year of retirement where the code is the query
/// itself (0 for the levels above it). `None` where one of these names
/// cannot be decoded.
pub open spec fn matched_levels(records: Seq<RawRecord>, query: RegionCode, dict: Seq<char>)
    -> Option<Seq<(Seq<char>, u32)>>
    decreases records.len(),
{
    if records.len() == 0 {
        Some(Seq::empty())
    } else {
        let before = matched_levels(records.drop_last(), query, dict);
        let record = records.last();
        if !is_target(record.code, query) {
            before
        } else {
            match (before, decoded_name(record.data, record.level as int, dict)) {
                (Some(levels), Some((name, year))) => Some(
                    levels.push(
                        (
                            name,
                            if record.code == query.number() {
                                year
                            } else {
                                0u32
                            },
                        ),
                    ),
                ),
                _ => None,
            }
        }
    }
}

/// The last year of retirement among `levels` that is not 0, or 0.
pub open spec fn last_year(levels: Seq<(Seq<char>, u32)>) -> u32
    decreases levels.len(),
{
    if levels.len() == 0 {
        0
    } else if levels.last().1 > 0 {
        levels.last().1
    } else {
        last_year(levels.drop_last())
    }
}

/// The answer that the block of records `window` gives for `code`: the
/// records of the province of `code` from the start of the window are read,
/// and those of the code itself, of its city and of its province make up the
/// answer in their order. The year is that of the record of the code itself.
pub open spec fn block_search(window: Seq<u8>, code: Seq<char>, dict: Seq<char>) -> Result<
    RegionItemView,
    RegionError,
> {
    match parsed_code(code) {
        Err(e) => Err(e),
        Ok(query) => match records_from(window, 0, Some(query.province as nat)) {
            None => Err(RegionError::DecodeFailure),
            Some(records) => match matched_levels(records, query, dict) {
                None => Err(RegionError::DecodeFailure),
                Some(levels) => if levels.len() == 0 {
                    Err(RegionError::NotFound)
                } else {
                    Ok(
                        RegionItemView {
                            region_code: code,
                            name: joined(level_names(levels)),
                            region_slice: level_names(levels),
                            discard_year: last_year(levels),
                        },
                    )
                },
            },
        },
    }
}

/// Once a name has failed to decode, more records do not mend it.
pub proof fn lemma_matched_levels_fail(
    first: Seq<RawRecord>,
    rest: Seq<RawRecord>,
    query: RegionCode,
    dict: Seq<char>,
)
    requires
        matched_levels(first, query, dict) is None,
    ensures
        matched_levels(first + rest, query, dict) is None,
    decreases rest.len(),
{
    if rest.len() == 0 {
        assert(first + rest =~= first);
    } else {
        assert((first + rest).drop_last() =~= first + rest.drop_last());
        lemma_matched_levels_fail(first, rest.drop_last(), query, dict);
    }
}

/// The header of a record: its length in bytes, the code of its unit and
/// the administrative level of the unit.
#[derive(Debug, Clone, Copy, PartialEq, Eq, Structural)]
pub struct RecordHeader {
    /// The length of the record, header and packed name together.
    pub size: usize,
    /// The code of the unit as a number.
    pub code: u32,
    /// The administrative level of the unit; 0 where the code is 0.
    pub level: u32,
}

/// Reads the header of the record at `pos`. The three bytes behind the
/// length pack the code with the level: the code is the packed number
/// without its last four bits, and the level is what remains of the packed
/// number when it is divided by the code.
pub fn read_record_header(bytes: &[u8], pos: usize) -> (header: RecordHeader)
    requires
        pos + RECORD_HEADER_LEN <= bytes@.len(),
    ensures
        header.size == bytes@[pos as int],
        header.code == record_at(bytes@, pos as int).code,
        header.code != 0 ==> header.level == record_at(bytes@, pos as int).level,
        header.code == 0 ==> header.level == 0,
{
    let size: usize = bytes[pos] as usize;
    let field: &[u8] = &bytes[pos + 1..pos + 4];
    let packed: u32 = be_u8_slice_to_i32(field) as u32;
    proof {
        lemma_be_value_three(field@);
        assert(packed >> 4 == packed / 16) by (bit_vector);
    }
    let code: u32 = packed >> 4;
    let level: u32 = if code == 0 {
        0
    } else {
        packed % code
    };
    RecordHeader { size, code, level }
}

/// Looks `region_code` up in the block of records `window`, which starts
/// with the first record of the province of the code.
///
/// The records of the province are read one after another. The names of the
/// province, of the city and of the unit itself, as far as the block holds
/// them, make up the answer in the order of the records; only the names of
/// these records are decoded.
#[verifier::rlimit(40)]
pub fn search_block(window: &[u8], region_code: &str, dict: &CharacterDictionary) -> (r: Result<
    RegionItem,
    RegionError,
>)
    ensures
        outcome_view(r) == block_search(window@, region_code@, dict@),
{
    let query: RegionCode = match parse_region_code(region_code) {
        Ok(q) => q,
        Err(e) => {
            return Err(e);
        },
    };
    let province: u32 = query.province as u32;
    let province_code: u32 = province * 10000;
    let city_code: u32 = province_code + query.city as u32 * 100;
    let full_code: u32 = query.to_number();
    let n: usize = window.len();
    let ghost stop = Some(query.province as nat);
    let ghost mut seen: Seq<RawRecord> = Seq::empty();
    let ghost mut levels: Seq<(Seq<char>, u32)> = Seq::empty();
    let mut names: Vec<String> = Vec::new();
    let mut discard_year: u32 = 0;
    let mut pos: usize = 0;
    let mut open: bool = true;
    assert(Seq::<RawRecord>::empty() + records_from(window@, 0, stop)->Some_0
        =~= records_from(window@, 0, stop)->Some_0);
    assert(texts(names@) =~= level_names(levels));
    while open && pos < n
        invariant
            n == window@.len(),
            pos <= n,
            query.wf(),
            parsed_code(region_code@) == Ok::<RegionCode, RegionError>(query),
            province == query.province,
            province_code == query.province_number(),
            city_code == query.city_number(),
            full_code == query.number(),
            stop == Some(query.province as nat),
            records_from(window@, 0, stop) == prepend(seen, records_from(window@, pos as int, stop)),
            !open ==> records_from(window@, pos as int, stop) == Some(Seq::<RawRecord>::empty()),
            matched_levels(seen, query, dict@) == Some(levels),
            texts(names@) == level_names(levels),
            discard_year == last_year(levels),
        decreases n - pos + if open { 1int } else { 0int },
    {
        if n - pos < RECORD_HEADER_LEN {
            return Err(RegionError::DecodeFailure);
        }
        let header: RecordHeader = read_record_header(window, pos);
        let size: usize = header.size;
        let code: u32 = header.code;
        let ghost record = record_at(window@, pos as int);
        if code / 10000 != province {
            open = false;
        } else {
            if size < RECORD_HEADER_LEN || size > n - pos || code == 0 {
                return Err(RegionError::DecodeFailure);
            }
            let ghost rest = records_from(window@, pos + size, stop);
            proof {
                lemma_records_step(window@, pos as int, stop, seen);
            }
            if code == province_code || code == city_code || code == full_code {
                let data: &[u8] = &window[pos + 4..pos + size];
                match decode_name(data, header.level, dict) {
                    Ok((name, year)) => {
                        let kept: u32 = if code == full_code {
                            year
                        } else {
                            0
                        };
                        if kept > 0 {
                            discard_year = kept;
                        }
                        proof {
                            let grown = levels.push((name@, kept));
                            assert(grown.drop_last() =~= levels);
                            assert(level_names(grown) =~= level_names(levels).push(name@));
                            levels = grown;
                        }
                        names.push(name);
                        assert(texts(names@) =~= level_names(levels));
                    },
                    Err(e) => {
                        proof {
                            if rest is Some {
                                lemma_matched_levels_fail(
                                    seen.push(record),
                                    rest->Some_0,
                                    query,
                                    dict@,
                                );
                            }
                        }
                        return Err(RegionError::DecodeFailure);
                    },
                }
            }
            proof {
                seen = seen.push(record);
            }
            pos = pos + size;
        }
    }
    proof {
        assert(seen + Seq::<RawRecord>::empty() =~= seen);
    }
    if names.len() == 0 {
        return Err(RegionError::NotFound);
    }
    let name: String = join_names(&names);
    Ok(RegionItem { region_code: region_code.to_owned(), name, region_slice: names, discard_year })
}

/// The units that `records` hold, in their order: for each record its code
/// in decimal digits, its decoded name and its year of retirement. `None`
/// where one of the names cannot be decoded.
pub open spec fn decoded_items(records: Seq<RawRecord>, dict: Seq<char>) -> Option<
    Seq<RegionItemView>,
>
    decreases records.len(),
{
    if records.len() == 0 {
        Some(Seq::empty())
    } else {
        let record = records.last();
        match (
            decoded_items(records.drop_last(), dict),
            decoded_name(record.data, record.level as int, dict),
        ) {
            (Some(items), Some((name, year))) => Some(
                items.push(
                    RegionItemView {
                        region_code: decimal(record.code),
                        name,
                        region_slice: Seq::empty(),
                        discard_year: year,
                    },
                ),
            ),
            _ => None,
        }
    }
}

/// The units that the record region `region` of a catalog holds, or `None`
/// where the region is not made of whole records or a name cannot be
/// decoded.
pub open spec fn catalog_items(region: Seq<u8>, dict: Seq<char>) -> Option<Seq<RegionItemView>> {
    match records_from(region, 0, None) {
        Some(records) => decoded_items(records, dict),
        None => None,
    }
}

/// The views of `items`.
pub open spec fn item_views(items: Seq<RegionItem>) -> Seq<RegionItemView> {
    Seq::new(items.len(), |i: int| items[i]@)
}

/// Once a name has failed to decode, more records do not mend it.
pub proof fn lemma_decoded_items_fail(first: Seq<RawRecord>, rest: Seq<RawRecord>, dict: Seq<char>)
    requires
        decoded_items(first, dict) is None,
    ensures
        decoded_items(first + rest, dict) is None,
    decreases rest.len(),
{
    if rest.len() == 0 {
        assert(first + rest =~= first);
    } else {
        assert((first + rest).drop_last() =~= first + rest.drop_last());
        lemma_decoded_items_fail(first, rest.drop_last(), dict);
    }
}

/// One decoded record of a catalog.
#[derive(Debug)]
pub struct RegionRecord {
    /// The code of the unit as a number.
    pub code: u32,
    /// The administrative level of the unit.
    pub admin_level: u32,
    /// The name of the unit, with the label of its level.
    pub name: String,
    /// The year in which the code was retired, or 0 while it is in use.
    pub discard_year: u32,
}

/// What a [`RegionRecord`] holds, as mathematical values.
pub struct RegionRecordView {
    /// The code of the unit as a number.
    pub code: nat,
    /// The administrative level of the unit.
    pub admin_level: nat,
    /// The name of the unit, with the label of its level.
    pub name: Seq<char>,
    /// The year in which the code was retired, or 0.
    pub discard_year: u32,
}

impl View for RegionRecord {
    type V = RegionRecordView;

    open spec fn view(&self) -> RegionRecordView {
        RegionRecordView {
            code: self.code as nat,
            admin_level: self.admin_level as nat,
            name: self.name@,
            discard_year: self.discard_year,
        }
    }
}

/// What the record at `pos` decodes to, with its length: nothing where the
/// bytes end at `pos` or before; a failure where the record is cut short by
/// the end of the bytes, is shorter than its header, has the code 0, or has
/// a name that cannot be decoded.
pub open spec fn decoded_record(bytes: Seq<u8>, pos: int, dict: Seq<char>) -> Result<
    Option<(RegionRecordView, nat)>,
    RegionError,
> {
    let record = record_at(bytes, pos);
    if pos < 0 || pos >= bytes.len() {
        Ok(None)
    } else if pos + RECORD_HEADER_LEN > bytes.len() || bytes[pos] < RECORD_HEADER_LEN || pos
        + bytes[pos] > bytes.len() || record.code == 0 {
        Err(RegionError::DecodeFailure)
    } else {
        match decoded_name(record.data, record.level as int, dict) {
            Some((name, year)) => Ok(
                Some(
                    (
                        RegionRecordView {
                            code: record.code,
                            admin_level: record.level,
                            name,
                            discard_year: year,
                        },
                        bytes[pos] as nat,
                    ),
                ),
            ),
            None => Err(RegionError::DecodeFailure),
        }
    }
}

/// The view of what [`decode_record`] returns.
pub open spec fn record_outcome_view(
    r: Result<Option<(RegionRecord, usize)>, RegionError>,
) -> Result<Option<(RegionRecordView, nat)>, RegionError> {
    match r {
        Ok(Some((record, size))) => Ok(Some((record@, size as nat))),
        Ok(None) => Ok(None),
        Err(e) => Err(e),
    }
}

/// Decodes the record that starts at `pos`, and returns with it the number
/// of bytes that it takes; or nothing, where the bytes end at `pos`.
pub fn decode_record(bytes: &[u8], pos: usize, dict: &CharacterDictionary) -> (r: Result<
    Option<(RegionRecord, usize)>,
    RegionError,
>)
    ensures
        record_outcome_view(r) == decoded_record(bytes@, pos as int, dict@),
{
    let n: usize = bytes.len();
    if pos >= n {
        return Ok(None);
    }
    if n - pos < RECORD_HEADER_LEN {
        return Err(RegionError::DecodeFailure);
    }
    let header: RecordHeader = read_record_header(bytes, pos);
    if header.size < RECORD_HEADER_LEN || header.size > n - pos || header.code == 0 {
        return Err(RegionError::DecodeFailure);
    }
    let data: &[u8] = &bytes[pos + 4..pos + header.size];
    match decode_name(data, header.level, dict) {
        Ok((name, year)) => Ok(
            Some(
                (
                    RegionRecord {
                        code: header.code,
                        admin_level: header.level,
                        name,
                        discard_year: year,
                    },
                    header.size,
                ),
            ),
        ),
        Err(e) => Err(RegionError::DecodeFailure),
    }
}

/// Decodes every record of the record region of a catalog.
///
/// The records lie back to back and fill the region. Each gives one unit:
/// its code in decimal digits, its name with the label of its level, and its
/// year of retirement; the list of levels is left empty.
#[verifier::rlimit(40)]
pub fn decode_records(region: &[u8], dict: &CharacterDictionary) -> (r: Result<
    Vec<RegionItem>,
    RegionError,
>)
    ensures
        match catalog_items(region@, dict@) {
            Some(items) => r matches Ok(list) && item_views(list@) == items,
            None => r matches Err(e) && e == RegionError::DecodeFailure,
        },
{
    let n: usize = region.len();
    let ghost mut seen: Seq<RawRecord> = Seq::empty();
    let mut items: Vec<RegionItem> = Vec::new();
    let mut pos: usize = 0;
    assert(Seq::<RawRecord>::empty() + records_from(region@, 0, None)->Some_0 =~= records_from(
        region@,
        0,
        None,
    )->Some_0);
    assert(item_views(items@) =~= Seq::<RegionItemView>::empty());
    loop
        invariant
            n == region@.len(),
            pos <= n,
            records_from(region@, 0, None) == prepend(seen, records_from(region@, pos as int, None)),
            decoded_items(seen, dict@) == Some(item_views(items@)),
        ensures
            pos >= n,
        decreases n - pos,
    {
        let ghost record = record_at(region@, pos as int);
        let ghost rest = records_from(region@, pos + region@[pos as int], None);
        match decode_record(region, pos, dict) {
            Ok(Some((decoded, size))) => {
                proof {
                    lemma_records_step(region@, pos as int, None, seen);
                }
                let ghost before = item_views(items@);
                let item = RegionItem {
                    region_code: decimal_string(decoded.code),
                    name: decoded.name,
                    region_slice: Vec::new(),
                    discard_year: decoded.discard_year,
                };
                assert(item@.region_slice =~= Seq::<Seq<char>>::empty());
                items.push(item);
                assert(item_views(items@) =~= before.push(item@));
                proof {
                    seen = seen.push(record);
                }
                pos = pos + size;
            },
            Ok(None) => {
                break ;
            },
            Err(e) => {
                proof {
                    if records_from(region@, pos as int, None) is Some {
                        lemma_records_step(region@, pos as int, None, seen);
                        lemma_decoded_items_fail(seen.push(record), rest->Some_0, dict@);
                    }
                }
                return Err(RegionError::DecodeFailure);
            },
        }
    }
    proof {
        assert(seen + Seq::<RawRecord>::empty() =~= seen);
    }
    Ok(items)
}

/// The search finds no level exactly where no record has the code that is
/// looked up, that of its city or that of its province.
pub proof fn lemma_no_level_matched(records: Seq<RawRecord>, query: RegionCode, dict: Seq<char>)
    ensures
        (forall|j: int| 0 <= j < records.len() ==> !is_target((#[trigger] records[j]).code, query))
            <==> matched_levels(records, query, dict) == Some(Seq::<(Seq<char>, u32)>::empty()),
    decreases records.len(),
{
    if records.len() > 0 {
        let before = records.drop_last();
        lemma_no_level_matched(before, query, dict);
        if forall|j: int| 0 <= j < records.len() ==> !is_target((#[trigger] records[j]).code, query) {
            assert forall|j: int| 0 <= j < before.len() implies !is_target(
                (#[trigger] before[j]).code,
                query,
            ) by {
                assert(before[j] == records[j]);
            }
            assert(!is_target(records[records.len() - 1].code, query));
        }
        if matched_levels(records, query, dict) == Some(Seq::<(Seq<char>, u32)>::empty()) {
            if is_target(records.last().code, query) {
                let grown = matched_levels(records, query, dict)->Some_0;
                assert(grown.len() == matched_levels(before, query, dict)->Some_0.len() + 1);
            }
            assert(!is_target(records.last().code, query));
            assert forall|j: int| 0 <= j < records.len() implies !is_target(
                (#[trigger] records[j]).code,
                query,
            ) by {
                if j < records.len() - 1 {
                    assert(before[j] == records[j]);
                }
            }
        }
    }
}

/// A code is not found in a block of records exactly where the records of
/// its province can be read and none of them has the code itself, that of
/// its city or that of its province.
pub proof fn lemma_block_not_found(window: Seq<u8>, code: Seq<char>, dict: Seq<char>)
    requires
        is_region_code(code),
    ensures
        block_search(window, code, dict) == Err::<RegionItemView, RegionError>(
            RegionError::NotFound,
        ) <==> {
            &&& records_from(window, 0, Some(code_segments(code).province as nat)) matches Some(
                records,
            )
            &&& forall|j: int|
                0 <= j < records.len() ==> !is_target(
                    (#[trigger] records[j]).code,
                    code_segments(code),
                )
        },
{
    let query = code_segments(code);
    match records_from(window, 0, Some(query.province as nat)) {
        Some(records) => {
            lemma_no_level_matched(records, query, dict);
            match matched_levels(records, query, dict) {
                Some(levels) => {
                    if levels.len() == 0 {
                        assert(levels =~= Seq::<(Seq<char>, u32)>::empty());
                    }
                },
                None => {},
            }
        },
        None => {},
    }
}

} // verus!
