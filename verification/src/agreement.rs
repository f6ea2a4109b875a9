//! Why the two searches agree: the prefix tree that is built from the
//! records of a catalog holds, along the path of a code, what the search
//! among the records of its province finds.

use vstd::prelude::*;
use crate::code::{code_segments, is_region_code, is_six_digit, lemma_decimal_six, RegionCode};
use crate::index::{block_offset, index_entries};
use crate::layout::{leads_to_province, lemma_block_of_province};
use crate::name::{decoded_name, level_names, DISCARD_EPOCH};
use crate::record::{
    decoded_items, is_target, last_year, matched_levels, records_from, RawRecord,
};
use crate::region::{block_window, catalog_parts, resolve_direct, resolve_trie, trie_of_items};
use crate::text::decimal;
use crate::trie::{
    insert_path, inserted_entry, lemma_matched_len, level_of_node, map_entry, search_path,
    trie_levels,
};
use crate::{discard_value, joined, lemma_discard_value_bound, RegionError, RegionItemView};

verus! {

/// What the node at `path` holds in the prefix tree of `items`: the fold of
/// [`inserted_entry`] over the items.
pub open spec fn folded_entry(items: Seq<RegionItemView>, path: Seq<u8>) -> Option<
    Option<(Seq<char>, u32)>,
>
    decreases items.len(),
{
    if items.len() == 0 {
        None
    } else {
        let item = items.last();
        inserted_entry(
            folded_entry(items.drop_last(), path),
            path,
            insert_path(item.region_code),
            item.name,
            item.discard_year,
        )
    }
}

/// The prefix tree of `items` holds under each path what the fold says.
pub proof fn lemma_folded_entry(items: Seq<RegionItemView>, path: Seq<u8>)
    ensures
        map_entry(trie_of_items(items), path) == folded_entry(items, path),
    decreases items.len(),
{
    if items.len() > 0 {
        lemma_folded_entry(items.drop_last(), path);
    }
}

/// Whether the insertion of `item` passes the node at `path`.
pub open spec fn reaches(item: RegionItemView, path: Seq<u8>) -> bool {
    path.len() > 0 && path.is_prefix_of(insert_path(item.region_code))
}

/// A path that no item reaches is not in the tree.
pub proof fn lemma_folded_none(items: Seq<RegionItemView>, path: Seq<u8>)
    requires
        forall|j: int| 0 <= j < items.len() ==> !reaches(#[trigger] items[j], path),
    ensures
        folded_entry(items, path) is None,
    decreases items.len(),
{
    if items.len() > 0 {
        assert(!reaches(items[items.len() - 1], path));
        assert forall|j: int| 0 <= j < items.drop_last().len() implies !reaches(
            #[trigger] items.drop_last()[j],
            path,
        ) by {
            assert(items.drop_last()[j] == items[j]);
        }
        lemma_folded_none(items.drop_last(), path);
    }
}

/// A path that an item reaches is in the tree.
pub proof fn lemma_folded_some(items: Seq<RegionItemView>, path: Seq<u8>, j: int)
    requires
        0 <= j < items.len(),
        reaches(items[j], path),
    ensures
        folded_entry(items, path) is Some,
    decreases items.len(),
{
    if j < items.len() - 1 {
        assert(items.drop_last()[j] == items[j]);
        lemma_folded_some(items.drop_last(), path, j);
    }
}

/// A path that is the path of no item holds no unit.
pub proof fn lemma_folded_no_unit(items: Seq<RegionItemView>, path: Seq<u8>)
    requires
        forall|k: int| 0 <= k < items.len() ==> insert_path(#[trigger] items[k].region_code) != path,
    ensures
        folded_entry(items, path) is None || folded_entry(items, path) == Some(
            None::<(Seq<char>, u32)>,
        ),
    decreases items.len(),
{
    if items.len() > 0 {
        let before = items.drop_last();
        let own = insert_path(items.last().region_code);
        assert forall|k: int| 0 <= k < before.len() implies insert_path(
            #[trigger] before[k].region_code,
        ) != path by {
            assert(before[k] == items[k]);
        }
        lemma_folded_no_unit(before, path);
        assert(insert_path(items[items.len() - 1].region_code) != path);
        if path.is_prefix_of(own) && path.len() == own.len() {
            assert(path =~= own);
        }
    }
}

/// The path of an item holds that item, where no item before it has the
/// same path: the first unit that comes to a node stays, whether the node
/// was made for it or on the way to a deeper unit.
pub proof fn lemma_folded_first_unit(items: Seq<RegionItemView>, i: int)
    requires
        0 <= i < items.len(),
        insert_path(items[i].region_code).len() > 0,
        forall|k: int|
            0 <= k < i ==> insert_path(#[trigger] items[k].region_code) != insert_path(
                items[i].region_code,
            ),
    ensures
        folded_entry(items, insert_path(items[i].region_code)) == Some(
            Some((items[i].name, items[i].discard_year)),
        ),
    decreases items.len(),
{
    let path = insert_path(items[i].region_code);
    let before = items.drop_last();
    if i == items.len() - 1 {
        assert forall|k: int| 0 <= k < before.len() implies insert_path(
            #[trigger] before[k].region_code,
        ) != path by {
            assert(before[k] == items[k]);
        }
        lemma_folded_no_unit(before, path);
        assert(path.is_prefix_of(path)) by {
            assert(path =~= path.subrange(0, path.len() as int));
        }
    } else {
        assert(before[i] == items[i]);
        assert forall|k: int| 0 <= k < i implies insert_path(#[trigger] before[k].region_code)
            != path by {
            assert(before[k] == items[k]);
        }
        lemma_folded_first_unit(before, i);
    }
}

/// The path of a six-digit number: its segments without the zero segments
/// at the end.
pub open spec fn number_path(code: nat) -> Seq<u8> {
    insert_path(decimal(code))
}

/// The number that the segments of `path` write, with zeros for the
/// segments that it lacks.
pub open spec fn path_number(path: Seq<u8>) -> nat {
    ((if path.len() > 0 {
        path[0] * 10000
    } else {
        0
    }) + (if path.len() > 1 {
        path[1] * 100
    } else {
        0
    }) + (if path.len() > 2 {
        path[2] as int
    } else {
        0
    })) as nat
}

/// The path of a six-digit number writes that number, and is not empty.
pub proof fn lemma_number_path(code: nat)
    requires
        is_six_digit(code),
    ensures
        0 < number_path(code).len() <= 3,
        path_number(number_path(code)) == code,
        number_path(code)[0] == code / 10000,
        number_path(code).len() == 3 <==> code % 100 != 0,
        number_path(code).len() == 1 <==> code % 10000 == 0,
        number_path(code).len() >= 2 ==> number_path(code)[1] == code / 100 % 100,
        number_path(code).len() == 3 ==> number_path(code)[2] == code % 100,
{
    lemma_decimal_six(code);
}

/// Whether `items` are the units of the records with the codes `codes`:
/// six-digit numbers in ascending order, each written in decimal digits.
pub open spec fn items_of_codes(items: Seq<RegionItemView>, codes: Seq<nat>) -> bool {
    &&& items.len() == codes.len()
    &&& forall|j: int| 0 <= j < codes.len() ==> is_six_digit(#[trigger] codes[j])
    &&& forall|j: int|
        0 <= j < codes.len() ==> (#[trigger] items[j]).region_code == decimal(codes[j])
    &&& forall|j: int, k: int| 0 <= j < k < codes.len() ==> codes[j] < codes[k]
}

/// In the tree of units with different six-digit codes, the path of a unit
/// holds the name and the year of that unit.
pub proof fn lemma_folded_own(items: Seq<RegionItemView>, codes: Seq<nat>, i: int)
    requires
        items_of_codes(items, codes),
        0 <= i < items.len(),
    ensures
        folded_entry(items, number_path(codes[i])) == Some(
            Some((items[i].name, items[i].discard_year)),
        ),
{
    lemma_number_path(codes[i]);
    assert forall|k: int| 0 <= k < i implies insert_path(#[trigger] items[k].region_code)
        != insert_path(items[i].region_code) by {
        lemma_number_path(codes[k]);
        assert(codes[k] < codes[i]);
    }
    lemma_folded_first_unit(items, i);
}

/// What the units of records that all decode are made of.
pub proof fn lemma_decoded_items(records: Seq<RawRecord>, dict: Seq<char>)
    requires
        decoded_items(records, dict) is Some,
    ensures
        decoded_items(records, dict)->Some_0.len() == records.len(),
        forall|j: int|
            0 <= j < records.len() ==> {
                let item = #[trigger] decoded_items(records, dict)->Some_0[j];
                &&& decoded_name(records[j].data, records[j].level as int, dict) == Some(
                    (item.name, item.discard_year),
                )
                &&& item.region_code == decimal(records[j].code)
            },
        records.len() > 0 ==> decoded_items(records.drop_last(), dict) == Some(
            decoded_items(records, dict)->Some_0.drop_last(),
        ),
    decreases records.len(),
{
    if records.len() > 0 {
        let items = decoded_items(records, dict)->Some_0;
        let before = decoded_items(records.drop_last(), dict)->Some_0;
        lemma_decoded_items(records.drop_last(), dict);
        assert(items.drop_last() =~= before);
        assert forall|j: int| 0 <= j < records.len() implies {
            let item = #[trigger] items[j];
            &&& decoded_name(records[j].data, records[j].level as int, dict) == Some(
                (item.name, item.discard_year),
            )
            &&& item.region_code == decimal(records[j].code)
        } by {
            if j < records.len() - 1 {
                assert(items[j] == before[j]);
                assert(records.drop_last()[j] == records[j]);
            }
        }
    }
}

/// The place of the record with the code `code` among `records`: that of
/// the last such record, if there is one.
pub open spec fn index_of_code(records: Seq<RawRecord>, code: nat) -> Option<int>
    decreases records.len(),
{
    if records.len() == 0 {
        None
    } else if records.last().code == code {
        Some(records.len() - 1)
    } else {
        index_of_code(records.drop_last(), code)
    }
}

/// [`index_of_code`] finds a record with the code, or there is none.
pub proof fn lemma_index_of_code(records: Seq<RawRecord>, code: nat)
    ensures
        match index_of_code(records, code) {
            Some(i) => 0 <= i < records.len() && records[i].code == code,
            None => forall|j: int| 0 <= j < records.len() ==> (#[trigger] records[j]).code != code,
        },
    decreases records.len(),
{
    if records.len() > 0 && records.last().code != code {
        lemma_index_of_code(records.drop_last(), code);
        if index_of_code(records, code) is None {
            assert forall|j: int| 0 <= j < records.len() implies (#[trigger] records[j]).code
                != code by {
                if j < records.len() - 1 {
                    assert(records.drop_last()[j] == records[j]);
                }
            }
        }
    }
}

/// Whether the codes of `records` have six digits and ascend.
pub open spec fn well_ordered(records: Seq<RawRecord>) -> bool {
    &&& forall|j: int| 0 <= j < records.len() ==> is_six_digit((#[trigger] records[j]).code)
    &&& forall|j: int, k: int|
        0 <= j < k < records.len() ==> (#[trigger] records[j]).code < (#[trigger] records[k]).code
}

/// Records in ascending order stay so without the last of them.
pub proof fn lemma_well_ordered_drop_last(records: Seq<RawRecord>)
    requires
        well_ordered(records),
        records.len() > 0,
    ensures
        well_ordered(records.drop_last()),
{
    let before = records.drop_last();
    assert forall|j: int| 0 <= j < before.len() implies is_six_digit((#[trigger] before[j]).code) by {
        assert(before[j] == records[j]);
    }
    assert forall|j: int, k: int| 0 <= j < k < before.len() implies (#[trigger] before[j]).code
        < (#[trigger] before[k]).code by {
        assert(before[j] == records[j] && before[k] == records[k]);
    }
}

/// The level that `records` hold for `code`: the name of the record with
/// that code, with its year if `exact`; nothing where no record has the
/// code.
pub open spec fn level_of(
    records: Seq<RawRecord>,
    items: Seq<RegionItemView>,
    code: nat,
    exact: bool,
) -> Seq<(Seq<char>, u32)> {
    match index_of_code(records, code) {
        Some(i) => seq![
            (
                items[i].name,
                if exact {
                    items[i].discard_year
                } else {
                    0u32
                },
            ),
        ],
        None => Seq::empty(),
    }
}

/// The levels that records in ascending order hold for `query`: that of the
/// province, that of the city unless the city is the province, and that of
/// the code itself unless it is the city.
pub open spec fn direct_levels(
    records: Seq<RawRecord>,
    items: Seq<RegionItemView>,
    query: RegionCode,
) -> Seq<(Seq<char>, u32)> {
    let province = query.province_number();
    let city = query.city_number();
    let full = query.number();
    level_of(records, items, province, province == full) + (if city != province {
        level_of(records, items, city, city == full)
    } else {
        Seq::empty()
    }) + (if full != city {
        level_of(records, items, full, true)
    } else {
        Seq::empty()
    })
}

/// Among records in ascending order, the search finds the levels of a code
/// in the order province, city, unit.
#[verifier::rlimit(40)]
pub proof fn lemma_matched_levels_sorted(
    records: Seq<RawRecord>,
    query: RegionCode,
    dict: Seq<char>,
)
    requires
        query.wf(),
        well_ordered(records),
        decoded_items(records, dict) is Some,
    ensures
        matched_levels(records, query, dict) == Some(
            direct_levels(records, decoded_items(records, dict)->Some_0, query),
        ),
    decreases records.len(),
{
    let items = decoded_items(records, dict)->Some_0;
    let province = query.province_number();
    let city = query.city_number();
    let full = query.number();
    lemma_decoded_items(records, dict);
    if records.len() == 0 {
        assert(direct_levels(records, items, query) =~= Seq::empty());
    } else {
        let before = records.drop_last();
        let last = records.last();
        let n = records.len() - 1;
        lemma_well_ordered_drop_last(records);
        lemma_matched_levels_sorted(before, query, dict);
        let items_before = items.drop_last();
        // no record before the last has its code or a greater one
        assert forall|c: nat| c >= last.code implies index_of_code(before, c) is None by {
            lemma_index_of_code(before, c);
            if index_of_code(before, c) is Some {
                let i = index_of_code(before, c)->Some_0;
                assert(before[i] == records[i]);
                assert(records[i].code < records[n].code);
            }
        }
        assert forall|c: nat, exact: bool| c != last.code implies #[trigger] level_of(
            records,
            items,
            c,
            exact,
        ) == level_of(before, items_before, c, exact) by {
            lemma_index_of_code(before, c);
            if index_of_code(before, c) is Some {
                let i = index_of_code(before, c)->Some_0;
                assert(items_before[i] == items[i]);
            }
        }
        assert(items[n] == items.last());
        let old_levels = direct_levels(before, items_before, query);
        let new_levels = direct_levels(records, items, query);
        if last.code == province {
            assert(index_of_code(before, city) is None);
            assert(index_of_code(before, full) is None);
            assert(new_levels =~= old_levels.push((items[n].name, if province == full { items[n].discard_year } else { 0u32 })));
        } else if last.code == city {
            assert(index_of_code(before, full) is None);
            assert(new_levels =~= old_levels.push((items[n].name, if city == full { items[n].discard_year } else { 0u32 })));
        } else if last.code == full {
            assert(new_levels =~= old_levels.push((items[n].name, items[n].discard_year)));
        } else {
            assert(new_levels =~= old_levels);
        }
    }
}

/// The records of `records` that belong to `province`, in their order.
pub open spec fn province_records(records: Seq<RawRecord>, province: nat) -> Seq<RawRecord>
    decreases records.len(),
{
    if records.len() == 0 {
        Seq::empty()
    } else if records.last().code / 10000 == province {
        province_records(records.drop_last(), province).push(records.last())
    } else {
        province_records(records.drop_last(), province)
    }
}

/// The search among the records of the province of a code finds what the
/// search among all records would.
pub proof fn lemma_matched_levels_of_province(
    records: Seq<RawRecord>,
    query: RegionCode,
    dict: Seq<char>,
)
    requires
        query.wf(),
    ensures
        matched_levels(province_records(records, query.province as nat), query, dict)
            == matched_levels(records, query, dict),
    decreases records.len(),
{
    if records.len() > 0 {
        lemma_matched_levels_of_province(records.drop_last(), query, dict);
        let own = province_records(records.drop_last(), query.province as nat);
        if records.last().code / 10000 == query.province {
            assert(own.push(records.last()).drop_last() =~= own);
        } else {
            assert(!is_target(records.last().code, query));
        }
    }
}

/// The texts of up to three parts, joined.
pub proof fn lemma_joined_small(parts: Seq<Seq<char>>)
    requires
        parts.len() <= 3,
    ensures
        parts.len() == 0 ==> joined(parts) == Seq::<char>::empty(),
        parts.len() == 1 ==> joined(parts) == parts[0],
        parts.len() == 2 ==> joined(parts) == parts[0] + parts[1],
        parts.len() == 3 ==> joined(parts) == parts[0] + parts[1] + parts[2],
    decreases parts.len(),
{
    if parts.len() > 0 {
        lemma_joined_small(parts.drop_last());
        if parts.len() == 1 {
            assert(Seq::<char>::empty() + parts[0] =~= parts[0]);
        }
    }
}

/// The codes of `records`.
pub open spec fn codes_of(records: Seq<RawRecord>) -> Seq<nat> {
    Seq::new(records.len(), |j: int| records[j].code)
}

/// In the tree of units with different codes, the node of a six-digit
/// number that some unit reaches holds the unit with that number, or no unit
/// where there is none.
pub proof fn lemma_folded_level(
    records: Seq<RawRecord>,
    items: Seq<RegionItemView>,
    number: nat,
    j: int,
)
    requires
        items_of_codes(items, codes_of(records)),
        is_six_digit(number),
        0 <= j < items.len(),
        reaches(items[j], number_path(number)),
    ensures
        folded_entry(items, number_path(number)) == (match index_of_code(records, number) {
            Some(a) => Some(Some((items[a].name, items[a].discard_year))),
            None => Some(None::<(Seq<char>, u32)>),
        }),
{
    let path = number_path(number);
    let codes = codes_of(records);
    lemma_index_of_code(records, number);
    lemma_number_path(number);
    match index_of_code(records, number) {
        Some(a) => {
            assert(codes[a] == number);
            lemma_folded_own(items, codes, a);
        },
        None => {
            assert forall|k: int| 0 <= k < items.len() implies insert_path(
                #[trigger] items[k].region_code,
            ) != path by {
                assert(records[k].code != number);
                assert(codes[k] == records[k].code);
                lemma_number_path(codes[k]);
            }
            lemma_folded_no_unit(items, path);
            lemma_folded_some(items, path, j);
        },
    }
}

/// Whether `records` hold the province and the city of `query`.
pub open spec fn levels_present(records: Seq<RawRecord>, query: RegionCode) -> bool {
    index_of_code(records, query.province_number()) is Some && index_of_code(
        records,
        query.city_number(),
    ) is Some
}

/// The level that the node of the six-digit number `number` gives in the
/// tree of the units of `records`, if some unit reaches it: the name and the
/// year of the unit with that number, or an empty name where there is no
/// such unit.
pub open spec fn level_entry(records: Seq<RawRecord>, items: Seq<RegionItemView>, number: nat) -> (
    Seq<char>,
    u32,
) {
    match index_of_code(records, number) {
        Some(a) => (items[a].name, items[a].discard_year),
        None => (Seq::<char>::empty(), 0u32),
    }
}

/// The path along which a code is looked up is the path under which it is
/// inserted, where its zero segments stand at its end; and the parts of the
/// path are the paths of its province and of its city.
pub proof fn lemma_query_path(query: RegionCode)
    requires
        query.wf(),
        query.city == 0 ==> query.county == 0,
        is_six_digit(query.number()),
    ensures
        query.province >= 10,
        0 < search_path(query).len() <= 3,
        search_path(query) == number_path(query.number()),
        is_six_digit(query.province_number()),
        is_six_digit(query.city_number()),
        search_path(query).len() >= 2 ==> search_path(query).take(1) == number_path(
            query.province_number(),
        ),
        search_path(query).len() == 3 ==> search_path(query).take(2) == number_path(
            query.city_number(),
        ),
        search_path(query).len() == 1 ==> query.province_number() == query.number(),
        search_path(query).len() <= 2 ==> query.city_number() == query.number(),
        search_path(query).len() >= 2 ==> query.province_number() != query.city_number(),
        search_path(query).len() == 3 ==> query.city_number() != query.number(),
{
    let path = search_path(query);
    assert(query.province >= 10);
    lemma_number_path(query.number());
    assert(path =~= number_path(query.number()));
    if path.len() >= 2 {
        lemma_number_path(query.province_number());
        assert(path.take(1) =~= number_path(query.province_number()));
    }
    if path.len() == 3 {
        lemma_number_path(query.city_number());
        assert(path.take(2) =~= number_path(query.city_number()));
    }
}

/// The walk along the path of a unit of the tree passes as many nodes as
/// the path has segments, and finds in each what the fold says.
pub proof fn lemma_walk_to_unit(items: Seq<RegionItemView>, i: int)
    requires
        0 <= i < items.len(),
    ensures
        ({
            let path = insert_path(items[i].region_code);
            let walked = trie_levels(trie_of_items(items), path);
            &&& walked.len() == path.len()
            &&& forall|l: int|
                0 <= l < path.len() ==> folded_entry(items, path.take(l + 1)) == Some(
                    trie_of_items(items)[path.take(l + 1)],
                ) && #[trigger] walked[l] == level_of_node(trie_of_items(items)[path.take(l + 1)])
        }),
{
    let path = insert_path(items[i].region_code);
    let tree = trie_of_items(items);
    assert forall|l: int| 0 <= l < path.len() implies tree.contains_key(
        #[trigger] path.take(l + 1),
    ) && Some(tree[path.take(l + 1)]) == folded_entry(items, path.take(l + 1)) by {
        let part = path.take(l + 1);
        assert(part.is_prefix_of(path)) by {
            assert(part =~= path.subrange(0, part.len() as int));
        }
        assert(reaches(items[i], part));
        lemma_folded_some(items, part, i);
        lemma_folded_entry(items, part);
    }
    lemma_matched_len(tree, path, 0, path.len());
}

/// What the walk down the tree of the units of `records` finds for a code
/// that the records hold: one level for each segment of the code that is
/// not zero, each with what [`level_entry`] says.
#[verifier::rlimit(40)]
pub proof fn lemma_walked_levels(records: Seq<RawRecord>, dict: Seq<char>, query: RegionCode)
    requires
        query.wf(),
        query.city == 0 ==> query.county == 0,
        well_ordered(records),
        decoded_items(records, dict) is Some,
        index_of_code(records, query.number()) is Some,
    ensures
        ({
            let items = decoded_items(records, dict)->Some_0;
            let walked = trie_levels(trie_of_items(items), search_path(query));
            &&& query.province >= 10
            &&& walked.len() == search_path(query).len()
            &&& walked.last() == level_entry(records, items, query.number())
            &&& walked.len() >= 2 ==> walked[0] == level_entry(
                records,
                items,
                query.province_number(),
            )
            &&& walked.len() == 3 ==> walked[1] == level_entry(records, items, query.city_number())
        }),
{
    let items = decoded_items(records, dict)->Some_0;
    let codes = codes_of(records);
    let full = query.number();
    let i = index_of_code(records, full)->Some_0;
    let path = search_path(query);
    lemma_decoded_items(records, dict);
    lemma_index_of_code(records, full);
    assert(items_of_codes(items, codes));
    assert(codes[i] == full);
    lemma_query_path(query);
    assert(insert_path(items[i].region_code) == path);
    lemma_walk_to_unit(items, i);
    let walked = trie_levels(trie_of_items(items), path);
    assert(path.take(path.len() as int) =~= path);
    lemma_folded_own(items, codes, i);
    assert(walked[path.len() - 1] == level_of_node(
        trie_of_items(items)[path.take(path.len() as int)],
    ));
    if path.len() >= 2 {
        assert(path.take(1).is_prefix_of(path)) by {
            assert(path.take(1) =~= path.subrange(0, 1));
        }
        lemma_folded_level(records, items, query.province_number(), i);
        assert(walked[0] == level_of_node(trie_of_items(items)[path.take(1)]));
    }
    if path.len() == 3 {
        assert(path.take(2).is_prefix_of(path)) by {
            assert(path.take(2) =~= path.subrange(0, 2));
        }
        lemma_folded_level(records, items, query.city_number(), i);
        assert(walked[1] == level_of_node(trie_of_items(items)[path.take(2)]));
    }
}

/// The levels that the two searches find for a code that the records hold.
///
/// Let the records have six-digit codes in ascending order and names that
/// all decode, and let the code have its zero segments at the end. Then
/// the search among the records of the province and the walk down the tree
/// of all records both end with the name and the year of the unit with the
/// code, and the names that they find make the same text when joined. Where
/// the records hold the province and the city of the code, the names are the
/// same one by one.
#[verifier::rlimit(40)]
pub proof fn lemma_levels_agree(records: Seq<RawRecord>, dict: Seq<char>, query: RegionCode)
    requires
        query.wf(),
        query.city == 0 ==> query.county == 0,
        well_ordered(records),
        decoded_items(records, dict) is Some,
        index_of_code(records, query.number()) is Some,
    ensures
        ({
            let items = decoded_items(records, dict)->Some_0;
            let unit = items[index_of_code(records, query.number())->Some_0];
            let found = matched_levels(
                province_records(records, query.province as nat),
                query,
                dict,
            );
            let walked = trie_levels(trie_of_items(items), search_path(query));
            &&& found is Some
            &&& 0 < found->Some_0.len() <= walked.len() == search_path(query).len()
            &&& found->Some_0.last().0 == unit.name
            &&& walked.last().0 == unit.name
            &&& last_year(found->Some_0) == unit.discard_year
            &&& walked.last().1 == unit.discard_year
            &&& joined(level_names(found->Some_0)) == joined(level_names(walked))
            &&& levels_present(records, query) ==> level_names(found->Some_0) == level_names(
                walked,
            )
        }),
{
    let items = decoded_items(records, dict)->Some_0;
    let province = query.province_number();
    let city = query.city_number();
    let full = query.number();
    let i = index_of_code(records, full)->Some_0;
    let path = search_path(query);
    let walked = trie_levels(trie_of_items(items), path);
    let unit = (items[i].name, items[i].discard_year);
    lemma_walked_levels(records, dict, query);
    lemma_matched_levels_of_province(records, query, dict);
    lemma_matched_levels_sorted(records, query, dict);
    let found = direct_levels(records, items, query);
    let top = level_of(records, items, province, false);
    let middle = level_of(records, items, city, false);
    let empty = Seq::<char>::empty();
    assert(walked.last() == unit);
    if path.len() == 1 {
        assert(province == full && city == full);
        assert(found =~= seq![unit]);
        assert(level_names(found) =~= level_names(walked));
        assert(last_year(found) == unit.1) by {
            reveal_with_fuel(last_year, 2);
        }
    } else if path.len() == 2 {
        assert(city == full && province != city);
        assert(found =~= top.push(unit));
        assert(found.drop_last() =~= top);
        assert(last_year(found) == unit.1) by {
            reveal_with_fuel(last_year, 3);
        }
        lemma_joined_small(level_names(found));
        lemma_joined_small(level_names(walked));
        if index_of_code(records, province) is Some {
            assert(level_names(found) =~= level_names(walked));
        } else {
            assert(walked[0].0 == empty);
            assert(empty + walked[1].0 =~= walked[1].0);
        }
    } else {
        assert(path.len() == 3);
        assert(province != city && city != full);
        assert(found =~= (top + middle).push(unit));
        assert(found.drop_last() =~= top + middle);
        assert(last_year(top + middle) == 0) by {
            reveal_with_fuel(last_year, 3);
            if (top + middle).len() == 2 {
                assert((top + middle).drop_last() =~= top);
            }
        }
        assert(last_year(found) == unit.1) by {
            reveal_with_fuel(last_year, 2);
        }
        lemma_joined_small(level_names(found));
        lemma_joined_small(level_names(walked));
        assert(empty + walked[1].0 =~= walked[1].0);
        assert(walked[0].0 + empty =~= walked[0].0);
        assert(empty + empty =~= empty);
        assert(empty + walked[2].0 =~= walked[2].0);
        if index_of_code(records, province) is Some && index_of_code(records, city) is Some {
            assert(level_names(found) =~= level_names(walked));
        }
    }
}

/// The records of the catalog `data`, where it has its parts and its record
/// region is made of whole records.
pub open spec fn catalog_records(data: Seq<u8>) -> Option<Seq<RawRecord>> {
    match catalog_parts(data) {
        Some(parts) => records_from(parts.records, 0, None),
        None => None,
    }
}

/// Whether the catalog `data` is as its format promises: it has its parts;
/// its records have six-digit codes in ascending order and names that
/// decode; and for each province that has records, the province index
/// gives the place where these records start, from which they can be read
/// as [`leads_to_province`] says.
pub open spec fn well_formed_catalog(data: Seq<u8>) -> bool {
    &&& catalog_parts(data) matches Some(parts)
    &&& catalog_records(data) matches Some(records)
    &&& well_ordered(records)
    &&& decoded_items(records, parts.dictionary) is Some
    &&& forall|province: u8|
        province_records(records, province as nat).len() > 0 ==> {
            &&& #[trigger] block_offset(index_entries(parts.index), province) matches Some(start)
            &&& leads_to_province(data, records, province as nat, start as int)
        }
}

/// In a well-formed catalog, the block of records that the province index
/// leads to for a province holds exactly the records of that province.
pub proof fn lemma_index_leads_to_blocks(data: Seq<u8>, province: u8)
    requires
        well_formed_catalog(data),
        province_records(catalog_records(data)->Some_0, province as nat).len() > 0,
    ensures
        block_offset(index_entries(catalog_parts(data)->Some_0.index), province) matches Some(
            start,
        ) && records_from(block_window(data, start as nat), 0, Some(province as nat)) == Some(
            province_records(catalog_records(data)->Some_0, province as nat),
        ),
{
    let start = block_offset(index_entries(catalog_parts(data)->Some_0.index), province)->Some_0;
    lemma_block_of_province(data, province as nat, start as int);
}

/// The records of a province hold each record of that province.
pub proof fn lemma_province_records_hold(records: Seq<RawRecord>, i: int)
    requires
        0 <= i < records.len(),
    ensures
        province_records(records, records[i].code / 10000).len() > 0,
    decreases records.len(),
{
    if i < records.len() - 1 {
        assert(records.drop_last()[i] == records[i]);
        lemma_province_records_hold(records.drop_last(), i);
    }
}

/// The two searches agree on every code that a well-formed catalog holds.
///
/// For a code whose zero segments stand at its end, both searches succeed.
/// Their answers have the same full name and the same year of retirement:
/// the year that the record of the code holds, which is 0 where no number
/// follows the name in the record, and that number past the epoch else.
/// The answer of the search among the records has no more levels than that
/// of the walk; where the catalog holds the province and the city of the
/// code, the two answers have the same levels.
#[verifier::rlimit(40)]
pub proof fn lemma_searches_agree(data: Seq<u8>, code: Seq<char>)
    requires
        well_formed_catalog(data),
        is_region_code(code),
        code_segments(code).city == 0 ==> code_segments(code).county == 0,
        index_of_code(catalog_records(data)->Some_0, code_segments(code).number()) is Some,
    ensures
        ({
            let records = catalog_records(data)->Some_0;
            let record = records[index_of_code(records, code_segments(code).number())->Some_0];
            let stored = discard_value(record.data);
            &&& resolve_direct(data, code) matches Ok(direct)
            &&& resolve_trie(data, code) matches Ok(walked)
            &&& direct.region_code == code
            &&& walked.region_code == code
            &&& direct.name == walked.name
            &&& direct.discard_year == walked.discard_year
            &&& stored == 0 ==> direct.discard_year == 0
            &&& stored != 0 ==> direct.discard_year == stored + DISCARD_EPOCH
            &&& 0 < direct.region_slice.len() <= walked.region_slice.len()
            &&& walked.region_slice.len() == search_path(code_segments(code)).len()
            &&& direct.region_slice.last() == walked.region_slice.last()
            &&& levels_present(records, code_segments(code)) ==> direct.region_slice
                == walked.region_slice
        }),
{
    let query = code_segments(code);
    let parts = catalog_parts(data)->Some_0;
    let records = catalog_records(data)->Some_0;
    let i = index_of_code(records, query.number())->Some_0;
    lemma_index_of_code(records, query.number());
    assert(is_six_digit(records[i].code));
    assert(records[i].code / 10000 == query.province);
    lemma_province_records_hold(records, i);
    lemma_index_leads_to_blocks(data, query.province);
    lemma_levels_agree(records, parts.dictionary, query);
    lemma_decoded_items(records, parts.dictionary);
    lemma_discard_value_bound(records[i].data);
}

/// The level of a province code: in a well-formed catalog a code that ends
/// in four zeros resolves, by either search, to the name of the province
/// alone.
pub proof fn lemma_province_code_resolves_alone(data: Seq<u8>, code: Seq<char>)
    requires
        well_formed_catalog(data),
        is_region_code(code),
        code_segments(code).city == 0,
        code_segments(code).county == 0,
        index_of_code(catalog_records(data)->Some_0, code_segments(code).number()) is Some,
    ensures
        resolve_direct(data, code) matches Ok(direct) && direct.region_slice.len() == 1
            && direct.name == direct.region_slice[0],
        resolve_trie(data, code) == resolve_direct(data, code),
{
    lemma_searches_agree(data, code);
    let direct = resolve_direct(data, code)->Ok_0;
    let walked = resolve_trie(data, code)->Ok_0;
    let records = catalog_records(data)->Some_0;
    lemma_index_of_code(records, code_segments(code).number());
    assert(code_segments(code).province != 0);
    assert(walked.region_slice.len() == 1);
    assert(direct.region_slice =~= walked.region_slice);
    lemma_joined_small(direct.region_slice);
}

/// Both searches refuse exactly the texts that are no region codes as
/// invalid input.
pub proof fn lemma_invalid_input(data: Seq<u8>, code: Seq<char>)
    ensures
        resolve_direct(data, code) == Err::<RegionItemView, RegionError>(
            RegionError::InvalidInput,
        ) <==> !is_region_code(code),
        resolve_trie(data, code) == Err::<RegionItemView, RegionError>(RegionError::InvalidInput)
            <==> !is_region_code(code),
{
}

} // verus!
