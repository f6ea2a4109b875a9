//! The packed name of a record: characters of the dictionary, the label of
//! the administrative level, and the year of retirement.

use vstd::prelude::*;
use crate::dictionary::{dictionary_char, CharacterDictionary};
use crate::{
    discard_nibbles, discard_value, joined, lemma_discard_value_bound, name_indexes,
    read_name_indexes, read_nibble_tail, texts, RegionError,
};

verus! {

/// The label of an administrative level: what kind of unit a record names.
/// Level 0 and the numbers above 15 have no label.
pub open spec fn level_label_text(level: int) -> Seq<char> {
    if level == 1 {
        "省"@
    } else if level == 2 {
        "自治区"@
    } else if level == 3 {
        "市"@
    } else if level == 4 {
        "区"@
    } else if level == 5 {
        "县"@
    } else if level == 6 {
        "自治县"@
    } else if level == 7 {
        "旗"@
    } else if level == 8 {
        "盟"@
    } else if level == 9 {
        "州"@
    } else if level == 10 {
        "自治州"@
    } else if level == 11 {
        "藏族自治州"@
    } else if level == 12 {
        "满族自治县"@
    } else if level == 13 {
        "蒙古族自治县"@
    } else if level == 14 {
        "苗族自治县"@
    } else if level == 15 {
        "土家族自治县"@
    } else {
        ""@
    }
}

/// The label of an administrative level.
pub fn level_label(level: u32) -> (name: &'static str)
    ensures
        name@ == level_label_text(level as int),
{
    match level {
        1 => "省",
        2 => "自治区",
        3 => "市",
        4 => "区",
        5 => "县",
        6 => "自治县",
        7 => "旗",
        8 => "盟",
        9 => "州",
        10 => "自治州",
        11 => "藏族自治州",
        12 => "满族自治县",
        13 => "蒙古族自治县",
        14 => "苗族自治县",
        15 => "土家族自治县",
        _ => "",
    }
}

/// The year from which the years of retirement are counted.
pub const DISCARD_EPOCH: u32 = 1980;

/// The characters that `indexes` name in `dict`, or `None` where the
/// dictionary lacks one of them.
pub open spec fn resolved_chars(indexes: Seq<u32>, dict: Seq<char>) -> Option<Seq<char>> {
    if forall|i: int| 0 <= i < indexes.len() ==> dictionary_char(dict, #[trigger] indexes[i] as int) is Some {
        Some(Seq::new(indexes.len(), |i: int| dictionary_char(dict, indexes[i] as int)->Some_0))
    } else {
        None
    }
}

/// The year of retirement that the packed name `data` holds: 0 where no
/// number follows the name, else that number past the epoch. `None` where
/// more than eight nibbles follow the name, so that the number may not fit
/// in 32 bits.
pub open spec fn discard_year_of(data: Seq<u8>) -> Option<u32> {
    let stored = discard_value(data);
    if discard_nibbles(data).len() > 8 {
        None
    } else if stored == 0 {
        Some(0u32)
    } else {
        Some((stored + DISCARD_EPOCH) as u32)
    }
}

/// The name and the year of retirement that the packed name `data` of a
/// record of level `level` holds: the characters of the name, then the label
/// of the level. `None` where the dictionary lacks a character or the year
/// does not fit.
pub open spec fn decoded_name(data: Seq<u8>, level: int, dict: Seq<char>) -> Option<
    (Seq<char>, u32),
> {
    match (resolved_chars(name_indexes(data), dict), discard_year_of(data)) {
        (Some(chars), Some(year)) => Some((chars + level_label_text(level), year)),
        _ => None,
    }
}

/// Decodes the packed name of a record of level `level`.
pub fn decode_name(data: &[u8], level: u32, dict: &CharacterDictionary) -> (r: Result<
    (String, u32),
    RegionError,
>)
    ensures
        match decoded_name(data@, level as int, dict@) {
            Some((name, year)) => r matches Ok((s, y)) && s@ == name && y == year,
            None => r matches Err(e) && e == RegionError::DecodeFailure,
        },
{
    let indexes: Vec<u32> = read_name_indexes(data);
    let count: usize = indexes.len();
    assert(count + count / 2 <= data.len());
    let byte: usize = count + count / 2;
    if data.len() - byte > 4 {
        return Err(RegionError::DecodeFailure);
    }
    let stored: u32 = read_nibble_tail(data, byte, count % 2 == 1);
    proof {
        lemma_discard_value_bound(data@);
    }
    let year: u32 = if stored == 0 {
        0
    } else {
        stored + DISCARD_EPOCH
    };
    let mut name: String = String::new();
    let mut i: usize = 0;
    while i < indexes.len()
        invariant
            indexes@ == name_indexes(data@),
            i <= indexes@.len(),
            name@.len() == i,
            forall|j: int|
                0 <= j < i ==> dictionary_char(dict@, #[trigger] indexes@[j] as int) == Some(
                    name@[j],
                ),
        decreases indexes@.len() - i,
    {
        match dict.resolve(indexes[i]) {
            Some(c) => {
                name.push(c);
            },
            None => {
                assert(dictionary_char(dict@, indexes@[i as int] as int) is None);
                return Err(RegionError::DecodeFailure);
            },
        }
        i = i + 1;
    }
    assert(name@ =~= resolved_chars(indexes@, dict@)->Some_0);
    name.append(level_label(level));
    Ok((name, year))
}

/// The names of `levels`.
pub open spec fn level_names(levels: Seq<(Seq<char>, u32)>) -> Seq<Seq<char>> {
    Seq::new(levels.len(), |i: int| levels[i].0)
}

/// All the texts of `names` one after another.
pub fn join_names(names: &Vec<String>) -> (all: String)
    ensures
        all@ == joined(texts(names@)),
{
    let mut all: String = String::new();
    let mut i: usize = 0;
    while i < names.len()
        invariant
            i <= names@.len(),
            all@ == joined(texts(names@).take(i as int)),
        decreases names@.len() - i,
    {
        all.append(names[i].as_str());
        proof {
            let parts = texts(names@);
            assert(parts.take(i + 1).drop_last() =~= parts.take(i as int));
            assert(parts.take(i + 1).last() == names@[i as int]@);
        }
        i = i + 1;
    }
    assert(texts(names@).take(names@.len() as int) =~= texts(names@));
    all
}

} // verus!
