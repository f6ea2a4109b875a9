//! A catalog as a whole, and the two ways of looking a code up in it:
//! reading the records of one province where they lie, or walking a prefix
//! tree that holds every record.

use vstd::prelude::*;
use crate::dictionary::{gbk_text, CharacterDictionary};
use crate::header::{
    header_index_offset, header_version, read_header, version_string, CatalogHeader, HEADER_LEN,
};
use crate::index::{block_offset, index_entries, ProvinceIndex, INDEX_LEN};
use crate::name::{level_label, level_label_text};
use crate::record::{block_search, catalog_items, decode_records, item_views, search_block};
use crate::code::{is_region_code, parse_region_code, parsed_code};
use crate::text::signed_decimal;
use crate::trie::{insert_path, trie_insert, trie_search, RegionTrie};
use crate::{outcome_view, RegionError, RegionItem, RegionItemView};

verus! {

/// The most bytes that are read of the records of one province. The records
/// of every province fit in these.
pub const WINDOW_LEN: usize = 4000;

/// The parts of a catalog behind its header.
pub struct CatalogParts {
    /// The records of all units, back to back.
    pub records: Seq<u8>,
    /// The province index.
    pub index: Seq<u8>,
    /// The characters of the dictionary.
    pub dictionary: Seq<char>,
}

/// The parts of the catalog `data`. The records lie between the header and
/// the province index, whose place the header gives; the dictionary is the
/// GBK text behind the index. `None` where the data end before the index
/// does, the index overlaps the header, or the text is not valid GBK.
pub open spec fn catalog_parts(data: Seq<u8>) -> Option<CatalogParts> {
    let index_offset = header_index_offset(data);
    if data.len() < HEADER_LEN || index_offset < HEADER_LEN || index_offset + INDEX_LEN
        > data.len() {
        None
    } else {
        match gbk_text(data.skip(index_offset + INDEX_LEN)) {
            Some(text) => Some(
                CatalogParts {
                    records: data.subrange(HEADER_LEN as int, index_offset as int),
                    index: data.subrange(index_offset as int, index_offset + INDEX_LEN),
                    dictionary: text,
                },
            ),
            None => None,
        }
    }
}

/// The bytes of `data` from `start` on, [`WINDOW_LEN`] of them at most.
pub open spec fn block_window(data: Seq<u8>, start: nat) -> Seq<u8> {
    if start >= data.len() {
        Seq::empty()
    } else if start + WINDOW_LEN >= data.len() {
        data.skip(start as int)
    } else {
        data.subrange(start as int, start + WINDOW_LEN)
    }
}

/// The prefix tree that holds `items`, inserted in their order.
pub open spec fn trie_of_items(items: Seq<RegionItemView>) -> Map<
    Seq<u8>,
    Option<(Seq<char>, u32)>,
>
    decreases items.len(),
{
    if items.len() == 0 {
        Map::empty()
    } else {
        let item = items.last();
        trie_insert(
            trie_of_items(items.drop_last()),
            insert_path(item.region_code),
            item.name,
            item.discard_year,
        )
    }
}

/// The version of the catalog `data` as text.
pub open spec fn catalog_version(data: Seq<u8>) -> Result<Seq<char>, RegionError> {
    if data.len() < HEADER_LEN {
        Err(RegionError::DecodeFailure)
    } else {
        Ok(signed_decimal(header_version(data)))
    }
}

/// All the units of the catalog `data`.
pub open spec fn all_items(data: Seq<u8>) -> Result<Seq<RegionItemView>, RegionError> {
    match catalog_parts(data) {
        None => Err(RegionError::DecodeFailure),
        Some(parts) => match catalog_items(parts.records, parts.dictionary) {
            None => Err(RegionError::DecodeFailure),
            Some(items) => Ok(items),
        },
    }
}

/// The answer of the catalog `data` for `code`, found among the records of
/// the province of the code: the province index gives the place of these
/// records, and the bytes from there on, [`WINDOW_LEN`] at most, are searched
/// as [`block_search`] says.
pub open spec fn resolve_direct(data: Seq<u8>, code: Seq<char>) -> Result<
    RegionItemView,
    RegionError,
> {
    match parsed_code(code) {
        Err(e) => Err(e),
        Ok(query) => match catalog_parts(data) {
            None => Err(RegionError::DecodeFailure),
            Some(parts) => match block_offset(index_entries(parts.index), query.province) {
                None => Err(RegionError::NotFound),
                Some(start) => block_search(
                    block_window(data, start as nat),
                    code,
                    parts.dictionary,
                ),
            },
        },
    }
}

/// The answer of the catalog `data` for `code`, found in the prefix tree
/// of all its units.
pub open spec fn resolve_trie(data: Seq<u8>, code: Seq<char>) -> Result<
    RegionItemView,
    RegionError,
> {
    match parsed_code(code) {
        Err(e) => Err(e),
        Ok(query) => match all_items(data) {
            Err(e) => Err(e),
            Ok(items) => trie_search(trie_of_items(items), code),
        },
    }
}

/// A catalog held in memory, with what has been decoded of it so far.
///
/// The header, the dictionary and the province index are decoded by the
/// first lookup, the prefix tree by the first lookup that walks it. Each is
/// decoded once and kept.
#[derive(Debug)]
pub struct Region {
    data: Vec<u8>,
    version: String,
    header: Option<CatalogHeader>,
    char_map: Option<CharacterDictionary>,
    index: Option<ProvinceIndex>,
    region_trier: Option<RegionTrie>,
}

impl Region {
    /// What has been decoded agrees with the bytes of the catalog.
    #[verifier::type_invariant]
    closed spec fn consistent(self) -> bool {
        &&& self.version@.len() > 0 ==> catalog_version(self.data@) == Ok::<
            Seq<char>,
            RegionError,
        >(self.version@)
        &&& self.header matches Some(h) ==> {
            &&& self.data@.len() >= HEADER_LEN
            &&& h.index_offset == header_index_offset(self.data@)
        }
        &&& self.char_map matches Some(dict) ==> {
            &&& catalog_parts(self.data@) matches Some(parts)
            &&& dict@ == parts.dictionary
        }
        &&& self.index matches Some(index) ==> {
            &&& catalog_parts(self.data@) matches Some(parts)
            &&& index@ == index_entries(parts.index)
        }
        &&& self.region_trier matches Some(trie) ==> {
            &&& all_items(self.data@) matches Ok(items)
            &&& trie@ == trie_of_items(items)
        }
    }

    /// The bytes of the catalog.
    pub closed spec fn bytes(self) -> Seq<u8> {
        self.data@
    }

    /// A catalog with the bytes `data`. Nothing is decoded yet.
    pub fn new(data: Vec<u8>) -> (region: Self)
        ensures
            region.bytes() == data@,
            !region.loaded(),
            !region.has_tree(),
    {
        Region {
            data,
            version: String::new(),
            header: None,
            char_map: None,
            index: None,
            region_trier: None,
        }
    }

    /// The label of the administrative level `t`.
    pub fn get_type_name(&self, t: i32) -> (name: String)
        ensures
            name@ == level_label_text(t as int),
    {
        if t < 0 {
            "".to_owned()
        } else {
            level_label(t as u32).to_owned()
        }
    }

    /// Whether the header, the dictionary and the province index have been
    /// decoded.
    pub closed spec fn loaded(self) -> bool {
        self.header is Some && self.char_map is Some && self.index is Some
    }

    /// Whether the prefix tree has been built.
    pub closed spec fn has_tree(self) -> bool {
        self.region_trier is Some
    }

    /// Decodes the header, the dictionary and the province index, unless
    /// that has been done.
    fn load(&mut self) -> (r: Result<(), RegionError>)
        ensures
            final(self).bytes() == old(self).bytes(),
            final(self).has_tree() == old(self).has_tree(),
            old(self).loaded() ==> final(self).loaded(),
            match catalog_parts(old(self).bytes()) {
                Some(parts) => r is Ok && final(self).loaded(),
                None => r matches Err(e) && e == RegionError::DecodeFailure && !final(self).loaded(),
            },
    {
        proof {
            use_type_invariant(&*self);
        }
        if self.header.is_some() && self.char_map.is_some() && self.index.is_some() {
            return Ok(());
        }
        let header: CatalogHeader = match read_header(self.data.as_slice()) {
            Ok(h) => h,
            Err(e) => {
                return Err(RegionError::DecodeFailure);
            },
        };
        let n: usize = self.data.len();
        if header.index_offset < HEADER_LEN || header.index_offset > n || n - header.index_offset
            < INDEX_LEN {
            return Err(RegionError::DecodeFailure);
        }
        let index_end: usize = header.index_offset + INDEX_LEN;
        assert(self.data@.subrange(index_end as int, n as int) =~= self.data@.skip(
            index_end as int,
        ));
        let dict: CharacterDictionary = match CharacterDictionary::decode(
            &self.data.as_slice()[index_end..n],
        ) {
            Ok(d) => d,
            Err(e) => {
                return Err(RegionError::DecodeFailure);
            },
        };
        let index: ProvinceIndex = match ProvinceIndex::parse(
            &self.data.as_slice()[header.index_offset..index_end],
        ) {
            Ok(i) => i,
            Err(e) => {
                return Err(RegionError::DecodeFailure);
            },
        };
        self.header = Some(header);
        self.char_map = Some(dict);
        self.index = Some(index);
        Ok(())
    }

    /// The version of the catalog as text.
    pub fn get_version(&mut self) -> (r: Result<&str, RegionError>)
        ensures
            final(self).bytes() == old(self).bytes(),
            final(self).loaded() == old(self).loaded(),
            final(self).has_tree() == old(self).has_tree(),
            match catalog_version(old(self).bytes()) {
                Ok(text) => r matches Ok(v) && v@ == text,
                Err(e) => r matches Err(f) && f == e,
            },
    {
        proof {
            use_type_invariant(&*self);
        }
        if self.version.as_str().unicode_len() == 0 {
            let header: CatalogHeader = match read_header(self.data.as_slice()) {
                Ok(h) => h,
                Err(e) => {
                    return Err(e);
                },
            };
            self.version = version_string(header.version);
        }
        Ok(self.version.as_str())
    }

    /// Decodes every record of the catalog.
    pub fn get_record_from_data(&mut self) -> (r: Result<Vec<RegionItem>, RegionError>)
        ensures
            final(self).bytes() == old(self).bytes(),
            final(self).has_tree() == old(self).has_tree(),
            final(self).loaded() == (old(self).loaded() || catalog_parts(old(self).bytes()) is Some),
            match all_items(old(self).bytes()) {
                Ok(items) => r matches Ok(list) && item_views(list@) == items,
                Err(e) => r matches Err(f) && f == e,
            },
    {
        match self.load() {
            Ok(_) => {},
            Err(e) => {
                return Err(e);
            },
        }
        proof {
            use_type_invariant(&*self);
        }
        match (&self.header, &self.char_map) {
            (Some(header), Some(dict)) => decode_records(
                &self.data.as_slice()[HEADER_LEN..header.index_offset],
                dict,
            ),
            _ => Err(RegionError::DecodeFailure),
        }
    }

    /// Builds the prefix tree of all the units of the catalog.
    fn create_trier(&mut self) -> (r: Result<RegionTrie, RegionError>)
        ensures
            final(self).bytes() == old(self).bytes(),
            final(self).has_tree() == old(self).has_tree(),
            final(self).loaded() == (old(self).loaded() || catalog_parts(old(self).bytes()) is Some),
            match all_items(old(self).bytes()) {
                Ok(items) => r matches Ok(trie) && trie@ == trie_of_items(items),
                Err(e) => r matches Err(f) && f == e,
            },
    {
        let list: Vec<RegionItem> = match self.get_record_from_data() {
            Ok(l) => l,
            Err(e) => {
                return Err(e);
            },
        };
        let mut trier: RegionTrie = RegionTrie::new();
        let mut i: usize = 0;
        while i < list.len()
            invariant
                i <= list@.len(),
                trier@ == trie_of_items(item_views(list@).take(i as int)),
            decreases list@.len() - i,
        {
            let item: &RegionItem = &list[i];
            trier.insert(item.region_code.clone(), item.name.clone(), item.discard_year);
            proof {
                let views = item_views(list@);
                assert(views.take(i + 1).drop_last() =~= views.take(i as int));
                assert(views.take(i + 1).last() == item@);
            }
            i = i + 1;
        }
        assert(item_views(list@).take(list@.len() as int) =~= item_views(list@));
        Ok(trier)
    }

    /// Looks `region_code` up among the records of its province.
    ///
    /// A text that is no region code is refused as `InvalidInput` before
    /// anything is decoded. Then the province index gives the place of the
    /// records of the province, and these are searched as [`search_block`]
    /// does.
    pub fn search_with_data(&mut self, region_code: &str) -> (r: Result<RegionItem, RegionError>)
        ensures
            final(self).bytes() == old(self).bytes(),
            outcome_view(r) == resolve_direct(old(self).bytes(), region_code@),
            final(self).has_tree() == old(self).has_tree(),
            final(self).loaded() == (old(self).loaded() || (is_region_code(region_code@)
                && catalog_parts(old(self).bytes()) is Some)),
    {
        let query = match parse_region_code(region_code) {
            Ok(q) => q,
            Err(e) => {
                return Err(e);
            },
        };
        match self.load() {
            Ok(_) => {},
            Err(e) => {
                return Err(e);
            },
        }
        proof {
            use_type_invariant(&*self);
        }
        match (&self.index, &self.char_map) {
            (Some(index), Some(dict)) => {
                let start: usize = match index.offset_for(query.province) {
                    Ok(offset) => offset as usize,
                    Err(e) => {
                        return Err(e);
                    },
                };
                let n: usize = self.data.len();
                let end: usize = if start >= n {
                    start
                } else if n - start <= WINDOW_LEN {
                    n
                } else {
                    start + WINDOW_LEN
                };
                if start >= n {
                    let empty: Vec<u8> = Vec::new();
                    assert(empty@ =~= block_window(self.data@, start as nat));
                    search_block(empty.as_slice(), region_code, dict)
                } else {
                    assert(self.data@.subrange(start as int, n as int) =~= self.data@.skip(
                        start as int,
                    ));
                    search_block(&self.data.as_slice()[start..end], region_code, dict)
                }
            },
            _ => Err(RegionError::DecodeFailure),
        }
    }

    /// Looks `region_code` up in the prefix tree of all units, which the
    /// first call builds.
    ///
    /// A text that is no region code is refused as `InvalidInput` before
    /// anything is decoded, and once the tree is built nothing more is
    /// decoded.
    pub fn search_with_trie(&mut self, region_code: &str) -> (r: Result<RegionItem, RegionError>)
        ensures
            final(self).bytes() == old(self).bytes(),
            outcome_view(r) == resolve_trie(old(self).bytes(), region_code@),
            final(self).has_tree() == (old(self).has_tree() || (is_region_code(region_code@)
                && all_items(old(self).bytes()) is Ok)),
            final(self).loaded() == (old(self).loaded() || (is_region_code(region_code@)
                && !old(self).has_tree() && catalog_parts(old(self).bytes()) is Some)),
    {
        match parse_region_code(region_code) {
            Ok(_) => {},
            Err(e) => {
                return Err(e);
            },
        }
        if self.region_trier.is_none() {
            let trier: RegionTrie = match self.create_trier() {
                Ok(t) => t,
                Err(e) => {
                    return Err(e);
                },
            };
            proof {
                use_type_invariant(&*self);
            }
            self.region_trier = Some(trier);
        }
        proof {
            use_type_invariant(&*self);
        }
        match &self.region_trier {
            Some(trier) => trier.search(region_code),
            None => Err(RegionError::DecodeFailure),
        }
    }
}

} // verus!
