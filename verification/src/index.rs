//! The province index of a catalog: where the records of each province
//! start.

use vstd::prelude::*;
use crate::{be_u8_slice_to_i32, be_value, lemma_be_value_three, RegionError};

verus! {

/// The number of provinces, and of entries in the province index.
pub const PROVINCE_COUNT: usize = 34;

/// The length of the province index.
pub const INDEX_LEN: usize = 102;

/// The first two digits of the codes of the provinces.
pub const PROVINCE_CODES: [u8; 34] = [
    11, 12, 13, 14, 15, 21, 22, 23, 31, 32, 33, 34, 35, 36, 37, 41, 42, 43, 44, 45, 46, 50, 51, 52,
    53, 54, 61, 62, 63, 64, 65, 71, 81, 82,
];

/// Whether `province` is the first segment of the codes of a province.
pub open spec fn is_known_province(province: u8) -> bool {
    exists|i: int| 0 <= i < PROVINCE_CODES@.len() && PROVINCE_CODES@[i] == province
}

/// One entry of the province index.
#[derive(Debug, Clone, Copy, PartialEq, Eq, Structural)]
pub struct ProvinceIndexEntry {
    /// The first segment of the codes of the province.
    pub province: u8,
    /// The place of the first record of the province in the catalog.
    pub offset: u32,
}

/// The entry that the province index `section` holds in `slot`: three bytes
/// make one number, whose last 17 bits are the place of the records and
/// whose bits above them are the province.
pub open spec fn index_entry(section: Seq<u8>, slot: int) -> ProvinceIndexEntry {
    let packed = be_value(section.subrange(3 * slot, 3 * slot + 3));
    ProvinceIndexEntry { province: (packed / 0x2_0000) as u8, offset: (packed % 0x2_0000) as u32 }
}

/// The entries of the province index `section`.
pub open spec fn index_entries(section: Seq<u8>) -> Seq<ProvinceIndexEntry> {
    Seq::new(PROVINCE_COUNT as nat, |slot: int| index_entry(section, slot))
}

/// The place that the first of `entries` from `from` on gives for
/// `province`.
pub open spec fn entry_offset_from(entries: Seq<ProvinceIndexEntry>, province: u8, from: int)
    -> Option<u32>
    decreases entries.len() - from,
{
    if from < 0 || from >= entries.len() {
        None
    } else if entries[from].province == province {
        Some(entries[from].offset)
    } else {
        entry_offset_from(entries, province, from + 1)
    }
}

/// The place of the records of `province` according to `entries`: that of
/// the first entry for the province. `None` where `province` is not one of
/// the known provinces or no entry is for it.
pub open spec fn block_offset(entries: Seq<ProvinceIndexEntry>, province: u8) -> Option<u32> {
    if is_known_province(province) {
        entry_offset_from(entries, province, 0)
    } else {
        None
    }
}

/// The province index of a catalog: where the records of each province
/// start.
#[derive(Debug)]
pub struct ProvinceIndex {
    entries: Vec<ProvinceIndexEntry>,
}

impl View for ProvinceIndex {
    type V = Seq<ProvinceIndexEntry>;

    closed spec fn view(&self) -> Seq<ProvinceIndexEntry> {
        self.entries@
    }
}

/// Whether `province` is the first segment of the codes of a province.
pub fn known_province(province: u8) -> (known: bool)
    ensures
        known == is_known_province(province),
{
    let mut i: usize = 0;
    while i < PROVINCE_COUNT
        invariant
            i <= PROVINCE_COUNT,
            forall|k: int| 0 <= k < i ==> PROVINCE_CODES@[k] != province,
        decreases PROVINCE_COUNT - i,
    {
        if PROVINCE_CODES[i] == province {
            return true;
        }
        i = i + 1;
    }
    false
}

impl ProvinceIndex {
    /// Reads the province index. A section shorter than the index is
    /// refused as `DecodeFailure`; bytes behind the index are not read.
    pub fn parse(section: &[u8]) -> (r: Result<ProvinceIndex, RegionError>)
        ensures
            section@.len() < INDEX_LEN ==> (r matches Err(e) && e == RegionError::DecodeFailure),
            section@.len() >= INDEX_LEN ==> (r matches Ok(index) && index@ == index_entries(
                section@,
            )),
    {
        if section.len() < INDEX_LEN {
            return Err(RegionError::DecodeFailure);
        }
        let mut entries: Vec<ProvinceIndexEntry> = Vec::new();
        let mut slot: usize = 0;
        while slot < PROVINCE_COUNT
            invariant
                slot <= PROVINCE_COUNT,
                section@.len() >= INDEX_LEN,
                entries@.len() == slot,
                forall|k: int| 0 <= k < slot ==> entries@[k] == index_entry(section@, k),
            decreases PROVINCE_COUNT - slot,
        {
            let field: &[u8] = &section[3 * slot..3 * slot + 3];
            let packed: u32 = be_u8_slice_to_i32(field) as u32;
            proof {
                lemma_be_value_three(field@);
                assert(packed >> 17 == packed / 0x2_0000) by (bit_vector);
                assert(packed & 0x1_ffff == packed % 0x2_0000) by (bit_vector);
                assert(packed < 0x100_0000 ==> (packed >> 17) < 128) by (bit_vector);
            }
            entries.push(
                ProvinceIndexEntry { province: (packed >> 17) as u8, offset: packed & 0x1_ffff },
            );
            slot = slot + 1;
        }
        assert(entries@ =~= index_entries(section@));
        Ok(ProvinceIndex { entries })
    }

    /// The place of the first record of `province`, or `NotFound` where
    /// `province` is not one of the known provinces or the index has no
    /// entry for it.
    pub fn offset_for(&self, province: u8) -> (r: Result<u32, RegionError>)
        ensures
            match block_offset(self@, province) {
                Some(offset) => r == Ok::<u32, RegionError>(offset),
                None => r == Err::<u32, RegionError>(RegionError::NotFound),
            },
    {
        if !known_province(province) {
            return Err(RegionError::NotFound);
        }
        let mut i: usize = 0;
        while i < self.entries.len()
            invariant
                i <= self@.len(),
                is_known_province(province),
                entry_offset_from(self@, province, 0) == entry_offset_from(
                    self@,
                    province,
                    i as int,
                ),
            decreases self@.len() - i,
        {
            if self.entries[i].province == province {
                return Ok(self.entries[i].offset);
            }
            i = i + 1;
        }
        Err(RegionError::NotFound)
    }
}

} // verus!
