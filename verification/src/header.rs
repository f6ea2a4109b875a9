//! The header of a catalog: its version and the place of its province
//! index.

use vstd::prelude::*;
use crate::text::{decimal, push_decimal, signed_decimal};
use crate::{be_u8_slice_to_i32, be_value, lemma_be_value_two, signed_be_value, RegionError};

verus! {

/// The length of the header of a catalog: four bytes of version and two
/// bytes that give the place of the province index.
pub const HEADER_LEN: usize = 6;

/// The header of a catalog.
#[derive(Debug, Clone, Copy, PartialEq, Eq, Structural)]
pub struct CatalogHeader {
    /// The version of the data.
    pub version: i32,
    /// The place of the province index in the catalog, from its start.
    pub index_offset: usize,
}

/// The version that the catalog `data` states: its first four bytes as a
/// big-endian number in two's complement.
pub open spec fn header_version(data: Seq<u8>) -> int {
    signed_be_value(data.subrange(0, 4))
}

/// The place of the province index that the catalog `data` states.
pub open spec fn header_index_offset(data: Seq<u8>) -> nat {
    be_value(data.subrange(4, 6))
}

/// The header that [`read_header`] returns for `data`.
pub open spec fn parsed_header(data: Seq<u8>) -> Result<CatalogHeader, RegionError> {
    if data.len() < HEADER_LEN {
        Err(RegionError::DecodeFailure)
    } else {
        Ok(
            CatalogHeader {
                version: header_version(data) as i32,
                index_offset: header_index_offset(data) as usize,
            },
        )
    }
}

/// Reads the header of a catalog. Data shorter than the header is refused
/// as `DecodeFailure`.
pub fn read_header(data: &[u8]) -> (r: Result<CatalogHeader, RegionError>)
    ensures
        r == parsed_header(data@),
        r matches Ok(h) ==> (h.version == header_version(data@) && h.index_offset
            == header_index_offset(data@)),
{
    if data.len() < HEADER_LEN {
        return Err(RegionError::DecodeFailure);
    }
    let version: i32 = be_u8_slice_to_i32(&data[0..4]);
    let index_offset: usize = be_u8_slice_to_i32(&data[4..6]) as usize;
    proof {
        lemma_be_value_two(data@.subrange(4, 6));
    }
    Ok(CatalogHeader { version, index_offset })
}

/// The version of a catalog as text: its decimal digits, after a minus sign
/// where it is negative.
pub fn version_string(version: i32) -> (text: String)
    ensures
        text@ == signed_decimal(version as int),
{
    let mut text: String = String::new();
    if version < 0 {
        text.push('-');
        let magnitude: u32 = (-(version as i64)) as u32;
        push_decimal(&mut text, magnitude);
    } else {
        push_decimal(&mut text, version as u32);
        assert(Seq::<char>::empty() + decimal(version as nat) =~= decimal(version as nat));
    }
    text
}

} // verus!
