use region_cn::code::{parse_region_code, RegionCode};
use region_cn::dictionary::CharacterDictionary;
use region_cn::header::{read_header, version_string, CatalogHeader};
use region_cn::index::{known_province, ProvinceIndex};
use region_cn::name::{decode_name, join_names, level_label};
use region_cn::text::{decimal_string, digit_to_char, push_decimal};
use region_cn::{
    be_u8_slice_to_i32, decode_u8_list, read_name_indexes, read_nibble_tail, RegionError,
};

#[test]
fn big_endian_bytes_make_one_number() {
    assert_eq!(be_u8_slice_to_i32(&[]), 0);
    assert_eq!(be_u8_slice_to_i32(&[0x12]), 0x12);
    assert_eq!(be_u8_slice_to_i32(&[0x12, 0x34]), 0x1234);
    assert_eq!(be_u8_slice_to_i32(&[0x81, 0x9a, 0xd5]), 0x819ad5);
    assert_eq!(be_u8_slice_to_i32(&[0x7f, 0xff, 0xff, 0xff]), i32::MAX);
    assert_eq!(be_u8_slice_to_i32(&[0x00, 0x00, 0x01]), 1);
}

#[test]
fn four_bytes_with_the_first_bit_set_are_negative() {
    assert_eq!(be_u8_slice_to_i32(&[0xff, 0xff, 0xff, 0xff]), -1);
    assert_eq!(be_u8_slice_to_i32(&[0x80, 0x00, 0x00, 0x00]), i32::MIN);
    assert_eq!(be_u8_slice_to_i32(&[0xff, 0xff, 0xff, 0xf9]), -7);
    assert_eq!(be_u8_slice_to_i32(&[0xff, 0xff, 0xff]), 0xffffff);
}

#[test]
fn groups_of_three_nibbles_are_character_indexes() {
    assert_eq!(decode_u8_list(&vec![0x04, 0x00, 0x41]), (vec![64, 65], 0));
    assert_eq!(decode_u8_list(&vec![0x12, 0x3a, 0xbc]), (vec![0x123, 0xabc], 0));
    assert_eq!(decode_u8_list(&vec![]), (vec![], 0));
}

#[test]
fn nibbles_behind_the_name_are_the_year() {
    assert_eq!(decode_u8_list(&vec![0x04, 0x00, 0x1e]), (vec![64], 30));
    assert_eq!(decode_u8_list(&vec![0x04, 0x00, 0x41, 0x1e]), (vec![64, 65], 30));
    assert_eq!(decode_u8_list(&vec![0x04, 0x00]), (vec![64], 0));
    assert_eq!(decode_u8_list(&vec![0x12]), (vec![], 0x12));
    assert_eq!(decode_u8_list(&vec![0x00, 0x00, 0x3f]), (vec![], 0x3f));
    assert_eq!(decode_u8_list(&vec![0x00, 0x00, 0x3f, 0xff]), (vec![], 0x3fff));
    assert_eq!(decode_u8_list(&vec![0x03, 0xf0, 0x3f, 0xff]), (vec![], 0x03f03fff));
}

#[test]
fn first_reserved_group_ends_the_name() {
    // groups 0x001 and 0x040: all six nibbles are the year
    assert_eq!(decode_u8_list(&vec![0x00, 0x10, 0x40]), (vec![], 0x001040));
    // groups 0x040, 0x001 and the nibbles of 0xfff: the year starts at the second group
    assert_eq!(decode_u8_list(&vec![0x04, 0x00, 0x01, 0xff, 0xf0]), (vec![64], 0x001fff0));
    // groups 0x000 and 0x123, then two nibbles
    assert_eq!(decode_u8_list(&vec![0x00, 0x01, 0x23, 0x45]), (vec![], 0x00012345));
}

#[test]
fn name_indexes_and_tail_are_read_apart() {
    assert_eq!(read_name_indexes(&[0x04, 0x00, 0x41, 0x1e]), vec![64, 65]);
    assert_eq!(read_nibble_tail(&[0x04, 0x00, 0x41, 0x1e], 3, false), 0x1e);
    assert_eq!(read_nibble_tail(&[0x04, 0x00, 0x1e], 1, true), 0x01e);
    assert_eq!(read_nibble_tail(&[0xab, 0xcd], 2, false), 0);
    assert_eq!(read_nibble_tail(&[0xff, 0xff, 0xff, 0xff], 0, false), u32::MAX);
}

#[test]
fn region_code_has_three_segments() {
    assert_eq!(parse_region_code("530925"), Ok(RegionCode { province: 53, city: 9, county: 25 }));
    assert_eq!(parse_region_code("110000"), Ok(RegionCode { province: 11, city: 0, county: 0 }));
    assert_eq!(parse_region_code("000000"), Ok(RegionCode { province: 0, city: 0, county: 0 }));
    assert_eq!(parse_region_code("999999"), Ok(RegionCode { province: 99, city: 99, county: 99 }));
    assert_eq!(RegionCode { province: 53, city: 9, county: 25 }.to_number(), 530925);
}

#[test]
fn region_code_must_be_six_digits() {
    assert_eq!(parse_region_code("5309"), Err(RegionError::InvalidInput));
    assert_eq!(parse_region_code("53092A"), Err(RegionError::InvalidInput));
    assert_eq!(parse_region_code("5309250"), Err(RegionError::InvalidInput));
    assert_eq!(parse_region_code(""), Err(RegionError::InvalidInput));
    assert_eq!(parse_region_code("-53092"), Err(RegionError::InvalidInput));
    assert_eq!(parse_region_code("53 925"), Err(RegionError::InvalidInput));
    assert_eq!(parse_region_code("５３０９２５"), Err(RegionError::InvalidInput));
    assert_eq!(parse_region_code("云南"), Err(RegionError::InvalidInput));
}

#[test]
fn numbers_are_written_in_decimal() {
    assert_eq!(decimal_string(0), "0");
    assert_eq!(decimal_string(7), "7");
    assert_eq!(decimal_string(10), "10");
    assert_eq!(decimal_string(530925), "530925");
    assert_eq!(decimal_string(u32::MAX), "4294967295");
    assert_eq!(digit_to_char(0), '0');
    assert_eq!(digit_to_char(9), '9');
    let mut text = String::from("v");
    push_decimal(&mut text, 2024);
    assert_eq!(text, "v2024");
}

#[test]
fn version_is_written_with_its_sign() {
    assert_eq!(version_string(2024092911), "2024092911");
    assert_eq!(version_string(0), "0");
    assert_eq!(version_string(-1), "-1");
    assert_eq!(version_string(i32::MIN), "-2147483648");
    assert_eq!(version_string(i32::MAX), "2147483647");
}

#[test]
fn header_gives_version_and_index_offset() {
    assert_eq!(
        read_header(&[0x78, 0xa5, 0x1c, 0xef, 0x12, 0x34, 0xff]),
        Ok(CatalogHeader { version: 2024086767, index_offset: 0x1234 })
    );
    assert_eq!(
        read_header(&[0xff, 0xff, 0xff, 0xfe, 0x00, 0x06]),
        Ok(CatalogHeader { version: -2, index_offset: 6 })
    );
    assert_eq!(
        read_header(&[0x80, 0x00, 0x00, 0x00, 0xff, 0xff]),
        Ok(CatalogHeader { version: i32::MIN, index_offset: 65535 })
    );
}

#[test]
fn short_header_is_refused() {
    assert_eq!(read_header(&[]), Err(RegionError::DecodeFailure));
    assert_eq!(read_header(&[0, 0, 0, 1, 0]), Err(RegionError::DecodeFailure));
}

#[test]
fn levels_have_their_labels() {
    let labels = [
        "", "省", "自治区", "市", "区", "县", "自治县", "旗", "盟", "州", "自治州",
        "藏族自治州", "满族自治县", "蒙古族自治县", "苗族自治县", "土家族自治县", "",
    ];
    for (level, label) in labels.iter().enumerate() {
        assert_eq!(level_label(level as u32), *label);
    }
    assert_eq!(level_label(1000), "");
}

#[test]
fn dictionary_numbers_start_at_64() {
    let dict = CharacterDictionary::from_text("云南省");
    assert_eq!(dict.len(), 3);
    assert_eq!(dict.resolve(64), Some('云'));
    assert_eq!(dict.resolve(65), Some('南'));
    assert_eq!(dict.resolve(66), Some('省'));
    assert_eq!(dict.resolve(67), None);
    assert_eq!(dict.resolve(63), None);
    assert_eq!(dict.resolve(0), None);
    assert_eq!(dict.resolve(u32::MAX), None);
}

#[test]
fn dictionary_is_decoded_from_gbk() {
    // GBK: D4C6 = 云, C4CF = 南, 41 = A
    let dict = CharacterDictionary::decode(&[0xd4, 0xc6, 0xc4, 0xcf, 0x41]).unwrap();
    assert_eq!(dict.len(), 3);
    assert_eq!(dict.resolve(64), Some('云'));
    assert_eq!(dict.resolve(65), Some('南'));
    assert_eq!(dict.resolve(66), Some('A'));
    assert_eq!(CharacterDictionary::decode(&[]).unwrap().len(), 0);
}

#[test]
fn invalid_gbk_is_a_decode_failure() {
    assert_eq!(CharacterDictionary::decode(&[0xd4]).unwrap_err(), RegionError::DecodeFailure);
    assert_eq!(CharacterDictionary::decode(&[0xff, 0x41]).unwrap_err(), RegionError::DecodeFailure);
}

#[test]
fn name_is_decoded_with_label_and_year() {
    let dict = CharacterDictionary::from_text("崇文北京");
    // indexes 64, 65, then the year 30 past the epoch
    assert_eq!(decode_name(&[0x04, 0x00, 0x41, 0x1e], 4, &dict), Ok((String::from("崇文区"), 2010)));
    assert_eq!(decode_name(&[0x04, 0x20, 0x43], 3, &dict), Ok((String::from("北京市"), 0)));
    assert_eq!(decode_name(&[0x04, 0x20, 0x43], 0, &dict), Ok((String::from("北京"), 0)));
    assert_eq!(decode_name(&[], 1, &dict), Ok((String::from("省"), 0)));
    assert_eq!(decode_name(&[0x04, 0x00, 0x01], 0, &dict), Ok((String::from("崇"), 1981)));
}

#[test]
fn name_with_an_unknown_character_is_a_decode_failure() {
    let dict = CharacterDictionary::from_text("崇文");
    assert_eq!(decode_name(&[0x04, 0x00, 0x42], 4, &dict), Err(RegionError::DecodeFailure));
}

#[test]
fn year_of_more_than_eight_nibbles_is_a_decode_failure() {
    let dict = CharacterDictionary::from_text("崇文");
    assert_eq!(
        decode_name(&[0x00, 0x00, 0x00, 0x00, 0x00], 0, &dict),
        Err(RegionError::DecodeFailure)
    );
    assert_eq!(
        decode_name(&[0x04, 0x00, 0x00, 0x00, 0x00, 0x00], 0, &dict),
        Err(RegionError::DecodeFailure)
    );
    assert_eq!(decode_name(&[0x00, 0x00, 0x00, 0x00], 0, &dict), Ok((String::new(), 0)));
    assert_eq!(decode_name(&[0x00, 0x00, 0x3f, 0xff], 0, &dict), Ok((String::new(), 0x3fff + 1980)));
    assert_eq!(
        decode_name(&[0x03, 0xf0, 0x3f, 0xff], 5, &dict),
        Ok((String::from("县"), 0x03f03fff + 1980))
    );
}

#[test]
fn names_are_joined_in_order() {
    assert_eq!(join_names(&vec![String::from("云南省"), String::from("临沧市")]), "云南省临沧市");
    assert_eq!(join_names(&vec![]), "");
}

#[test]
fn provinces_are_known_by_their_first_segment() {
    assert!(known_province(11));
    assert!(known_province(53));
    assert!(known_province(82));
    assert!(!known_province(0));
    assert!(!known_province(10));
    assert!(!known_province(16));
    assert!(!known_province(99));
}

#[test]
fn index_is_keyed_by_the_province_in_each_entry() {
    let mut section = vec![0u8; 102];
    // entry 0: province 11 at 6; entry 1: province 53 at 0x1ffff; entry 2: province 53 at 9
    section[0..3].copy_from_slice(&[0x16, 0x00, 0x06]);
    section[3..6].copy_from_slice(&[0x6b, 0xff, 0xff]);
    section[6..9].copy_from_slice(&[0x6a, 0x00, 0x09]);
    // entry 3: province 99, which is none of the provinces
    section[9..12].copy_from_slice(&[0xc6, 0x00, 0x07]);
    let index = ProvinceIndex::parse(&section).unwrap();
    assert_eq!(index.offset_for(11), Ok(6));
    assert_eq!(index.offset_for(53), Ok(0x1ffff));
    assert_eq!(index.offset_for(12), Err(RegionError::NotFound));
    assert_eq!(index.offset_for(99), Err(RegionError::NotFound));
    assert_eq!(index.offset_for(0), Err(RegionError::NotFound));
}

#[test]
fn short_index_is_refused() {
    assert_eq!(ProvinceIndex::parse(&[0u8; 101]).unwrap_err(), RegionError::DecodeFailure);
    assert!(ProvinceIndex::parse(&[0u8; 200]).is_ok());
}

#[test]
fn errors_have_messages() {
    assert_eq!(RegionError::InvalidInput.message(), "region_code's length must be 6 and its characters digits");
    assert_eq!(RegionError::NotFound.message(), "cannot find record");
    assert_eq!(RegionError::IOFailure.message(), "cannot read the catalog");
    assert_eq!(RegionError::DecodeFailure.message(), "the catalog is corrupt");
}

#[test]
fn greatest_year_fits() {
    // a reserved group 0x03f and five nibbles 0xf: the greatest year of eight nibbles
    let data = [0x03u8, 0xff, 0xff, 0xff];
    assert_eq!(decode_u8_list(&data.to_vec()), (vec![], 0x03ff_ffff));
    let dict = CharacterDictionary::from_text("甲");
    assert_eq!(decode_name(&data, 0, &dict), Ok((String::new(), 0x03ff_ffff + 1980)));
    assert_eq!(decode_name(&[0x04, 0x00, 0x01], 0, &dict), Ok((String::from("甲"), 1981)));
    // a character behind a reserved group belongs to the year
    assert_eq!(decode_name(&[0x00, 0x00, 0x40], 0, &dict), Ok((String::new(), 0x40 + 1980)));
}
