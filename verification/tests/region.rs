use encoding::all::GBK;
use encoding::{EncoderTrap, Encoding};
use region_cn::dictionary::CharacterDictionary;
use region_cn::record::{
    decode_record, decode_records, read_record_header, search_block, RecordHeader,
};
use region_cn::region::Region;
use region_cn::{RegionError, RegionItem};

/// One unit of a catalog under construction: its code, its level, its name
/// without the label of the level, and the year of its retirement or 0.
#[derive(Clone, Copy)]
struct Unit {
    code: u32,
    level: u32,
    stem: &'static str,
    discard_year: u32,
}

const PROVINCES: [u32; 34] = [
    11, 12, 13, 14, 15, 21, 22, 23, 31, 32, 33, 34, 35, 36, 37, 41, 42, 43, 44, 45, 46, 50, 51, 52,
    53, 54, 61, 62, 63, 64, 65, 71, 81, 82,
];

fn unit(code: u32, level: u32, stem: &'static str, discard_year: u32) -> Unit {
    Unit { code, level, stem, discard_year }
}

fn sample_units() -> Vec<Unit> {
    vec![
        unit(110000, 3, "北京", 0),
        unit(110101, 4, "东城", 0),
        unit(110102, 4, "西城", 0),
        unit(110103, 4, "崇文", 2010),
        unit(130000, 1, "河北", 0),
        unit(130100, 3, "石家庄", 0),
        unit(130102, 4, "长安", 0),
        unit(150000, 2, "内蒙古", 0),
        unit(152500, 8, "锡林郭勒", 0),
        unit(152527, 7, "太仆寺", 0),
        unit(530000, 1, "云南", 0),
        unit(530900, 3, "临沧", 0),
        unit(530925, 6, "双江拉祜族佤族布朗族傣族", 0),
        unit(820000, 0, "澳门特别行政区", 0),
    ]
}

fn dictionary_text(units: &[Unit]) -> String {
    let mut text = String::new();
    for u in units {
        for c in u.stem.chars() {
            if !text.contains(c) {
                text.push(c);
            }
        }
    }
    text
}

fn pack_name(stem: &str, discard_year: u32, dictionary: &str) -> Vec<u8> {
    let chars: Vec<char> = dictionary.chars().collect();
    let mut nibbles: Vec<u8> = Vec::new();
    for c in stem.chars() {
        let index = 64 + chars.iter().position(|d| *d == c).unwrap() as u32;
        nibbles.push((index >> 8) as u8 & 15);
        nibbles.push((index >> 4) as u8 & 15);
        nibbles.push(index as u8 & 15);
    }
    if nibbles.len() % 2 == 1 {
        nibbles.push(0);
    }
    if discard_year != 0 {
        let past = discard_year - 1980;
        nibbles.push((past >> 4) as u8 & 15);
        nibbles.push(past as u8 & 15);
    }
    nibbles.chunks(2).map(|pair| pair[0] << 4 | pair[1]).collect()
}

fn pack_record(u: &Unit, dictionary: &str) -> Vec<u8> {
    let data = pack_name(u.stem, u.discard_year, dictionary);
    let packed = u.code << 4 | u.level;
    let mut record = vec![(4 + data.len()) as u8, (packed >> 16) as u8, (packed >> 8) as u8, packed as u8];
    record.extend(data);
    record
}

fn pack_records(units: &[Unit], dictionary: &str) -> Vec<u8> {
    let mut records = Vec::new();
    for u in units {
        records.extend(pack_record(u, dictionary));
    }
    records
}

fn build_catalog(version: i32, units: &[Unit]) -> Vec<u8> {
    let dictionary = dictionary_text(units);
    let mut records: Vec<u8> = Vec::new();
    let mut starts: Vec<(u32, u32)> = Vec::new();
    for u in units {
        let province = u.code / 10000;
        if !starts.iter().any(|s| s.0 == province) {
            starts.push((province, 6 + records.len() as u32));
        }
        records.extend(pack_record(u, &dictionary));
    }
    let index_offset = 6 + records.len() as u32;
    let mut catalog: Vec<u8> = Vec::new();
    catalog.extend(version.to_be_bytes());
    catalog.extend((index_offset as u16).to_be_bytes());
    catalog.extend(records);
    for p in PROVINCES {
        let start = starts.iter().find(|s| s.0 == p).map(|s| s.1).unwrap_or(index_offset);
        let packed = p << 17 | start;
        catalog.extend([(packed >> 16) as u8, (packed >> 8) as u8, packed as u8]);
    }
    catalog.extend(GBK.encode(&dictionary, EncoderTrap::Strict).unwrap());
    catalog
}

fn sample_catalog() -> Vec<u8> {
    build_catalog(2024092911, &sample_units())
}

fn same_answer(a: &RegionItem, b: &RegionItem) -> bool {
    a.region_code == b.region_code
        && a.name == b.name
        && a.region_slice == b.region_slice
        && a.discard_year == b.discard_year
}

#[test]
fn test_region() {
    let mut region = Region::new(sample_catalog());
    assert_eq!(region.get_version().unwrap(), "2024092911");
    let result = region.search_with_data("530925").unwrap();
    assert_eq!(result.name, "云南省临沧市双江拉祜族佤族布朗族傣族自治县");
    assert_eq!(
        result.region_slice,
        vec!["云南省", "临沧市", "双江拉祜族佤族布朗族傣族自治县",]
    );
    assert_eq!(result.discard_year, 0);
    let result = region.search_with_data("110103").unwrap();
    assert_eq!(result.name, "北京市崇文区");
    assert_eq!(result.discard_year, 2010);
    let result = region.search_with_trie("530925").unwrap();
    assert_eq!(result.name, "云南省临沧市双江拉祜族佤族布朗族傣族自治县");
    assert_eq!(result.discard_year, 0);
    let result = region.search_with_trie("110103").unwrap();
    assert_eq!(result.name, "北京市崇文区");
    assert_eq!(result.discard_year, 2010);
}

#[test]
fn both_searches_agree_on_every_unit_with_all_its_levels() {
    let mut region = Region::new(sample_catalog());
    for code in ["110000", "130000", "130100", "130102", "150000", "152500", "152527", "530000",
        "530900", "530925", "820000"]
    {
        let direct = region.search_with_data(code).unwrap();
        let walked = region.search_with_trie(code).unwrap();
        assert!(same_answer(&direct, &walked));
        assert_eq!(direct.region_code, code);
    }
}

#[test]
fn searches_agree_on_name_and_year_where_a_level_is_missing() {
    let mut region = Region::new(sample_catalog());
    let direct = region.search_with_data("110103").unwrap();
    let walked = region.search_with_trie("110103").unwrap();
    assert_eq!(direct.name, walked.name);
    assert_eq!(direct.discard_year, walked.discard_year);
    assert_eq!(direct.region_slice, vec!["北京市", "崇文区"]);
    assert_eq!(walked.region_slice, vec!["北京市", "", "崇文区"]);
}

#[test]
fn province_code_resolves_to_the_province_alone() {
    let mut region = Region::new(sample_catalog());
    let direct = region.search_with_data("530000").unwrap();
    assert_eq!(direct.region_slice, vec!["云南省"]);
    assert_eq!(direct.name, "云南省");
    let walked = region.search_with_trie("150000").unwrap();
    assert_eq!(walked.region_slice, vec!["内蒙古自治区"]);
    assert_eq!(walked.name, "内蒙古自治区");
}

#[test]
fn labels_follow_the_names() {
    let mut region = Region::new(sample_catalog());
    let found = region.search_with_data("152527").unwrap();
    assert_eq!(found.region_slice, vec!["内蒙古自治区", "锡林郭勒盟", "太仆寺旗"]);
    let found = region.search_with_data("820000").unwrap();
    assert_eq!(found.name, "澳门特别行政区");
}

#[test]
fn year_of_the_levels_above_is_not_taken_over() {
    let units = vec![unit(110000, 3, "北京", 1999), unit(110100, 3, "辖区", 2001), unit(110101, 4, "东城", 0)];
    let mut region = Region::new(build_catalog(1, &units));
    assert_eq!(region.search_with_data("110101").unwrap().discard_year, 0);
    assert_eq!(region.search_with_data("110100").unwrap().discard_year, 2001);
    assert_eq!(region.search_with_data("110000").unwrap().discard_year, 1999);
    assert_eq!(region.search_with_trie("110101").unwrap().discard_year, 0);
    assert_eq!(region.search_with_trie("110100").unwrap().discard_year, 2001);
    assert_eq!(region.search_with_trie("110000").unwrap().discard_year, 1999);
}

#[test]
fn missing_unit_resolves_to_the_levels_above_it() {
    let mut region = Region::new(sample_catalog());
    let found = region.search_with_data("130199").unwrap();
    assert_eq!(found.region_slice, vec!["河北省", "石家庄市"]);
    assert_eq!(found.discard_year, 0);
    let found = region.search_with_trie("130199").unwrap();
    assert_eq!(found.region_slice, vec!["河北省", "石家庄市"]);
}

#[test]
fn province_without_records_is_not_found() {
    let mut region = Region::new(sample_catalog());
    assert_eq!(region.search_with_data("440300").unwrap_err(), RegionError::NotFound);
    assert_eq!(region.search_with_trie("440300").unwrap_err(), RegionError::NotFound);
}

#[test]
fn code_of_no_province_is_not_found() {
    let mut region = Region::new(sample_catalog());
    assert_eq!(region.search_with_data("990101").unwrap_err(), RegionError::NotFound);
    assert_eq!(region.search_with_trie("990101").unwrap_err(), RegionError::NotFound);
    assert_eq!(region.search_with_data("000000").unwrap_err(), RegionError::NotFound);
    assert_eq!(region.search_with_trie("000000").unwrap_err(), RegionError::NotFound);
}

#[test]
fn what_is_no_code_is_invalid_input() {
    let mut region = Region::new(sample_catalog());
    for code in ["5309", "53092A", "", "5309250", "-53092", "云南省临沧市"] {
        assert_eq!(region.search_with_data(code).unwrap_err(), RegionError::InvalidInput);
        assert_eq!(region.search_with_trie(code).unwrap_err(), RegionError::InvalidInput);
    }
}

#[test]
fn invalid_input_is_told_before_the_catalog_is_decoded() {
    let mut region = Region::new(vec![1, 2, 3]);
    assert_eq!(region.search_with_data("5309").unwrap_err(), RegionError::InvalidInput);
    assert_eq!(region.search_with_trie("5309").unwrap_err(), RegionError::InvalidInput);
    assert_eq!(region.search_with_data("530925").unwrap_err(), RegionError::DecodeFailure);
    assert_eq!(region.search_with_trie("530925").unwrap_err(), RegionError::DecodeFailure);
}

#[test]
fn version_is_read_from_the_header() {
    assert_eq!(Region::new(sample_catalog()).get_version().unwrap(), "2024092911");
    assert_eq!(Region::new(build_catalog(-7, &sample_units())).get_version().unwrap(), "-7");
    assert_eq!(Region::new(vec![0, 0, 0, 9, 0, 6]).get_version().unwrap(), "9");
    assert_eq!(Region::new(vec![0, 0, 0, 9, 0]).get_version().unwrap_err(), RegionError::DecodeFailure);
    let mut region = Region::new(sample_catalog());
    assert_eq!(region.get_version().unwrap(), "2024092911");
    assert_eq!(region.get_version().unwrap(), "2024092911");
}

#[test]
fn all_records_are_decoded_in_order() {
    let mut region = Region::new(sample_catalog());
    let items = region.get_record_from_data().unwrap();
    assert_eq!(items.len(), 14);
    assert_eq!(items[0].region_code, "110000");
    assert_eq!(items[0].name, "北京市");
    assert_eq!(items[0].discard_year, 0);
    assert!(items[0].region_slice.is_empty());
    assert_eq!(items[3].region_code, "110103");
    assert_eq!(items[3].name, "崇文区");
    assert_eq!(items[3].discard_year, 2010);
    assert_eq!(items[12].region_code, "530925");
    assert_eq!(items[12].name, "双江拉祜族佤族布朗族傣族自治县");
    assert_eq!(items[13].name, "澳门特别行政区");
}

#[test]
fn type_names_are_the_labels() {
    let region = Region::new(Vec::new());
    assert_eq!(region.get_type_name(1), "省");
    assert_eq!(region.get_type_name(6), "自治县");
    assert_eq!(region.get_type_name(15), "土家族自治县");
    assert_eq!(region.get_type_name(0), "");
    assert_eq!(region.get_type_name(16), "");
    assert_eq!(region.get_type_name(-1), "");
}

#[test]
fn truncated_catalog_is_a_decode_failure() {
    let catalog = sample_catalog();
    let index_offset = u16::from_be_bytes([catalog[4], catalog[5]]) as usize;
    let mut region = Region::new(catalog[..index_offset + 101].to_vec());
    assert_eq!(region.search_with_data("530925").unwrap_err(), RegionError::DecodeFailure);
    assert_eq!(region.search_with_trie("530925").unwrap_err(), RegionError::DecodeFailure);
    assert_eq!(region.get_record_from_data().unwrap_err(), RegionError::DecodeFailure);
    assert_eq!(region.get_version().unwrap(), "2024092911");
    let mut headless = Region::new(catalog[..5].to_vec());
    assert_eq!(headless.search_with_data("530925").unwrap_err(), RegionError::DecodeFailure);
}

#[test]
fn index_inside_the_header_is_a_decode_failure() {
    let mut catalog = vec![0, 0, 0, 1, 0, 5];
    catalog.extend(vec![0u8; 200]);
    let mut region = Region::new(catalog);
    assert_eq!(region.search_with_data("530925").unwrap_err(), RegionError::DecodeFailure);
    assert_eq!(region.get_record_from_data().unwrap_err(), RegionError::DecodeFailure);
}

#[test]
fn invalid_dictionary_is_a_decode_failure() {
    let mut catalog = sample_catalog();
    catalog.push(0xff);
    let mut region = Region::new(catalog);
    assert_eq!(region.search_with_data("530925").unwrap_err(), RegionError::DecodeFailure);
    assert_eq!(region.search_with_trie("530925").unwrap_err(), RegionError::DecodeFailure);
}

#[test]
fn catalog_without_records_holds_nothing() {
    let mut region = Region::new(build_catalog(3, &[]));
    assert_eq!(region.get_record_from_data().unwrap().len(), 0);
    assert_eq!(region.search_with_data("110000").unwrap_err(), RegionError::NotFound);
    assert_eq!(region.search_with_trie("110000").unwrap_err(), RegionError::NotFound);
}

#[test]
fn block_is_searched_up_to_the_next_province() {
    let units = sample_units();
    let dictionary = dictionary_text(&units);
    let dict = CharacterDictionary::from_text(&dictionary);
    let window = pack_records(&units[4..], &dictionary);
    let found = search_block(&window, "130102", &dict).unwrap();
    assert_eq!(found.region_code, "130102");
    assert_eq!(found.region_slice, vec!["河北省", "石家庄市", "长安区"]);
    assert_eq!(found.name, "河北省石家庄市长安区");
    // the records of 53 lie behind those of 13 and 15 and are not reached
    assert_eq!(search_block(&window, "530925", &dict).unwrap_err(), RegionError::NotFound);
    assert_eq!(search_block(&[], "130102", &dict).unwrap_err(), RegionError::NotFound);
    assert_eq!(search_block(&window, "1301", &dict).unwrap_err(), RegionError::InvalidInput);
}

#[test]
fn record_cut_by_the_end_of_the_block_is_a_decode_failure() {
    let units = sample_units();
    let dictionary = dictionary_text(&units);
    let dict = CharacterDictionary::from_text(&dictionary);
    let window = pack_records(&units[4..7], &dictionary);
    assert!(search_block(&window, "130000", &dict).is_ok());
    assert_eq!(
        search_block(&window[..window.len() - 1], "130000", &dict).unwrap_err(),
        RegionError::DecodeFailure
    );
    assert_eq!(
        search_block(&window[..window.len() - 5], "130000", &dict).unwrap_err(),
        RegionError::DecodeFailure
    );
    assert_eq!(
        decode_records(&window[..window.len() - 1], &dict).unwrap_err(),
        RegionError::DecodeFailure
    );
    assert_eq!(decode_records(&window, &dict).unwrap().len(), 3);
}

#[test]
fn record_shorter_than_its_header_is_a_decode_failure() {
    let dict = CharacterDictionary::from_text("");
    // length 3, code 130000, level 1
    let record = [3u8, 0x1f, 0xbd, 0x01, 0, 0];
    assert_eq!(search_block(&record, "130000", &dict).unwrap_err(), RegionError::DecodeFailure);
    assert_eq!(decode_records(&record, &dict).unwrap_err(), RegionError::DecodeFailure);
    // code 0
    assert_eq!(decode_records(&[4u8, 0, 0, 1], &dict).unwrap_err(), RegionError::DecodeFailure);
    assert_eq!(search_block(&[4u8, 0, 0, 1], "000000", &dict).unwrap_err(), RegionError::DecodeFailure);
}

#[test]
fn only_the_names_of_matching_records_are_decoded() {
    let units = vec![unit(130000, 1, "河北", 0), unit(130100, 3, "石家庄", 0)];
    let dictionary = dictionary_text(&units);
    let window = pack_records(&units, &dictionary);
    // a dictionary that lacks the characters of the city
    let dict = CharacterDictionary::from_text("河北");
    assert_eq!(search_block(&window, "130000", &dict).unwrap().name, "河北省");
    assert_eq!(search_block(&window, "130100", &dict).unwrap_err(), RegionError::DecodeFailure);
    assert_eq!(decode_records(&window, &dict).unwrap_err(), RegionError::DecodeFailure);
}

#[test]
fn level_is_the_packed_field_modulo_the_code() {
    // code 5 with the last four bits 7: 87 modulo 5 is 2
    let record = [4u8, 0x00, 0x00, 0x57];
    assert_eq!(read_record_header(&record, 0), RecordHeader { size: 4, code: 5, level: 2 });
    assert_eq!(
        read_record_header(&[9u8, 0x00, 0x00, 0x0f], 0),
        RecordHeader { size: 9, code: 0, level: 0 }
    );
    let dict = CharacterDictionary::from_text("");
    let items = decode_records(&record, &dict).unwrap();
    assert_eq!(items[0].region_code, "5");
    assert_eq!(items[0].name, "自治区");
}

#[test]
fn block_beyond_the_data_is_empty() {
    let mut catalog = vec![0, 0, 0, 1, 0, 6];
    // every entry of the index points far behind the end
    for p in PROVINCES {
        let packed = p << 17 | 0x1ffff;
        catalog.extend([(packed >> 16) as u8, (packed >> 8) as u8, packed as u8]);
    }
    let mut region = Region::new(catalog);
    assert_eq!(region.search_with_data("110000").unwrap_err(), RegionError::NotFound);
}

#[test]
fn window_holds_four_thousand_bytes() {
    // one record of 7 bytes and 700 of 6 bytes for province 11
    let mut units: Vec<Unit> = Vec::new();
    units.push(unit(110000, 3, "北京", 0));
    for i in 1..=700u32 {
        units.push(unit(110000 + i, 4, "东", 0));
    }
    let catalog = build_catalog(1, &units);
    let mut region = Region::new(catalog);
    // the window ends inside the 667th record, so the block cannot be read to its end
    assert_eq!(region.search_with_data("110001").unwrap_err(), RegionError::DecodeFailure);
    // the prefix tree holds the units behind the window too
    assert_eq!(region.search_with_trie("110699").unwrap().region_slice, vec!["北京市", "东区", "东区"]);
    // 665 records of 6 bytes behind the first end at 3997: the header of the next is cut
    let mut fitting: Vec<Unit> = units[..666].to_vec();
    fitting.push(unit(120000, 3, "天津", 0));
    let mut region = Region::new(build_catalog(1, &fitting));
    assert_eq!(region.search_with_data("110001").unwrap_err(), RegionError::DecodeFailure);
    // 664 of them end at 3991: the next record shows that the province has ended
    let mut whole: Vec<Unit> = units[..665].to_vec();
    whole.push(unit(120000, 3, "天津", 0));
    let mut region = Region::new(build_catalog(1, &whole));
    assert_eq!(region.search_with_data("110001").unwrap().region_slice, vec!["北京市", "东区"]);
}

#[test]
fn record_is_decoded_with_its_length() {
    let units = sample_units();
    let dictionary = dictionary_text(&units);
    let dict = CharacterDictionary::from_text(&dictionary);
    let bytes = pack_records(&units[2..4], &dictionary);
    let (first, size) = decode_record(&bytes, 0, &dict).unwrap().unwrap();
    assert_eq!(first.code, 110102);
    assert_eq!(first.admin_level, 4);
    assert_eq!(first.name, "西城区");
    assert_eq!(first.discard_year, 0);
    assert_eq!(size, 7);
    let (second, size) = decode_record(&bytes, 7, &dict).unwrap().unwrap();
    assert_eq!(second.code, 110103);
    assert_eq!(second.name, "崇文区");
    assert_eq!(second.discard_year, 2010);
    assert_eq!(size, 8);
    assert!(decode_record(&bytes, 15, &dict).unwrap().is_none());
    assert!(decode_record(&bytes, 100, &dict).unwrap().is_none());
    assert_eq!(decode_record(&bytes, 12, &dict).unwrap_err(), RegionError::DecodeFailure);
    assert_eq!(decode_record(&bytes[..14], 7, &dict).unwrap_err(), RegionError::DecodeFailure);
}
