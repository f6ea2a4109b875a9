use region_cn::trie::{RegionNameItem, RegionNode, RegionTrie};
use region_cn::RegionError;

fn sample_tree() -> RegionTrie {
    let mut tree = RegionTrie::new();
    tree.insert(String::from("110000"), String::from("北京市"), 0);
    tree.insert(String::from("110101"), String::from("东城区"), 0);
    tree.insert(String::from("110102"), String::from("西城区"), 0);
    tree.insert(String::from("110103"), String::from("崇文区"), 2010);
    tree.insert(String::from("110105"), String::from("朝阳区"), 0);
    tree.insert(String::from("130000"), String::from("河北省"), 0);
    tree.insert(String::from("130100"), String::from("石家庄市"), 0);
    tree.insert(String::from("130102"), String::from("长安区"), 0);
    tree.insert(String::from("130104"), String::from("桥西区"), 0);
    tree
}

#[test]
fn test_region_trie() {
    let mut tree = RegionTrie::new();
    tree.insert(String::from("110000"), String::from("北京市"), 0);
    tree.insert(String::from("110101"), String::from("东城区"), 0);
    tree.insert(String::from("110102"), String::from("西城区"), 0);
    tree.insert(String::from("110103"), String::from("崇文区"), 2010);
    tree.insert(String::from("110105"), String::from("朝阳区"), 0);
    tree.insert(String::from("130000"), String::from("河北省"), 0);
    tree.insert(String::from("130100"), String::from("石家庄市"), 0);
    tree.insert(String::from("130102"), String::from("长安区"), 0);
    tree.insert(String::from("130104"), String::from("桥西区"), 0);
    assert_eq!(tree.search("110000").unwrap().name, String::from("北京市"));
    assert_eq!(
        tree.search("110101").unwrap().name,
        String::from("北京市东城区")
    );
    assert_eq!(tree.search("110101").unwrap().discard_year, 0,);
    assert_eq!(
        tree.search("110103").unwrap().name,
        String::from("北京市崇文区")
    );
    assert_eq!(tree.search("110103").unwrap().discard_year, 2010,);
    assert_eq!(tree.search("130000").unwrap().name, String::from("河北省"));
    assert_eq!(
        tree.search("130100").unwrap().name,
        String::from("河北省石家庄市")
    );
    assert_eq!(
        tree.search("130102").unwrap().name,
        String::from("河北省石家庄市长安区")
    );
}

#[test]
fn search_reports_every_level_passed() {
    let tree = sample_tree();
    let found = tree.search("130102").unwrap();
    assert_eq!(found.region_code, "130102");
    assert_eq!(found.region_slice, vec!["河北省", "石家庄市", "长安区"]);
    assert_eq!(found.name, "河北省石家庄市长安区");
    assert_eq!(found.discard_year, 0);
}

#[test]
fn node_made_on_the_way_has_an_empty_name() {
    let tree = sample_tree();
    let found = tree.search("110103").unwrap();
    assert_eq!(found.region_slice, vec!["北京市", "", "崇文区"]);
    assert_eq!(found.name, "北京市崇文区");
    assert_eq!(found.discard_year, 2010);
    let city = tree.search("110100").unwrap();
    assert_eq!(city.region_slice, vec!["北京市", ""]);
    assert_eq!(city.discard_year, 0);
}

#[test]
fn province_code_gives_one_level() {
    let tree = sample_tree();
    let found = tree.search("130000").unwrap();
    assert_eq!(found.region_slice, vec!["河北省"]);
    assert_eq!(found.name, "河北省");
}

#[test]
fn insert_then_search_counts_the_segments() {
    let mut tree = RegionTrie::new();
    tree.insert(String::from("530925"), String::from("双江"), 1999);
    let found = tree.search("530925").unwrap();
    assert_eq!(found.region_slice.len(), 3);
    assert_eq!(found.region_slice, vec!["", "", "双江"]);
    assert_eq!(found.discard_year, 1999);
    tree.insert(String::from("440300"), String::from("深圳市"), 0);
    assert_eq!(tree.search("440300").unwrap().region_slice.len(), 2);
    tree.insert(String::from("650000"), String::from("新疆"), 0);
    assert_eq!(tree.search("650000").unwrap().region_slice.len(), 1);
}

#[test]
fn first_insertion_of_a_code_stays() {
    let mut tree = RegionTrie::new();
    tree.insert(String::from("110000"), String::from("北京市"), 0);
    tree.insert(String::from("110000"), String::from("北平"), 1949);
    let found = tree.search("110000").unwrap();
    assert_eq!(found.name, "北京市");
    assert_eq!(found.discard_year, 0);
}

#[test]
fn parent_inserted_after_child_takes_its_node() {
    let mut tree = RegionTrie::new();
    tree.insert(String::from("110101"), String::from("东城区"), 0);
    assert_eq!(tree.search("110000").unwrap().name, "");
    tree.insert(String::from("110000"), String::from("北京市"), 0);
    assert_eq!(tree.search("110000").unwrap().name, "北京市");
    let found = tree.search("110101").unwrap();
    assert_eq!(found.name, "北京市东城区");
    assert_eq!(found.region_slice, vec!["北京市", "", "东城区"]);
    tree.insert(String::from("110100"), String::from("市辖区"), 1999);
    let found = tree.search("110101").unwrap();
    assert_eq!(found.region_slice, vec!["北京市", "市辖区", "东城区"]);
    assert_eq!(found.discard_year, 0);
    assert_eq!(tree.search("110100").unwrap().discard_year, 1999);
}

#[test]
fn order_of_insertion_does_not_change_the_answers() {
    let units = [
        ("130000", "河北省", 0),
        ("130100", "石家庄市", 0),
        ("130102", "长安区", 0),
        ("130104", "桥西区", 2001),
    ];
    let mut forward = RegionTrie::new();
    for (code, name, year) in units {
        forward.insert(String::from(code), String::from(name), year);
    }
    let mut backward = RegionTrie::new();
    for (code, name, year) in units.iter().rev() {
        backward.insert(String::from(*code), String::from(*name), *year);
    }
    for (code, _, _) in units {
        let a = forward.search(code).unwrap();
        let b = backward.search(code).unwrap();
        assert_eq!(a.name, b.name);
        assert_eq!(a.region_slice, b.region_slice);
        assert_eq!(a.discard_year, b.discard_year);
    }
    assert_eq!(backward.search("130104").unwrap().name, "河北省石家庄市桥西区");
    assert_eq!(backward.search("130104").unwrap().discard_year, 2001);
}

#[test]
fn unit_with_an_empty_name_is_kept_like_any_other() {
    let mut tree = RegionTrie::new();
    tree.insert(String::from("110000"), String::new(), 0);
    tree.insert(String::from("110000"), String::from("北京市"), 0);
    assert_eq!(tree.search("110000").unwrap().name, "");
}

#[test]
fn search_stops_where_the_tree_ends() {
    let tree = sample_tree();
    let found = tree.search("130199").unwrap();
    assert_eq!(found.region_slice, vec!["河北省", "石家庄市"]);
    assert_eq!(found.name, "河北省石家庄市");
    assert_eq!(found.discard_year, 0);
}

#[test]
fn unknown_province_is_not_found() {
    let tree = sample_tree();
    assert_eq!(tree.search("990101").unwrap_err(), RegionError::NotFound);
    assert_eq!(tree.search("000000").unwrap_err(), RegionError::NotFound);
    assert_eq!(RegionTrie::new().search("110000").unwrap_err(), RegionError::NotFound);
    assert_eq!(RegionTrie::default().search("110000").unwrap_err(), RegionError::NotFound);
}

#[test]
fn search_refuses_what_is_no_code() {
    let tree = sample_tree();
    assert_eq!(tree.search("5309").unwrap_err(), RegionError::InvalidInput);
    assert_eq!(tree.search("53092A").unwrap_err(), RegionError::InvalidInput);
    assert_eq!(tree.search("").unwrap_err(), RegionError::InvalidInput);
    assert_eq!(tree.search("1100000").unwrap_err(), RegionError::InvalidInput);
    assert_eq!(tree.search("北京市东城区").unwrap_err(), RegionError::InvalidInput);
    assert_eq!(tree.search("+11000").unwrap_err(), RegionError::InvalidInput);
}

#[test]
fn insert_ignores_what_is_no_code() {
    let mut tree = RegionTrie::new();
    tree.insert(String::from("11"), String::from("北京市"), 0);
    tree.insert(String::from("11000A"), String::from("北京市"), 0);
    tree.insert(String::from("000000"), String::from("无"), 0);
    assert_eq!(tree.search("110000").unwrap_err(), RegionError::NotFound);
}

#[test]
fn zero_segment_in_the_middle_is_skipped_by_search_only() {
    let mut tree = RegionTrie::new();
    tree.insert(String::from("110000"), String::from("北京市"), 0);
    tree.insert(String::from("110010"), String::from("甲"), 0);
    tree.insert(String::from("111000"), String::from("乙"), 0);
    let found = tree.search("110010").unwrap();
    assert_eq!(found.region_slice, vec!["北京市", "乙"]);
}

#[test]
fn copy_of_a_tree_is_its_own() {
    let tree = sample_tree();
    let mut copy = tree.clone();
    copy.insert(String::from("140000"), String::from("山西省"), 0);
    assert_eq!(copy.search("140000").unwrap().name, "山西省");
    assert_eq!(tree.search("140000").unwrap_err(), RegionError::NotFound);
    for code in ["110000", "110103", "130102", "130199"] {
        let ours = tree.search(code).unwrap();
        let theirs = copy.search(code).unwrap();
        assert_eq!(ours.name, theirs.name);
        assert_eq!(ours.region_slice, theirs.region_slice);
        assert_eq!(ours.discard_year, theirs.discard_year);
    }
}

#[test]
fn nodes_and_items_are_made_and_copied() {
    let item = RegionNameItem::new(String::from("崇文区"), 2010);
    let shown = format!("{:?}", item.clone());
    assert!(shown.contains("崇文区"));
    assert!(shown.contains("2010"));
    let empty = format!("{:?}", RegionNameItem::default());
    assert!(empty.contains("\"\""));
    let node = RegionNode::new(item);
    let shown = format!("{:?}", node.clone());
    assert!(shown.contains("崇文区"));
    assert!(shown.contains("children: {}"));
    let vacant = format!("{:?}", RegionNode::vacant());
    assert!(vacant.contains("item: None"));
}
