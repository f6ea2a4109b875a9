use region_cn::utils::{delimiter_at, split_by_utf8_delimiter};

#[test]
fn test_split_by_utf8_delimiter() {
    let data = vec![1, 2, 3, 4, 5, 6, 2, 3, 6, 7, 9];
    // [[1], [4, 5, 6], [6, 7, 9]]
    assert_eq!(
        split_by_utf8_delimiter(data, &[2, 3]),
        vec![vec![1], vec![4, 5, 6], vec![6, 7, 9]]
    );
}

#[test]
fn split_keeps_empty_pieces_but_not_an_empty_end() {
    assert_eq!(split_by_utf8_delimiter(vec![0, 1, 0, 0, 2, 0], &[0]), vec![
        vec![],
        vec![1],
        vec![],
        vec![2]
    ]);
    assert_eq!(split_by_utf8_delimiter(vec![7, 8], &[7, 8]), vec![Vec::<u8>::new()]);
}

#[test]
fn split_without_delimiter_gives_the_whole() {
    assert_eq!(split_by_utf8_delimiter(vec![1, 2, 3], &[9]), vec![vec![1, 2, 3]]);
    assert_eq!(split_by_utf8_delimiter(vec![1, 2], &[1, 2, 3]), vec![vec![1, 2]]);
    assert_eq!(split_by_utf8_delimiter(vec![], &[1]), Vec::<Vec<u8>>::new());
}

#[test]
fn split_at_occurrences_that_touch() {
    assert_eq!(split_by_utf8_delimiter(vec![2, 3, 2, 3, 5], &[2, 3]), vec![
        vec![],
        vec![],
        vec![5]
    ]);
    assert_eq!(split_by_utf8_delimiter(vec![1, 9, 9, 9], &[9]), vec![vec![1], vec![], vec![]]);
}

#[test]
fn split_at_a_multibyte_character() {
    let text = "云南省，临沧市，双江".as_bytes().to_vec();
    let pieces = split_by_utf8_delimiter(text, "，".as_bytes());
    assert_eq!(pieces, vec![
        "云南省".as_bytes().to_vec(),
        "临沧市".as_bytes().to_vec(),
        "双江".as_bytes().to_vec()
    ]);
}

#[test]
fn delimiter_is_found_where_it_stands() {
    assert!(delimiter_at(&[1, 2, 3, 4], &[2, 3], 1));
    assert!(!delimiter_at(&[1, 2, 3, 4], &[2, 3], 0));
    assert!(!delimiter_at(&[1, 2, 3, 4], &[2, 3], 2));
}
