use router::ids::parse_reach_key;
use router::ids::qlat_file_name;
use router::ids::reach_key;

#[test]
fn parses_plain_keys() {
    assert_eq!(parse_reach_key("wb-4175"), Some(4175));
    assert_eq!(parse_reach_key("wb-0"), Some(0));
    assert_eq!(parse_reach_key("cat-88"), Some(88));
    assert_eq!(parse_reach_key("-7"), Some(7));
}

#[test]
fn takes_the_segment_between_the_first_two_dashes() {
    assert_eq!(parse_reach_key("wb-12-34"), Some(12));
    assert_eq!(parse_reach_key("a-1-b-2"), Some(1));
}

#[test]
fn rejects_malformed_keys() {
    assert_eq!(parse_reach_key("wb4175"), None);
    assert_eq!(parse_reach_key("wb-"), None);
    assert_eq!(parse_reach_key("wb--5"), None);
    assert_eq!(parse_reach_key("wb-12a"), None);
    assert_eq!(parse_reach_key("wb-+5"), None);
    assert_eq!(parse_reach_key(""), None);
}

#[test]
fn rejects_ids_that_do_not_fit() {
    assert_eq!(parse_reach_key("wb-4294967295"), Some(u32::MAX));
    assert_eq!(parse_reach_key("wb-4294967296"), None);
    assert_eq!(parse_reach_key("wb-99999999999999999999"), None);
}

#[test]
fn prints_keys_and_file_names() {
    assert_eq!(reach_key(0), "wb-0");
    assert_eq!(reach_key(4175), "wb-4175");
    assert_eq!(reach_key(u32::MAX), "wb-4294967295");
    assert_eq!(qlat_file_name(88), "cat-88.csv");
    assert_eq!(qlat_file_name(10230), "cat-10230.csv");
}

#[test]
fn printing_then_parsing_round_trips() {
    for id in [0u32, 1, 9, 10, 4175, 123456789, u32::MAX] {
        assert_eq!(parse_reach_key(&reach_key(id)), Some(id));
    }
}
