//! Tests for parsing whole `numa_maps` lines.

use numa_maps::ParseError;
use numa_maps::Property;
use numa_maps::Range;

#[test]
fn full_line_parses_with_all_properties_in_order() {
    let line = "55655c223000 default file=/usr/bin/cat mapped=2 mapmax=3 active=0 N0=2 kernelpagesize_kB=4";
    let range = Range::parse(line).unwrap();
    let expected = Range {
        address: 93893825802240,
        policy: "default".to_string(),
        properties: vec![
            Property::File("/usr/bin/cat".to_string()),
            Property::Mapped(2),
            Property::MapMax(3),
            Property::Active(0),
            Property::N(0, 2),
            Property::Kernelpagesize(4096),
        ],
    };
    assert_eq!(range, expected);
}

#[test]
fn address_and_policy_alone_parse_to_an_empty_property_list() {
    let range = Range::parse("7fffbaf86000 default").unwrap();
    assert_eq!(range.address, 140736330227712);
    assert_eq!(range.policy, "default");
    assert_eq!(range.properties, vec![]);
}

#[test]
fn lines_without_a_parseable_address_yield_no_range() {
    assert_eq!(Range::parse(""), None);
    assert_eq!(Range::parse("   "), None);
    assert_eq!(Range::parse("zzz default anon=1"), None);
    assert_eq!(Range::parse("12x4 default"), None);
    assert_eq!(Range::parse("-7fff default"), None);
    // an address too large for usize is also unparseable
    assert_eq!(Range::parse("fffffffffffffffff default"), None);
}

#[test]
fn lines_without_a_policy_yield_no_range() {
    assert_eq!(Range::parse("7fffbaf86000"), None);
    assert_eq!(Range::parse("  7fffbaf86000  "), None);
}

#[test]
fn malformed_properties_are_skipped_not_fatal() {
    let line = "7fffbaf86000 default anon=5 bogus dirty=oops N0=2";
    let (range, errors) = Range::parse_with_errors(line);
    let range = range.unwrap();
    assert_eq!(
        range.properties,
        vec![Property::Anon(5), Property::N(0, 2)]
    );
    assert_eq!(
        errors,
        vec![
            ParseError::UnknownKey("bogus".to_string()),
            ParseError::BadValue("dirty".to_string(), "oops".to_string()),
        ]
    );
}

#[test]
fn tokens_split_on_arbitrary_whitespace() {
    let range = Range::parse("\t7fffbaf86000   default\tanon=1 \r").unwrap();
    assert_eq!(range.address, 140736330227712);
    assert_eq!(range.policy, "default");
    assert_eq!(range.properties, vec![Property::Anon(1)]);
}

#[test]
fn policy_is_taken_verbatim() {
    let range = Range::parse("1000 interleave:0-3").unwrap();
    assert_eq!(range.address, 0x1000);
    assert_eq!(range.policy, "interleave:0-3");
}
