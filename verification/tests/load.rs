//! Tests for building a whole map from an ordered sequence of lines.

use numa_maps::NumaMap;
use numa_maps::Property;

#[test]
fn one_range_per_line_with_a_valid_address_in_order() {
    let lines = vec![
        "55655c223000 default file=/usr/bin/cat mapped=2".to_string(),
        "not-an-address default anon=1".to_string(),
        "7fffbaf86000 default".to_string(),
        "".to_string(),
        "7fffbaf8a000 default stack anon=3".to_string(),
        "7fffbaf8a000".to_string(),
    ];
    let map = NumaMap::from_lines(&lines);
    assert_eq!(map.ranges.len(), 3);
    assert_eq!(map.ranges[0].address, 93893825802240);
    assert_eq!(map.ranges[1].address, 140736330227712);
    assert_eq!(map.ranges[2].address, 140736330244096);
    assert_eq!(
        map.ranges[2].properties,
        vec![Property::Stack, Property::Anon(3)]
    );
}

#[test]
fn no_lines_no_ranges() {
    let map = NumaMap::from_lines(&Vec::new());
    assert_eq!(map.ranges.len(), 0);
}

#[test]
fn all_invalid_lines_yield_an_empty_map() {
    let lines = vec![
        "".to_string(),
        "policy-only".to_string(),
        "ghij default".to_string(),
    ];
    let map = NumaMap::from_lines(&lines);
    assert_eq!(map.ranges.len(), 0);
}

#[test]
fn default_map_is_empty() {
    let map = NumaMap::default();
    assert_eq!(map.ranges.len(), 0);
}
