//! Tests for normalizing a range's property list.

use numa_maps::Property;
use numa_maps::Range;

#[test]
fn test_normalize() {
    let line = "7fbd0c10f000 default anon=5 dirty=5 active=1 N0=5 kernelpagesize_kB=4";
    let mut range = Range::parse(line).unwrap();
    range.normalize();
    range.properties.sort();
    let expected = vec![
        Property::N(0, 5 << 12),
        Property::Anon(5 << 12),
        Property::Dirty(5 << 12),
        Property::Active(1 << 12),
    ];
    assert_eq!(&expected, &range.properties);
}

#[test]
fn normalize_scales_counters_and_drops_the_page_size() {
    let line = "7fbd0c10f000 default anon=5 dirty=5 active=1 N0=5 kernelpagesize_kB=4";
    let mut range = Range::parse(line).unwrap();
    range.normalize();
    assert_eq!(
        range.properties,
        vec![
            Property::N(0, 20480),
            Property::Anon(20480),
            Property::Dirty(20480),
            Property::Active(4096),
        ]
    );
    assert!(range.properties.iter().all(|p| p.page_size().is_none()));
}

#[test]
fn normalize_without_a_page_size_changes_nothing() {
    let line = "7fbd0c10f000 default dirty=3 anon=5 mapmax=2";
    let mut range = Range::parse(line).unwrap();
    let before = Range::parse(line).unwrap();
    range.normalize();
    assert_eq!(range, before);
}

#[test]
fn normalize_twice_changes_nothing_more() {
    let line = "7fbd0c10f000 default anon=5 N0=5 kernelpagesize_kB=4";
    let mut range = Range::parse(line).unwrap();
    range.normalize();
    let once = Range {
        address: range.address,
        policy: range.policy.clone(),
        properties: range.properties.clone(),
    };
    range.normalize();
    assert_eq!(range, once);
}

#[test]
fn mapmax_is_never_scaled() {
    let line = "7fbd0c10f000 default mapmax=3 mapped=2 N0=2 kernelpagesize_kB=2048";
    let mut range = Range::parse(line).unwrap();
    range.normalize();
    assert_eq!(
        range.properties,
        vec![
            Property::N(0, 2 * 2048 * 1024),
            Property::Mapped(2 * 2048 * 1024),
            Property::MapMax(3),
        ]
    );
}

#[test]
fn normalize_sorts_into_the_canonical_order() {
    let line = "7fbd0c10f000 default active=1 anon=5 N0=5 dirty=5 kernelpagesize_kB=4";
    let mut range = Range::parse(line).unwrap();
    range.normalize();
    assert_eq!(
        range.properties,
        vec![
            Property::N(0, 20480),
            Property::Anon(20480),
            Property::Dirty(20480),
            Property::Active(4096),
        ]
    );
}

#[test]
fn property_normalize_scales_by_the_page_size() {
    assert_eq!(
        Property::Anon(5).normalize(4096),
        Some(Property::Anon(20480))
    );
    assert_eq!(Property::N(1, 3).normalize(4096), Some(Property::N(1, 12288)));
    assert_eq!(Property::MapMax(7).normalize(4096), Some(Property::MapMax(7)));
    assert_eq!(
        Property::File("/usr/bin/cat".to_string()).normalize(4096),
        Some(Property::File("/usr/bin/cat".to_string()))
    );
    assert_eq!(Property::Heap.normalize(4096), Some(Property::Heap));
    assert_eq!(Property::Kernelpagesize(4096).normalize(4096), None);
}
