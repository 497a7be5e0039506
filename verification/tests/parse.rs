//! Tests for parsing single `key` and `key=value` tokens.

use numa_maps::ParseError;
use numa_maps::Property;

#[test]
fn parses_every_recognized_key() {
    assert_eq!(
        Property::parse("file=/usr/bin/cat"),
        Ok(Property::File("/usr/bin/cat".to_string()))
    );
    assert_eq!(Property::parse("N0=2"), Ok(Property::N(0, 2)));
    assert_eq!(Property::parse("N12=345"), Ok(Property::N(12, 345)));
    assert_eq!(Property::parse("heap"), Ok(Property::Heap));
    assert_eq!(Property::parse("stack"), Ok(Property::Stack));
    assert_eq!(Property::parse("huge"), Ok(Property::Huge));
    assert_eq!(Property::parse("anon=5"), Ok(Property::Anon(5)));
    assert_eq!(Property::parse("dirty=7"), Ok(Property::Dirty(7)));
    assert_eq!(Property::parse("mapped=94"), Ok(Property::Mapped(94)));
    assert_eq!(Property::parse("mapmax=138"), Ok(Property::MapMax(138)));
    assert_eq!(Property::parse("swapcache=3"), Ok(Property::SwapCache(3)));
    assert_eq!(Property::parse("active=1"), Ok(Property::Active(1)));
    assert_eq!(Property::parse("writeback=0"), Ok(Property::Writeback(0)));
    assert_eq!(
        Property::parse("kernelpagesize_kB=4"),
        Ok(Property::Kernelpagesize(4096))
    );
}

#[test]
fn token_round_trip_for_the_whole_table() {
    let tokens = [
        "file=/usr/lib/locale/locale-archive",
        "N0=2",
        "N3=17",
        "heap",
        "stack",
        "huge",
        "anon=5",
        "dirty=5",
        "mapped=2",
        "mapmax=3",
        "swapcache=0",
        "active=1",
        "writeback=0",
        "kernelpagesize_kB=4",
    ];
    for token in tokens {
        let property = Property::parse(token).unwrap();
        let rederived = property.to_token();
        assert_eq!(rederived, token);
        assert_eq!(Property::parse(&rederived), Ok(property));
    }
}

#[test]
fn round_trip_normalizes_leading_zeros() {
    let property = Property::parse("N007=042").unwrap();
    assert_eq!(property, Property::N(7, 42));
    assert_eq!(property.to_token(), "N7=42");
    assert_eq!(Property::parse("anon=000").unwrap().to_token(), "anon=0");
}

#[test]
fn bare_keyword_values_are_ignored() {
    assert_eq!(Property::parse("heap=anything"), Ok(Property::Heap));
    assert_eq!(Property::parse("stack=3"), Ok(Property::Stack));
    assert_eq!(Property::parse("huge="), Ok(Property::Huge));
}

#[test]
fn unknown_keys_are_reported() {
    assert_eq!(
        Property::parse("swap"),
        Err(ParseError::UnknownKey("swap".to_string()))
    );
    assert_eq!(
        Property::parse("swap=12"),
        Err(ParseError::UnknownPair("swap".to_string(), "12".to_string()))
    );
    assert_eq!(
        Property::parse("anon"),
        Err(ParseError::UnknownKey("anon".to_string()))
    );
    assert_eq!(
        Property::parse("file"),
        Err(ParseError::UnknownKey("file".to_string()))
    );
}

#[test]
fn malformed_numbers_are_reported() {
    assert_eq!(
        Property::parse("anon=five"),
        Err(ParseError::BadValue("anon".to_string(), "five".to_string()))
    );
    assert_eq!(
        Property::parse("anon="),
        Err(ParseError::BadValue("anon".to_string(), "".to_string()))
    );
    assert_eq!(
        Property::parse("anon=-1"),
        Err(ParseError::BadValue("anon".to_string(), "-1".to_string()))
    );
    assert_eq!(
        Property::parse("N=5"),
        Err(ParseError::BadNode("N".to_string(), "5".to_string()))
    );
    assert_eq!(
        Property::parse("Nx=5"),
        Err(ParseError::BadNode("Nx".to_string(), "5".to_string()))
    );
    assert_eq!(
        Property::parse("N0=x"),
        Err(ParseError::BadValue("N0".to_string(), "x".to_string()))
    );
    assert_eq!(
        Property::parse("kernelpagesize_kB=big"),
        Err(ParseError::BadValue(
            "kernelpagesize_kB".to_string(),
            "big".to_string()
        ))
    );
}

#[test]
fn messages_name_the_offending_text() {
    let e = Property::parse("swap").unwrap_err();
    assert_eq!(e.message(), "unrecognized key: swap");
    let e = Property::parse("swap=12").unwrap_err();
    assert_eq!(e.message(), "unrecognized key/value: swap=12");
    let e = Property::parse("Nx=5").unwrap_err();
    assert_eq!(e.message(), "malformed node index: Nx=5");
    let e = Property::parse("anon=five").unwrap_err();
    assert_eq!(e.message(), "malformed value: anon=five");
}

#[test]
fn file_value_is_stored_verbatim() {
    assert_eq!(
        Property::parse("file=/tmp/with=equals"),
        Ok(Property::File("/tmp/with=equals".to_string()))
    );
    assert_eq!(Property::parse("file="), Ok(Property::File(String::new())));
}

#[test]
fn page_size_is_present_only_for_the_page_size_property() {
    assert_eq!(Property::Kernelpagesize(4096).page_size(), Some(4096));
    assert_eq!(Property::Anon(4096).page_size(), None);
    assert_eq!(Property::Heap.page_size(), None);
    assert_eq!(Property::MapMax(3).page_size(), None);
}

#[test]
fn unsigned_number_parsing_is_exact() {
    assert_eq!(numa_maps::parse_dec_usize("0"), Some(0));
    assert_eq!(numa_maps::parse_dec_usize("1024"), Some(1024));
    assert_eq!(numa_maps::parse_dec_usize(""), None);
    assert_eq!(numa_maps::parse_dec_usize("12a"), None);
    assert_eq!(numa_maps::parse_dec_usize("-3"), None);
    assert_eq!(numa_maps::parse_dec_usize("18446744073709551615"), Some(usize::MAX));
    assert_eq!(numa_maps::parse_dec_usize("18446744073709551616"), None);
    assert_eq!(numa_maps::parse_hex_usize("7fbd0c10f000"), Some(0x7fbd0c10f000));
    assert_eq!(numa_maps::parse_hex_usize("FF"), Some(255));
    assert_eq!(numa_maps::parse_hex_usize("ff"), Some(255));
    assert_eq!(numa_maps::parse_hex_usize(""), None);
    assert_eq!(numa_maps::parse_hex_usize("0x10"), None);
}

#[test]
fn kernel_page_size_is_stored_in_bytes() {
    assert_eq!(
        Property::parse("kernelpagesize_kB=2048"),
        Ok(Property::Kernelpagesize(2048 * 1024))
    );
    // the stored byte count wraps at the width of usize
    assert_eq!(
        Property::parse("kernelpagesize_kB=18014398509481985"),
        Ok(Property::Kernelpagesize(1024))
    );
}
