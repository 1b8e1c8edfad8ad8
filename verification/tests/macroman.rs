use macfs::macroman::{decode, encode, eq_ignore_case, HIGH};

#[test]
fn round_trip_all_bytes() {
    for b in 0u8..=0xFF {
        let s = decode(&[b]);
        assert_eq!(s.chars().count(), 1, "byte {b:#04x} decoded to {s:?}");
        let back = encode(&s).unwrap_or_else(|c| panic!("byte {b:#04x} -> {c:?} unmappable"));
        assert_eq!(back, vec![b], "byte {b:#04x} did not round-trip");
    }
}

#[test]
fn table_is_a_bijection() {
    let mut sorted = HIGH;
    sorted.sort_unstable();
    for w in sorted.windows(2) {
        assert_ne!(w[0], w[1], "duplicate entry {:?} in MacRoman table", w[0]);
    }
}

#[test]
fn known_pairs() {
    assert_eq!(decode(&[0x80]), "Ä");
    assert_eq!(decode(&[0x8E]), "é");
    assert_eq!(decode(&[0xA5]), "\u{2022}"); // bullet
    assert_eq!(decode(&[0xAA]), "™");
    assert_eq!(decode(&[0xB9]), "π");
    assert_eq!(decode(&[0xC9]), "\u{2026}"); // ellipsis
    assert_eq!(decode(&[0xCA]), "\u{00A0}"); // no-break space
    assert_eq!(decode(&[0xD0]), "\u{2013}"); // en dash
    assert_eq!(decode(&[0xD5]), "\u{2019}"); // right single quote
    assert_eq!(decode(&[0xF0]), "\u{F8FF}"); // Apple logo

    assert_eq!(encode("Ä").unwrap(), vec![0x80]);
    assert_eq!(encode("é").unwrap(), vec![0x8E]);
    assert_eq!(encode("\u{2022}").unwrap(), vec![0xA5]);
}

#[test]
fn ascii_passthrough() {
    assert_eq!(decode(b"System Folder"), "System Folder");
    assert_eq!(encode("System Folder").unwrap(), b"System Folder".to_vec());
    assert_eq!(decode(&[]), "");
    assert_eq!(encode("").unwrap(), Vec::<u8>::new());
}

#[test]
fn mixed_string() {
    let bytes = [b'C', b'a', b'f', 0x8E, b' ', 0xA5, b'!'];
    assert_eq!(decode(&bytes), "Café \u{2022}!");
    assert_eq!(encode("Café \u{2022}!").unwrap(), bytes.to_vec());
}

#[test]
fn encode_rejects_unmappable() {
    assert_eq!(encode("\u{224B}"), Err('\u{224B}')); // ≋
    assert_eq!(encode("你好"), Err('你'));
    // The bad character is reported even when it comes after good ones.
    assert_eq!(encode("Café 你"), Err('你'));
}

#[test]
fn case_insensitive_compare() {
    assert!(eq_ignore_case("readme", "README"));
    assert!(eq_ignore_case("ReadMe", "rEADmE"));
    assert!(eq_ignore_case("café", "CAFÉ"));
    assert!(eq_ignore_case("Ångström", "ÅNGSTRÖM"));
    assert!(eq_ignore_case("", ""));
    assert!(!eq_ignore_case("readme", "read me"));
    assert!(!eq_ignore_case("café", "cafe"));
}
