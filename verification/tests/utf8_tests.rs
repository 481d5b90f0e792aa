use http_server::utf8::is_utf8;

fn agrees(bytes: &[u8]) {
    assert_eq!(is_utf8(bytes), std::str::from_utf8(bytes).is_ok(), "{:?}", bytes);
}

#[test]
fn text_is_well_formed() {
    assert!(is_utf8(b""));
    assert!(is_utf8(b"hello"));
    assert!(is_utf8("h\u{e9}llo w\u{f6}rld".as_bytes()));
    assert!(is_utf8("\u{4e16}\u{754c}".as_bytes()));
    assert!(is_utf8("\u{1f600}".as_bytes()));
    assert!(is_utf8("\u{0}\u{7f}\u{80}\u{7ff}\u{800}\u{ffff}\u{10000}\u{10ffff}".as_bytes()));
    assert!(is_utf8("\u{d7ff}\u{e000}".as_bytes()));
}

#[test]
fn stray_and_missing_bytes_are_ill_formed() {
    assert!(!is_utf8(&[0x80]));
    assert!(!is_utf8(&[0xbf]));
    assert!(!is_utf8(&[0xff]));
    assert!(!is_utf8(&[0xfe]));
    assert!(!is_utf8(&[0xc3]));
    assert!(!is_utf8(&[0xe4, 0xb8]));
    assert!(!is_utf8(&[0xf0, 0x9f, 0x98]));
    assert!(!is_utf8(&[b'a', 0xc3, b'b']));
    assert!(!is_utf8(&[0xc3, 0xa9, 0xa9]));
}

#[test]
fn overlong_forms_are_ill_formed() {
    assert!(!is_utf8(&[0xc0, 0x80]));
    assert!(!is_utf8(&[0xc1, 0xbf]));
    assert!(!is_utf8(&[0xe0, 0x80, 0x80]));
    assert!(!is_utf8(&[0xe0, 0x9f, 0xbf]));
    assert!(!is_utf8(&[0xf0, 0x80, 0x80, 0x80]));
    assert!(!is_utf8(&[0xf0, 0x8f, 0xbf, 0xbf]));
}

#[test]
fn surrogates_and_values_out_of_range_are_ill_formed() {
    assert!(!is_utf8(&[0xed, 0xa0, 0x80]));
    assert!(!is_utf8(&[0xed, 0xbf, 0xbf]));
    assert!(!is_utf8(&[0xf4, 0x90, 0x80, 0x80]));
    assert!(!is_utf8(&[0xf5, 0x80, 0x80, 0x80]));
    assert!(!is_utf8(&[0xf7, 0xbf, 0xbf, 0xbf]));
    assert!(!is_utf8(&[0xf8, 0x88, 0x80, 0x80, 0x80]));
}

#[test]
fn every_pair_of_bytes_is_judged_as_the_standard_library_does() {
    for a in 0u8..=255 {
        agrees(&[a]);
        for b in 0u8..=255 {
            agrees(&[a, b]);
        }
    }
}

#[test]
fn longer_forms_are_judged_as_the_standard_library_does() {
    let interesting = [0x00u8, 0x7f, 0x80, 0x8f, 0x90, 0x9f, 0xa0, 0xbf, 0xc0, 0xc2, 0xdf, 0xe0, 0xed, 0xef, 0xf0, 0xf4, 0xf5, 0xf7, 0xf8, 0xff];
    for a in 0xe0u8..=0xff {
        for &b in &interesting {
            for &c in &interesting {
                agrees(&[a, b, c]);
                agrees(&[b'x', a, b, c, b'y']);
                for &d in &interesting {
                    agrees(&[a, b, c, d]);
                }
            }
        }
    }
}

#[test]
fn every_character_is_well_formed() {
    let mut buffer = [0u8; 4];
    for value in (0u32..=0x10ffff).step_by(7) {
        if let Some(c) = char::from_u32(value) {
            assert!(is_utf8(c.encode_utf8(&mut buffer).as_bytes()), "{:x}", value);
        }
    }
}
