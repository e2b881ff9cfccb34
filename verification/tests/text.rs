use arbvis::text::trim;

#[test]
fn white_space_is_trimmed_at_both_ends() {
    assert_eq!(trim("  a b\r\n\t"), "a b");
    assert_eq!(trim("plain"), "plain");
    assert_eq!(trim(" \n "), "");
    assert_eq!(trim(""), "");
}

#[test]
fn white_space_outside_ascii_is_trimmed_too() {
    assert_eq!(trim("\u{a0}x\u{3000}"), "x");
    assert_eq!(trim("\u{200b}x"), "\u{200b}x");
}

#[test]
fn trimming_twice_changes_nothing() {
    let once = trim("\t two words \u{2028}");
    assert_eq!(trim(&once), once);
}

#[test]
fn every_white_space_character_is_trimmed() {
    let white = [
        9, 10, 11, 12, 13, 0x20, 0x85, 0xA0, 0x1680, 0x2000, 0x2001, 0x2002, 0x2003, 0x2004,
        0x2005, 0x2006, 0x2007, 0x2008, 0x2009, 0x200A, 0x2028, 0x2029, 0x202F, 0x205F, 0x3000,
    ];
    for n in 0..=0x10FFFFu32 {
        if let Some(c) = char::from_u32(n) {
            assert_eq!(trim(&c.to_string()).is_empty(), white.contains(&n), "{n:x}");
        }
    }
}
