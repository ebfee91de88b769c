use xon::text::{
    contains, ends_with, eq_ignore_ascii_case, has_char, split, starts_with, to_ascii_lowercase,
    to_decimal, to_hex4, to_lowercase, trim, white_space,
};
use xon::textmap::TextMap;

#[test]
fn lowercase_follows_unicode() {
    for s in ["", "HELLO World 9", "ÄÖÜ Straße", "ὈΔΥΣΣΕΎΣ", "计算器 ABC", "İ"] {
        assert_eq!(to_lowercase(s), s.to_lowercase());
        assert_eq!(to_ascii_lowercase(s), s.to_ascii_lowercase());
    }
    assert_eq!(to_lowercase("UnInstall"), "uninstall");
    assert_eq!(to_lowercase("ÀB"), "àb");
}

#[test]
fn white_space_is_that_of_unicode() {
    for c in '\u{0}'..=char::MAX {
        assert_eq!(white_space(c), c.is_whitespace());
    }
}

#[test]
fn trimming_takes_white_space_off_both_ends() {
    for s in ["", "  ", " a b ", "\u{3000}微信\t\n", "x", "\u{200b}x\u{200b}"] {
        assert_eq!(trim(s), s.trim());
    }
}

#[test]
fn texts_are_searched() {
    for s in ["", "a", "aab", "aabaab", "卸载程序"] {
        for part in ["", "a", "ab", "aab", "载程", "aabaabx"] {
            assert_eq!(contains(s, part), s.contains(part), "{s} {part}");
            assert_eq!(starts_with(s, part), s.starts_with(part), "{s} {part}");
            assert_eq!(ends_with(s, part), s.ends_with(part), "{s} {part}");
        }
        assert_eq!(has_char(s, 'b'), s.contains('b'));
    }
}

#[test]
fn splitting_keeps_empty_pieces() {
    for s in ["", ";", "a;b", ";a;;b;"] {
        let pieces: Vec<&str> = s.split(';').collect();
        assert_eq!(split(s, ';'), pieces);
    }
}

#[test]
fn case_is_ignored_for_ascii_only() {
    assert!(eq_ignore_ascii_case("PowerShell", "pOWERsHELL"));
    assert!(!eq_ignore_ascii_case("Ä", "ä"));
    assert!(!eq_ignore_ascii_case("a", "ab"));
}

#[test]
fn numbers_are_written_out() {
    for n in [0, 7, 10, 32, -1, 1223, i64::MAX, i64::MIN] {
        assert_eq!(to_decimal(n), n.to_string());
    }
    for n in [0, 0x9, 0x4b0, 0x804, 0xffff] {
        assert_eq!(to_hex4(n), format!("{n:04x}"));
    }
    assert_eq!(to_hex4(0x4b0), "04b0");
}

#[test]
fn a_text_map_keeps_one_value_a_key() {
    let mut m: TextMap<u32> = TextMap::new();
    m.insert("a", 1);
    m.insert("b", 2);
    m.insert("a", 3);
    assert_eq!(m.len(), 2);
    assert_eq!(m.get("a"), Some(&3));
    assert_eq!(m.get("c"), None);
    assert_eq!((m.key_at(1).as_str(), *m.value_at(1)), ("b", 2));
    m.remove_at(0);
    assert!(!m.contains_key("a"));
    assert_eq!(m.len(), 1);
}

#[test]
fn han_characters_know_no_case() {
    for c in ('\u{0}'..='\u{7f}').chain('\u{4e00}'..='\u{9fff}') {
        let s = format!("A{c}b");
        assert_eq!(to_lowercase(&s), to_ascii_lowercase(&s));
    }
    assert_eq!(to_lowercase("Windows 终端"), "windows 终端");
}
