use xon::wide::{decode_lossy, read_wide, wide_str};

#[test]
fn wide_texts_are_nul_terminated_utf_16() {
    for s in ["", "open", "微信", "a😀b", "\u{ffff}\u{10ffff}"] {
        let mut units: Vec<u16> = s.encode_utf16().collect();
        assert_eq!(decode_lossy(&units), s);
        units.push(0);
        assert_eq!(wide_str(s), units);
    }
}

#[test]
fn lone_surrogates_are_replaced() {
    for units in [
        vec![0xd800],
        vec![0xdc00, 0x41],
        vec![0xd83d, 0x41],
        vec![0xd83d, 0xde00, 0xd83d],
        vec![0xd800, 0xd800, 0xdc00],
    ] {
        assert_eq!(decode_lossy(&units), String::from_utf16_lossy(&units));
    }
}

#[test]
fn a_wide_text_ends_at_its_nul() {
    let mut units = wide_str(" 记事本 ");
    units.push(0x41);
    assert_eq!(read_wide(&units), Some("记事本".to_string()));
    assert_eq!(read_wide(&wide_str("")), None);
    assert_eq!(read_wide(&wide_str(" \t")), None);
    assert_eq!(read_wide(&Vec::new()), None);
    assert_eq!(read_wide(&vec![0x41]), Some("A".to_string()));
}

#[test]
fn a_text_without_nul_and_outer_space_comes_back() {
    for s in ["x", "计算器", "a b", "😀"] {
        assert_eq!(read_wide(&wide_str(s)), Some(s.to_string()));
    }
}
