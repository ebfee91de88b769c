use base64::Engine;

use xon::icons::{
    data_uri, extract_rgba, get_app_icons, icon_data_uri, icon_source, png_for, split_request,
    take_fresh, FreshIcon, IconBitmap, IconCache, IconSource,
};
use xon::textmap::TextMap;

fn bitmap(bits_per_pixel: u16) -> IconBitmap {
    // Two columns, two rows, from the bottom up, blue first.
    IconBitmap {
        width: 2,
        height: 2,
        bits_per_pixel,
        bgra: vec![1, 2, 3, 4, 5, 6, 7, 8, 9, 10, 11, 12, 13, 14, 15, 16],
    }
}

fn texts(list: &[&str]) -> Vec<String> {
    list.iter().map(|s| s.to_string()).collect()
}

fn fresh(path: &str, icon: Result<Option<&str>, &str>) -> FreshIcon {
    FreshIcon {
        path: path.to_string(),
        icon: match icon {
            Ok(v) => Ok(v.map(|s| s.to_string())),
            Err(e) => Err(e.to_string()),
        },
    }
}

#[test]
fn pixels_are_turned_around() {
    assert_eq!(
        extract_rgba(&bitmap(32)),
        Some(vec![11, 10, 9, 12, 15, 14, 13, 16, 3, 2, 1, 4, 7, 6, 5, 8])
    );
    assert_eq!(
        extract_rgba(&bitmap(24)),
        Some(vec![11, 10, 9, 255, 15, 14, 13, 255, 3, 2, 1, 255, 7, 6, 5, 255])
    );
}

#[test]
fn turning_twice_gives_the_pixels_back() {
    let once = extract_rgba(&bitmap(32)).unwrap();
    let again = IconBitmap { width: 2, height: 2, bits_per_pixel: 32, bgra: once };
    assert_eq!(extract_rgba(&again), Some(bitmap(32).bgra));
}

#[test]
fn an_icon_without_pixels_is_none() {
    for (w, h, bits) in [(0, 3, 32), (3, 0, 32)] {
        let b = IconBitmap { width: w, height: h, bits_per_pixel: bits, bgra: Vec::new() };
        assert_eq!(extract_rgba(&b), None);
        assert_eq!(png_for(&b), Ok(None));
        assert_eq!(icon_data_uri(&Some(b)), Ok(None));
    }
    assert_eq!(extract_rgba(&bitmap(0)), None);
    assert_eq!(icon_data_uri(&None), Ok(None));
}

#[test]
fn an_icon_becomes_a_png_data_uri() {
    let png = png_for(&bitmap(32)).unwrap().unwrap();
    assert_eq!(&png[..8], &[0x89, b'P', b'N', b'G', 0x0d, 0x0a, 0x1a, 0x0a]);
    // The header chunk: width, height, eight bits a channel, red green blue alpha.
    assert_eq!(&png[12..26], &[b'I', b'H', b'D', b'R', 0, 0, 0, 2, 0, 0, 0, 2, 8, 6]);
    let uri = icon_data_uri(&Some(bitmap(32))).unwrap().unwrap();
    assert_eq!(uri, data_uri(&png));
    let body = uri.strip_prefix("data:image/png;base64,").unwrap();
    let back = base64::engine::general_purpose::STANDARD.decode(body).unwrap();
    assert_eq!(back, png);
}

#[test]
fn the_same_pixels_make_the_same_file() {
    assert_eq!(png_for(&bitmap(32)), png_for(&bitmap(32)));
    assert_ne!(png_for(&bitmap(32)), png_for(&bitmap(24)));
}

#[test]
fn base64_is_padded() {
    let head = "data:image/png;base64,";
    assert_eq!(data_uri(&Vec::new()), head);
    assert_eq!(data_uri(&b"f".to_vec()), format!("{head}Zg=="));
    assert_eq!(data_uri(&b"fo".to_vec()), format!("{head}Zm8="));
    assert_eq!(data_uri(&b"foo".to_vec()), format!("{head}Zm9v"));
    assert_eq!(data_uri(&b"foobar".to_vec()), format!("{head}Zm9vYmFy"));
    assert_eq!(data_uri(&vec![0xfb, 0xff, 0xbf]), format!("{head}+/+/"));
}

/// Base64 as the contract states it: six bits a character, the first highest.
fn stated_base64(b: &[u8]) -> String {
    let table = b"ABCDEFGHIJKLMNOPQRSTUVWXYZabcdefghijklmnopqrstuvwxyz0123456789+/";
    let byte = |i: usize| if i < b.len() { b[i] as usize } else { 0 };
    let mut out = String::new();
    for i in 0..(b.len() + 2) / 3 * 4 {
        let at = i / 4 * 3;
        let n = byte(at) * 65536 + byte(at + 1) * 256 + byte(at + 2);
        if at + i % 4 > b.len() {
            out.push('=');
        } else {
            let shift = [262144, 4096, 64, 1][i % 4];
            out.push(table[n / shift % 64] as char);
        }
    }
    out
}

#[test]
fn base64_takes_six_bits_a_character() {
    for n in 0..70usize {
        let bytes: Vec<u8> = (0..n).map(|i| (i * 37 + n * 11) as u8).collect();
        assert_eq!(data_uri(&bytes), format!("data:image/png;base64,{}", stated_base64(&bytes)));
    }
}

#[test]
fn store_apps_have_no_file_to_take_an_icon_from() {
    assert!(matches!(icon_source("store:X!App"), IconSource::Store(a) if a == "X!App"));
    assert!(matches!(icon_source("C:\\a.lnk"), IconSource::File(p) if p == "C:\\a.lnk"));
}

#[test]
fn extracted_icons_are_kept_and_failures_are_not() {
    let mut cache = IconCache::default();
    let paths = texts(&["a", "b", "c"]);
    let split = split_request(&cache, &paths);
    assert_eq!(split.hits.len(), 0);
    assert_eq!(split.missing, paths);
    let got = get_app_icons(
        &mut cache,
        split,
        &vec![fresh("a", Ok(Some("uri"))), fresh("b", Ok(None)), fresh("c", Err("no"))],
    );
    assert_eq!(got.len(), 2);
    assert_eq!(got.get("a"), Some(&Some("uri".to_string())));
    assert_eq!(got.get("b"), Some(&None));
    assert_eq!(got.get("c"), None);

    let again = split_request(&cache, &paths);
    assert_eq!(again.missing, texts(&["b", "c"]));
    assert_eq!(again.hits.get("a"), Some(&Some("uri".to_string())));
    let other = split_request(&cache, &texts(&["c", "d", "c"]));
    assert_eq!(other.hits.len(), 0);
    assert_eq!(other.missing, texts(&["c", "d", "c"]));
}

#[test]
fn the_last_outcome_for_a_path_counts() {
    let mut map: TextMap<Option<String>> = TextMap::new();
    take_fresh(
        &mut map,
        &vec![fresh("a", Ok(None)), fresh("a", Ok(Some("x"))), fresh("a", Err("no"))],
    );
    assert_eq!(map.get("a"), Some(&Some("x".to_string())));
}

#[test]
fn a_bitmap_has_to_be_whole_and_not_too_wide() {
    assert!(bitmap(32).is_encodable());
    let mut short = bitmap(32);
    short.bgra.pop();
    assert!(!short.is_encodable());
    let empty = |width, height| IconBitmap { width, height, bits_per_pixel: 32, bgra: Vec::new() };
    assert!(empty(0x3fff_ffff, 0).is_encodable());
    assert!(!empty(0x4000_0000, 0).is_encodable());
    assert!(!empty(u32::MAX, u32::MAX).is_encodable());
    assert_eq!(icon_data_uri(&Some(empty(0x3fff_ffff, 0))), Ok(None));
}

#[test]
fn a_cached_icon_answers_and_stays() {
    let mut cache = IconCache::default();
    let split = split_request(&cache, &texts(&["a"]));
    get_app_icons(&mut cache, split, &vec![fresh("a", Ok(Some("old")))]);
    let split = split_request(&cache, &texts(&["a", "b"]));
    assert_eq!(split.missing, texts(&["b"]));
    let got = get_app_icons(&mut cache, split, &vec![fresh("b", Ok(Some("new")))]);
    assert_eq!(got.get("a"), Some(&Some("old".to_string())));
    assert_eq!(got.get("b"), Some(&Some("new".to_string())));
    assert_eq!(cache.map.get("a"), Some(&Some("old".to_string())));
}

#[test]
fn a_path_without_an_icon_is_tried_again() {
    let mut cache = IconCache::default();
    let paths = texts(&["p"]);
    let split = split_request(&cache, &paths);
    let first = get_app_icons(&mut cache, split, &vec![fresh("p", Ok(None))]);
    assert_eq!(first.get("p"), Some(&None));
    let split = split_request(&cache, &paths);
    assert_eq!(split.missing, paths);
    let second = get_app_icons(&mut cache, split, &vec![fresh("p", Ok(Some("u")))]);
    assert_eq!(second.get("p"), Some(&Some("u".to_string())));
    let third = split_request(&cache, &paths);
    assert!(third.missing.is_empty());
    assert_eq!(third.hits.get("p"), Some(&Some("u".to_string())));
}
