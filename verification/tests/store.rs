use std::collections::HashSet;

use xon::icons::{icon_source, IconSource};
use xon::index::index_name_key;
use xon::shortcuts::{drop_shortcut, parse_lnk, Shortcut};
use xon::store::{
    apps_folder_path, aumid_looks_like_path, com_apartment, enumerate_store_apps,
    is_store_launch_path, launch, launch_path, property_text, strip_launch_prefix, LaunchEvent,
    LaunchStep, ShellItem, LAUNCH_PREFIX, RPC_E_CHANGED_MODE,
};
use xon::winpath::extension_is;

fn item(name: Option<&str>, aumid: Option<&str>, family: Option<&str>) -> ShellItem {
    ShellItem {
        name: name.map(|s| s.to_string()),
        aumid: aumid.map(|s| s.to_string()),
        package_family: family.map(|s| s.to_string()),
    }
}

fn folder() -> Vec<ShellItem> {
    vec![
        item(Some("照片"), Some("Photos_8w!App"), Some("Photos_8w")),
        item(Some("Chrome"), Some("Chrome"), None),
        item(Some("Notepad++"), Some("C:\\Program Files\\Notepad++\\notepad++.exe"), None),
        item(Some("Tool"), Some("Vendor/Tool!App"), Some("Vendor")),
        item(Some("Odd"), Some("odd.EXE"), Some("Odd")),
        item(Some("Link"), Some("link.Lnk"), Some("Link")),
        item(Some("  "), Some("Blank_1!App"), Some("Blank_1")),
        item(None, Some("Nameless_1!App"), Some("Nameless_1")),
        item(Some("NoId"), None, Some("NoId_1")),
        item(Some(" Calculator "), Some("Calc_8w!App"), Some("Calc_8w")),
        item(Some("Calculator again"), Some("Calc_8w!App"), Some("Calc_8w")),
        item(Some("Alarms"), Some("Clock_8w!App"), Some("Clock_8w")),
    ]
}

#[test]
fn store_apps_roundtrip() {
    let apps = enumerate_store_apps(&folder());
    println!("xon store scan found {} app(s)", apps.len());
    for app in apps.iter().take(12) {
        println!("  {}  <-  {}", app.name, app.aumid);
    }
    assert!(
        apps.iter().all(|a| !aumid_looks_like_path(&a.aumid)),
        "file-path AppUserModelIDs must have been filtered"
    );
    assert!(
        apps.iter().all(|a| a.aumid.contains('!')),
        "packaged apps must expose a '<family>!<appid>' AUMID"
    );

    if let Some(first) = apps.first() {
        let launch = format!("{LAUNCH_PREFIX}{}", first.aumid);
        assert!(is_store_launch_path(&launch));
        assert_eq!(strip_launch_prefix(&launch), first.aumid);
        match icon_source(&launch) {
            IconSource::Store(aumid) => assert_eq!(aumid, first.aumid),
            IconSource::File(_) => panic!("a store app has no file"),
        }
    }
}

#[test]
fn store_rows_shadowed_by_start_menu() {
    let found = vec![
        Shortcut {
            path: "C:\\Menu\\Alarms.lnk".to_string(),
            display: None,
            target: String::new(),
            target_exists: false,
        },
        Shortcut {
            path: "C:\\Menu\\Uninstall.lnk".to_string(),
            display: None,
            target: String::new(),
            target_exists: false,
        },
    ];
    let mut menu_keys: HashSet<String> = HashSet::new();
    for s in &found {
        if !extension_is(&s.path, "lnk") {
            continue;
        }
        let info = parse_lnk(s);
        if drop_shortcut(&info, s.target_exists) {
            continue;
        }
        menu_keys.insert(index_name_key(&info.name));
    }

    let shadowed: Vec<String> = enumerate_store_apps(&folder())
        .into_iter()
        .filter(|a| menu_keys.contains(&index_name_key(&a.name)))
        .map(|a| a.name)
        .collect();
    println!("store rows shadowed by a start-menu .lnk: {shadowed:?}");
    assert_eq!(shadowed, vec!["Alarms".to_string()]);
}

#[test]
fn packaged_apps_are_listed_once_in_the_order_of_their_names() {
    let apps = enumerate_store_apps(&folder());
    let listed: Vec<(&str, &str)> =
        apps.iter().map(|a| (a.name.as_str(), a.aumid.as_str())).collect();
    assert_eq!(
        listed,
        vec![
            ("Alarms", "Clock_8w!App"),
            ("Calculator", "Calc_8w!App"),
            ("照片", "Photos_8w!App"),
        ]
    );
    assert!(enumerate_store_apps(&Vec::new()).is_empty());
}

#[test]
fn apps_of_the_same_name_keep_their_order() {
    let items = vec![
        item(Some("b"), Some("2!A"), Some("f")),
        item(Some("a"), Some("1!A"), Some("f")),
        item(Some("b"), Some("0!A"), Some("f")),
        item(Some("ab"), Some("3!A"), Some("f")),
    ];
    let ids: Vec<String> = enumerate_store_apps(&items).into_iter().map(|a| a.aumid).collect();
    assert_eq!(ids, vec!["1!A", "3!A", "2!A", "0!A"]);
}

#[test]
fn launch_paths_have_a_prefix() {
    assert_eq!(launch_path("X!App"), "store:X!App");
    assert!(is_store_launch_path("store:"));
    assert!(!is_store_launch_path("Store:X"));
    assert_eq!(strip_launch_prefix("store:"), "");
    assert_eq!(strip_launch_prefix("store:store:x"), "store:x");
    assert_eq!(strip_launch_prefix("C:\\a.exe"), "C:\\a.exe");
    assert_eq!(apps_folder_path("X!App"), "shell:AppsFolder\\X!App");
}

#[test]
fn properties_are_decoded() {
    let units: Vec<u16> = "Calc_8w".encode_utf16().collect();
    assert_eq!(property_text(&units), Some("Calc_8w".to_string()));
    assert_eq!(property_text(&Vec::new()), None);
    assert_eq!(property_text(&vec![0xd800, 0x41]), Some("\u{fffd}A".to_string()));
}

#[test]
fn apartments_are_reused() {
    let own = com_apartment(0);
    assert!(own.owned && own.ready);
    let shared = com_apartment(1);
    assert!(!shared.owned && shared.ready);
    let other = com_apartment(RPC_E_CHANGED_MODE);
    assert_eq!(RPC_E_CHANGED_MODE, 0x8001_0106u32 as i32);
    assert!(!other.owned && other.ready);
    let failed = com_apartment(-2147467259);
    assert!(!failed.owned && !failed.ready);
}

fn done(step: LaunchStep) -> Result<(), String> {
    match step {
        LaunchStep::Done(r) => r,
        other => panic!("not done: {other:?}"),
    }
}

#[test]
fn a_launch_falls_back_to_the_shell() {
    assert!(matches!(launch("X!App", LaunchEvent::Ready), LaunchStep::Activate));
    assert_eq!(done(launch("X!App", LaunchEvent::Activated)), Ok(()));
    match launch("X!App", LaunchEvent::ActivationFailed) {
        LaunchStep::OpenShell(item) => assert_eq!(item, "shell:AppsFolder\\X!App"),
        other => panic!("no fallback: {other:?}"),
    }
    assert_eq!(done(launch("X!App", LaunchEvent::ShellReturned(33))), Ok(()));
    assert_eq!(
        done(launch("X!App", LaunchEvent::ShellReturned(32))),
        Err("failed to launch store app X!App (code 32)".to_string())
    );
    assert_eq!(
        done(launch("X!App", LaunchEvent::NoApartment)),
        Err("COM unavailable on this thread".to_string())
    );
    assert_eq!(
        done(launch("X!App", LaunchEvent::Unsupported)),
        Err("store apps are unsupported on this platform".to_string())
    );
}
