use xon::commands::CommandHost;
use xon::index::{
    build_index, index_change_relevant, index_name_key, portable_dirs, store_entries, watch_plan,
    DebounceAction, DebounceEvent, Debouncer, Index, Sources,
};
use xon::launch::{plan_launch, LaunchPlan};
use xon::portable::{PortableEntry, PortableManifest, PortableProbe};
use xon::shortcuts::Shortcut;
use xon::store::{ShellItem, StoreApp};

fn texts(list: &[&str]) -> Vec<String> {
    list.iter().map(|s| s.to_string()).collect()
}

fn item(name: &str, aumid: &str) -> ShellItem {
    ShellItem {
        name: Some(name.to_string()),
        aumid: Some(aumid.to_string()),
        package_family: Some("family".to_string()),
    }
}

fn sources() -> Sources {
    Sources {
        shortcuts: vec![Shortcut {
            path: "C:\\m\\Python.lnk".to_string(),
            display: None,
            target: "C:\\py\\python.exe".to_string(),
            target_exists: true,
        }],
        portables: vec![PortableProbe {
            entry: PortableEntry { path: "C:\\py\\python.exe".to_string(), name: None },
            description: Some("Portable Python".to_string()),
            exists: true,
        }],
        items: vec![item(" PYTHON ", "Py_1!App"), item("计算器", "Calc_1!App")],
        host: CommandHost {
            dirs: texts(&["C:\\w"]),
            exts: texts(&[".EXE"]),
            files: texts(&["C:\\w\\mstsc.EXE", "C:\\w\\calc.EXE"]),
        },
    }
}

#[test]
fn the_index_holds_all_sources_in_order() {
    let apps = build_index(&sources());
    let names: Vec<&str> = apps.iter().map(|a| a.name.as_str()).collect();
    assert_eq!(names.len(), 1 + 1 + 19 + 1 + 1);
    assert_eq!(names[0], "Python");
    assert_eq!(names[1], "Portable Python");
    assert_eq!(names[2], "个性化");
    assert_eq!(names[20], "回收站");
    assert_eq!(names[21], "计算器");
    assert_eq!(names[22], "远程桌面连接");
    assert_eq!(apps[2].comment.as_deref(), Some("系统"));
    assert_eq!(apps[2].launch_path, "ms-settings:personalization");
    assert_eq!(apps[21].comment.as_deref(), Some("商店应用"));
    assert_eq!(apps[21].launch_path, "store:Calc_1!App");
    assert_eq!(apps[21].aliases, texts(&["calculator", "calc"]));
}

#[test]
fn a_store_app_that_the_menu_shows_is_left_out() {
    let apps = build_index(&sources());
    assert!(apps.iter().all(|a| a.launch_path != "store:Py_1!App"));
    let found = vec![
        StoreApp { name: "a".to_string(), aumid: "1!A".to_string() },
        StoreApp { name: "b".to_string(), aumid: "2!A".to_string() },
    ];
    let rows = store_entries(&texts(&["k1"]), &found, &texts(&["k1", "k2"]));
    assert_eq!(rows.len(), 1);
    assert_eq!(rows[0].target_path, "store:2!A");
}

#[test]
fn indexed_rows_launch_what_they_stand_for() {
    let apps = build_index(&sources());
    let none = PortableManifest { apps: Vec::new() };
    match plan_launch(&none, &apps[21].launch_path, true) {
        LaunchPlan::Store(aumid) => assert_eq!(aumid, "Calc_1!App"),
        other => panic!("{other:?}"),
    }
    match plan_launch(&none, &apps[2].launch_path, true) {
        LaunchPlan::Open(uri) => assert_eq!(uri, "ms-settings:personalization"),
        other => panic!("{other:?}"),
    }
}

#[test]
fn names_are_compared_without_case_and_outer_space() {
    assert_eq!(index_name_key(" Windows PowerShell\t"), "windows powershell");
    assert_eq!(index_name_key("计算器"), "计算器");
    assert_eq!(index_name_key("ÄB"), "äb");
}

#[test]
fn the_index_is_a_snapshot() {
    let mut index = Index::default();
    assert!(index.scan_apps().is_empty());
    index.reload(build_index(&sources()));
    assert_eq!(index.scan_apps().len(), 23);
    let paths = index.launch_paths();
    assert_eq!(paths[0], "C:\\m\\Python.lnk");
    assert_eq!(paths[21], "store:Calc_1!App");
    index.reload(Vec::new());
    assert!(index.launch_paths().is_empty());
}

#[test]
fn shortcuts_and_watched_folders_make_a_change_relevant() {
    let dirs = texts(&["C:\\tools"]);
    assert!(index_change_relevant(&texts(&["D:\\x\\a.LNK"]), &dirs));
    assert!(index_change_relevant(&texts(&["D:\\x", "c:/tools/p.exe"]), &dirs));
    assert!(!index_change_relevant(&texts(&["C:\\tools\\sub\\p.exe"]), &dirs));
    assert!(!index_change_relevant(&texts(&["C:\\tools"]), &dirs));
    assert!(!index_change_relevant(&Vec::new(), &dirs));
}

#[test]
fn folders_are_watched_once() {
    let m = PortableManifest {
        apps: vec![
            PortableEntry { path: "C:\\t\\a.exe".to_string(), name: None },
            PortableEntry { path: "C:\\t\\b.exe".to_string(), name: None },
            PortableEntry { path: "C:\\".to_string(), name: None },
            PortableEntry { path: "C:\\menu\\c.exe".to_string(), name: None },
        ],
    };
    let portable = portable_dirs(&m);
    assert_eq!(portable, texts(&["C:\\t", "C:\\t", "C:\\menu"]));
    let plan: Vec<(String, bool)> = watch_plan(&texts(&["c:/menu", "C:\\all"]), &portable)
        .into_iter()
        .map(|w| (w.dir, w.recursive))
        .collect();
    assert_eq!(
        plan,
        vec![
            ("c:/menu".to_string(), true),
            ("C:\\all".to_string(), true),
            ("C:\\t".to_string(), false),
        ]
    );
}

#[test]
fn a_burst_fires_once() {
    let mut d = Debouncer::new();
    for _ in 0..5 {
        assert_eq!(d.step(DebounceEvent::Notified), DebounceAction::WaitQuiet);
    }
    assert_eq!(d.step(DebounceEvent::Quiet), DebounceAction::Fire);
    assert_eq!(d.step(DebounceEvent::Quiet), DebounceAction::Wait);
    assert_eq!(d.step(DebounceEvent::Notified), DebounceAction::WaitQuiet);
    assert_eq!(d.step(DebounceEvent::Closed), DebounceAction::Fire);
    assert_eq!(d.step(DebounceEvent::Closed), DebounceAction::Stop);
}

#[test]
fn a_change_to_a_portable_exe_is_noticed() {
    let m = PortableManifest {
        apps: vec![PortableEntry { path: "D:\\t\\a.exe".to_string(), name: None }],
    };
    let dirs: Vec<String> = watch_plan(&texts(&["d:/t"]), &portable_dirs(&m))
        .into_iter()
        .map(|w| w.dir)
        .collect();
    assert_eq!(dirs, texts(&["d:/t"]));
    assert!(index_change_relevant(&texts(&["D:\\t\\a.exe"]), &dirs));
}
