use xon::shortcuts::{
    drop_shortcut, has_junk_word, is_junk, junk_keywords, link_is_valid, needs_disk_check, parse_lnk,
    start_menu_apps, start_menu_roots, Shortcut,
};

fn shortcut(path: &str, display: Option<&str>, target: &str, target_exists: bool) -> Shortcut {
    Shortcut {
        path: path.to_string(),
        display: display.map(|d| d.to_string()),
        target: target.to_string(),
        target_exists,
    }
}

#[test]
fn noise_is_told_by_name_and_target_file() {
    assert!(is_junk("Uninstall Foo", ""));
    assert!(is_junk("Foo", "C:\\Foo\\unins000.exe"));
    assert!(is_junk("卸载工具", "C:\\Foo\\foo.exe"));
    assert!(is_junk("使用说明", ""));
    assert!(!is_junk("腾讯文档", "C:\\Tencent\\docs.exe"));
    assert!(!is_junk("Postman", "C:\\Postman\\Postman.exe"));
}

#[test]
fn a_folder_does_not_make_noise() {
    assert!(!is_junk("App", "C:\\Program Files\\update\\app.exe"));
    assert!(!is_junk("App", "C:\\help\\readme\\app.exe"));
    assert!(is_junk("App", "C:\\app\\update.exe"));
}

#[test]
fn the_case_of_a_name_does_not_matter() {
    assert!(is_junk("UNINSTALL", ""));
    assert!(is_junk("ReadMe ÄÖ", ""));
    assert!(has_junk_word("x uninstall y"));
    assert!(!has_junk_word("x UNINSTALL y"));
    assert_eq!(junk_keywords().len(), 22);
}

#[test]
fn only_local_ascii_targets_are_looked_up() {
    assert!(needs_disk_check("C:\\a\\b.exe"));
    for t in [
        "",
        "\\\\server\\share\\a.exe",
        "//server/share/a.exe",
        "\\\\?\\C:\\a.exe",
        "%windir%\\a.exe",
        "a.exe",
        "::{20D04FE0-3AEA-1069-A2D8-08002B30309D}",
        "C:\\微信\\a.exe",
    ] {
        assert!(!needs_disk_check(t), "{t}");
        assert!(link_is_valid(t, false), "{t}");
    }
    assert!(!link_is_valid("C:\\a\\b.exe", false));
    assert!(link_is_valid("C:\\a\\b.exe", true));
}

#[test]
fn a_shortcut_shows_its_localized_name() {
    let a = parse_lnk(&shortcut("C:\\m\\Control Panel.lnk", Some("控制面板"), "C:\\c.exe", true));
    assert_eq!(a.name, "控制面板");
    assert_eq!(a.aliases, vec!["Control Panel".to_string()]);
    assert_eq!(a.launch_path, "C:\\m\\Control Panel.lnk");
    assert_eq!(a.target_path, "C:\\c.exe");
    assert_eq!(a.comment, None);
    assert_eq!(a.icon, None);

    let b = parse_lnk(&shortcut("C:\\m\\Chrome.lnk", Some("Chrome"), "", false));
    assert_eq!(b.name, "Chrome");
    assert!(b.aliases.is_empty());

    for display in [None, Some("")] {
        let c = parse_lnk(&shortcut("C:\\m\\Chrome.lnk", display, "", false));
        assert_eq!(c.name, "Chrome");
        assert!(c.aliases.is_empty());
    }
}

#[test]
fn noise_and_dead_links_are_dropped() {
    let dead = parse_lnk(&shortcut("C:\\m\\A.lnk", None, "C:\\gone.exe", false));
    assert!(drop_shortcut(&dead, false));
    assert!(!drop_shortcut(&dead, true));
    let noise = parse_lnk(&shortcut("C:\\m\\A Help.lnk", None, "C:\\a.exe", true));
    assert!(drop_shortcut(&noise, true));
}

#[test]
fn the_first_shortcut_to_a_program_is_kept() {
    let found = vec![
        shortcut("C:\\m\\A.lnk", None, "C:\\a.exe", true),
        shortcut("C:\\m\\A again.lnk", None, "C:\\a.exe", true),
        shortcut("C:\\m\\Gone.lnk", None, "C:\\gone.exe", false),
        shortcut("C:\\m\\B.LNK", None, "", false),
        shortcut("C:\\m\\C.lnk", None, "", false),
        shortcut("C:\\m\\notes.txt", None, "", false),
        shortcut("C:\\m\\Updater.lnk", None, "C:\\u.exe", true),
    ];
    let names: Vec<String> = start_menu_apps(&found).into_iter().map(|a| a.name).collect();
    assert_eq!(names, vec!["A", "B", "C"]);
}

#[test]
fn the_start_menu_has_two_roots() {
    let user = Some("C:\\Users\\me\\AppData\\Roaming".to_string());
    let all = Some("C:\\ProgramData".to_string());
    assert_eq!(
        start_menu_roots(&user, &all),
        vec![
            "C:\\Users\\me\\AppData\\Roaming\\Microsoft\\Windows\\Start Menu\\Programs",
            "C:\\ProgramData\\Microsoft\\Windows\\Start Menu\\Programs",
        ]
    );
    assert_eq!(start_menu_roots(&None, &all).len(), 1);
    assert!(start_menu_roots(&None, &None).is_empty());
}

#[test]
fn only_the_file_name_of_a_target_counts() {
    for folder in [
        "update",
        "..\\help",
        "\\remove",
        "D:",
        "D:guide",
        "D:\\uninstall\\",
        "\\\\server\\update",
        "//server/help/x",
        "\\\\?\\C:\\update",
    ] {
        assert!(!is_junk("App", &format!("{folder}\\app.exe")), "{folder}");
        assert!(!is_junk("App", &format!("{folder}\\a:b")), "{folder}");
        assert!(is_junk("App", &format!("{folder}\\unins000.exe")), "{folder}");
    }
    // Behind a bare server name the last part is a share and not a file.
    assert!(!is_junk("App", "\\\\server\\update"));
}

#[test]
fn name_and_file_count_each_by_itself() {
    assert!(is_junk("App Help", "C:\\a.exe"));
    assert!(is_junk("App", "C:\\Help.exe"));
    assert!(!is_junk("un", "C:\\ins.exe"));
    assert!(!is_junk("卸", "C:\\载"));
}

#[test]
fn name_and_file_are_searched_as_if_joined() {
    let names = ["ΟΔΟΣ", "ΣHELP", "HELPΣ", "İ", "Straße", "un", "帮", "ΑΣ Guide", ""];
    let files = ["Σ.exe", "ins.exe", "ΗELP.exe", "UPDATEΣ", "助", "ΣREADME.txt", "app.exe"];
    for name in names {
        for file in files {
            let joined = format!("{name} {file}").to_lowercase();
            let expected = junk_keywords().iter().any(|k| joined.contains(k));
            assert_eq!(is_junk(name, &format!("C:\\update\\{file}")), expected, "{name} {file}");
        }
    }
}
