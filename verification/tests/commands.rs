use std::collections::HashSet;

use xon::commands::{
    app_alias_dir, apply_commands, command_candidates, commands, find_key, merge_command, path_dirs,
    pathext_list, resolve_on_path, CommandHost,
};
use xon::icons::{icon_data_uri, IconBitmap};
use xon::index::{index_name_key, keys_of};
use xon::shortcuts::{drop_shortcut, parse_lnk, Shortcut};
use xon::store::{enumerate_store_apps, ShellItem};
use xon::system::builtin_system_features;
use xon::winpath::extension_is;
use xon::AppInfo;

fn texts(list: &[&str]) -> Vec<String> {
    list.iter().map(|s| s.to_string()).collect()
}

fn row(name: &str, path: &str, aliases: &[&str]) -> AppInfo {
    AppInfo {
        name: name.to_string(),
        comment: None,
        launch_path: path.to_string(),
        target_path: path.to_string(),
        icon: None,
        aliases: texts(aliases),
    }
}

/// A machine with the usual folders and a few of the commands.
fn host() -> CommandHost {
    CommandHost {
        dirs: texts(&[
            "C:\\Windows\\system32",
            "C:\\Windows",
            "C:\\Users\\me\\AppData\\Local\\Microsoft\\WindowsApps",
        ]),
        exts: texts(&[".COM", ".EXE", ".BAT", ".CMD"]),
        files: texts(&[
            "C:\\Windows\\system32\\devmgmt.msc",
            "C:\\Windows\\system32\\appwiz.cpl",
            "C:\\Windows\\system32\\mstsc.EXE",
            "C:\\Windows\\system32\\notepad.EXE",
            "C:\\Windows\\notepad.EXE",
            "C:\\Windows\\system32\\calc.EXE",
            "C:\\Users\\me\\AppData\\Local\\Microsoft\\WindowsApps\\wt.EXE",
        ]),
    }
}

fn nowhere() -> CommandHost {
    CommandHost { dirs: Vec::new(), exts: Vec::new(), files: Vec::new() }
}

fn shell_item(name: &str, aumid: &str, family: Option<&str>) -> ShellItem {
    ShellItem {
        name: Some(name.to_string()),
        aumid: Some(aumid.to_string()),
        package_family: family.map(|f| f.to_string()),
    }
}

fn shortcut(path: &str, display: Option<&str>, target: &str, target_exists: bool) -> Shortcut {
    Shortcut {
        path: path.to_string(),
        display: display.map(|d| d.to_string()),
        target: target.to_string(),
        target_exists,
    }
}

#[test]
fn table_has_no_duplicate_names() {
    let mut seen: HashSet<String> = HashSet::new();
    for def in commands() {
        assert!(
            seen.insert(index_name_key(def.name)),
            "duplicate command name: {}",
            def.name
        );
    }
}

#[test]
fn existing_entry_gets_aliases_instead_of_a_new_row() {
    let mut apps = vec![AppInfo {
        name: "计算器".to_string(),
        comment: Some("商店应用".to_string()),
        launch_path: "store:Microsoft.WindowsCalculator_8wekyb3d8bbwe!App".to_string(),
        target_path: "store:Microsoft.WindowsCalculator_8wekyb3d8bbwe!App".to_string(),
        icon: None,
        aliases: Vec::new(),
    }];
    apply_commands(&mut apps, &host());
    let rows: Vec<_> = apps.iter().filter(|a| a.name == "计算器").collect();
    assert_eq!(rows.len(), 1, "must not add a second 计算器 row");
    assert!(rows[0].aliases.iter().any(|a| a == "calc"));
    assert!(rows[0].aliases.iter().any(|a| a == "calculator"));
    assert!(rows[0].launch_path.starts_with("store:"));
}

#[test]
fn report_alias_only_vs_new_rows() {
    let mut existing: HashSet<String> = HashSet::new();
    for f in builtin_system_features() {
        existing.insert(index_name_key(f.name));
    }
    let items = vec![shell_item("计算器", "Microsoft.WindowsCalculator_8wekyb3d8bbwe!App", Some("f"))];
    for a in enumerate_store_apps(&items) {
        existing.insert(index_name_key(&a.name));
    }
    let found = vec![
        shortcut("C:\\Menu\\Control Panel.lnk", Some("控制面板"), "", false),
        shortcut("C:\\Menu\\readme.txt", None, "", false),
    ];
    for s in &found {
        if !extension_is(&s.path, "lnk") {
            continue;
        }
        let info = parse_lnk(s);
        if drop_shortcut(&info, s.target_exists) {
            continue;
        }
        existing.insert(index_name_key(&info.name));
    }

    let (mut aliased, mut added) = (Vec::new(), Vec::new());
    for def in commands() {
        if existing.contains(&index_name_key(def.name)) {
            aliased.push(def.name);
        } else {
            added.push(def.name);
        }
    }
    println!("alias-only ({}): {aliased:?}", aliased.len());
    println!("new rows ({}): {added:?}", added.len());
    assert_eq!(aliased, vec!["计算器", "控制面板"]);
    assert_eq!(aliased.len() + added.len(), commands().len());
}

#[test]
fn icons_extract_for_new_rows() {
    for cmd in ["devmgmt.msc", "appwiz.cpl", "mstsc", "wt"] {
        let Some(path) = resolve_on_path(cmd, &host()) else {
            println!("icon {cmd}: (command not found)");
            continue;
        };
        let bitmap = IconBitmap { width: 1, height: 1, bits_per_pixel: 32, bgra: vec![1, 2, 3, 4] };
        let label = match icon_data_uri(&Some(bitmap)) {
            Ok(Some(uri)) => format!("ok ({} bytes)", uri.len()),
            Ok(None) => "NONE".to_string(),
            Err(e) => format!("err: {e}"),
        };
        println!("icon {cmd} at {path}: {label}");
        assert!(label.starts_with("ok"));
    }
}

#[test]
fn commands_resolve_on_this_machine() {
    let mut missing = Vec::new();
    for def in commands() {
        if resolve_on_path(def.cmd, &host()).is_none() {
            missing.push(def.cmd);
        }
    }
    println!(
        "xon command scan: {} of {} resolved, missing: {:?}",
        commands().len() - missing.len(),
        commands().len(),
        missing
    );
    assert_eq!(commands().len() - missing.len(), 6);
}

#[test]
fn the_table_has_all_commands() {
    assert_eq!(commands().len(), 37);
    let wt = commands().iter().find(|c| c.cmd == "wt").unwrap();
    assert_eq!(wt.name, "Windows 终端");
    assert_eq!(wt.aliases, ["terminal", "wt"]);
}

#[test]
fn a_command_is_looked_up_folder_by_folder_and_extension_by_extension() {
    let dirs = texts(&["C:\\a", "D:"]);
    let exts = texts(&[".COM", ".EXE"]);
    assert_eq!(
        command_candidates("x", &dirs, &exts),
        texts(&["C:\\a\\x.COM", "C:\\a\\x.EXE", "D:x.COM", "D:x.EXE"])
    );
    assert_eq!(command_candidates("x.msc", &dirs, &exts), texts(&["C:\\a\\x.msc", "D:x.msc"]));
    assert_eq!(command_candidates("C:\\t\\x", &dirs, &exts), texts(&["C:\\t\\x"]));
    assert_eq!(command_candidates("t/x", &dirs, &exts), texts(&["t/x"]));
}

#[test]
fn the_first_file_wins() {
    assert_eq!(
        resolve_on_path("notepad", &host()),
        Some("C:\\Windows\\system32\\notepad.EXE".to_string())
    );
    assert_eq!(resolve_on_path("gpedit.msc", &host()), None);
    assert_eq!(resolve_on_path("notepad", &nowhere()), None);
    let mut h = host();
    h.files.push("C:\\tools\\x".to_string());
    assert_eq!(resolve_on_path("C:\\tools\\x", &h), Some("C:\\tools\\x".to_string()));
    assert_eq!(resolve_on_path("C:\\tools\\y", &h), None);
}

#[test]
fn executable_extensions_are_split_and_trimmed() {
    assert_eq!(
        pathext_list(&Some(" .COM ;;.EXE; \t;.Ps1".to_string())),
        texts(&[".COM", ".EXE", ".Ps1"])
    );
    assert_eq!(pathext_list(&None), texts(&[".COM", ".EXE", ".BAT", ".CMD"]));
    assert_eq!(pathext_list(&Some(String::new())), texts(&[]));
}

#[test]
fn the_alias_folder_is_added_where_it_exists() {
    let local = Some("C:\\Local".to_string());
    assert_eq!(app_alias_dir("C:\\Local"), "C:\\Local\\Microsoft\\WindowsApps");
    assert_eq!(
        path_dirs(texts(&["C:\\w"]), &local, true),
        texts(&["C:\\w", "C:\\Local\\Microsoft\\WindowsApps"])
    );
    assert_eq!(path_dirs(texts(&["C:\\w"]), &local, false), texts(&["C:\\w"]));
    assert_eq!(path_dirs(texts(&["C:\\w"]), &None, true), texts(&["C:\\w"]));
}

#[test]
fn only_resolved_commands_get_a_row() {
    let mut apps: Vec<AppInfo> = Vec::new();
    apply_commands(&mut apps, &host());
    let names: Vec<&str> = apps.iter().map(|a| a.name.as_str()).collect();
    assert_eq!(
        names,
        vec!["计算器", "记事本", "Windows 终端", "设备管理器", "远程桌面连接", "程序和功能"]
    );
    assert_eq!(apps[1].comment.as_deref(), Some("系统命令"));
    assert_eq!(apps[1].launch_path, "C:\\Windows\\system32\\notepad.EXE");
    assert_eq!(apps[1].target_path, apps[1].launch_path);
    assert_eq!(apps[1].aliases, texts(&["notepad"]));

    let mut none: Vec<AppInfo> = Vec::new();
    apply_commands(&mut none, &nowhere());
    assert!(none.is_empty());
}

#[test]
fn aliases_are_added_once_whatever_their_case() {
    let mut apps = vec![row(" windows powershell\t", "C:\\Menu\\ps.lnk", &["PowerShell"])];
    apply_commands(&mut apps, &nowhere());
    assert_eq!(apps.len(), 1);
    assert_eq!(apps[0].aliases, texts(&["PowerShell", "pwsh"]));
    assert_eq!(apps[0].launch_path, "C:\\Menu\\ps.lnk");
}

#[test]
fn only_the_first_row_of_a_name_gains_the_aliases() {
    let mut apps = vec![row("记事本", "a", &[]), row("记事本", "b", &[])];
    apply_commands(&mut apps, &host());
    assert_eq!(apps[0].aliases, texts(&["notepad"]));
    assert!(apps[1].aliases.is_empty());
    assert_eq!(apps.iter().filter(|a| a.name == "记事本").count(), 2);
}

#[test]
fn merging_twice_changes_nothing() {
    let mut apps = vec![row("记事本", "a", &["n"])];
    apply_commands(&mut apps, &host());
    let once: Vec<(String, Vec<String>)> =
        apps.iter().map(|a| (a.launch_path.clone(), a.aliases.clone())).collect();
    apply_commands(&mut apps, &host());
    let twice: Vec<(String, Vec<String>)> =
        apps.iter().map(|a| (a.launch_path.clone(), a.aliases.clone())).collect();
    assert_eq!(once, twice);
}

#[test]
fn one_command_is_merged_at_its_place() {
    let notepad = commands().iter().find(|c| c.cmd == "notepad").unwrap();
    let mut apps = vec![row("x", "a", &[]), row("y", "b", &[])];
    merge_command(&mut apps, 1, notepad, &host());
    assert_eq!(apps[1].aliases, texts(&["notepad"]));
    merge_command(&mut apps, 2, notepad, &host());
    assert_eq!(apps.len(), 3);
    assert_eq!(apps[2].name, "记事本");
    merge_command(&mut apps, 3, notepad, &nowhere());
    assert_eq!(apps.len(), 3);
}

#[test]
fn keys_are_found_at_their_first_place() {
    let keys = keys_of(&vec![row(" A ", "1", &[]), row("b", "2", &[]), row("a", "3", &[])]);
    assert_eq!(keys, texts(&["a", "b", "a"]));
    assert_eq!(find_key(&keys, "a"), 0);
    assert_eq!(find_key(&keys, "b"), 1);
    assert_eq!(find_key(&keys, "A"), 3);
}

#[test]
fn localized_rows_are_found_by_their_english_names() {
    let mut apps = vec![
        row("设备管理器", "d.lnk", &[]),
        row("控制面板", "c.lnk", &[]),
        row("计算器", "store:calc", &[]),
    ];
    apply_commands(&mut apps, &nowhere());
    assert_eq!(apps[0].aliases, texts(&["devmgmt", "device manager", "devmgmt.msc"]));
    assert!(apps[1].aliases.contains(&"control panel".to_string()));
    assert!(apps[2].aliases.contains(&"calc".to_string()));
}
