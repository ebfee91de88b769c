use xon::portable::{PortableEntry, PortableManifest};
use xon::tray::{build_tray_menu, toggle_window, tray_command, TrayCommand, TrayItem, WindowAction};

fn ids(m: &PortableManifest) -> Vec<String> {
    let mut out = Vec::new();
    for item in build_tray_menu(m) {
        match item {
            TrayItem::Entry(e) => out.push(format!("{} {}", e.id, e.label)),
            TrayItem::Submenu(label, entries) => {
                out.push(format!("[{label}]"));
                for e in entries {
                    out.push(format!("{} {}", e.id, e.label));
                }
            }
        }
    }
    out
}

#[test]
fn the_menu_without_portables_has_no_submenu() {
    assert_eq!(
        ids(&PortableManifest::default()),
        vec![
            "add-portable 添加便携应用…",
            "open-config 打开配置文件…",
            "rescan 重扫索引",
            "quit 退出",
        ]
    );
}

#[test]
fn the_menu_lists_the_portables_to_remove() {
    let m = PortableManifest {
        apps: vec![
            PortableEntry { path: "C:\\t\\a.exe".to_string(), name: Some("甲".to_string()) },
            PortableEntry { path: "C:\\t\\b.exe".to_string(), name: None },
        ],
    };
    assert_eq!(
        ids(&m),
        vec![
            "add-portable 添加便携应用…",
            "[移除便携应用]",
            "remove-portable:C:\\t\\a.exe 甲",
            "remove-portable:C:\\t\\b.exe b",
            "open-config 打开配置文件…",
            "rescan 重扫索引",
            "quit 退出",
        ]
    );
}

#[test]
fn menu_ids_are_commands() {
    assert!(matches!(tray_command("add-portable"), TrayCommand::AddPortable));
    assert!(matches!(tray_command("open-config"), TrayCommand::OpenConfig));
    assert!(matches!(tray_command("rescan"), TrayCommand::Rescan));
    assert!(matches!(tray_command("quit"), TrayCommand::Quit));
    assert!(matches!(tray_command("other"), TrayCommand::Ignore));
    assert!(matches!(
        tray_command("remove-portable:quit"),
        TrayCommand::RemovePortable(p) if p == "quit"
    ));
    assert!(matches!(
        tray_command("remove-portable:C:\\t\\a.exe"),
        TrayCommand::RemovePortable(p) if p == "C:\\t\\a.exe"
    ));
}

#[test]
fn waking_toggles_the_window() {
    assert_eq!(toggle_window(true), WindowAction::Hide);
    assert_eq!(toggle_window(false), WindowAction::Summon);
}
