use xon::launch::{
    elevated_outcome, explorer_select_arg, is_system_uri, plan_launch, run_elevated, shell_outcome,
    LaunchPlan,
};
use xon::portable::{PortableEntry, PortableManifest};

fn manifest() -> PortableManifest {
    PortableManifest { apps: vec![PortableEntry { path: "C:\\p.exe".to_string(), name: None }] }
}

fn plan(path: &str, as_admin: bool) -> String {
    match plan_launch(&manifest(), path, as_admin) {
        LaunchPlan::Store(a) => format!("store {a}"),
        LaunchPlan::Portable(p, e) => format!("portable {p} {e}"),
        LaunchPlan::Elevated(p) => format!("elevated {p}"),
        LaunchPlan::Open(p) => format!("open {p}"),
    }
}

#[test]
fn the_manifest_decides_what_is_portable() {
    assert_eq!(plan("C:\\p.exe", false), "portable C:\\p.exe false");
    assert_eq!(plan("C:\\p.exe", true), "portable C:\\p.exe true");
    assert_eq!(plan("C:\\q.exe", false), "open C:\\q.exe");
    assert_eq!(plan("C:\\m\\q.lnk", true), "elevated C:\\m\\q.lnk");
}

#[test]
fn store_apps_and_system_entries_are_never_elevated() {
    for as_admin in [false, true] {
        assert_eq!(plan("store:X!App", as_admin), "store X!App");
        assert_eq!(plan("ms-settings:display", as_admin), "open ms-settings:display");
        assert_eq!(plan("::{20D0}", as_admin), "open ::{20D0}");
    }
}

#[test]
fn system_uris_are_told_by_their_start() {
    assert!(is_system_uri("ms-settings:about"));
    assert!(is_system_uri("::{645FF040-5081-101B-9F08-00AA002F954E}"));
    assert!(!is_system_uri("C:\\ms-settings:about"));
    assert!(!is_system_uri(":{"));
}

#[test]
fn an_elevated_launch_sets_no_folder() {
    let r = run_elevated("C:\\m\\q.lnk");
    assert_eq!((r.verb.as_str(), r.file.as_str(), r.directory), ("runas", "C:\\m\\q.lnk", None));
    assert_eq!(elevated_outcome(42), Ok(()));
    assert_eq!(elevated_outcome(5), Err("ShellExecute runas failed (code 5)".to_string()));
    assert_eq!(shell_outcome("x", -1), Err("x (code -1)".to_string()));
    assert_eq!(shell_outcome("x", 32), Err("x (code 32)".to_string()));
    assert_eq!(shell_outcome("x", 33), Ok(()));
}

#[test]
fn explorer_gets_one_argument() {
    assert_eq!(explorer_select_arg("C:\\a b\\c.exe"), "/select,C:\\a b\\c.exe");
}
