use xon::portable::{
    add_portable, file_stem, is_known_portable, launch_portable, parse_portable, portable_apps,
    portable_outcome, read_exe_description, remove_portable, version_queries, PortableEntry,
    PortableManifest, PortableProbe,
};
use xon::wide::wide_str;

fn entry(path: &str, name: Option<&str>) -> PortableEntry {
    PortableEntry { path: path.to_string(), name: name.map(|n| n.to_string()) }
}

fn probe(path: &str, name: Option<&str>, exists: bool) -> PortableProbe {
    PortableProbe { entry: entry(path, name), description: None, exists }
}

#[test]
fn a_portable_is_registered_once() {
    let mut m = PortableManifest::default();
    assert!(add_portable(&mut m, "C:\\a.exe"));
    assert!(!add_portable(&mut m, "C:\\a.exe"));
    assert!(add_portable(&mut m, "C:\\b.exe"));
    assert_eq!(m.apps.len(), 2);
    assert_eq!(m.apps[0].name, None);
    assert!(is_known_portable(&m, "C:\\a.exe"));
    assert!(!is_known_portable(&m, "C:\\A.exe"));
}

#[test]
fn removing_undoes_registering() {
    let mut m = PortableManifest { apps: vec![entry("C:\\a.exe", Some("A")), entry("C:\\c.exe", None)] };
    add_portable(&mut m, "C:\\b.exe");
    remove_portable(&mut m, "C:\\b.exe");
    let paths: Vec<&str> = m.apps.iter().map(|e| e.path.as_str()).collect();
    assert_eq!(paths, vec!["C:\\a.exe", "C:\\c.exe"]);
    assert_eq!(m.apps[0].name.as_deref(), Some("A"));
    remove_portable(&mut m, "C:\\a.exe");
    assert!(!is_known_portable(&m, "C:\\a.exe"));
    assert!(is_known_portable(&m, "C:\\c.exe"));
}

#[test]
fn the_name_is_alias_then_description_then_stem() {
    let d = Some("Some Tool".to_string());
    assert_eq!(parse_portable(&entry("C:\\t\\x.exe", Some("X")), &d).name, "X");
    assert_eq!(parse_portable(&entry("C:\\t\\x.exe", None), &d).name, "Some Tool");
    assert_eq!(parse_portable(&entry("C:\\t\\x.exe", None), &None).name, "x");
    assert_eq!(parse_portable(&entry("C:\\t\\x.exe", Some("")), &d).name, "x");
    assert_eq!(parse_portable(&entry("C:\\t\\x.exe", None), &Some(String::new())).name, "x");
    let a = parse_portable(&entry("C:\\t\\x.exe", None), &None);
    assert_eq!(a.comment.as_deref(), Some("便携应用"));
    assert_eq!(a.launch_path, "C:\\t\\x.exe");
    assert_eq!(a.target_path, "C:\\t\\x.exe");
    assert!(a.aliases.is_empty());
}

#[test]
fn a_path_without_a_stem_is_its_own_name() {
    assert_eq!(file_stem("C:\\t\\tool.v2.exe"), "tool.v2");
    assert_eq!(file_stem("C:\\"), "C:\\");
}

#[test]
fn portables_are_indexed_once_while_they_exist() {
    let list = vec![
        probe("C:\\a.exe", Some("A"), true),
        probe("C:\\a.exe", Some("A2"), true),
        probe("C:\\gone.exe", None, false),
        probe("\\\\nas\\tools\\b.exe", None, false),
    ];
    let names: Vec<String> = portable_apps(&list).into_iter().map(|a| a.name).collect();
    assert_eq!(names, vec!["A", "b"]);
}

#[test]
fn a_portable_runs_in_its_own_folder() {
    let r = launch_portable("C:\\t\\x.exe", false);
    assert_eq!((r.verb.as_str(), r.file.as_str()), ("open", "C:\\t\\x.exe"));
    assert_eq!(r.directory.as_deref(), Some("C:\\t"));
    let e = launch_portable("C:\\t\\x.exe", true);
    assert_eq!(e.verb, "runas");
    assert_eq!(e.directory.as_deref(), Some("C:\\t"));
    assert_eq!(launch_portable("C:\\", false).directory, None);
    assert_eq!(portable_outcome(33), Ok(()));
    assert_eq!(portable_outcome(2), Err("ShellExecute failed (code 2)".to_string()));
}

#[test]
fn the_description_is_asked_in_the_first_translation() {
    assert_eq!(
        version_queries(&vec![0x04, 0x08, 0xb0, 0x04, 9, 9, 9, 9]),
        vec![
            "\\StringFileInfo\\080404b0\\FileDescription",
            "\\StringFileInfo\\080404b0\\ProductName",
        ]
    );
    assert!(version_queries(&vec![1, 2, 3]).is_empty());
}

#[test]
fn the_first_answer_that_is_not_blank_counts() {
    let blank = Some(wide_str("  "));
    let name = Some(wide_str(" 工具 "));
    let other = Some(wide_str("Other"));
    assert_eq!(
        read_exe_description(&vec![blank.clone(), name.clone()]),
        Some("工具".to_string())
    );
    assert_eq!(read_exe_description(&vec![other, name]), Some("Other".to_string()));
    assert_eq!(read_exe_description(&vec![None, blank]), None);
    assert_eq!(read_exe_description(&Vec::new()), None);
}
