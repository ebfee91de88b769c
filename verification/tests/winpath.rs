use xon::winpath::{
    absolute, extension, extension_is, file_name, join, parent, paths_equal, stem,
};

fn some(s: &str) -> Option<String> {
    Some(s.to_string())
}

#[test]
fn file_names() {
    assert_eq!(file_name("C:\\a\\b.exe"), some("b.exe"));
    assert_eq!(file_name("C:/a/b.exe"), some("b.exe"));
    assert_eq!(file_name("C:\\a\\"), some("a"));
    assert_eq!(file_name("C:\\a\\."), some("a"));
    assert_eq!(file_name("C:\\a\\.."), None);
    assert_eq!(file_name("C:\\"), None);
    assert_eq!(file_name("C:"), None);
    assert_eq!(file_name("C:x"), some("x"));
    assert_eq!(file_name(""), None);
    assert_eq!(file_name("."), None);
    assert_eq!(file_name("b"), some("b"));
    assert_eq!(file_name("\\\\server\\share"), None);
    assert_eq!(file_name("\\\\server\\share\\f.txt"), some("f.txt"));
    assert_eq!(file_name("\\\\?\\C:\\a\\b"), some("b"));
    assert_eq!(file_name("\\\\?\\C:\\a/b"), some("a/b"));
    assert_eq!(file_name("::{20D04FE0}"), some("::{20D04FE0}"));
}

#[test]
fn stems_and_extensions() {
    assert_eq!(stem("C:\\a\\b.tar.gz"), some("b.tar"));
    assert_eq!(extension("C:\\a\\b.tar.gz"), some("gz"));
    assert_eq!(stem("C:\\a\\.config"), some(".config"));
    assert_eq!(extension("C:\\a\\.config"), None);
    assert_eq!(stem("C:\\a\\b."), some("b"));
    assert_eq!(extension("C:\\a\\b."), some(""));
    assert_eq!(stem("C:\\a\\b"), some("b"));
    assert_eq!(extension("C:\\a.d\\b"), None);
    assert_eq!(stem("C:\\"), None);
    assert!(extension_is("C:\\a\\B.LnK", "lnk"));
    assert!(!extension_is("C:\\a\\B.lnk.bak", "lnk"));
    assert!(!extension_is("C:\\a\\lnk", "lnk"));
}

#[test]
fn parents() {
    assert_eq!(parent("C:\\a\\b.exe"), some("C:\\a"));
    assert_eq!(parent("C:\\a"), some("C:\\"));
    assert_eq!(parent("C:\\"), None);
    assert_eq!(parent("C:/a//b/"), some("C:/a"));
    assert_eq!(parent("b.exe"), some(""));
    assert_eq!(parent(""), None);
    assert_eq!(parent("\\\\server\\share\\f"), some("\\\\server\\share\\"));
}

#[test]
fn absolute_paths() {
    assert!(absolute("C:\\a"));
    assert!(absolute("c:/"));
    assert!(absolute("\\\\server\\share"));
    assert!(absolute("\\\\?\\C:\\a"));
    assert!(!absolute("C:a"));
    assert!(!absolute("\\a"));
    assert!(!absolute("a\\b"));
    assert!(!absolute("%windir%\\x.exe"));
    assert!(!absolute(""));
}

#[test]
fn joining() {
    assert_eq!(join("C:\\a", "b"), "C:\\a\\b");
    assert_eq!(join("C:\\a\\", "b"), "C:\\a\\b");
    assert_eq!(join("C:", "b"), "C:b");
    assert_eq!(join("", "b"), "b");
    assert_eq!(join("C:\\a", "D:\\b"), "D:\\b");
    assert_eq!(join("C:\\a", "\\b"), "C:\\b");
    assert_eq!(join("C:\\a", ""), "C:\\a\\");
    assert_eq!(file_name(&join("C:\\update", "app.exe")), some("app.exe"));
}

#[test]
fn equal_paths() {
    assert!(paths_equal("C:\\a\\b", "c:/a//b/"));
    assert!(paths_equal("C:\\a\\.\\b", "C:\\a\\b"));
    assert!(!paths_equal("C:\\a\\b", "C:\\a\\B"));
    assert!(!paths_equal("C:\\a", "C:a"));
    assert!(!paths_equal("C:\\a", "D:\\a"));
    assert!(paths_equal("\\\\server\\share\\x", "//server/share/x"));
}

#[test]
fn joining_to_a_verbatim_folder_resolves_the_components() {
    assert_eq!(join("\\\\?\\C:\\bar", "foo"), "\\\\?\\C:\\bar\\foo");
    assert_eq!(join("\\\\?\\C:\\bar", "../foo"), "\\\\?\\C:\\foo");
    assert_eq!(join("\\\\?\\C:\\bar", "../../foo"), "\\\\?\\C:\\foo");
    assert_eq!(join("\\\\?\\C:\\", "../foo"), "\\\\?\\C:\\foo");
    assert_eq!(join("\\\\?\\A:\\x\\y", "/foo"), "\\\\?\\A:\\foo");
    assert_eq!(join("\\\\?\\A:", "..\\foo\\."), "\\\\?\\A:\\foo");
    assert_eq!(join("\\\\?\\A:\\x\\y", ".\\foo\\."), "\\\\?\\A:\\x\\y\\foo");
    assert_eq!(join("\\\\?\\A:\\x\\y", ""), "\\\\?\\A:\\x\\y\\");
    assert_eq!(join("\\\\?\\A:\\x", ".."), "\\\\?\\A:\\");
    assert_eq!(join("\\\\?\\C:", "D:\\foo/./"), "D:\\foo/./");
}

#[test]
fn a_dot_behind_a_drive_letter_is_no_component() {
    assert_eq!(parent("C:."), None);
    assert_eq!(file_name("C:."), None);
    assert_eq!(parent("C:.\\a"), some("C:."));
    assert_eq!(file_name("C:.\\a"), some("a"));
    assert!(paths_equal("C:.\\a", "C:a"));
    assert!(paths_equal("c:.", "C:"));
    assert_eq!(parent("."), some(""));
    assert_eq!(parent(".\\a"), some("."));
    assert!(!paths_equal(".\\a", "a"));
}
