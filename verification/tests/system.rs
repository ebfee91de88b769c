use std::collections::HashSet;

use xon::launch::is_system_uri;
use xon::system::builtin_system_features;

#[test]
fn system_uris_occur_once() {
    let features = builtin_system_features();
    assert_eq!(features.len(), 19);
    let uris: HashSet<&str> = features.iter().map(|f| f.uri).collect();
    assert_eq!(uris.len(), features.len());
    assert!(features.iter().all(|f| is_system_uri(f.uri)));
}

#[test]
fn system_entries_have_their_names() {
    let features = builtin_system_features();
    let find = |uri: &str| features.iter().find(|f| f.uri == uri).map(|f| f.name);
    assert_eq!(find("ms-settings:display"), Some("显示"));
    assert_eq!(find("::{20D04FE0-3AEA-1069-A2D8-08002B30309D}"), Some("此电脑"));
    assert_eq!(find("::{645FF040-5081-101B-9F08-00AA002F954E}"), Some("回收站"));
}
