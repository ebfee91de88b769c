//! The rows of the launcher index.

use crate::text::{copy_texts, view_opt, views};
use vstd::prelude::*;

verus! {

/// An entry in the launcher index: a single launchable app.
///
/// `launch_path` is what is handed to the system to launch it, `target_path` the
/// resolved target, by which apps that share a program are told apart. `icon` is a
/// base64 PNG data URI, filled in later. `aliases` are further names to search by; they
/// are not shown.
#[derive(Debug)]
pub struct AppInfo {
    pub name: String,
    pub comment: Option<String>,
    pub launch_path: String,
    pub target_path: String,
    pub icon: Option<String>,
    pub aliases: Vec<String>,
}

/// The texts of an entry.
#[verifier::ext_equal]
pub struct Row {
    pub name: Seq<char>,
    pub comment: Option<Seq<char>>,
    pub launch_path: Seq<char>,
    pub target_path: Seq<char>,
    pub icon: Option<Seq<char>>,
    pub aliases: Seq<Seq<char>>,
}

impl View for AppInfo {
    type V = Row;

    open spec fn view(&self) -> Row {
        Row {
            name: self.name@,
            comment: view_opt(self.comment),
            launch_path: self.launch_path@,
            target_path: self.target_path@,
            icon: view_opt(self.icon),
            aliases: views(self.aliases@),
        }
    }
}

impl Clone for AppInfo {
    fn clone(&self) -> (r: Self)
        ensures
            r@ == self@,
    {
        AppInfo {
            name: self.name.clone(),
            comment: copy_opt(&self.comment),
            launch_path: self.launch_path.clone(),
            target_path: self.target_path.clone(),
            icon: copy_opt(&self.icon),
            aliases: copy_texts(&self.aliases),
        }
    }
}

/// A copy of an optional text.
pub fn copy_opt(t: &Option<String>) -> (r: Option<String>)
    ensures
        r == *t,
{
    match t {
        Some(s) => Some(s.clone()),
        None => None,
    }
}

/// The rows of a list of entries.
pub open spec fn rows(apps: Seq<AppInfo>) -> Seq<Row> {
    Seq::new(apps.len(), |i: int| apps[i]@)
}

/// A copy of a list of entries.
pub fn copy_apps(apps: &Vec<AppInfo>) -> (r: Vec<AppInfo>)
    ensures
        rows(r@) == rows(apps@),
{
    let mut out: Vec<AppInfo> = Vec::new();
    let mut i: usize = 0;
    while i < apps.len()
        invariant
            i <= apps@.len(),
            out@.len() == i,
            forall|j: int| 0 <= j < i ==> out@[j]@ == apps@[j]@,
        decreases apps.len() - i,
    {
        out.push(apps[i].clone());
        i += 1;
    }
    assert(rows(out@) =~= rows(apps@));
    out
}

} // verus!
