//! How an index entry is launched: the decision which way it goes, what the shell is
//! asked to do, and what its answer means.

use crate::portable::{is_known_portable, known, PortableManifest};
use crate::store::{is_store_launch_path, store_path, strip_launch_prefix, stripped};
use crate::text::{decimal, starts_with, to_decimal, view_opt};
use vstd::prelude::*;

verus! {

/// One `ShellExecuteW` call: the verb, the item, and the working directory where one is
/// set.
#[derive(Debug)]
pub struct ShellRequest {
    pub verb: String,
    pub file: String,
    pub directory: Option<String>,
}

/// The texts of a shell request.
pub struct Request {
    pub verb: Seq<char>,
    pub file: Seq<char>,
    pub directory: Option<Seq<char>>,
}

impl View for ShellRequest {
    type V = Request;

    open spec fn view(&self) -> Request {
        Request { verb: self.verb@, file: self.file@, directory: view_opt(self.directory) }
    }
}

/// A `ShellExecuteW` return value beyond this one means success; up to it, it is an
/// error code.
pub const SHELL_ERROR_MAX: i64 = 32;

/// The message for a failed call: what failed, and the code.
pub open spec fn failure(what: Seq<char>, code: i64) -> Seq<char> {
    what + " (code "@ + decimal(code as int) + ")"@
}

/// What a `ShellExecuteW` return value means: `what` names the call in the message.
pub fn shell_outcome(what: &str, code: i64) -> (r: Result<(), String>)
    ensures
        match r {
            Ok(_) => code > SHELL_ERROR_MAX,
            Err(e) => code <= SHELL_ERROR_MAX && e@ == failure(what@, code),
        },
        r is Ok <==> code > 32,
{
    if code <= SHELL_ERROR_MAX {
        let mut text = what.to_owned();
        text.append(" (code ");
        text.append(to_decimal(code).as_str());
        text.append(")");
        Err(text)
    } else {
        Ok(())
    }
}

/// The path is one of the built-in system entries: a settings URI or a shell CLSID.
pub open spec fn system_uri(path: Seq<char>) -> bool {
    "ms-settings:"@.is_prefix_of(path) || "::{"@.is_prefix_of(path)
}

/// Whether the path is one of the built-in system entries. They are not files on disk,
/// so they cannot be elevated.
pub fn is_system_uri(path: &str) -> (r: bool)
    ensures
        r == system_uri(path@),
{
    starts_with(path, "ms-settings:") || starts_with(path, "::{")
}

/// The shell request that launches any shell item elevated. No working directory is
/// set, so that a shortcut's own wins.
pub fn run_elevated(path: &str) -> (r: ShellRequest)
    ensures
        r@ == (Request { verb: "runas"@, file: path@, directory: None }),
{
    ShellRequest { verb: "runas".to_owned(), file: path.to_owned(), directory: None }
}

/// What the shell's answer to an elevated launch means.
pub fn elevated_outcome(code: i64) -> (r: Result<(), String>)
    ensures
        match r {
            Ok(_) => code > SHELL_ERROR_MAX,
            Err(e) => code <= SHELL_ERROR_MAX && e@ == failure("ShellExecute runas failed"@, code),
        },
        r is Ok <==> code > 32,
{
    shell_outcome("ShellExecute runas failed", code)
}

/// The ways an entry is launched.
#[derive(Debug)]
pub enum LaunchPlan {
    /// Activate the store app with this AppUserModelID.
    Store(String),
    /// Start the portable exe at this path, elevated or not.
    Portable(String, bool),
    /// Hand the item to the shell, elevated.
    Elevated(String),
    /// Open the item the plain way.
    Open(String),
}

/// The texts of a launch plan.
pub enum Plan {
    Store(Seq<char>),
    Portable(Seq<char>, bool),
    Elevated(Seq<char>),
    Open(Seq<char>),
}

impl View for LaunchPlan {
    type V = Plan;

    open spec fn view(&self) -> Plan {
        match *self {
            LaunchPlan::Store(a) => Plan::Store(a@),
            LaunchPlan::Portable(p, e) => Plan::Portable(p@, e),
            LaunchPlan::Elevated(p) => Plan::Elevated(p@),
            LaunchPlan::Open(p) => Plan::Open(p@),
        }
    }
}

/// How `path` is launched, where `portable` says if it is a registered portable exe.
/// Store apps and system entries are never elevated.
pub open spec fn plan(path: Seq<char>, as_admin: bool, portable: bool) -> Plan {
    let elevate = as_admin && !system_uri(path);
    if store_path(path) {
        Plan::Store(stripped(path))
    } else if portable {
        Plan::Portable(path, elevate)
    } else if elevate {
        Plan::Elevated(path)
    } else {
        Plan::Open(path)
    }
}

/// Decides how an index entry is launched. What kind of entry it is, the store prefix
/// and the portable manifest say, not the suffix of the path, so that a `.lnk` to an exe
/// still launches as a shortcut.
pub fn plan_launch(manifest: &PortableManifest, app_path: &str, as_admin: bool) -> (r: LaunchPlan)
    ensures
        r@ == plan(app_path@, as_admin, known(manifest@, app_path@)),
{
    let elevate = as_admin && !is_system_uri(app_path);
    if is_store_launch_path(app_path) {
        LaunchPlan::Store(strip_launch_prefix(app_path))
    } else if is_known_portable(manifest, app_path) {
        LaunchPlan::Portable(app_path.to_owned(), elevate)
    } else if elevate {
        LaunchPlan::Elevated(app_path.to_owned())
    } else {
        LaunchPlan::Open(app_path.to_owned())
    }
}

/// The one argument that makes Explorer show a file selected in its folder: flag and
/// path together, since Explorer reads the rest of that token as the path.
pub fn explorer_select_arg(path: &str) -> (r: String)
    ensures
        r@ == "/select,"@ + path@,
{
    let mut arg = "/select,".to_owned();
    arg.append(path);
    arg
}

/// Asking for elevation changes nothing for a store app or a system entry.
pub proof fn law_no_elevation_for_system_and_store(path: Seq<char>, portable: bool)
    requires
        system_uri(path) || store_path(path),
    ensures
        plan(path, true, portable) == plan(path, false, portable),
{
}

/// A registered portable exe is launched as one, elevated exactly where that was asked
/// for, and a path that is not registered never is, whatever its suffix.
pub proof fn law_portable_is_decided_by_the_manifest(path: Seq<char>, as_admin: bool)
    requires
        !store_path(path),
        !system_uri(path),
    ensures
        plan(path, as_admin, true) == Plan::Portable(path, as_admin),
        !(plan(path, as_admin, false) is Portable),
{
}

/// A path that is neither a store path nor a system entry goes to the shell as it is:
/// elevated where that was asked for, opened the plain way where not, whatever its suffix.
/// Where it is registered as a portable exe it is started as one, elevated likewise.
pub proof fn law_file_is_launched_as_asked(path: Seq<char>)
    requires
        !"store:"@.is_prefix_of(path),
        !"ms-settings:"@.is_prefix_of(path),
        !"::{"@.is_prefix_of(path),
    ensures
        plan(path, true, false) == Plan::Elevated(path),
        plan(path, false, false) == Plan::Open(path),
        plan(path, true, true) == Plan::Portable(path, true),
        plan(path, false, true) == Plan::Portable(path, false),
{
}

/// A settings URI or a shell CLSID, with whatever behind its head, is opened the plain way,
/// asked for elevation or not.
pub proof fn law_system_entry_is_opened(rest: Seq<char>, as_admin: bool)
    ensures
        plan("ms-settings:"@ + rest, as_admin, false) == Plan::Open("ms-settings:"@ + rest),
        plan("::{"@ + rest, as_admin, false) == Plan::Open("::{"@ + rest),
        plan("ms-settings:"@ + rest, as_admin, true) == Plan::Portable("ms-settings:"@ + rest, false),
        plan("::{"@ + rest, as_admin, true) == Plan::Portable("::{"@ + rest, false),
{
    reveal_strlit("ms-settings:");
    reveal_strlit("::{");
    reveal_strlit("store:");
    let settings = "ms-settings:"@ + rest;
    let clsid = "::{"@ + rest;
    assert(settings.subrange(0, 12) =~= "ms-settings:"@);
    assert(clsid.subrange(0, 3) =~= "::{"@);
    assert(!"store:"@.is_prefix_of(settings)) by {
        assert("store:"@[0] != settings.subrange(0, 6)[0]);
    }
    assert(!"store:"@.is_prefix_of(clsid)) by {
        if clsid.len() >= 6 {
            assert("store:"@[0] != clsid.subrange(0, 6)[0]);
        }
    }
}

/// Behind the store prefix stands the identifier of the app to activate, asked for elevation
/// or not.
pub proof fn law_store_app_is_activated(id: Seq<char>, as_admin: bool, portable: bool)
    ensures
        plan("store:"@ + id, as_admin, portable) == Plan::Store(id),
{
    reveal_strlit("store:");
    let path = "store:"@ + id;
    assert(path.subrange(0, 6) =~= "store:"@);
    assert(path.skip(6) =~= id);
}

/// The message for a failed call gives what failed as it is and the code in decimal.
pub proof fn law_failure_tells_what_and_code(what: Seq<char>, code: i64)
    ensures
        failure(what, code) == what + " (code "@ + decimal(code as int) + ")"@,
{
}

} // verus!
