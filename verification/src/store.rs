//! Microsoft Store (packaged) apps.
//!
//! The shell's folder of all apps lists classic desktop apps too, so three filters keep
//! this source clean: items whose AppUserModelID looks like a file path are dropped,
//! items without a package family name are dropped (only packaged apps have one), and
//! what the start menu shows by the same name is left out of the index.
//!
//! A store app's launch path is `store:<AUMID>`. Store apps cannot run elevated.

use crate::launch::{failure, shell_outcome, SHELL_ERROR_MAX};
use crate::text::{
    ascii_lower, ascii_lower_all, chars_of, decimal, ends_with, has_char, is_white_space, law_trimmed,
    starts_with, text_between, to_ascii_lowercase, trim, trimmed, view_opt,
};
use crate::wide::{decode16, decode_lossy};
use vstd::prelude::*;

verus! {

/// The prefix of a store app's launch path.
pub const LAUNCH_PREFIX: &'static str = "store:";

/// A store app: the localized name that the shell reports, and the AppUserModelID it is
/// launched by.
#[derive(Debug)]
pub struct StoreApp {
    pub name: String,
    pub aumid: String,
}

/// The texts of a store app.
#[verifier::ext_equal]
pub struct Packaged {
    pub name: Seq<char>,
    pub aumid: Seq<char>,
}

impl View for StoreApp {
    type V = Packaged;

    open spec fn view(&self) -> Packaged {
        Packaged { name: self.name@, aumid: self.aumid@ }
    }
}

/// The store apps of a list, as texts.
pub open spec fn packaged(apps: Seq<StoreApp>) -> Seq<Packaged> {
    Seq::new(apps.len(), |i: int| apps[i]@)
}

/// The path is the launch path of a store app.
pub open spec fn store_path(path: Seq<char>) -> bool {
    LAUNCH_PREFIX@.is_prefix_of(path)
}

/// The path without the store prefix, where it has one.
pub open spec fn stripped(path: Seq<char>) -> Seq<char> {
    if store_path(path) {
        path.skip(LAUNCH_PREFIX@.len() as int)
    } else {
        path
    }
}

/// Whether the path is the launch path of a store app.
pub fn is_store_launch_path(path: &str) -> (r: bool)
    ensures
        r == store_path(path@),
{
    starts_with(path, LAUNCH_PREFIX)
}

/// The path without the store prefix, where it has one.
pub fn strip_launch_prefix(path: &str) -> (r: String)
    ensures
        r@ == stripped(path@),
{
    if is_store_launch_path(path) {
        let chars = chars_of(path);
        let n: usize = chars_of(LAUNCH_PREFIX).len();
        assert(chars@.subrange(n as int, chars@.len() as int) =~= chars@.skip(n as int));
        text_between(&chars, n, chars.len())
    } else {
        path.to_owned()
    }
}

/// The launch path of the store app with this AppUserModelID.
pub fn launch_path(aumid: &str) -> (r: String)
    ensures
        r@ == LAUNCH_PREFIX@ + aumid@,
{
    let mut path = LAUNCH_PREFIX.to_owned();
    path.append(aumid);
    path
}

/// The AppUserModelID is the path of a file, as classic desktop apps have it.
pub open spec fn path_like(aumid: Seq<char>) -> bool {
    ||| aumid.contains('\\')
    ||| aumid.contains('/')
    ||| ".exe"@.is_suffix_of(ascii_lower_all(aumid))
    ||| ".lnk"@.is_suffix_of(ascii_lower_all(aumid))
}

/// Whether the AppUserModelID is the path of a file. Those items are in the start menu
/// already.
pub fn aumid_looks_like_path(aumid: &str) -> (r: bool)
    ensures
        r == path_like(aumid@),
{
    let lower = to_ascii_lowercase(aumid);
    has_char(aumid, '\\') || has_char(aumid, '/') || ends_with(lower.as_str(), ".exe") || ends_with(
        lower.as_str(),
        ".lnk",
    )
}

/// The text of a property of a shell item; `None` where it is empty.
pub fn property_text(units: &Vec<u16>) -> (r: Option<String>)
    ensures
        view_opt(r) == if decode16(units@).len() == 0 {
            None
        } else {
            Some(decode16(units@))
        },
{
    let text = decode_lossy(units);
    if text.as_str().is_empty() {
        None
    } else {
        Some(text)
    }
}

/// An item of the shell's folder of all apps: its display name, its AppUserModelID and
/// its package family name, as far as the shell gives them.
#[derive(Debug)]
pub struct ShellItem {
    pub name: Option<String>,
    pub aumid: Option<String>,
    pub package_family: Option<String>,
}

/// The texts of a shell item.
pub struct Item {
    pub name: Option<Seq<char>>,
    pub aumid: Option<Seq<char>>,
    pub package_family: Option<Seq<char>>,
}

impl View for ShellItem {
    type V = Item;

    open spec fn view(&self) -> Item {
        Item {
            name: view_opt(self.name),
            aumid: view_opt(self.aumid),
            package_family: view_opt(self.package_family),
        }
    }
}

/// The items of a list, as texts.
pub open spec fn items_of(items: Seq<ShellItem>) -> Seq<Item> {
    Seq::new(items.len(), |i: int| items[i]@)
}

/// Some app of the list has this AppUserModelID.
pub open spec fn has_aumid(apps: Seq<Packaged>, aumid: Seq<char>) -> bool {
    exists|i: int| 0 <= i < apps.len() && (#[trigger] apps[i]).aumid == aumid
}

/// The item is a packaged app with a name to show.
pub open spec fn is_packaged(item: Item) -> bool {
    &&& item.name is Some
    &&& item.aumid is Some
    &&& item.package_family is Some
    &&& !path_like(item.aumid->0)
    &&& trimmed(item.name->0).len() > 0
}

/// The packaged apps among the items, each AppUserModelID once.
pub open spec fn selected(items: Seq<Item>) -> Seq<Packaged>
    decreases items.len(),
{
    if items.len() == 0 {
        Seq::empty()
    } else {
        let before = selected(items.drop_last());
        let item = items.last();
        if is_packaged(item) && !has_aumid(before, item.aumid->0) {
            before.push(Packaged { name: trimmed(item.name->0), aumid: item.aumid->0 })
        } else {
            before
        }
    }
}

/// Text order: by the first character that differs, a text before its continuations.
pub open spec fn text_le(a: Seq<char>, b: Seq<char>) -> bool
    decreases a.len(),
{
    if a.len() == 0 {
        true
    } else if b.len() == 0 {
        false
    } else if a[0] == b[0] {
        text_le(a.drop_first(), b.drop_first())
    } else {
        a[0] < b[0]
    }
}

/// `app` put into a list ordered by name, behind those of the same name.
pub open spec fn insert_by_name(apps: Seq<Packaged>, app: Packaged) -> Seq<Packaged>
    decreases apps.len(),
{
    if apps.len() == 0 || text_le(apps.last().name, app.name) {
        apps.push(app)
    } else {
        insert_by_name(apps.drop_last(), app).push(apps.last())
    }
}

/// The list in the order of the names; apps of the same name keep their order.
pub open spec fn sorted_by_name(apps: Seq<Packaged>) -> Seq<Packaged>
    decreases apps.len(),
{
    if apps.len() == 0 {
        Seq::empty()
    } else {
        insert_by_name(sorted_by_name(apps.drop_last()), apps.last())
    }
}

/// Whether `a` comes before `b` in text order, or is the same.
fn in_order(a: &str, b: &str) -> (r: bool)
    ensures
        r == text_le(a@, b@),
{
    let x = chars_of(a);
    let y = chars_of(b);
    let mut i: usize = 0;
    assert(a@.skip(0) =~= a@);
    assert(b@.skip(0) =~= b@);
    while i < x.len() && i < y.len()
        invariant
            x@ == a@,
            y@ == b@,
            i <= x@.len(),
            i <= y@.len(),
            text_le(a@, b@) == text_le(a@.skip(i as int), b@.skip(i as int)),
        decreases x.len() - i,
    {
        assert(a@.skip(i as int).drop_first() =~= a@.skip(i + 1));
        assert(b@.skip(i as int).drop_first() =~= b@.skip(i + 1));
        if x[i] != y[i] {
            return x[i] < y[i];
        }
        i += 1;
    }
    i >= x.len()
}

/// Puts `app` into the list ordered by name.
fn insert_sorted(apps: &mut Vec<StoreApp>, app: StoreApp)
    ensures
        packaged(final(apps)@) == insert_by_name(packaged(old(apps)@), app@),
{
    let ghost all = packaged(apps@);
    let mut i: usize = apps.len();
    assert(all.take(i as int) =~= all);
    assert(insert_by_name(all, app@) =~= insert_by_name(all.take(i as int), app@) + all.skip(
        i as int,
    ));
    while i > 0 && !in_order(apps[i - 1].name.as_str(), app.name.as_str())
        invariant
            all == packaged(apps@),
            i <= apps@.len(),
            insert_by_name(all, app@) == insert_by_name(all.take(i as int), app@) + all.skip(
                i as int,
            ),
        decreases i,
    {
        let ghost part = all.take(i as int);
        assert(part.drop_last() =~= all.take(i - 1));
        assert(insert_by_name(part, app@) + all.skip(i as int) =~= insert_by_name(
            part.drop_last(),
            app@,
        ) + all.skip(i - 1));
        i -= 1;
    }
    assert(insert_by_name(all.take(i as int), app@) =~= all.take(i as int).push(app@));
    apps.insert(i, app);
    assert(packaged(apps@) =~= all.take(i as int).push(app@) + all.skip(i as int));
}

/// Whether some app of the list has this AppUserModelID.
fn lists_aumid(apps: &Vec<StoreApp>, aumid: &String) -> (r: bool)
    ensures
        r == has_aumid(packaged(apps@), aumid@),
{
    let mut i: usize = 0;
    while i < apps.len()
        invariant
            i <= apps@.len(),
            forall|j: int| 0 <= j < i ==> (#[trigger] packaged(apps@)[j]).aumid != aumid@,
        decreases apps.len() - i,
    {
        if apps[i].aumid == *aumid {
            assert(packaged(apps@)[i as int].aumid == aumid@);
            return true;
        }
        i += 1;
    }
    false
}

/// The packaged app that an item is, where it is one.
fn packaged_app(item: &ShellItem) -> (r: Option<StoreApp>)
    ensures
        match r {
            Some(app) => is_packaged(item@) && app@ == (Packaged {
                name: trimmed(item@.name->0),
                aumid: item@.aumid->0,
            }),
            None => !is_packaged(item@),
        },
{
    match (&item.name, &item.aumid, &item.package_family) {
        (Some(name), Some(aumid), Some(_)) => {
            let shown = trim(name.as_str());
            if aumid_looks_like_path(aumid.as_str()) || shown.as_str().is_empty() {
                None
            } else {
                Some(StoreApp { name: shown, aumid: aumid.clone() })
            }
        },
        _ => None,
    }
}

/// The packaged apps among the items of the shell's folder of all apps: each once, in
/// the order of their names.
pub fn enumerate_store_apps(items: &Vec<ShellItem>) -> (r: Vec<StoreApp>)
    ensures
        packaged(r@) == sorted_by_name(selected(items_of(items@))),
{
    let ghost all = items_of(items@);
    let mut chosen: Vec<StoreApp> = Vec::new();
    let mut i: usize = 0;
    assert(packaged(chosen@) =~= selected(all.take(0)));
    while i < items.len()
        invariant
            all == items_of(items@),
            i <= items@.len(),
            packaged(chosen@) == selected(all.take(i as int)),
        decreases items.len() - i,
    {
        let ghost before = packaged(chosen@);
        assert(all.take(i + 1).drop_last() =~= all.take(i as int));
        assert(all.take(i + 1).last() == items@[i as int]@);
        if let Some(app) = packaged_app(&items[i]) {
            if !lists_aumid(&chosen, &app.aumid) {
                let ghost row = app@;
                chosen.push(app);
                assert(packaged(chosen@) =~= before.push(row));
            }
        }
        i += 1;
    }
    assert(all.take(all.len() as int) =~= all);
    sort_by_name(chosen)
}

/// The list in the order of the names.
fn sort_by_name(apps: Vec<StoreApp>) -> (r: Vec<StoreApp>)
    ensures
        packaged(r@) == sorted_by_name(packaged(apps@)),
{
    let ghost all = packaged(apps@);
    let mut out: Vec<StoreApp> = Vec::new();
    let mut i: usize = 0;
    assert(packaged(out@) =~= sorted_by_name(all.take(0)));
    while i < apps.len()
        invariant
            all == packaged(apps@),
            i <= apps@.len(),
            packaged(out@) == sorted_by_name(all.take(i as int)),
        decreases apps.len() - i,
    {
        assert(all.take(i + 1).drop_last() =~= all.take(i as int));
        insert_sorted(
            &mut out,
            StoreApp { name: apps[i].name.clone(), aumid: apps[i].aumid.clone() },
        );
        i += 1;
    }
    assert(all.take(all.len() as int) =~= all);
    out
}

/// The shell's name for the app with this AppUserModelID in its folder of all apps.
pub open spec fn apps_folder_item(aumid: Seq<char>) -> Seq<char> {
    "shell:AppsFolder\\"@ + aumid
}

/// The shell's name for a store app, by which its icon is looked up and which the
/// fallback launch opens.
pub fn apps_folder_path(aumid: &str) -> (r: String)
    ensures
        r@ == apps_folder_item(aumid@),
{
    let mut path = "shell:AppsFolder\\".to_owned();
    path.append(aumid);
    path
}

/// What `CoInitializeEx` left a thread with: `ready` where it has an apartment, `owned`
/// where that call started it and it has to be torn down again.
#[derive(Clone, Copy, PartialEq, Eq, Structural, Debug)]
pub struct Apartment {
    pub owned: bool,
    pub ready: bool,
}

/// `RPC_E_CHANGED_MODE`: the thread has an apartment of another model, which serves as
/// well.
pub const RPC_E_CHANGED_MODE: i32 = -2147417850;

/// Reads the result of `CoInitializeEx`.
pub fn com_apartment(hresult: i32) -> (r: Apartment)
    ensures
        r.owned == (hresult == 0),
        r.ready == (hresult >= 0 || hresult == RPC_E_CHANGED_MODE),
        r.ready <==> hresult >= 0 || hresult == -0x7ffe_fefa,
{
    Apartment { owned: hresult == 0, ready: hresult >= 0 || hresult == RPC_E_CHANGED_MODE }
}

/// What happens on the way to a launched store app.
#[derive(Clone, Copy, PartialEq, Eq, Structural, Debug)]
pub enum LaunchEvent {
    /// The platform has no store apps.
    Unsupported,
    /// The thread could not get a COM apartment.
    NoApartment,
    /// The thread has a COM apartment.
    Ready,
    /// The activation manager started the app.
    Activated,
    /// The activation manager failed.
    ActivationFailed,
    /// `ShellExecuteW` returned this value for the fallback.
    ShellReturned(i64),
}

/// What to do next on the way to a launched store app.
#[derive(Debug)]
pub enum LaunchStep {
    /// Ask the activation manager to start the app.
    Activate,
    /// Let the shell open this item.
    OpenShell(String),
    /// The launch is over.
    Done(Result<(), String>),
}

/// The texts of a launch step.
pub enum Step {
    Activate,
    OpenShell(Seq<char>),
    Launched,
    Failed(Seq<char>),
}

impl View for LaunchStep {
    type V = Step;

    open spec fn view(&self) -> Step {
        match *self {
            LaunchStep::Activate => Step::Activate,
            LaunchStep::OpenShell(p) => Step::OpenShell(p@),
            LaunchStep::Done(Ok(_)) => Step::Launched,
            LaunchStep::Done(Err(e)) => Step::Failed(e@),
        }
    }
}

/// What follows on an event: activation first, then the shell, as a click in the start
/// menu would, and then success or the code it returned.
pub open spec fn next_step(aumid: Seq<char>, event: LaunchEvent) -> Step {
    match event {
        LaunchEvent::Unsupported => Step::Failed("store apps are unsupported on this platform"@),
        LaunchEvent::NoApartment => Step::Failed("COM unavailable on this thread"@),
        LaunchEvent::Ready => Step::Activate,
        LaunchEvent::Activated => Step::Launched,
        LaunchEvent::ActivationFailed => Step::OpenShell(apps_folder_item(aumid)),
        LaunchEvent::ShellReturned(code) => if code > SHELL_ERROR_MAX {
            Step::Launched
        } else {
            Step::Failed(failure("failed to launch store app "@ + aumid, code))
        },
    }
}

/// Decides what follows on an event while the store app with this AppUserModelID is
/// being launched.
pub fn launch(aumid: &str, event: LaunchEvent) -> (r: LaunchStep)
    ensures
        r@ == next_step(aumid@, event),
{
    match event {
        LaunchEvent::Unsupported => LaunchStep::Done(
            Err("store apps are unsupported on this platform".to_owned()),
        ),
        LaunchEvent::NoApartment => LaunchStep::Done(
            Err("COM unavailable on this thread".to_owned()),
        ),
        LaunchEvent::Ready => LaunchStep::Activate,
        LaunchEvent::Activated => LaunchStep::Done(Ok(())),
        LaunchEvent::ActivationFailed => LaunchStep::OpenShell(apps_folder_path(aumid)),
        LaunchEvent::ShellReturned(code) => {
            let mut what = "failed to launch store app ".to_owned();
            what.append(aumid);
            LaunchStep::Done(shell_outcome(what.as_str(), code))
        },
    }
}

/// The launch path of a store app is recognized as one, and gives the AppUserModelID
/// back.
pub proof fn law_launch_path_round_trip(aumid: Seq<char>)
    ensures
        store_path(LAUNCH_PREFIX@ + aumid),
        stripped(LAUNCH_PREFIX@ + aumid) == aumid,
{
    let path = LAUNCH_PREFIX@ + aumid;
    assert(path.take(LAUNCH_PREFIX@.len() as int) =~= LAUNCH_PREFIX@);
    assert(path.subrange(0, LAUNCH_PREFIX@.len() as int) =~= LAUNCH_PREFIX@);
    assert(path.skip(LAUNCH_PREFIX@.len() as int) =~= aumid);
}

/// A path that is not a store app's is left as it is.
pub proof fn law_other_paths_are_not_stripped(path: Seq<char>)
    requires
        !store_path(path),
    ensures
        stripped(path) == path,
{
}

proof fn lemma_text_le_reflexive(a: Seq<char>)
    ensures
        text_le(a, a),
    decreases a.len(),
{
    if a.len() > 0 {
        lemma_text_le_reflexive(a.drop_first());
    }
}

proof fn lemma_text_le_total(a: Seq<char>, b: Seq<char>)
    ensures
        text_le(a, b) || text_le(b, a),
    decreases a.len(),
{
    if a.len() > 0 && b.len() > 0 && a[0] == b[0] {
        lemma_text_le_total(a.drop_first(), b.drop_first());
    }
}

proof fn lemma_text_le_transitive(a: Seq<char>, b: Seq<char>, c: Seq<char>)
    requires
        text_le(a, b),
        text_le(b, c),
    ensures
        text_le(a, c),
    decreases a.len(),
{
    if a.len() > 0 && b.len() > 0 && c.len() > 0 && a[0] == b[0] && b[0] == c[0] {
        lemma_text_le_transitive(a.drop_first(), b.drop_first(), c.drop_first());
    }
}

/// The apps stand in the order of their names.
pub open spec fn name_ordered(apps: Seq<Packaged>) -> bool {
    forall|i: int, j: int|
        0 <= i <= j < apps.len() ==> text_le((#[trigger] apps[i]).name, (#[trigger] apps[j]).name)
}

/// No AppUserModelID occurs twice.
pub open spec fn aumids_distinct(apps: Seq<Packaged>) -> bool {
    forall|i: int, j: int|
        0 <= i < j < apps.len() ==> (#[trigger] apps[i]).aumid != (#[trigger] apps[j]).aumid
}

/// Where `insert_by_name` puts an app.
spec fn insert_place(apps: Seq<Packaged>, app: Packaged) -> int
    decreases apps.len(),
{
    if apps.len() == 0 || text_le(apps.last().name, app.name) {
        apps.len() as int
    } else {
        insert_place(apps.drop_last(), app)
    }
}

proof fn lemma_insert_place(apps: Seq<Packaged>, app: Packaged)
    ensures
        0 <= insert_place(apps, app) <= apps.len(),
        insert_by_name(apps, app) == apps.insert(insert_place(apps, app), app),
        insert_place(apps, app) > 0 ==> text_le(apps[insert_place(apps, app) - 1].name, app.name),
        insert_place(apps, app) < apps.len() ==> !text_le(
            apps[insert_place(apps, app)].name,
            app.name,
        ),
    decreases apps.len(),
{
    let n = insert_place(apps, app);
    if apps.len() == 0 || text_le(apps.last().name, app.name) {
        assert(apps.push(app) =~= apps.insert(n, app));
    } else {
        let head = apps.drop_last();
        lemma_insert_place(head, app);
        assert(head.insert(n, app).push(apps.last()) =~= apps.insert(n, app));
        if n == head.len() {
            assert(apps[n] == apps.last());
        } else {
            assert(apps[n] == head[n]);
        }
    }
}

proof fn lemma_insert_keeps_order(apps: Seq<Packaged>, app: Packaged)
    requires
        name_ordered(apps),
    ensures
        name_ordered(insert_by_name(apps, app)),
{
    lemma_insert_place(apps, app);
    let n = insert_place(apps, app);
    let all = insert_by_name(apps, app);
    assert forall|i: int, j: int| 0 <= i <= j < all.len() implies text_le(
        (#[trigger] all[i]).name,
        (#[trigger] all[j]).name,
    ) by {
        if i == j {
            lemma_text_le_reflexive(all[i].name);
        } else if j == n {
            assert(all[i] == apps[i]);
            assert(text_le(apps[i].name, apps[n - 1].name));
            lemma_text_le_transitive(apps[i].name, apps[n - 1].name, app.name);
        } else if i == n {
            assert(all[j] == apps[j - 1]);
            lemma_text_le_total(app.name, apps[n].name);
            assert(text_le(apps[n].name, apps[j - 1].name));
            lemma_text_le_transitive(app.name, apps[n].name, apps[j - 1].name);
        } else {
            let a = if i < n {
                i
            } else {
                i - 1
            };
            let b = if j < n {
                j
            } else {
                j - 1
            };
            assert(all[i] == apps[a] && all[j] == apps[b]);
        }
    }
}

/// Sorting puts the apps in the order of their names.
pub proof fn law_sorting_orders_names(apps: Seq<Packaged>)
    ensures
        name_ordered(sorted_by_name(apps)),
    decreases apps.len(),
{
    if apps.len() > 0 {
        law_sorting_orders_names(apps.drop_last());
        lemma_insert_keeps_order(sorted_by_name(apps.drop_last()), apps.last());
    }
}

/// Sorting neither loses an app nor adds one.
pub proof fn law_sorting_keeps_the_apps(apps: Seq<Packaged>)
    ensures
        sorted_by_name(apps).to_multiset() == apps.to_multiset(),
    decreases apps.len(),
{
    broadcast use vstd::seq_lib::group_to_multiset_ensures;

    if apps.len() > 0 {
        let head = apps.drop_last();
        law_sorting_keeps_the_apps(head);
        lemma_insert_place(sorted_by_name(head), apps.last());
        assert(apps =~= head.push(apps.last()));
    }
}

/// Sorting keeps apps of the same name in the order they came in.
pub proof fn law_sorting_is_stable(apps: Seq<Packaged>, name: Seq<char>)
    ensures
        sorted_by_name(apps).filter(|a: Packaged| a.name == name) == apps.filter(
            |a: Packaged| a.name == name,
        ),
    decreases apps.len(),
{
    reveal(Seq::filter);
    if apps.len() > 0 {
        law_sorting_is_stable(apps.drop_last(), name);
        lemma_insert_is_stable(sorted_by_name(apps.drop_last()), apps.last(), name);
        let before = sorted_by_name(apps.drop_last());
        assert(before.push(apps.last()).drop_last() =~= before);
    }
}

proof fn lemma_insert_is_stable(apps: Seq<Packaged>, app: Packaged, name: Seq<char>)
    ensures
        insert_by_name(apps, app).filter(|a: Packaged| a.name == name) == apps.push(app).filter(
            |a: Packaged| a.name == name,
        ),
    decreases apps.len(),
{
    reveal(Seq::filter);
    let named = |a: Packaged| a.name == name;
    assert(apps.push(app).drop_last() =~= apps);
    if apps.len() > 0 && !text_le(apps.last().name, app.name) {
        let head = apps.drop_last();
        lemma_insert_is_stable(head, app, name);
        lemma_text_le_reflexive(app.name);
        let inner = insert_by_name(head, app);
        assert(inner.push(apps.last()).drop_last() =~= inner);
        assert(head.push(app).drop_last() =~= head);
        assert(inner.filter(named) == if named(app) {
            head.filter(named).push(app)
        } else {
            head.filter(named)
        });
        assert(apps.filter(named) == if named(apps.last()) {
            head.filter(named).push(apps.last())
        } else {
            head.filter(named)
        });
        assert(inner.push(apps.last()).filter(named) == if named(apps.last()) {
            inner.filter(named).push(apps.last())
        } else {
            inner.filter(named)
        });
    }
}

proof fn lemma_selected(items: Seq<Item>)
    ensures
        aumids_distinct(selected(items)),
        forall|i: int|
            0 <= i < selected(items).len() ==> exists|k: int|
                0 <= k < items.len() && is_packaged(#[trigger] items[k]) && #[trigger] selected(
                    items,
                )[i] == (Packaged { name: trimmed(items[k].name->0), aumid: items[k].aumid->0 }),
        forall|k: int|
            0 <= k < items.len() && is_packaged(#[trigger] items[k]) ==> has_aumid(
                selected(items),
                items[k].aumid->0,
            ),
    decreases items.len(),
{
    if items.len() > 0 {
        let head = items.drop_last();
        let before = selected(head);
        let all = selected(items);
        lemma_selected(head);
        assert forall|i: int| 0 <= i < all.len() implies exists|k: int|
            0 <= k < items.len() && is_packaged(#[trigger] items[k]) && #[trigger] all[i] == (
            Packaged { name: trimmed(items[k].name->0), aumid: items[k].aumid->0 }) by {
            if i < before.len() {
                assert(all[i] == before[i]);
                let k = choose|k: int|
                    0 <= k < head.len() && is_packaged(#[trigger] head[k]) && before[i] == (
                    Packaged { name: trimmed(head[k].name->0), aumid: head[k].aumid->0 });
                assert(items[k] == head[k]);
            } else {
                assert(items[items.len() - 1] == items.last());
            }
        }
        assert forall|k: int| 0 <= k < items.len() && is_packaged(#[trigger] items[k]) implies has_aumid(
            all,
            items[k].aumid->0,
        ) by {
            let u = items[k].aumid->0;
            if k < head.len() {
                assert(head[k] == items[k]);
            }
            if has_aumid(before, u) {
                let i = choose|i: int| 0 <= i < before.len() && (#[trigger] before[i]).aumid == u;
                assert(all[i].aumid == u);
            } else {
                assert(all[all.len() - 1].aumid == u);
            }
        }
    }
}

proof fn lemma_sorted_lists_the_same(apps: Seq<Packaged>)
    ensures
        forall|a: Packaged| sorted_by_name(apps).contains(a) <==> #[trigger] apps.contains(a),
        aumids_distinct(apps) ==> aumids_distinct(sorted_by_name(apps)),
    decreases apps.len(),
{
    if apps.len() > 0 {
        let head = apps.drop_last();
        let app = apps.last();
        let before = sorted_by_name(head);
        let n = insert_place(before, app);
        let all = sorted_by_name(apps);
        lemma_sorted_lists_the_same(head);
        lemma_insert_place(before, app);
        assert forall|a: Packaged| all.contains(a) <==> #[trigger] apps.contains(a) by {
            assert(before.contains(a) <==> head.contains(a));
            if all.contains(a) {
                let i = choose|i: int| 0 <= i < all.len() && all[i] == a;
                if i < n {
                    assert(before[i] == a);
                } else if i > n {
                    assert(before[i - 1] == a);
                }
                if a == app {
                    assert(apps[apps.len() - 1] == a);
                } else {
                    let k = choose|k: int| 0 <= k < head.len() && head[k] == a;
                    assert(apps[k] == a);
                }
            }
            if apps.contains(a) {
                let k = choose|k: int| 0 <= k < apps.len() && apps[k] == a;
                if k < head.len() {
                    assert(head[k] == a);
                    let i = choose|i: int| 0 <= i < before.len() && before[i] == a;
                    assert(all[if i < n {
                        i
                    } else {
                        i + 1
                    }] == a);
                } else {
                    assert(all[n] == a);
                }
            }
        }
        if aumids_distinct(apps) {
            assert forall|i: int| 0 <= i < before.len() implies (#[trigger] before[i]).aumid
                != app.aumid by {
                assert(before.contains(before[i]));
                assert(head.contains(before[i]));
                let k = choose|k: int| 0 <= k < head.len() && head[k] == before[i];
                assert(apps[k].aumid != apps[apps.len() - 1].aumid);
            }
            assert(aumids_distinct(head));
            assert forall|i: int, j: int| 0 <= i < j < all.len() implies (#[trigger] all[i]).aumid
                != (#[trigger] all[j]).aumid by {
                let a = if i < n {
                    i
                } else {
                    i - 1
                };
                let b = if j < n {
                    j
                } else {
                    j - 1
                };
                if i != n && j != n {
                    assert(before[a].aumid != before[b].aumid);
                } else if i == n {
                    assert(before[b].aumid != app.aumid);
                } else {
                    assert(before[a].aumid != app.aumid);
                }
            }
        }
    }
}

/// Every store app that is listed is a packaged app of the shell's folder under its own
/// AppUserModelID, which is not the path of a file, and none is listed twice.
pub proof fn law_listed_store_apps_are_packaged(items: Seq<Item>, i: int)
    requires
        0 <= i < sorted_by_name(selected(items)).len(),
    ensures
        aumids_distinct(sorted_by_name(selected(items))),
        !path_like(sorted_by_name(selected(items))[i].aumid),
        sorted_by_name(selected(items))[i].name.len() > 0,
        exists|k: int|
            0 <= k < items.len() && is_packaged(#[trigger] items[k]) && sorted_by_name(
                selected(items),
            )[i] == (Packaged { name: trimmed(items[k].name->0), aumid: items[k].aumid->0 }),
{
    let chosen = selected(items);
    let all = sorted_by_name(chosen);
    lemma_selected(items);
    lemma_sorted_lists_the_same(chosen);
    assert(all.contains(all[i]));
    assert(chosen.contains(all[i]));
    let n = choose|n: int| 0 <= n < chosen.len() && chosen[n] == all[i];
    let k = choose|k: int|
        0 <= k < items.len() && is_packaged(#[trigger] items[k]) && chosen[n] == (Packaged {
            name: trimmed(items[k].name->0),
            aumid: items[k].aumid->0,
        });
    assert(is_packaged(items[k]));
}

/// Every packaged app of the shell's folder is listed.
pub proof fn law_every_packaged_app_is_listed(items: Seq<Item>, k: int)
    requires
        0 <= k < items.len(),
        is_packaged(items[k]),
    ensures
        has_aumid(sorted_by_name(selected(items)), items[k].aumid->0),
{
    let chosen = selected(items);
    let all = sorted_by_name(chosen);
    lemma_selected(items);
    lemma_sorted_lists_the_same(chosen);
    let u = items[k].aumid->0;
    let n = choose|n: int| 0 <= n < chosen.len() && (#[trigger] chosen[n]).aumid == u;
    assert(chosen.contains(chosen[n]));
    assert(all.contains(chosen[n]));
    let i = choose|i: int| 0 <= i < all.len() && all[i] == chosen[n];
    assert(all[i].aumid == u);
}

/// Activation is tried only on a thread that is ready for it, the shell is asked only where
/// activation failed, and the shell's answer ends the launch.
pub proof fn law_launch_ends(aumid: Seq<char>, event: LaunchEvent, code: i64)
    ensures
        next_step(aumid, event) is Activate ==> event is Ready,
        next_step(aumid, event) is OpenShell ==> event is ActivationFailed,
        next_step(aumid, LaunchEvent::ShellReturned(code)) is Launched || next_step(
            aumid,
            LaunchEvent::ShellReturned(code),
        ) is Failed,
{
}

/// A launch path is the store prefix with the identifier behind it, and no other path is
/// taken for one.
pub proof fn law_store_prefix(path: Seq<char>, id: Seq<char>)
    ensures
        store_path("store:"@ + id),
        stripped("store:"@ + id) == id,
        store_path(path) ==> path == "store:"@ + stripped(path),
        (path.len() < 6 || path[0] != 's' || path[1] != 't' || path[2] != 'o' || path[3] != 'r'
            || path[4] != 'e' || path[5] != ':') ==> !store_path(path) && stripped(path) == path,
{
    reveal_strlit("store:");
    law_launch_path_round_trip(id);
    if store_path(path) {
        let head = path.subrange(0, 6);
        assert(head == "store:"@);
        assert(head[0] == path[0] && head[1] == path[1] && head[2] == path[2]);
        assert(head[3] == path[3] && head[4] == path[4] && head[5] == path[5]);
        assert(path =~= head + path.skip(6));
    }
}

/// An identifier is the path of a file where a separator stands in it, or where it ends in
/// `.exe` or `.lnk` in whatever case of letters, and only there.
pub proof fn law_path_like(aumid: Seq<char>)
    ensures
        path_like(aumid) <==> (exists|i: int|
            0 <= i < aumid.len() && (#[trigger] aumid[i] == '\\' || aumid[i] == '/')) || (
        aumid.len() >= 4 && aumid[aumid.len() - 4] == '.' && ({
            let a = aumid[aumid.len() - 3];
            let b = aumid[aumid.len() - 2];
            let c = aumid[aumid.len() - 1];
            ((a == 'e' || a == 'E') && (b == 'x' || b == 'X') && (c == 'e' || c == 'E')) || ((a
                == 'l' || a == 'L') && (b == 'n' || b == 'N') && (c == 'k' || c == 'K'))
        })),
{
    reveal_strlit(".exe");
    reveal_strlit(".lnk");
    let n = aumid.len() as int;
    let low = ascii_lower_all(aumid);
    if n >= 4 {
        let tail = low.subrange(n - 4, n);
        assert(tail[0] == ascii_lower(aumid[n - 4]) && tail[1] == ascii_lower(aumid[n - 3]));
        assert(tail[2] == ascii_lower(aumid[n - 2]) && tail[3] == ascii_lower(aumid[n - 1]));
        assert(".exe"@ =~= tail <==> tail[0] == '.' && tail[1] == 'e' && tail[2] == 'x' && tail[3]
            == 'e');
        assert(".lnk"@ =~= tail <==> tail[0] == '.' && tail[1] == 'l' && tail[2] == 'n' && tail[3]
            == 'k');
    }
    if aumid.contains('\\') {
        let i = choose|i: int| 0 <= i < n && aumid[i] == '\\';
        assert(aumid[i] == '\\');
    }
    if aumid.contains('/') {
        let i = choose|i: int| 0 <= i < n && aumid[i] == '/';
        assert(aumid[i] == '/');
    }
}

/// An item is a packaged app where it has an identifier that is not the path of a file, a
/// package family, and a name that is not blank, and only there.
pub proof fn law_packaged_items(item: Item)
    ensures
        is_packaged(item) <==> (item.package_family is Some && (item.aumid matches Some(u)
            && !path_like(u)) && (item.name matches Some(n) && exists|i: int|
            0 <= i < n.len() && !is_white_space(#[trigger] n[i]))),
{
    if let Some(n) = item.name {
        law_trimmed(n);
        let (lo, hi) = choose|lo: int, hi: int|
            0 <= lo <= hi <= n.len() && trimmed(n) == #[trigger] n.subrange(lo, hi) && (forall|
                i: int,
            |
                0 <= i < lo ==> is_white_space(#[trigger] n[i])) && (forall|i: int|
                hi <= i < n.len() ==> is_white_space(#[trigger] n[i]));
        if trimmed(n).len() > 0 {
            assert(trimmed(n)[0] == n[lo]);
        }
    }
}

/// One more item adds at most its app, at the end: its name without the white space around
/// it, and its identifier. It does where it is a packaged app whose identifier is new, and
/// only there.
pub proof fn law_one_more_item(items: Seq<Item>, item: Item)
    ensures
        selected(Seq::empty()).len() == 0,
        is_packaged(item) && (forall|i: int|
            0 <= i < selected(items).len() ==> Some((#[trigger] selected(items)[i]).aumid)
                != item.aumid) ==> selected(items.push(item)) == selected(items) + seq![
            (Packaged { name: trimmed(item.name->0), aumid: item.aumid->0 }),
        ],
        !is_packaged(item) || (exists|i: int|
            0 <= i < selected(items).len() && Some((#[trigger] selected(items)[i]).aumid)
                == item.aumid) ==> selected(items.push(item)) == selected(items),
{
    assert(items.push(item).drop_last() =~= items);
    let before = selected(items);
    let app = Packaged { name: trimmed(item.name->0), aumid: item.aumid->0 };
    assert(before.push(app) =~= before + seq![app]);
}

/// Names are ordered by the first place at which they differ, `k`: by the character there,
/// and a name comes before its continuations.
pub proof fn law_text_order(a: Seq<char>, b: Seq<char>, k: int)
    requires
        0 <= k <= a.len(),
        k <= b.len(),
        a.take(k) == b.take(k),
        k == a.len() || k == b.len() || a[k] != b[k],
    ensures
        k == a.len() ==> text_le(a, b),
        k == b.len() && k < a.len() ==> !text_le(a, b),
        k < a.len() && k < b.len() ==> (text_le(a, b) <==> (a[k] as int) < b[k] as int),
    decreases k,
{
    if k > 0 {
        assert(a[0] == a.take(k)[0] && b[0] == b.take(k)[0]);
        let x = a.drop_first();
        let y = b.drop_first();
        assert(x.take(k - 1) =~= a.take(k).drop_first());
        assert(y.take(k - 1) =~= b.take(k).drop_first());
        law_text_order(x, y, k - 1);
        assert(text_le(a, b) == text_le(x, y));
    }
}

/// The shell's name for a store app, and what each event on the way to its launch leads to.
pub proof fn law_launch_steps(aumid: Seq<char>, code: i64)
    ensures
        next_step(aumid, LaunchEvent::Unsupported) == Step::Failed(
            "store apps are unsupported on this platform"@,
        ),
        next_step(aumid, LaunchEvent::NoApartment) == Step::Failed("COM unavailable on this thread"@),
        next_step(aumid, LaunchEvent::Ready) is Activate,
        next_step(aumid, LaunchEvent::Activated) is Launched,
        next_step(aumid, LaunchEvent::ActivationFailed) == Step::OpenShell(
            "shell:AppsFolder\\"@ + aumid,
        ),
        code > 32 ==> next_step(aumid, LaunchEvent::ShellReturned(code)) is Launched,
        code <= 32 ==> next_step(aumid, LaunchEvent::ShellReturned(code)) == Step::Failed(
            "failed to launch store app "@ + aumid + " (code "@ + decimal(code as int) + ")"@,
        ),
{
}

} // verus!
