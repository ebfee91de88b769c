//! How often and when each entry was launched.
//!
//! Only the raw numbers are kept here; how they weigh in the order of results is decided
//! where results are ordered.

use crate::text::views;
use crate::textmap::TextMap;
use vstd::prelude::*;

verus! {

/// How many records are kept. Beyond it those of least value go: by count, then by the
/// time of the last use.
pub const MAX_ENTRIES: usize = 200;

/// A usage record. `last_used` is in milliseconds since the Unix epoch.
#[derive(Clone, Copy, Debug, PartialEq, Eq, Structural)]
pub struct UsageEntry {
    pub count: u32,
    pub last_used: i64,
}

/// The usage records by launch path.
#[derive(Debug)]
pub struct UsageStore {
    pub entries: TextMap<UsageEntry>,
}

impl View for UsageStore {
    type V = Map<Seq<char>, UsageEntry>;

    open spec fn view(&self) -> Map<Seq<char>, UsageEntry> {
        self.entries@
    }
}

impl UsageStore {
    /// No launch path has two records.
    pub open spec fn wf(&self) -> bool {
        self.entries.wf()
    }
}

impl Default for UsageStore {
    fn default() -> (r: Self)
        ensures
            r.wf(),
            r@ == Map::<Seq<char>, UsageEntry>::empty(),
    {
        UsageStore { entries: TextMap::new() }
    }
}

/// `a` is worth at most as much as `b`.
pub open spec fn worth_le(a: UsageEntry, b: UsageEntry) -> bool {
    a.count < b.count || (a.count == b.count && a.last_used <= b.last_used)
}

/// One more than `n`, up to the largest count.
pub open spec fn one_more(n: u32) -> u32 {
    if n < u32::MAX {
        (n + 1) as u32
    } else {
        n
    }
}

/// The records with one launch of `path` counted.
pub open spec fn counted(m: Map<Seq<char>, UsageEntry>, path: Seq<char>, now: i64) -> Map<
    Seq<char>,
    UsageEntry,
> {
    let before = if m.dom().contains(path) {
        m[path].count
    } else {
        0u32
    };
    m.insert(path, UsageEntry { count: one_more(before), last_used: now })
}

/// `kept` are the records of `m` that stay: all of them where there is room, else the
/// most that there is room for, none of them worth less than one that goes. Which of two
/// records of the same worth stays is open.
pub open spec fn trimmed_to_size(
    m: Map<Seq<char>, UsageEntry>,
    kept: Map<Seq<char>, UsageEntry>,
) -> bool {
    &&& kept.submap_of(m)
    &&& kept.dom().finite()
    &&& m.dom().len() <= MAX_ENTRIES ==> kept == m
    &&& m.dom().len() > MAX_ENTRIES ==> kept.dom().len() == MAX_ENTRIES
    &&& forall|stays: Seq<char>, goes: Seq<char>| #[trigger]
        kept.dom().contains(stays) && #[trigger] m.dom().contains(goes) && !kept.dom().contains(
            goes,
        ) ==> worth_le(m[goes], m[stays])
}

/// `after` is what becomes of `before` when `path` is launched at `now` while the index
/// holds the launch paths `known`: the launch is counted, records of paths that the index
/// does not hold go, and then those that there is no room for.
pub open spec fn recorded(
    before: Map<Seq<char>, UsageEntry>,
    path: Seq<char>,
    now: i64,
    known: Seq<Seq<char>>,
    after: Map<Seq<char>, UsageEntry>,
) -> bool {
    trimmed_to_size(counted(before, path, now).restrict(known.to_set()), after)
}

/// The place of a record that is worth no more than any other.
fn least_place(entries: &TextMap<UsageEntry>) -> (r: usize)
    requires
        entries.wf(),
        entries.listed().len() > 0,
    ensures
        r < entries.listed().len(),
        forall|i: int|
            0 <= i < entries.listed().len() ==> worth_le(
                entries.listed()[r as int].1,
                (#[trigger] entries.listed()[i]).1,
            ),
{
    let n: usize = entries.len();
    let mut least: usize = 0;
    let mut i: usize = 1;
    while i < n
        invariant
            n == entries.listed().len(),
            least < i <= n,
            forall|j: int|
                0 <= j < i ==> worth_le(
                    entries.listed()[least as int].1,
                    (#[trigger] entries.listed()[j]).1,
                ),
        decreases n - i,
    {
        let a: UsageEntry = *entries.value_at(i);
        let b: UsageEntry = *entries.value_at(least);
        if a.count < b.count || (a.count == b.count && a.last_used < b.last_used) {
            least = i;
        }
        i += 1;
    }
    least
}

/// Drops the records of least value until there is room for the rest.
fn trim_to_size(entries: &mut TextMap<UsageEntry>)
    requires
        old(entries).wf(),
    ensures
        final(entries).wf(),
        trimmed_to_size(old(entries)@, final(entries)@),
{
    let ghost all = entries@;
    proof {
        entries.lemma_listed();
    }
    while entries.len() > MAX_ENTRIES
        invariant
            entries.wf(),
            entries@.submap_of(all),
            entries@.dom().finite(),
            all.dom().len() <= MAX_ENTRIES ==> entries@ == all,
            all.dom().len() > MAX_ENTRIES ==> entries@.dom().len() >= MAX_ENTRIES,
            forall|stays: Seq<char>, goes: Seq<char>| #[trigger]
                entries@.dom().contains(stays) && #[trigger] all.dom().contains(goes)
                    && !entries@.dom().contains(goes) ==> worth_le(all[goes], all[stays]),
        decreases entries@.dom().len(),
    {
        let ghost before = entries@;
        let ghost list = entries.listed();
        proof {
            entries.lemma_listed();
        }
        let least: usize = least_place(entries);
        entries.remove_at(least);
        proof {
            let gone = list[least as int].0;
            assert(before.dom().contains(gone));
            assert(entries@.dom() =~= before.dom().remove(gone));
            assert forall|stays: Seq<char>, goes: Seq<char>| #[trigger]
                entries@.dom().contains(stays) && #[trigger] all.dom().contains(goes)
                    && !entries@.dom().contains(goes) implies worth_le(all[goes], all[stays]) by {
                assert(before.dom().contains(stays) && all.dom().contains(stays));
                if goes == gone {
                    let i = choose|i: int| 0 <= i < list.len() && (#[trigger] list[i]).0 == stays;
                    assert(worth_le(list[least as int].1, list[i].1));
                    assert(before[gone] == list[least as int].1);
                    assert(before[stays] == list[i].1);
                }
            }
        }
    }
}

/// Records a launch: the count goes up by one and the time is set; then the records of
/// paths that the index no longer holds are dropped, and those beyond the limit.
pub fn record_launch(store: &mut UsageStore, path: &str, now: i64, known: &Vec<String>)
    requires
        old(store).wf(),
    ensures
        final(store).wf(),
        recorded(old(store)@, path@, now, views(known@), final(store)@),
{
    let before: u32 = match store.entries.get(path) {
        Some(e) => e.count,
        None => 0,
    };
    let count: u32 = before.saturating_add(1);
    store.entries.insert(path, UsageEntry { count, last_used: now });
    store.entries.retain_known(known);
    trim_to_size(&mut store.entries);
}

/// Where the record of the launched path stays, it holds one launch more than before and
/// the time of this one.
pub proof fn law_launch_is_counted(
    before: Map<Seq<char>, UsageEntry>,
    path: Seq<char>,
    now: i64,
    known: Seq<Seq<char>>,
    after: Map<Seq<char>, UsageEntry>,
)
    requires
        recorded(before, path, now, known, after),
        after.dom().contains(path),
    ensures
        after[path].last_used == now,
        after[path].count == one_more(
            if before.dom().contains(path) {
                before[path].count
            } else {
                0u32
            },
        ),
{
    let all = counted(before, path, now).restrict(known.to_set());
    assert(all.dom().contains(path));
}

/// A launch changes no other record: what is left of them is as it was.
pub proof fn law_other_records_are_unchanged(
    before: Map<Seq<char>, UsageEntry>,
    path: Seq<char>,
    now: i64,
    known: Seq<Seq<char>>,
    after: Map<Seq<char>, UsageEntry>,
    other: Seq<char>,
)
    requires
        recorded(before, path, now, known, after),
        after.dom().contains(other),
        other != path,
    ensures
        before.dom().contains(other),
        after[other] == before[other],
{
    let all = counted(before, path, now).restrict(known.to_set());
    assert(all.dom().contains(other));
}

/// After a launch there are records only of paths that the index holds, and no more than
/// the limit.
pub proof fn law_records_are_known_and_bounded(
    before: Map<Seq<char>, UsageEntry>,
    path: Seq<char>,
    now: i64,
    known: Seq<Seq<char>>,
    after: Map<Seq<char>, UsageEntry>,
)
    requires
        recorded(before, path, now, known, after),
    ensures
        after.dom().len() <= MAX_ENTRIES,
        forall|k: Seq<char>| #[trigger] after.dom().contains(k) ==> known.contains(k),
{
    let all = counted(before, path, now).restrict(known.to_set());
    assert forall|k: Seq<char>| #[trigger] after.dom().contains(k) implies known.contains(k) by {
        assert(all.dom().contains(k));
    }
}

/// While there is room, a launch of a path that the index holds loses nothing: the
/// records are those before that the index holds, with the launch counted.
pub proof fn law_nothing_is_lost_while_there_is_room(
    before: Map<Seq<char>, UsageEntry>,
    path: Seq<char>,
    now: i64,
    known: Seq<Seq<char>>,
    after: Map<Seq<char>, UsageEntry>,
)
    requires
        recorded(before, path, now, known, after),
        before.dom().finite(),
        before.dom().len() < MAX_ENTRIES,
        known.contains(path),
    ensures
        after == counted(before.restrict(known.to_set()), path, now),
        after.dom().contains(path),
{
    let all = counted(before, path, now).restrict(known.to_set());
    assert(all.dom().subset_of(before.dom().insert(path)));
    vstd::set_lib::lemma_len_subset(all.dom(), before.dom().insert(path));
    assert(all =~= counted(before.restrict(known.to_set()), path, now));
}

/// A launch adds exactly one to the count of a path that has a record, and sets its time.
pub proof fn law_count_goes_up_by_one(
    before: Map<Seq<char>, UsageEntry>,
    path: Seq<char>,
    now: i64,
    known: Seq<Seq<char>>,
    after: Map<Seq<char>, UsageEntry>,
)
    requires
        recorded(before, path, now, known, after),
        after.dom().contains(path),
        before.dom().contains(path),
        before[path].count < 0xffff_ffff,
    ensures
        after[path].count as int == before[path].count as int + 1,
        after[path].last_used == now,
{
    law_launch_is_counted(before, path, now, known, after);
}

/// The first launch of a path counts as one.
pub proof fn law_first_launch_counts_one(
    before: Map<Seq<char>, UsageEntry>,
    path: Seq<char>,
    now: i64,
    known: Seq<Seq<char>>,
    after: Map<Seq<char>, UsageEntry>,
)
    requires
        recorded(before, path, now, known, after),
        after.dom().contains(path),
        !before.dom().contains(path),
    ensures
        after[path].count == 1,
        after[path].last_used == now,
{
    law_launch_is_counted(before, path, now, known, after);
}

/// A count that is as large as it can be stays there.
pub proof fn law_full_count_stays(
    before: Map<Seq<char>, UsageEntry>,
    path: Seq<char>,
    now: i64,
    known: Seq<Seq<char>>,
    after: Map<Seq<char>, UsageEntry>,
)
    requires
        recorded(before, path, now, known, after),
        after.dom().contains(path),
        before.dom().contains(path),
        before[path].count == 0xffff_ffff,
    ensures
        after[path].count == 0xffff_ffff,
        after[path].last_used == now,
{
    law_launch_is_counted(before, path, now, known, after);
}

/// A path without a record that is launched `n` times, one after the other, has the count
/// `n`, as long as its record stays. `states` are the records before the first launch and
/// behind each.
pub proof fn law_launches_add_up(
    states: Seq<Map<Seq<char>, UsageEntry>>,
    path: Seq<char>,
    times: Seq<i64>,
    known: Seq<Seq<Seq<char>>>,
    n: int,
)
    requires
        1 <= n <= 0xffff_ffff,
        n < states.len(),
        !states[0].dom().contains(path),
        forall|i: int|
            0 <= i < n ==> recorded(
                #[trigger] states[i],
                path,
                times[i],
                known[i],
                states[i + 1],
            ),
        forall|i: int| 1 <= i <= n ==> (#[trigger] states[i]).dom().contains(path),
    ensures
        states[n][path].count as int == n,
        states[n][path].last_used == times[n - 1],
    decreases n,
{
    assert(states[n].dom().contains(path));
    assert(recorded(states[n - 1], path, times[n - 1], known[n - 1], states[n - 1 + 1]));
    if n == 1 {
        law_first_launch_counts_one(states[0], path, times[0], known[0], states[1]);
    } else {
        law_launches_add_up(states, path, times, known, n - 1);
        law_count_goes_up_by_one(states[n - 1], path, times[n - 1], known[n - 1], states[n]);
    }
}

/// There are at most 200 records. Where there are fewer after a launch, none of a path that
/// the index holds was dropped, and the launched path has one if the index holds it.
pub proof fn law_records_go_only_beyond_the_limit(
    before: Map<Seq<char>, UsageEntry>,
    path: Seq<char>,
    now: i64,
    known: Seq<Seq<char>>,
    after: Map<Seq<char>, UsageEntry>,
)
    requires
        recorded(before, path, now, known, after),
    ensures
        after.dom().len() <= 200,
        after.dom().len() < 200 && known.contains(path) ==> after.dom().contains(path),
        forall|k: Seq<char>|
            after.dom().len() < 200 && known.contains(k) && before.dom().contains(k) ==> #[trigger]
                after.dom().contains(k),
{
    let all = counted(before, path, now).restrict(known.to_set());
    assert forall|k: Seq<char>|
        after.dom().len() < 200 && known.contains(k) && (k == path || before.dom().contains(
            k,
        )) implies #[trigger] after.dom().contains(k) by {
        assert(known.to_set().contains(k));
        assert(all.dom().contains(k));
    }
}

/// While fewer than 200 records are there before a launch, it drops none of a path that the
/// index holds, and the launched path has one behind it if the index holds it.
pub proof fn law_room_for_all(
    before: Map<Seq<char>, UsageEntry>,
    path: Seq<char>,
    now: i64,
    known: Seq<Seq<char>>,
    after: Map<Seq<char>, UsageEntry>,
)
    requires
        recorded(before, path, now, known, after),
        before.dom().finite(),
        before.dom().len() < 200,
    ensures
        forall|k: Seq<char>| #[trigger]
            after.dom().contains(k) <==> known.contains(k) && (k == path || before.dom().contains(k)),
        forall|k: Seq<char>| #[trigger]
            after.dom().contains(k) && k != path ==> after[k] == before[k],
{
    let all = counted(before, path, now).restrict(known.to_set());
    assert(all.dom().subset_of(before.dom().insert(path)));
    vstd::set_lib::lemma_len_subset(all.dom(), before.dom().insert(path));
    assert(after == all);
    assert forall|k: Seq<char>| #[trigger] after.dom().contains(k) <==> known.contains(k) && (k
        == path || before.dom().contains(k)) by {
        assert(known.to_set().contains(k) <==> known.contains(k));
    }
}

/// A record that goes for want of room was launched less often than any that stays, or as
/// often and not later.
pub proof fn law_least_used_goes(
    before: Map<Seq<char>, UsageEntry>,
    path: Seq<char>,
    now: i64,
    known: Seq<Seq<char>>,
    after: Map<Seq<char>, UsageEntry>,
    goes: Seq<char>,
    stays: Seq<char>,
)
    requires
        recorded(before, path, now, known, after),
        known.contains(goes),
        before.dom().contains(goes),
        goes != path,
        !after.dom().contains(goes),
        after.dom().contains(stays),
    ensures
        before[goes].count < after[stays].count || (before[goes].count == after[stays].count
            && before[goes].last_used <= after[stays].last_used),
        after.dom().len() == 200,
{
    let all = counted(before, path, now).restrict(known.to_set());
    assert(known.to_set().contains(goes));
    assert(all.dom().contains(goes));
    assert(all[goes] == before[goes]);
    assert(worth_le(all[goes], all[stays]));
}

} // verus!
