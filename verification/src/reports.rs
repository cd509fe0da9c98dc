//! Reports over scanned projects: registry diffs and the changelog, search,
//! and the workspace status report.
use vstd::prelude::*;
use crate::model::{
    opt_chars, project_views, ActivityTier, ChangeType, ChangelogHistory, ContextType,
    EcosystemChangelog, ProjectChange, ProjectDetail, ProjectStatus, ProjectView, SearchResult,
    StatusReport, SubmoduleDetail, SubmoduleView, VcsStatus, submodule_views,
};
use crate::scanner::{hashtag, to_hashtag};
use crate::strategies::{contains_file, has_file};
use crate::text::{
    byte_len, char_width, chars_of, contains_text, has_infix, lowercase, same_text, string_of,
    to_lowercase, views,
};

verus! {

// ---------------------------------------------------------------------------
// Registry diffs
// ---------------------------------------------------------------------------

/// A change record by the characters of its name.
pub struct ChangeView {
    pub name: Seq<char>,
    pub change_type: ChangeType,
    pub old_vcs: Option<VcsStatus>,
    pub new_vcs: Option<VcsStatus>,
    pub old_activity: Option<ActivityTier>,
    pub new_activity: Option<ActivityTier>,
}

impl View for ProjectChange {
    type V = ChangeView;

    open spec fn view(&self) -> ChangeView {
        ChangeView {
            name: self.name@,
            change_type: self.change_type,
            old_vcs: self.old_vcs,
            new_vcs: self.new_vcs,
            old_activity: self.old_activity,
            new_activity: self.new_activity,
        }
    }
}

/// The view of each change of a sequence.
pub open spec fn change_views(s: Seq<ProjectChange>) -> Seq<ChangeView> {
    s.map_values(|c: ProjectChange| c@)
}

/// The last record of `s` named `name`: the one a map keyed by name, filled
/// in order, keeps.
pub open spec fn last_named(s: Seq<ProjectView>, name: Seq<char>) -> Option<ProjectView>
    decreases s.len(),
{
    if s.len() == 0 {
        None
    } else if s.last().name == name {
        Some(s.last())
    } else {
        last_named(s.drop_last(), name)
    }
}

/// The distinct names of `s`, in the order of their first occurrence.
pub open spec fn distinct_names(s: Seq<ProjectView>) -> Seq<Seq<char>>
    decreases s.len(),
{
    if s.len() == 0 {
        seq![]
    } else {
        let d = distinct_names(s.drop_last());
        if has_file(d, s.last().name) {
            d
        } else {
            d.push(s.last().name)
        }
    }
}

/// The change, if any, for a project named `name` that the new snapshot has:
/// added when the old one lacks it, modified when its version-control state
/// or activity differs (with the old and new values of what differs).
pub open spec fn change_for(name: Seq<char>, old: Seq<ProjectView>, new: Seq<ProjectView>) -> Option<
    ChangeView,
> {
    let pn = last_named(new, name).unwrap();
    match last_named(old, name) {
        Some(po) => {
            let vcs_changed = po.vcs_status != pn.vcs_status;
            let activity_changed = po.activity != pn.activity;
            if vcs_changed || activity_changed {
                Some(
                    ChangeView {
                        name,
                        change_type: ChangeType::Modified,
                        old_vcs: if vcs_changed {
                            Some(po.vcs_status)
                        } else {
                            None
                        },
                        new_vcs: if vcs_changed {
                            Some(pn.vcs_status)
                        } else {
                            None
                        },
                        old_activity: if activity_changed {
                            Some(po.activity)
                        } else {
                            None
                        },
                        new_activity: if activity_changed {
                            Some(pn.activity)
                        } else {
                            None
                        },
                    },
                )
            } else {
                None
            }
        },
        None => Some(
            ChangeView {
                name,
                change_type: ChangeType::Added,
                old_vcs: None,
                new_vcs: Some(pn.vcs_status),
                old_activity: None,
                new_activity: Some(pn.activity),
            },
        ),
    }
}

/// The added and modified projects, for the names `names` of the new
/// snapshot, in order.
pub open spec fn new_side_changes(
    names: Seq<Seq<char>>,
    old: Seq<ProjectView>,
    new: Seq<ProjectView>,
) -> Seq<ChangeView>
    decreases names.len(),
{
    if names.len() == 0 {
        seq![]
    } else {
        let rest = new_side_changes(names.drop_last(), old, new);
        match change_for(names.last(), old, new) {
            Some(c) => rest.push(c),
            None => rest,
        }
    }
}

/// The removed projects, for the names `names` of the old snapshot that the
/// new one lacks, in order.
pub open spec fn removed_changes(
    names: Seq<Seq<char>>,
    old: Seq<ProjectView>,
    new: Seq<ProjectView>,
) -> Seq<ChangeView>
    decreases names.len(),
{
    if names.len() == 0 {
        seq![]
    } else {
        let rest = removed_changes(names.drop_last(), old, new);
        let name = names.last();
        if last_named(new, name) is None {
            let po = last_named(old, name).unwrap();
            rest.push(
                ChangeView {
                    name,
                    change_type: ChangeType::Removed,
                    old_vcs: Some(po.vcs_status),
                    new_vcs: None,
                    old_activity: Some(po.activity),
                    new_activity: None,
                },
            )
        } else {
            rest
        }
    }
}

/// The changes from the snapshot `old` to the snapshot `new`: added and
/// modified projects in the order in which the new snapshot first names
/// them, then removed ones in the order in which the old one does.
pub open spec fn diff(old: Seq<ProjectView>, new: Seq<ProjectView>) -> Seq<ChangeView> {
    new_side_changes(distinct_names(new), old, new) + removed_changes(distinct_names(old), old, new)
}

/// The removal of the project named `name` from the snapshot `old`.
pub open spec fn removed_of(name: Seq<char>, old: Seq<ProjectView>) -> ChangeView {
    let po = last_named(old, name).unwrap();
    ChangeView {
        name,
        change_type: ChangeType::Removed,
        old_vcs: Some(po.vcs_status),
        new_vcs: None,
        old_activity: Some(po.activity),
        new_activity: None,
    }
}

/// The change, if any, that a diff from `old` to `new` reports for the
/// project named `name`.
pub open spec fn change_of(name: Seq<char>, old: Seq<ProjectView>, new: Seq<ProjectView>) -> Option<
    ChangeView,
> {
    if last_named(new, name) is Some {
        change_for(name, old, new)
    } else if last_named(old, name) is Some {
        Some(removed_of(name, old))
    } else {
        None
    }
}

/// A change seen from the other side: added and removed exchanged, and the
/// old and new values exchanged.
pub open spec fn swapped(c: ChangeView) -> ChangeView {
    ChangeView {
        name: c.name,
        change_type: match c.change_type {
            ChangeType::Added => ChangeType::Removed,
            ChangeType::Removed => ChangeType::Added,
            ChangeType::Modified => ChangeType::Modified,
        },
        old_vcs: c.new_vcs,
        new_vcs: c.old_vcs,
        old_activity: c.new_activity,
        new_activity: c.old_activity,
    }
}

proof fn lemma_distinct_names_iff(s: Seq<ProjectView>, n: Seq<char>)
    ensures
        has_file(distinct_names(s), n) <==> last_named(s, n) is Some,
    decreases s.len(),
{
    if s.len() > 0 {
        let t = s.drop_last();
        let d = distinct_names(t);
        lemma_distinct_names_iff(t, n);
        if has_file(d, s.last().name) {
            if s.last().name == n {
                lemma_distinct_names_iff(t, n);
            }
        } else {
            let d2 = d.push(s.last().name);
            if has_file(d2, n) {
                let k = choose|k: int| 0 <= k < d2.len() && #[trigger] d2[k] == n;
                if k < d.len() {
                    assert(d[k] == n);
                }
            }
            if has_file(d, n) {
                let k = choose|k: int| 0 <= k < d.len() && #[trigger] d[k] == n;
                assert(d2[k] == n);
            }
            if s.last().name == n {
                assert(d2[d.len() as int] == n);
            }
        }
    }
}

proof fn lemma_new_side_members(
    names: Seq<Seq<char>>,
    old: Seq<ProjectView>,
    new: Seq<ProjectView>,
    c: ChangeView,
)
    ensures
        new_side_changes(names, old, new).contains(c) <==> (has_file(names, c.name) && change_for(
            c.name,
            old,
            new,
        ) == Some(c)),
    decreases names.len(),
{
    if names.len() > 0 {
        let t = names.drop_last();
        let n = names.last();
        lemma_new_side_members(t, old, new, c);
        let rest = new_side_changes(t, old, new);
        let r = new_side_changes(names, old, new);
        if has_file(t, c.name) {
            let k = choose|k: int| 0 <= k < t.len() && #[trigger] t[k] == c.name;
            assert(names[k] == c.name);
        }
        if has_file(names, c.name) && !has_file(t, c.name) {
            let k = choose|k: int| 0 <= k < names.len() && #[trigger] names[k] == c.name;
            if k < t.len() {
                assert(t[k] == c.name);
            }
            assert(n == c.name);
        }
        if c.name == n {
            assert(names[names.len() - 1] == c.name);
        }
        match change_for(n, old, new) {
            Some(x) => {
                assert(r == rest.push(x));
                if rest.contains(c) {
                    let j = choose|j: int| 0 <= j < rest.len() && rest[j] == c;
                    assert(r[j] == c);
                }
                if r.contains(c) {
                    let j = choose|j: int| 0 <= j < r.len() && r[j] == c;
                    if j < rest.len() {
                        assert(rest[j] == c);
                    }
                }
                if x == c {
                    assert(r[rest.len() as int] == c);
                }
            },
            None => {},
        }
    }
}

proof fn lemma_removed_members(
    names: Seq<Seq<char>>,
    old: Seq<ProjectView>,
    new: Seq<ProjectView>,
    c: ChangeView,
)
    ensures
        removed_changes(names, old, new).contains(c) <==> (has_file(names, c.name) && last_named(
            new,
            c.name,
        ) is None && c == removed_of(c.name, old)),
    decreases names.len(),
{
    if names.len() > 0 {
        let t = names.drop_last();
        let n = names.last();
        lemma_removed_members(t, old, new, c);
        let rest = removed_changes(t, old, new);
        let r = removed_changes(names, old, new);
        if has_file(t, c.name) {
            let k = choose|k: int| 0 <= k < t.len() && #[trigger] t[k] == c.name;
            assert(names[k] == c.name);
        }
        if has_file(names, c.name) && !has_file(t, c.name) {
            let k = choose|k: int| 0 <= k < names.len() && #[trigger] names[k] == c.name;
            if k < t.len() {
                assert(t[k] == c.name);
            }
            assert(n == c.name);
        }
        if c.name == n {
            assert(names[names.len() - 1] == c.name);
        }
        if last_named(new, n) is None {
            let x = removed_of(n, old);
            assert(r == rest.push(x));
            if rest.contains(c) {
                let j = choose|j: int| 0 <= j < rest.len() && rest[j] == c;
                assert(r[j] == c);
            }
            if r.contains(c) {
                let j = choose|j: int| 0 <= j < r.len() && r[j] == c;
                if j < rest.len() {
                    assert(rest[j] == c);
                }
            }
            if x == c {
                assert(r[rest.len() as int] == c);
            }
        }
    }
}

/// A diff reports the change `c` exactly when `c` is the change that
/// `change_of` gives for its project: an addition, removal or modification
/// read off the last records of that name in the two snapshots.
pub proof fn law_diff_members(old: Seq<ProjectView>, new: Seq<ProjectView>, c: ChangeView)
    ensures
        diff(old, new).contains(c) <==> change_of(c.name, old, new) == Some(c),
{
    let a = new_side_changes(distinct_names(new), old, new);
    let b = removed_changes(distinct_names(old), old, new);
    let d = diff(old, new);
    lemma_new_side_members(distinct_names(new), old, new, c);
    lemma_removed_members(distinct_names(old), old, new, c);
    lemma_distinct_names_iff(new, c.name);
    lemma_distinct_names_iff(old, c.name);
    if a.contains(c) {
        let j = choose|j: int| 0 <= j < a.len() && a[j] == c;
        assert(d[j] == c);
    }
    if b.contains(c) {
        let j = choose|j: int| 0 <= j < b.len() && b[j] == c;
        assert(d[a.len() + j] == c);
    }
    if d.contains(c) {
        let j = choose|j: int| 0 <= j < d.len() && d[j] == c;
        if j < a.len() {
            assert(a[j] == c);
        } else {
            assert(b[j - a.len()] == c);
        }
    }
}

/// No two entries of `s` are named alike.
pub open spec fn names_distinct(s: Seq<ChangeView>) -> bool {
    forall|i: int, j: int| 0 <= i < j < s.len() ==> (#[trigger] s[i]).name != (#[trigger] s[j]).name
}

proof fn lemma_distinct_names_distinct(s: Seq<ProjectView>)
    ensures
        forall|i: int, j: int|
            0 <= i < j < distinct_names(s).len() ==> #[trigger] distinct_names(s)[i]
                != #[trigger] distinct_names(s)[j],
    decreases s.len(),
{
    if s.len() > 0 {
        lemma_distinct_names_distinct(s.drop_last());
        let d = distinct_names(s.drop_last());
        if !has_file(d, s.last().name) {
            let d2 = d.push(s.last().name);
            assert forall|i: int, j: int| 0 <= i < j < d2.len() implies #[trigger] d2[i]
                != #[trigger] d2[j] by {
                if j == d.len() {
                    if d2[i] == d2[j] {
                        assert(d[i] == s.last().name);
                    }
                } else {
                    assert(d2[i] == d[i] && d2[j] == d[j]);
                }
            }
        }
    }
}

proof fn lemma_new_side_distinct(names: Seq<Seq<char>>, old: Seq<ProjectView>, new: Seq<ProjectView>)
    requires
        forall|i: int, j: int| 0 <= i < j < names.len() ==> #[trigger] names[i] != #[trigger] names[j],
    ensures
        names_distinct(new_side_changes(names, old, new)),
    decreases names.len(),
{
    if names.len() > 0 {
        let t = names.drop_last();
        assert forall|i: int, j: int| 0 <= i < j < t.len() implies #[trigger] t[i] != #[trigger] t[j] by {
            assert(t[i] == names[i] && t[j] == names[j]);
        }
        lemma_new_side_distinct(t, old, new);
        let rest = new_side_changes(t, old, new);
        match change_for(names.last(), old, new) {
            Some(x) => {
                let r = rest.push(x);
                assert forall|i: int, j: int| 0 <= i < j < r.len() implies (#[trigger] r[i]).name
                    != (#[trigger] r[j]).name by {
                    if j == rest.len() {
                        assert(rest.contains(rest[i]));
                        lemma_new_side_members(t, old, new, rest[i]);
                        let k = choose|k: int| 0 <= k < t.len() && #[trigger] t[k] == rest[i].name;
                        assert(names[k] == t[k]);
                        assert(names[names.len() - 1] == x.name);
                    } else {
                        assert(r[i] == rest[i] && r[j] == rest[j]);
                    }
                }
            },
            None => {},
        }
    }
}

proof fn lemma_removed_distinct(names: Seq<Seq<char>>, old: Seq<ProjectView>, new: Seq<ProjectView>)
    requires
        forall|i: int, j: int| 0 <= i < j < names.len() ==> #[trigger] names[i] != #[trigger] names[j],
    ensures
        names_distinct(removed_changes(names, old, new)),
    decreases names.len(),
{
    if names.len() > 0 {
        let t = names.drop_last();
        assert forall|i: int, j: int| 0 <= i < j < t.len() implies #[trigger] t[i] != #[trigger] t[j] by {
            assert(t[i] == names[i] && t[j] == names[j]);
        }
        lemma_removed_distinct(t, old, new);
        let rest = removed_changes(t, old, new);
        if last_named(new, names.last()) is None {
            let x = removed_of(names.last(), old);
            let r = rest.push(x);
            assert forall|i: int, j: int| 0 <= i < j < r.len() implies (#[trigger] r[i]).name
                != (#[trigger] r[j]).name by {
                if j == rest.len() {
                    assert(rest.contains(rest[i]));
                    lemma_removed_members(t, old, new, rest[i]);
                    let k = choose|k: int| 0 <= k < t.len() && #[trigger] t[k] == rest[i].name;
                    assert(names[k] == t[k]);
                    assert(names[names.len() - 1] == x.name);
                } else {
                    assert(r[i] == rest[i] && r[j] == rest[j]);
                }
            }
        }
    }
}

/// A diff reports at most one change per project name.
pub proof fn law_diff_names_distinct(old: Seq<ProjectView>, new: Seq<ProjectView>)
    ensures
        names_distinct(diff(old, new)),
{
    let a = new_side_changes(distinct_names(new), old, new);
    let b = removed_changes(distinct_names(old), old, new);
    let d = diff(old, new);
    lemma_distinct_names_distinct(new);
    lemma_distinct_names_distinct(old);
    lemma_new_side_distinct(distinct_names(new), old, new);
    lemma_removed_distinct(distinct_names(old), old, new);
    assert forall|i: int, j: int| 0 <= i < j < d.len() implies (#[trigger] d[i]).name
        != (#[trigger] d[j]).name by {
        if j < a.len() {
            assert(d[i] == a[i] && d[j] == a[j]);
        } else if i >= a.len() {
            assert(d[i] == b[i - a.len()] && d[j] == b[j - a.len()]);
        } else {
            assert(d[i] == a[i] && d[j] == b[j - a.len()]);
            assert(a.contains(a[i]));
            assert(b.contains(b[j - a.len()]));
            lemma_new_side_members(distinct_names(new), old, new, a[i]);
            lemma_removed_members(distinct_names(old), old, new, b[j - a.len()]);
            lemma_distinct_names_iff(new, a[i].name);
        }
    }
}

proof fn lemma_change_of_swap(a: Seq<ProjectView>, b: Seq<ProjectView>, n: Seq<char>)
    ensures
        change_of(n, b, a) == match change_of(n, a, b) {
            Some(c) => Some(swapped(c)),
            None => None,
        },
{
}

/// Diffing in the other direction reports the same changes seen from the
/// other side: `c` is a change from `new` to `old` exactly when its swapped
/// form is a change from `old` to `new`.
pub proof fn law_diff_swap(old: Seq<ProjectView>, new: Seq<ProjectView>, c: ChangeView)
    ensures
        diff(new, old).contains(c) <==> diff(old, new).contains(swapped(c)),
{
    law_diff_members(new, old, c);
    law_diff_members(old, new, swapped(c));
    lemma_change_of_swap(old, new, c.name);
    assert(swapped(swapped(c)) == c);
}

/// Diffing in the other direction reports the same changes, each seen from
/// the other side, counted with multiplicity.
pub proof fn law_diff_swap_multiset(old: Seq<ProjectView>, new: Seq<ProjectView>)
    ensures
        diff(new, old).to_multiset() == diff(old, new).map_values(|c: ChangeView| swapped(c)).to_multiset(),
{
    broadcast use vstd::seq_lib::to_multiset_contains;

    let d0 = diff(old, new);
    let d1 = diff(new, old);
    let d2 = d0.map_values(|c: ChangeView| swapped(c));
    law_diff_names_distinct(new, old);
    law_diff_names_distinct(old, new);
    assert(d1.no_duplicates()) by {
        assert forall|i: int, j: int| 0 <= i < d1.len() && 0 <= j < d1.len() && i != j implies d1[i]
            != d1[j] by {
            if i < j {
                assert(d1[i].name != d1[j].name);
            } else {
                assert(d1[j].name != d1[i].name);
            }
        }
    }
    assert(d2.no_duplicates()) by {
        assert forall|i: int, j: int| 0 <= i < d2.len() && 0 <= j < d2.len() && i != j implies d2[i]
            != d2[j] by {
            if i < j {
                assert(d0[i].name != d0[j].name);
            } else {
                assert(d0[j].name != d0[i].name);
            }
        }
    }
    d1.lemma_multiset_has_no_duplicates();
    d2.lemma_multiset_has_no_duplicates();
    assert forall|x: ChangeView| d1.to_multiset().count(x) == d2.to_multiset().count(x) by {
        law_diff_swap(old, new, x);
        assert(swapped(swapped(x)) == x);
        if d0.contains(swapped(x)) {
            let i = choose|i: int| 0 <= i < d0.len() && d0[i] == swapped(x);
            assert(d2[i] == x);
        }
        if d2.contains(x) {
            let i = choose|i: int| 0 <= i < d2.len() && d2[i] == x;
            assert(swapped(d0[i]) == x);
            assert(swapped(swapped(d0[i])) == d0[i]);
            assert(d0[i] == swapped(x));
        }
    }
    assert(d1.to_multiset() =~= d2.to_multiset());
}

/// The last record of `s` named `name`, by index.
fn find_last_named(s: &[ProjectDetail], name: &str) -> (r: Option<usize>)
    ensures
        match r {
            Some(i) => i < s.len() && last_named(project_views(s@), name@) == Some(s@[i as int]@),
            None => last_named(project_views(s@), name@) is None,
        },
{
    let ghost pv = project_views(s@);
    let mut i: usize = s.len();
    assert(pv.take(s.len() as int) =~= pv);
    while i > 0
        invariant
            i <= s.len(),
            pv == project_views(s@),
            last_named(pv, name@) == last_named(pv.take(i as int), name@),
        decreases i,
    {
        proof {
            assert(pv.take(i as int).drop_last() =~= pv.take(i - 1));
            assert(pv.take(i as int).last() == s@[i - 1]@);
        }
        if same_text(s[i - 1].name.as_str(), name) {
            return Some(i - 1);
        }
        i = i - 1;
    }
    None
}

/// The distinct names of `s`, in the order of their first occurrence.
fn names_in_order(s: &[ProjectDetail]) -> (r: Vec<String>)
    ensures
        views(r@) == distinct_names(project_views(s@)),
{
    let ghost pv = project_views(s@);
    let mut out: Vec<String> = Vec::new();
    let mut i: usize = 0;
    assert(pv.take(0) =~= Seq::<ProjectView>::empty());
    assert(views(out@) =~= Seq::<Seq<char>>::empty());
    while i < s.len()
        invariant
            i <= s.len(),
            pv == project_views(s@),
            views(out@) == distinct_names(pv.take(i as int)),
        decreases s.len() - i,
    {
        proof {
            assert(pv.take(i + 1).drop_last() =~= pv.take(i as int));
            assert(pv.take(i + 1).last() == s@[i as int]@);
        }
        if !contains_file(out.as_slice(), s[i].name.as_str()) {
            let ghost before = out@;
            out.push(s[i].name.clone());
            assert(views(out@) =~= views(before).push(s@[i as int].name@));
        }
        i = i + 1;
    }
    assert(pv.take(s.len() as int) =~= pv);
    out
}

proof fn lemma_distinct_names_present(s: Seq<ProjectView>, k: int)
    requires
        0 <= k < distinct_names(s).len(),
    ensures
        last_named(s, distinct_names(s)[k]) is Some,
    decreases s.len(),
{
    let d = distinct_names(s.drop_last());
    let name = distinct_names(s)[k];
    if s.last().name != name {
        if has_file(d, s.last().name) {
            lemma_distinct_names_present(s.drop_last(), k);
        } else {
            assert(k < d.len());
            lemma_distinct_names_present(s.drop_last(), k);
        }
    }
}

proof fn lemma_no_new_side_changes(names: Seq<Seq<char>>, s: Seq<ProjectView>)
    requires
        forall|k: int| 0 <= k < names.len() ==> last_named(s, #[trigger] names[k]) is Some,
    ensures
        new_side_changes(names, s, s).len() == 0,
    decreases names.len(),
{
    if names.len() > 0 {
        let t = names.drop_last();
        assert forall|k: int| 0 <= k < t.len() implies last_named(s, #[trigger] t[k]) is Some by {
            assert(t[k] == names[k]);
        }
        assert(last_named(s, names[names.len() - 1]) is Some);
        lemma_no_new_side_changes(t, s);
    }
}

proof fn lemma_no_removed_changes(names: Seq<Seq<char>>, s: Seq<ProjectView>)
    requires
        forall|k: int| 0 <= k < names.len() ==> last_named(s, #[trigger] names[k]) is Some,
    ensures
        removed_changes(names, s, s).len() == 0,
    decreases names.len(),
{
    if names.len() > 0 {
        let t = names.drop_last();
        assert forall|k: int| 0 <= k < t.len() implies last_named(s, #[trigger] t[k]) is Some by {
            assert(t[k] == names[k]);
        }
        assert(last_named(s, names[names.len() - 1]) is Some);
        lemma_no_removed_changes(t, s);
    }
}

/// Comparing a snapshot with itself reports no change.
pub proof fn law_diff_of_same_snapshot_is_empty(s: Seq<ProjectView>)
    ensures
        diff(s, s).len() == 0,
{
    assert forall|k: int| 0 <= k < distinct_names(s).len() implies last_named(
        s,
        #[trigger] distinct_names(s)[k],
    ) is Some by {
        lemma_distinct_names_present(s, k);
    }
    lemma_no_new_side_changes(distinct_names(s), s);
    lemma_no_removed_changes(distinct_names(s), s);
}

/// What a change says of its project agrees with the two snapshots.
pub open spec fn change_agrees(c: ChangeView, old: Seq<ProjectView>, new: Seq<ProjectView>) -> bool {
    match c.change_type {
        ChangeType::Added => last_named(old, c.name) is None && last_named(new, c.name) is Some,
        ChangeType::Removed => last_named(new, c.name) is None && last_named(old, c.name) is Some,
        ChangeType::Modified => match (last_named(old, c.name), last_named(new, c.name)) {
            (Some(po), Some(pn)) => po.vcs_status != pn.vcs_status || po.activity != pn.activity,
            _ => false,
        },
    }
}

proof fn lemma_new_side_agree(names: Seq<Seq<char>>, old: Seq<ProjectView>, new: Seq<ProjectView>)
    requires
        forall|k: int| 0 <= k < names.len() ==> last_named(new, #[trigger] names[k]) is Some,
    ensures
        forall|j: int|
            0 <= j < new_side_changes(names, old, new).len() ==> change_agrees(
                #[trigger] new_side_changes(names, old, new)[j],
                old,
                new,
            ),
    decreases names.len(),
{
    if names.len() > 0 {
        let t = names.drop_last();
        assert forall|k: int| 0 <= k < t.len() implies last_named(new, #[trigger] t[k]) is Some by {
            assert(t[k] == names[k]);
        }
        lemma_new_side_agree(t, old, new);
        let name = names.last();
        assert(last_named(new, names[names.len() - 1]) is Some);
        let rest = new_side_changes(t, old, new);
        let r = new_side_changes(names, old, new);
        match change_for(name, old, new) {
            Some(c) => {
                assert(r == rest.push(c));
                assert(change_agrees(c, old, new));
                assert forall|j: int| 0 <= j < r.len() implies change_agrees(#[trigger] r[j], old, new) by {
                    if j < rest.len() {
                        assert(r[j] == rest[j]);
                    }
                }
            },
            None => {},
        }
    }
}

proof fn lemma_removed_agree(names: Seq<Seq<char>>, old: Seq<ProjectView>, new: Seq<ProjectView>)
    requires
        forall|k: int| 0 <= k < names.len() ==> last_named(old, #[trigger] names[k]) is Some,
    ensures
        forall|j: int|
            0 <= j < removed_changes(names, old, new).len() ==> change_agrees(
                #[trigger] removed_changes(names, old, new)[j],
                old,
                new,
            ),
    decreases names.len(),
{
    if names.len() > 0 {
        let t = names.drop_last();
        assert forall|k: int| 0 <= k < t.len() implies last_named(old, #[trigger] t[k]) is Some by {
            assert(t[k] == names[k]);
        }
        lemma_removed_agree(t, old, new);
        assert(last_named(old, names[names.len() - 1]) is Some);
        let rest = removed_changes(t, old, new);
        let r = removed_changes(names, old, new);
        assert forall|j: int| 0 <= j < r.len() implies change_agrees(#[trigger] r[j], old, new) by {
            if j < rest.len() {
                assert(r[j] == rest[j]);
            }
        }
    }
}

/// Every reported change is borne out by the snapshots: an added project is
/// only in the new one, a removed project only in the old one, and a
/// modified project is in both with a different version-control state or
/// activity.
pub proof fn law_diff_changes_agree(old: Seq<ProjectView>, new: Seq<ProjectView>)
    ensures
        forall|j: int| 0 <= j < diff(old, new).len() ==> change_agrees(#[trigger] diff(old, new)[j], old, new),
{
    assert forall|k: int| 0 <= k < distinct_names(new).len() implies last_named(
        new,
        #[trigger] distinct_names(new)[k],
    ) is Some by {
        lemma_distinct_names_present(new, k);
    }
    assert forall|k: int| 0 <= k < distinct_names(old).len() implies last_named(
        old,
        #[trigger] distinct_names(old)[k],
    ) is Some by {
        lemma_distinct_names_present(old, k);
    }
    lemma_new_side_agree(distinct_names(new), old, new);
    lemma_removed_agree(distinct_names(old), old, new);
    let a = new_side_changes(distinct_names(new), old, new);
    let b = removed_changes(distinct_names(old), old, new);
    assert forall|j: int| 0 <= j < diff(old, new).len() implies change_agrees(
        #[trigger] diff(old, new)[j],
        old,
        new,
    ) by {
        if j < a.len() {
            assert(diff(old, new)[j] == a[j]);
        } else {
            assert(diff(old, new)[j] == b[j - a.len()]);
        }
    }
}

/// The changes from the projects `old` to the projects `new`.
pub fn generate_diff(old: &[ProjectDetail], new: &[ProjectDetail]) -> (r: Vec<ProjectChange>)
    ensures
        change_views(r@) == diff(project_views(old@), project_views(new@)),
{
    let ghost ov = project_views(old@);
    let ghost nv = project_views(new@);
    let mut changes: Vec<ProjectChange> = Vec::new();
    let new_names = names_in_order(new);
    let ghost nn = views(new_names@);
    let mut i: usize = 0;
    assert(nn.take(0) =~= Seq::<Seq<char>>::empty());
    assert(change_views(changes@) =~= Seq::<ChangeView>::empty());
    while i < new_names.len()
        invariant
            i <= new_names.len(),
            ov == project_views(old@),
            nv == project_views(new@),
            nn == views(new_names@),
            nn == distinct_names(nv),
            change_views(changes@) == new_side_changes(nn.take(i as int), ov, nv),
        decreases new_names.len() - i,
    {
        let name = new_names[i].as_str();
        proof {
            assert(nn.take(i + 1).drop_last() =~= nn.take(i as int));
            assert(nn.take(i + 1).last() == name@);
            lemma_distinct_names_present(nv, i as int);
        }
        let pn = find_last_named(new, name).unwrap();
        let ghost before = changes@;
        match find_last_named(old, name) {
            Some(po) => {
                let vcs_changed = old[po].vcs_status != new[pn].vcs_status;
                let activity_changed = old[po].activity != new[pn].activity;
                if vcs_changed || activity_changed {
                    let c = ProjectChange {
                        name: new_names[i].clone(),
                        change_type: ChangeType::Modified,
                        old_vcs: if vcs_changed {
                            Some(old[po].vcs_status)
                        } else {
                            None
                        },
                        new_vcs: if vcs_changed {
                            Some(new[pn].vcs_status)
                        } else {
                            None
                        },
                        old_activity: if activity_changed {
                            Some(old[po].activity)
                        } else {
                            None
                        },
                        new_activity: if activity_changed {
                            Some(new[pn].activity)
                        } else {
                            None
                        },
                    };
                    changes.push(c);
                    assert(change_views(changes@) =~= change_views(before).push(c@));
                }
            },
            None => {
                let c = ProjectChange {
                    name: new_names[i].clone(),
                    change_type: ChangeType::Added,
                    old_vcs: None,
                    new_vcs: Some(new[pn].vcs_status),
                    old_activity: None,
                    new_activity: Some(new[pn].activity),
                };
                changes.push(c);
                assert(change_views(changes@) =~= change_views(before).push(c@));
            },
        }
        i = i + 1;
    }
    assert(nn.take(new_names.len() as int) =~= nn);
    let ghost added = change_views(changes@);
    let old_names = names_in_order(old);
    let ghost on = views(old_names@);
    let mut removed: Vec<ProjectChange> = Vec::new();
    let mut i: usize = 0;
    assert(on.take(0) =~= Seq::<Seq<char>>::empty());
    assert(change_views(removed@) =~= Seq::<ChangeView>::empty());
    while i < old_names.len()
        invariant
            i <= old_names.len(),
            ov == project_views(old@),
            nv == project_views(new@),
            on == views(old_names@),
            on == distinct_names(ov),
            change_views(removed@) == removed_changes(on.take(i as int), ov, nv),
        decreases old_names.len() - i,
    {
        let name = old_names[i].as_str();
        proof {
            assert(on.take(i + 1).drop_last() =~= on.take(i as int));
            assert(on.take(i + 1).last() == name@);
            lemma_distinct_names_present(ov, i as int);
        }
        if find_last_named(new, name).is_none() {
            let po = find_last_named(old, name).unwrap();
            let c = ProjectChange {
                name: old_names[i].clone(),
                change_type: ChangeType::Removed,
                old_vcs: Some(old[po].vcs_status),
                new_vcs: None,
                old_activity: Some(old[po].activity),
                new_activity: None,
            };
            let ghost before = removed@;
            removed.push(c);
            assert(change_views(removed@) =~= change_views(before).push(c@));
        }
        i = i + 1;
    }
    assert(on.take(old_names.len() as int) =~= on);
    let ghost rem = change_views(removed@);
    let mut k: usize = 0;
    let ghost rorig = removed@;
    let mut rest = removed;
    let n = rest.len();
    while k < n
        invariant
            n == rorig.len(),
            k <= n,
            rest@ == rorig.skip(k as int),
            change_views(changes@) == added + change_views(rorig.take(k as int)),
        decreases n - k,
    {
        assert(rest@[0] == rorig[k as int]);
        let c = rest.remove(0);
        assert(rest@ =~= rorig.skip(k + 1));
        let ghost before = changes@;
        changes.push(c);
        assert(change_views(rorig.take(k + 1)) =~= change_views(rorig.take(k as int)).push(c@));
        assert(change_views(changes@) =~= change_views(before).push(c@));
        assert(change_views(changes@) =~= added + change_views(rorig.take(k + 1)));
        k = k + 1;
    }
    assert(rorig.take(n as int) =~= rorig);
    changes
}

// ---------------------------------------------------------------------------
// Changelog and registry synchronisation
// ---------------------------------------------------------------------------

/// How many changelog entries are kept.
pub const CHANGELOG_CAPACITY: usize = 50;

/// `s` without its first entry when it holds more than the capacity.
pub open spec fn capped<A>(s: Seq<A>) -> Seq<A> {
    if s.len() > CHANGELOG_CAPACITY {
        s.drop_first()
    } else {
        s
    }
}

/// Records `entry` as the newest changelog entry, dropping the oldest when
/// the history then holds more than its capacity.
pub fn append_changelog(history: &mut ChangelogHistory, entry: EcosystemChangelog)
    ensures
        final(history).entries@ == capped(old(history).entries@.push(entry)),
        old(history).entries@.len() <= CHANGELOG_CAPACITY ==> final(history).entries@.len()
            <= CHANGELOG_CAPACITY,
        final(history).entries@.last() == entry,
{
    history.entries.push(entry);
    if history.entries.len() > CHANGELOG_CAPACITY {
        let _ = history.entries.remove(0);
        assert(history.entries@ =~= capped(old(history).entries@.push(entry)));
    }
}

/// What a registry synchronisation yields: the changelog entry to record
/// (when anything changed) and the number of projects.
pub struct SyncOutcome {
    pub changelog: Option<EcosystemChangelog>,
    pub count: usize,
}

/// The outcome of synchronising the registry that held `old` with the
/// freshly scanned `projects` at `timestamp` (seconds since the Unix epoch).
pub fn sync_registry(old: &[ProjectDetail], projects: &[ProjectDetail], timestamp: u64) -> (r:
    SyncOutcome)
    ensures
        r.count == projects.len(),
        match r.changelog {
            Some(entry) => {
                &&& diff(project_views(old@), project_views(projects@)).len() > 0
                &&& change_views(entry.changes@) == diff(project_views(old@), project_views(projects@))
                &&& entry.timestamp == timestamp
            },
            None => diff(project_views(old@), project_views(projects@)).len() == 0,
        },
{
    let changes = generate_diff(old, projects);
    let changelog = if changes.len() > 0 {
        Some(EcosystemChangelog { timestamp, changes })
    } else {
        None
    };
    SyncOutcome { changelog, count: projects.len() }
}

// ---------------------------------------------------------------------------
// Search
// ---------------------------------------------------------------------------

/// The option's text, by its characters.
pub open spec fn opt_str(o: Option<&str>) -> Option<Seq<char>> {
    match o {
        Some(s) => Some(s@),
        None => None,
    }
}

/// Some text of `texts`, lower-cased, contains `q`.
pub open spec fn any_lower_has(texts: Seq<Seq<char>>, q: Seq<char>) -> bool {
    exists|i: int| 0 <= i < texts.len() && has_infix(lowercase(#[trigger] texts[i]), q)
}

/// The lower-cased name, stack or essence of the project, or one of its
/// lower-cased tags or taxonomy entries, contains the lower-cased query `q`.
pub open spec fn text_matches(p: ProjectView, q: Seq<char>) -> bool {
    ||| has_infix(lowercase(p.name), q)
    ||| has_infix(lowercase(p.stack), q)
    ||| match p.essence {
        Some(e) => has_infix(lowercase(e), q),
        None => false,
    }
    ||| any_lower_has(p.tags, q)
    ||| any_lower_has(p.taxonomy, q)
}

/// When a tag is given, the project's tags hold it as a hashtag.
pub open spec fn tag_selected(p: ProjectView, tag: Option<Seq<char>>) -> bool {
    match tag {
        Some(t) => has_file(p.tags, hashtag(t)),
        None => true,
    }
}

/// A project matches a search when its name, stack, essence, tags or
/// taxonomy contain the query (both lower-cased), and, when a tag is given,
/// its tags hold that tag as a hashtag.
pub open spec fn matches_query(p: ProjectView, query: Seq<char>, tag: Option<Seq<char>>) -> bool {
    text_matches(p, lowercase(query)) && tag_selected(p, tag)
}

/// The projects of `ps` that match the search, in order.
pub open spec fn search_filter(ps: Seq<ProjectView>, query: Seq<char>, tag: Option<Seq<char>>) -> Seq<
    ProjectView,
>
    decreases ps.len(),
{
    if ps.len() == 0 {
        seq![]
    } else {
        let rest = search_filter(ps.drop_last(), query, tag);
        if matches_query(ps.last(), query, tag) {
            rest.push(ps.last())
        } else {
            rest
        }
    }
}

/// Whether a cached registry can answer a search: its fingerprint is the
/// workspace's current one and it holds projects.
pub fn registry_is_fresh(cached_fingerprint: u64, current_fingerprint: u64, cached_count: usize) -> (r:
    bool)
    ensures
        r == (cached_fingerprint == current_fingerprint && cached_count > 0),
{
    cached_fingerprint == current_fingerprint && cached_count > 0
}

/// Each text of `texts`, lower-cased.
fn lower_all(texts: &[String]) -> (r: Vec<String>)
    ensures
        r.len() == texts.len(),
        forall|i: int| 0 <= i < r.len() ==> (#[trigger] r@[i])@ == lowercase(texts@[i]@),
{
    let mut out: Vec<String> = Vec::new();
    let mut i: usize = 0;
    while i < texts.len()
        invariant
            i <= texts.len(),
            out.len() == i,
            forall|j: int| 0 <= j < i ==> (#[trigger] out@[j])@ == lowercase(texts@[j]@),
        decreases texts.len() - i,
    {
        out.push(to_lowercase(texts[i].as_str()));
        i = i + 1;
    }
    out
}

/// Whether some text of `texts` contains `q`.
pub fn any_contains(texts: &[String], q: &Vec<char>) -> (r: bool)
    ensures
        r == exists|i: int| 0 <= i < texts.len() && has_infix((#[trigger] texts@[i])@, q@),
{
    let mut i: usize = 0;
    while i < texts.len()
        invariant
            i <= texts.len(),
            forall|j: int| 0 <= j < i ==> !has_infix((#[trigger] texts@[j])@, q@),
        decreases texts.len() - i,
    {
        if contains_text(&chars_of(texts[i].as_str()), q) {
            return true;
        }
        i = i + 1;
    }
    false
}

/// Whether the project `p` matches the search for the lower-cased query
/// `query_lower` and the hashtag `target`.
fn project_matches(p: &ProjectDetail, query_lower: &Vec<char>, target: &Option<String>) -> (r:
    bool)
    ensures
        r == (text_matches(p@, query_lower@) && match opt_chars(*target) {
            Some(t) => has_file(p@.tags, t),
            None => true,
        }),
{
    let name_lower = to_lowercase(p.name.as_str());
    let stack_lower = to_lowercase(p.stack.as_str());
    let essence_lower = match &p.essence {
        Some(e) => Some(to_lowercase(e.as_str())),
        None => None,
    };
    let tags_lower = lower_all(p.tags.as_slice());
    let taxonomy_lower = lower_all(p.taxonomy.as_slice());
    let r = lowered_match(
        &name_lower,
        &stack_lower,
        &essence_lower,
        tags_lower.as_slice(),
        taxonomy_lower.as_slice(),
        query_lower,
        p.tags.as_slice(),
        target,
    );
    proof {
        let q = query_lower@;
        let tv = views(p.tags@);
        let xv = views(p.taxonomy@);
        assert((exists|i: int|
            0 <= i < tags_lower@.len() && has_infix((#[trigger] tags_lower@[i])@, q))
            == any_lower_has(tv, q)) by {
            if any_lower_has(tv, q) {
                let i = choose|i: int| 0 <= i < tv.len() && has_infix(lowercase(#[trigger] tv[i]), q);
                assert(tags_lower@[i]@ == lowercase(tv[i]));
            }
            if exists|i: int| 0 <= i < tags_lower@.len() && has_infix((#[trigger] tags_lower@[i])@, q) {
                let i = choose|i: int|
                    0 <= i < tags_lower@.len() && has_infix((#[trigger] tags_lower@[i])@, q);
                assert(tags_lower@[i]@ == lowercase(tv[i]));
            }
        }
        assert((exists|i: int|
            0 <= i < taxonomy_lower@.len() && has_infix((#[trigger] taxonomy_lower@[i])@, q))
            == any_lower_has(xv, q)) by {
            if any_lower_has(xv, q) {
                let i = choose|i: int| 0 <= i < xv.len() && has_infix(lowercase(#[trigger] xv[i]), q);
                assert(taxonomy_lower@[i]@ == lowercase(xv[i]));
            }
            if exists|i: int|
                0 <= i < taxonomy_lower@.len() && has_infix((#[trigger] taxonomy_lower@[i])@, q) {
                let i = choose|i: int|
                    0 <= i < taxonomy_lower@.len() && has_infix((#[trigger] taxonomy_lower@[i])@, q);
                assert(taxonomy_lower@[i]@ == lowercase(xv[i]));
            }
        }
    }
    r
}

/// Whether a project matches a search, given its lower-cased name, stack,
/// essence, tags and taxonomy, the lower-cased query, its tags and the
/// hashtag searched for.
pub fn lowered_match(
    name_lower: &String,
    stack_lower: &String,
    essence_lower: &Option<String>,
    tags_lower: &[String],
    taxonomy_lower: &[String],
    query_lower: &Vec<char>,
    tags: &[String],
    target: &Option<String>,
) -> (r: bool)
    ensures
        r == ({
            let q = query_lower@;
            &&& (has_infix(name_lower@, q) || has_infix(stack_lower@, q)
                || match opt_chars(*essence_lower) {
                Some(e) => has_infix(e, q),
                None => false,
            } || (exists|i: int| 0 <= i < tags_lower.len() && has_infix((#[trigger] tags_lower@[i])@, q))
                || (exists|i: int|
                0 <= i < taxonomy_lower.len() && has_infix((#[trigger] taxonomy_lower@[i])@, q)))
            &&& match opt_chars(*target) {
                Some(t) => has_file(views(tags@), t),
                None => true,
            }
        }),
{
    let name_match = contains_text(&chars_of(name_lower.as_str()), query_lower);
    let stack_match = contains_text(&chars_of(stack_lower.as_str()), query_lower);
    let essence_match = match essence_lower {
        Some(e) => contains_text(&chars_of(e.as_str()), query_lower),
        None => false,
    };
    let tags_match = any_contains(tags_lower, query_lower);
    let taxonomy_match = any_contains(taxonomy_lower, query_lower);
    let tag_match = match target {
        Some(t) => contains_file(tags, t.as_str()),
        None => true,
    };
    (name_match || stack_match || essence_match || tags_match || taxonomy_match) && tag_match
}

/// The projects among `projects` that match `query` and, when given, `tag`.
pub fn search_projects(projects: Vec<ProjectDetail>, query: &str, tag: Option<&str>) -> (r:
    SearchResult)
    ensures
        r.query@ == query@,
        project_views(r.matches@) == search_filter(project_views(projects@), query@, opt_str(tag)),
        query@.len() == 0 && tag is None ==> project_views(r.matches@) == project_views(projects@),
{
    let query_lower = chars_of(to_lowercase(query).as_str());
    let target: Option<String> = match tag {
        Some(t) => Some(to_hashtag(t)),
        None => None,
    };
    let ghost orig = projects@;
    let ghost pv = project_views(orig);
    let mut rest = projects;
    let mut matches: Vec<ProjectDetail> = Vec::new();
    let n = rest.len();
    let mut i: usize = 0;
    assert(pv.take(0) =~= Seq::<ProjectView>::empty());
    assert(project_views(matches@) =~= Seq::<ProjectView>::empty());
    while i < n
        invariant
            n == orig.len(),
            i <= n,
            pv == project_views(orig),
            rest@ == orig.skip(i as int),
            query_lower@ == lowercase(query@),
            query@.len() == 0 ==> query_lower@.len() == 0,
            opt_chars(target) == match opt_str(tag) {
                Some(t) => Some(hashtag(t)),
                None => None,
            },
            project_views(matches@) == search_filter(pv.take(i as int), query@, opt_str(tag)),
        decreases n - i,
    {
        assert(rest@[0] == orig[i as int]);
        let p = rest.remove(0);
        assert(rest@ =~= orig.skip(i + 1));
        proof {
            assert(pv.take(i + 1).drop_last() =~= pv.take(i as int));
            assert(pv.take(i + 1).last() == p@);
        }
        if project_matches(&p, &query_lower, &target) {
            let ghost before = matches@;
            matches.push(p);
            assert(project_views(matches@) =~= project_views(before).push(p@));
        }
        i = i + 1;
    }
    assert(pv.take(n as int) =~= pv);
    proof {
        if query@.len() == 0 {
            law_empty_query_matches_all(pv, query@);
        }
    }
    SearchResult { query: query.to_owned(), matches }
}

/// Every project that a search returns matches it.
pub proof fn law_search_results_match(ps: Seq<ProjectView>, query: Seq<char>, tag: Option<Seq<char>>)
    ensures
        forall|j: int|
            0 <= j < search_filter(ps, query, tag).len() ==> matches_query(
                #[trigger] search_filter(ps, query, tag)[j],
                query,
                tag,
            ),
        search_filter(ps, query, tag).len() <= ps.len(),
    decreases ps.len(),
{
    if ps.len() > 0 {
        law_search_results_match(ps.drop_last(), query, tag);
        let rest = search_filter(ps.drop_last(), query, tag);
        let r = search_filter(ps, query, tag);
        assert forall|j: int| 0 <= j < r.len() implies matches_query(#[trigger] r[j], query, tag) by {
            if j < rest.len() {
                assert(r[j] == rest[j]);
            }
        }
    }
}

/// The projects of `ps` whose tags hold `t` as a hashtag, in order.
pub open spec fn tagged(ps: Seq<ProjectView>, t: Seq<char>) -> Seq<ProjectView>
    decreases ps.len(),
{
    if ps.len() == 0 {
        seq![]
    } else {
        let rest = tagged(ps.drop_last(), t);
        if has_file(ps.last().tags, hashtag(t)) {
            rest.push(ps.last())
        } else {
            rest
        }
    }
}

/// A search for a tag returns exactly the projects of the same search
/// without the tag that carry it, in the same order.
pub proof fn law_tag_filter_narrows(ps: Seq<ProjectView>, query: Seq<char>, t: Seq<char>)
    ensures
        search_filter(ps, query, Some(t)) == tagged(search_filter(ps, query, None), t),
    decreases ps.len(),
{
    if ps.len() > 0 {
        law_tag_filter_narrows(ps.drop_last(), query, t);
        let rest = search_filter(ps.drop_last(), query, None);
        if matches_query(ps.last(), query, None) {
            let all = rest.push(ps.last());
            assert(all.drop_last() =~= rest);
        }
    }
}

/// When the query lower-cases to the empty text, a search without a tag
/// returns every project.
pub proof fn law_empty_query_matches_all(ps: Seq<ProjectView>, query: Seq<char>)
    requires
        lowercase(query).len() == 0,
    ensures
        search_filter(ps, query, None) == ps,
    decreases ps.len(),
{
    if ps.len() > 0 {
        law_empty_query_matches_all(ps.drop_last(), query);
        let n = lowercase(ps.last().name);
        let q = lowercase(query);
        assert(n.subrange(0, 0 + q.len() as int) =~= q);
        assert(has_infix(n, q));
        assert(ps.drop_last().push(ps.last()) =~= ps);
    }
}

// ---------------------------------------------------------------------------
// Status report
// ---------------------------------------------------------------------------

/// The longest prefix of `s` whose UTF-8 encoding takes at most `n` bytes.
pub open spec fn byte_prefix(s: Seq<char>, n: int) -> Seq<char>
    decreases s.len(),
{
    if s.len() == 0 || char_width(s[0]) > n {
        seq![]
    } else {
        seq![s[0]] + byte_prefix(s.drop_first(), n - char_width(s[0]))
    }
}

/// The first `n` bytes of `s` end on a character boundary within `s`, so
/// that `&s[..n]` is defined.
pub open spec fn cuts_at(s: Seq<char>, n: int) -> bool {
    byte_len(byte_prefix(s, n)) == n
}

/// A submodule whose expected and actual commits are both known and differ.
pub open spec fn misaligned(sub: SubmoduleView) -> bool {
    match (sub.expected_commit, sub.actual_commit) {
        (Some(e), Some(a)) => e != a,
        _ => false,
    }
}

/// The issue that a submodule raises, if any: not being initialized, or
/// (when initialized) pointing at another commit than expected, quoting the
/// first seven bytes of both commits.
pub open spec fn submodule_issue(sub: SubmoduleView) -> Option<Seq<char>> {
    if sub.initialized {
        if misaligned(sub) {
            Some(
                "Submodule '"@ + sub.name + "' is out of alignment (expected "@ + byte_prefix(
                    sub.expected_commit.unwrap(),
                    7,
                ) + "..., found "@ + byte_prefix(sub.actual_commit.unwrap(), 7) + ")"@,
            )
        } else {
            None
        }
    } else {
        Some("Submodule '"@ + sub.name + "' is not initialized"@)
    }
}

/// The issues of the submodules `subs`, in order.
pub open spec fn submodule_issues(subs: Seq<SubmoduleView>) -> Seq<Seq<char>>
    decreases subs.len(),
{
    if subs.len() == 0 {
        seq![]
    } else {
        let rest = submodule_issues(subs.drop_last());
        match submodule_issue(subs.last()) {
            Some(i) => rest.push(i),
            None => rest,
        }
    }
}

/// Every submodule is initialized and at its expected commit.
pub open spec fn aligned(subs: Seq<SubmoduleView>) -> bool {
    forall|k: int| 0 <= k < subs.len() ==> (#[trigger] subs[k]).initialized && !misaligned(subs[k])
}

/// Every commit that a status report quotes can be cut after seven bytes.
pub open spec fn commits_quotable(ps: Seq<ProjectView>) -> bool {
    forall|j: int, k: int|
        0 <= j < ps.len() && 0 <= k < ps[j].submodules.len() ==> {
            let sub = #[trigger] ps[j].submodules[k];
            sub.initialized && misaligned(sub) ==> cuts_at(sub.expected_commit.unwrap(), 7)
                && cuts_at(sub.actual_commit.unwrap(), 7)
        }
}

/// A project status by the characters of its texts.
pub struct StatusView {
    pub name: Seq<char>,
    pub stack: Seq<char>,
    pub activity: ActivityTier,
    pub vcs_status: VcsStatus,
    pub is_aligned: bool,
    pub issues: Seq<Seq<char>>,
}

impl View for ProjectStatus {
    type V = StatusView;

    open spec fn view(&self) -> StatusView {
        StatusView {
            name: self.name@,
            stack: self.stack@,
            activity: self.activity,
            vcs_status: self.vcs_status,
            is_aligned: self.is_aligned,
            issues: views(self.issues@),
        }
    }
}

/// The view of each status of a sequence.
pub open spec fn status_views(s: Seq<ProjectStatus>) -> Seq<StatusView> {
    s.map_values(|p: ProjectStatus| p@)
}

/// The status of a project.
pub open spec fn status_of(p: ProjectView) -> StatusView {
    StatusView {
        name: p.name,
        stack: p.stack,
        activity: p.activity,
        vcs_status: p.vcs_status,
        is_aligned: aligned(p.submodules),
        issues: submodule_issues(p.submodules),
    }
}

/// How many of `st` are clean and aligned.
pub open spec fn healthy_count(st: Seq<StatusView>) -> nat
    decreases st.len(),
{
    if st.len() == 0 {
        0
    } else {
        healthy_count(st.drop_last()) + if st.last().vcs_status == VcsStatus::Clean
            && st.last().is_aligned {
            1nat
        } else {
            0nat
        }
    }
}

/// The decimal digit for `d`.
pub open spec fn digit(d: int) -> char {
    if d == 0 {
        '0'
    } else if d == 1 {
        '1'
    } else if d == 2 {
        '2'
    } else if d == 3 {
        '3'
    } else if d == 4 {
        '4'
    } else if d == 5 {
        '5'
    } else if d == 6 {
        '6'
    } else if d == 7 {
        '7'
    } else if d == 8 {
        '8'
    } else {
        '9'
    }
}

/// The decimal representation of `n`, as `Display` writes it.
pub open spec fn decimal(n: nat) -> Seq<char>
    decreases n,
{
    if n < 10 {
        seq![digit(n as int)]
    } else {
        decimal(n / 10).push(digit((n % 10) as int))
    }
}

/// A one-digit number padded with a zero on the left, as the format `{:02}`
/// writes it; longer ones unchanged.
pub open spec fn pad2(s: Seq<char>) -> Seq<char> {
    if s.len() < 2 {
        seq!['0'] + s
    } else {
        s
    }
}

/// The summary line of a status report.
pub open spec fn summary_line(healthy: nat, total: nat) -> Seq<char> {
    pad2(decimal(healthy)) + "/"@ + decimal(total) + " projects are HEALTHY & CLEAN"@
}

/// The kind of workspace: a hub when its projects folder holds a
/// `.gitmodules`, a pond when the folder exists, generic otherwise.
pub open spec fn context_of(has_gitmodules: bool, projects_dir_exists: bool) -> ContextType {
    if has_gitmodules {
        ContextType::Hub
    } else if projects_dir_exists {
        ContextType::Pond
    } else {
        ContextType::Generic
    }
}

/// A report by the characters of its texts.
pub struct ReportView {
    pub active_context: Option<Seq<char>>,
    pub context_type: ContextType,
    pub projects: Seq<StatusView>,
    pub summary: Seq<char>,
}

impl View for StatusReport {
    type V = ReportView;

    open spec fn view(&self) -> ReportView {
        ReportView {
            active_context: opt_chars(self.active_context),
            context_type: self.context_type,
            projects: status_views(self.projects@),
            summary: self.summary@,
        }
    }
}

/// The status report for the projects `ps`.
pub open spec fn report_of(
    ps: Seq<ProjectView>,
    active_context: Option<Seq<char>>,
    has_gitmodules: bool,
    projects_dir_exists: bool,
) -> ReportView {
    let st = ps.map_values(|p: ProjectView| status_of(p));
    ReportView {
        active_context,
        context_type: context_of(has_gitmodules, projects_dir_exists),
        projects: st,
        summary: summary_line(healthy_count(st), st.len()),
    }
}

/// The decimal digit for `d`.
fn digit_char(d: usize) -> (c: char)
    requires
        d < 10,
    ensures
        c == digit(d as int),
{
    if d == 0 {
        '0'
    } else if d == 1 {
        '1'
    } else if d == 2 {
        '2'
    } else if d == 3 {
        '3'
    } else if d == 4 {
        '4'
    } else if d == 5 {
        '5'
    } else if d == 6 {
        '6'
    } else if d == 7 {
        '7'
    } else if d == 8 {
        '8'
    } else {
        '9'
    }
}

/// The decimal representation of `n`.
pub fn decimal_chars(n: usize) -> (r: Vec<char>)
    ensures
        r@ == decimal(n as nat),
    decreases n,
{
    if n < 10 {
        let mut v = Vec::new();
        v.push(digit_char(n));
        assert(v@ =~= decimal(n as nat));
        v
    } else {
        let mut v = decimal_chars(n / 10);
        v.push(digit_char(n % 10));
        v
    }
}

/// The summary line of a status report.
fn summary_text(healthy: usize, total: usize) -> (r: String)
    ensures
        r@ == summary_line(healthy as nat, total as nat),
{
    let mut h = decimal_chars(healthy);
    if h.len() < 2 {
        h.insert(0, '0');
        assert(h@ =~= pad2(decimal(healthy as nat)));
    }
    let mut s = string_of(&h);
    s.append("/");
    s.append(string_of(&decimal_chars(total)).as_str());
    s.append(" projects are HEALTHY & CLEAN");
    s
}

/// The prefix of `s` whose UTF-8 encoding takes exactly `n` bytes.
fn byte_prefix_text(s: &str, n: usize) -> (r: String)
    ensures
        r@ == byte_prefix(s@, n as int),
{
    let c = chars_of(s);
    let mut i: usize = 0;
    let mut used: usize = 0;
    assert(c@.skip(0) =~= c@);
    assert(c@.take(0) + byte_prefix(c@.skip(0), n as int) =~= byte_prefix(c@, n as int));
    let mut stop = false;
    while i < c.len() && !stop
        invariant
            i <= c.len(),
            used <= n,
            byte_prefix(c@, n as int) == c@.take(i as int) + byte_prefix(c@.skip(i as int), n - used),
            stop ==> i < c.len() && char_width(c@[i as int]) > n - used,
        decreases c.len() - i + if stop { 0int } else { 1int },
    {
        let ch = c[i];
        let w: usize = if '\u{80}' > ch {
            1
        } else if '\u{800}' > ch {
            2
        } else if '\u{10000}' > ch {
            3
        } else {
            4
        };
        assert(w == char_width(ch));
        if w > n - used {
            stop = true;
            continue;
        }
        proof {
            let rest = c@.skip(i as int);
            assert(rest[0] == ch);
            assert(rest.drop_first() =~= c@.skip(i + 1));
            assert(c@.take(i + 1) =~= c@.take(i as int) + seq![ch]);
            assert(byte_prefix(rest, n - used) == seq![ch] + byte_prefix(c@.skip(i + 1), n - used - w));
            assert(c@.take(i as int) + (seq![ch] + byte_prefix(c@.skip(i + 1), n - used - w))
                =~= c@.take(i + 1) + byte_prefix(c@.skip(i + 1), n - used - w));
        }
        used = used + w;
        i = i + 1;
    }
    proof {
        let rest = c@.skip(i as int);
        if stop {
            assert(rest[0] == c@[i as int]);
        }
        assert(byte_prefix(rest, n - used) =~= Seq::<char>::empty());
        assert(c@.take(i as int) + Seq::<char>::empty() =~= c@.take(i as int));
    }
    let mut out: Vec<char> = Vec::new();
    let mut k: usize = 0;
    while k < i
        invariant
            k <= i <= c.len(),
            out@ == c@.take(k as int),
        decreases i - k,
    {
        out.push(c[k]);
        k = k + 1;
        assert(out@ =~= c@.take(k as int));
    }
    string_of(&out)
}

/// The issue that a submodule raises, if any.
fn issue_for(sub: &SubmoduleDetail) -> (r: Option<String>)
    ensures
        opt_chars(r) == submodule_issue(sub@),
{
    if sub.initialized {
        match (&sub.expected_commit, &sub.actual_commit) {
            (Some(expected), Some(actual)) => {
                if !same_text(expected.as_str(), actual.as_str()) {
                    let mut m = "Submodule '".to_owned();
                    m.append(sub.name.as_str());
                    m.append("' is out of alignment (expected ");
                    m.append(byte_prefix_text(expected.as_str(), 7).as_str());
                    m.append("..., found ");
                    m.append(byte_prefix_text(actual.as_str(), 7).as_str());
                    m.append(")");
                    Some(m)
                } else {
                    None
                }
            },
            _ => None,
        }
    } else {
        let mut m = "Submodule '".to_owned();
        m.append(sub.name.as_str());
        m.append("' is not initialized");
        Some(m)
    }
}

/// The status of the project `p`.
pub fn project_status(p: &ProjectDetail) -> (r: ProjectStatus)
    ensures
        r@ == status_of(p@),
{
    let mut issues: Vec<String> = Vec::new();
    let mut is_aligned = true;
    let ghost subs = submodule_views(p.submodules@);
    let mut k: usize = 0;
    assert(subs.take(0) =~= Seq::<SubmoduleView>::empty());
    assert(views(issues@) =~= Seq::<Seq<char>>::empty());
    while k < p.submodules.len()
        invariant
            k <= p.submodules.len(),
            subs == submodule_views(p.submodules@),
            views(issues@) == submodule_issues(subs.take(k as int)),
            is_aligned == aligned(subs.take(k as int)),
        decreases p.submodules.len() - k,
    {
        proof {
            assert(subs.take(k + 1).drop_last() =~= subs.take(k as int));
            assert(subs.take(k + 1).last() == p.submodules@[k as int]@);
        }
        let sub = &p.submodules[k];
        match issue_for(sub) {
            Some(m) => {
                let ghost before = issues@;
                issues.push(m);
                assert(views(issues@) =~= views(before).push(m@));
                is_aligned = false;
                assert(!aligned(subs.take(k + 1))) by {
                    assert(subs.take(k + 1)[k as int] == sub@);
                }
            },
            None => {
                assert(aligned(subs.take(k + 1)) == aligned(subs.take(k as int))) by {
                    assert forall|j: int| 0 <= j < k implies subs.take(k + 1)[j] == subs.take(
                        k as int,
                    )[j] by {}
                    assert(subs.take(k + 1)[k as int] == sub@);
                }
            },
        }
        k = k + 1;
    }
    assert(subs.take(p.submodules.len() as int) =~= subs);
    ProjectStatus {
        name: p.name.clone(),
        stack: p.stack.clone(),
        activity: p.activity,
        vcs_status: p.vcs_status,
        is_aligned,
        issues,
    }
}

/// The kind of workspace.
pub fn context_type_of(has_gitmodules: bool, projects_dir_exists: bool) -> (r: ContextType)
    ensures
        r == context_of(has_gitmodules, projects_dir_exists),
{
    if has_gitmodules {
        ContextType::Hub
    } else if projects_dir_exists {
        ContextType::Pond
    } else {
        ContextType::Generic
    }
}

/// A project is reported when, for a given query, its name, stack, essence,
/// tags or taxonomy contain the query (both lower-cased), and, for a given
/// tag, its tags hold that tag as a hashtag.
pub open spec fn report_match(p: ProjectView, query: Option<Seq<char>>, tag: Option<Seq<char>>) -> bool {
    &&& match query {
        Some(q) => text_matches(p, lowercase(q)),
        None => true,
    }
    &&& tag_selected(p, tag)
}

/// The projects of `ps` that a report filtered by `query` and `tag` lists,
/// in order.
pub open spec fn report_filter(
    ps: Seq<ProjectView>,
    query: Option<Seq<char>>,
    tag: Option<Seq<char>>,
) -> Seq<ProjectView>
    decreases ps.len(),
{
    if ps.len() == 0 {
        seq![]
    } else {
        let rest = report_filter(ps.drop_last(), query, tag);
        if report_match(ps.last(), query, tag) {
            rest.push(ps.last())
        } else {
            rest
        }
    }
}

/// Whether the project `p` is listed by a report filtered by the
/// lower-cased query `query_lower` (if any) and the hashtag `target`.
fn project_selected(p: &ProjectDetail, query_lower: &Option<Vec<char>>, target: &Option<String>) -> (r:
    bool)
    ensures
        r == ((match *query_lower {
            Some(q) => text_matches(p@, q@),
            None => true,
        }) && match opt_chars(*target) {
            Some(t) => has_file(p@.tags, t),
            None => true,
        }),
{
    match query_lower {
        Some(q) => project_matches(p, q, target),
        None => match target {
            Some(t) => contains_file(p.tags.as_slice(), t.as_str()),
            None => true,
        },
    }
}

/// The status report of the scanned `projects` of a workspace whose active
/// context is `active_context`, listing the projects that match `query` and
/// `tag` when they are given; `has_gitmodules` tells whether its projects
/// folder holds a `.gitmodules` and `projects_dir_exists` whether that
/// folder exists.
pub fn generate_status_report(
    projects: &[ProjectDetail],
    active_context: Option<String>,
    has_gitmodules: bool,
    projects_dir_exists: bool,
    query: Option<&str>,
    tag: Option<&str>,
) -> (r: StatusReport)
    requires
        commits_quotable(project_views(projects@)),
    ensures
        r@ == report_of(
            report_filter(project_views(projects@), opt_str(query), opt_str(tag)),
            opt_chars(active_context),
            has_gitmodules,
            projects_dir_exists,
        ),
{
    let ghost pv = project_views(projects@);
    let ghost qv = opt_str(query);
    let ghost tv = opt_str(tag);
    let query_lower: Option<Vec<char>> = match query {
        Some(q) => Some(chars_of(to_lowercase(q).as_str())),
        None => None,
    };
    let target: Option<String> = match tag {
        Some(t) => Some(to_hashtag(t)),
        None => None,
    };
    let mut statuses: Vec<ProjectStatus> = Vec::new();
    let mut healthy: usize = 0;
    let mut i: usize = 0;
    assert(pv.take(0) =~= Seq::<ProjectView>::empty());
    assert(status_views(statuses@) =~= report_filter(pv.take(0), qv, tv).map_values(
        |p: ProjectView| status_of(p),
    ));
    while i < projects.len()
        invariant
            i <= projects.len(),
            pv == project_views(projects@),
            match query_lower {
                Some(q) => qv matches Some(x) && q@ == lowercase(x),
                None => qv is None,
            },
            opt_chars(target) == match tv {
                Some(t) => Some(hashtag(t)),
                None => None,
            },
            status_views(statuses@) == report_filter(pv.take(i as int), qv, tv).map_values(
                |p: ProjectView| status_of(p),
            ),
            healthy == healthy_count(status_views(statuses@)),
            healthy <= statuses.len(),
            statuses.len() <= i,
        decreases projects.len() - i,
    {
        proof {
            assert(pv.take(i + 1).drop_last() =~= pv.take(i as int));
            assert(pv.take(i + 1).last() == projects@[i as int]@);
        }
        if project_selected(&projects[i], &query_lower, &target) {
            let s = project_status(&projects[i]);
            if s.vcs_status == VcsStatus::Clean && s.is_aligned {
                healthy = healthy + 1;
            }
            let ghost before = statuses@;
            statuses.push(s);
            proof {
                let f = report_filter(pv.take(i as int), qv, tv);
                assert(f.push(projects@[i as int]@).map_values(|p: ProjectView| status_of(p))
                    =~= f.map_values(|p: ProjectView| status_of(p)).push(s@));
                assert(status_views(statuses@) =~= status_views(before).push(s@));
                assert(status_views(statuses@).drop_last() =~= status_views(before));
            }
        }
        i = i + 1;
    }
    assert(pv.take(projects.len() as int) =~= pv);
    let summary = summary_text(healthy, statuses.len());
    StatusReport {
        active_context,
        context_type: context_type_of(has_gitmodules, projects_dir_exists),
        projects: statuses,
        summary,
    }
}

/// A project is aligned exactly when its status lists no issue.
pub proof fn law_aligned_iff_no_issues(subs: Seq<SubmoduleView>)
    ensures
        aligned(subs) <==> submodule_issues(subs).len() == 0,
    decreases subs.len(),
{
    if subs.len() > 0 {
        law_aligned_iff_no_issues(subs.drop_last());
        let t = subs.drop_last();
        if aligned(subs) {
            assert(aligned(t)) by {
                assert forall|k: int| 0 <= k < t.len() implies (#[trigger] t[k]).initialized
                    && !misaligned(t[k]) by {
                    assert(t[k] == subs[k]);
                }
            }
            assert(subs[subs.len() - 1] == subs.last());
        } else {
            if aligned(t) {
                let k = choose|k: int|
                    0 <= k < subs.len() && !((#[trigger] subs[k]).initialized && !misaligned(subs[k]));
                if k < t.len() {
                    assert(t[k] == subs[k]);
                }
            }
        }
    }
}

/// A report counts at most as many healthy projects as it has projects.
pub proof fn law_healthy_at_most_total(st: Seq<StatusView>)
    ensures
        healthy_count(st) <= st.len(),
    decreases st.len(),
{
    if st.len() > 0 {
        law_healthy_at_most_total(st.drop_last());
    }
}


/// What a diff reports for the project named `n`, read off the last records
/// of that name in the two snapshots: a project only in the new snapshot is
/// added, one only in the old snapshot is removed, one in both whose
/// version-control state or activity differs is modified (carrying the old
/// and new values of exactly what differs), and otherwise nothing is
/// reported for that name.
pub proof fn law_diff_reports_each_change(old: Seq<ProjectView>, new: Seq<ProjectView>, n: Seq<char>)
    ensures
        match (last_named(old, n), last_named(new, n)) {
            (Some(po), Some(pn)) => if po.vcs_status != pn.vcs_status || po.activity
                != pn.activity {
                diff(old, new).contains(
                    (ChangeView {
                        name: n,
                        change_type: ChangeType::Modified,
                        old_vcs: if po.vcs_status != pn.vcs_status {
                            Some(po.vcs_status)
                        } else {
                            None
                        },
                        new_vcs: if po.vcs_status != pn.vcs_status {
                            Some(pn.vcs_status)
                        } else {
                            None
                        },
                        old_activity: if po.activity != pn.activity {
                            Some(po.activity)
                        } else {
                            None
                        },
                        new_activity: if po.activity != pn.activity {
                            Some(pn.activity)
                        } else {
                            None
                        },
                    }),
                )
            } else {
                forall|j: int| 0 <= j < diff(old, new).len() ==> (#[trigger] diff(old, new)[j]).name != n
            },
            (None, Some(pn)) => diff(old, new).contains(
                (ChangeView {
                    name: n,
                    change_type: ChangeType::Added,
                    old_vcs: None,
                    new_vcs: Some(pn.vcs_status),
                    old_activity: None,
                    new_activity: Some(pn.activity),
                }),
            ),
            (Some(po), None) => diff(old, new).contains(
                (ChangeView {
                    name: n,
                    change_type: ChangeType::Removed,
                    old_vcs: Some(po.vcs_status),
                    new_vcs: None,
                    old_activity: Some(po.activity),
                    new_activity: None,
                }),
            ),
            (None, None) => forall|j: int|
                0 <= j < diff(old, new).len() ==> (#[trigger] diff(old, new)[j]).name != n,
        },
{
    let d = diff(old, new);
    match change_of(n, old, new) {
        Some(c) => {
            law_diff_members(old, new, c);
            assert(c.name == n);
        },
        None => {},
    }
    assert forall|j: int| 0 <= j < d.len() && (#[trigger] d[j]).name == n implies change_of(n, old, new)
        == Some(d[j]) by {
        assert(d.contains(d[j]));
        law_diff_members(old, new, d[j]);
    }
}

/// Every submodule is initialized and, where both commits are known, at
/// the expected commit.
pub open spec fn all_submodules_in_place(subs: Seq<SubmoduleView>) -> bool {
    forall|k: int|
        0 <= k < subs.len() ==> (#[trigger] subs[k]).initialized && (subs[k].expected_commit is Some
            && subs[k].actual_commit is Some ==> subs[k].expected_commit == subs[k].actual_commit)
}

/// A project's status is aligned exactly when every submodule is
/// initialized and at its expected commit where both commits are known.
pub proof fn law_status_aligned_iff(p: ProjectView)
    ensures
        status_of(p).is_aligned <==> all_submodules_in_place(p.submodules),
{
    let subs = p.submodules;
    if all_submodules_in_place(subs) {
        assert forall|k: int| 0 <= k < subs.len() implies (#[trigger] subs[k]).initialized
            && !misaligned(subs[k]) by {
            assert(subs[k].initialized);
        }
    }
    if aligned(subs) {
        assert forall|k: int| 0 <= k < subs.len() implies (#[trigger] subs[k]).initialized && (
        subs[k].expected_commit is Some && subs[k].actual_commit is Some ==> subs[k].expected_commit
            == subs[k].actual_commit) by {
            assert(subs[k].initialized && !misaligned(subs[k]));
        }
    }
}

/// The healthy count of a report is the number of its statuses that are
/// both clean and aligned.
pub proof fn law_healthy_count_counts(st: Seq<StatusView>)
    ensures
        healthy_count(st) == st.filter(
            |s: StatusView| s.vcs_status == VcsStatus::Clean && s.is_aligned,
        ).len(),
    decreases st.len(),
{
    reveal(Seq::filter);
    if st.len() > 0 {
        law_healthy_count_counts(st.drop_last());
    }
}

/// The summary of a report counts, among all listed projects, those that
/// are clean and whose submodules are all initialized and in place.
pub proof fn law_report_counts_healthy(
    ps: Seq<ProjectView>,
    active_context: Option<Seq<char>>,
    has_gitmodules: bool,
    projects_dir_exists: bool,
)
    ensures
        report_of(ps, active_context, has_gitmodules, projects_dir_exists).summary == summary_line(
            ps.filter(
                |p: ProjectView|
                    p.vcs_status == VcsStatus::Clean && all_submodules_in_place(p.submodules),
            ).len(),
            ps.len(),
        ),
        report_of(ps, active_context, has_gitmodules, projects_dir_exists).projects.len() == ps.len(),
    decreases ps.len(),
{
    lemma_healthy_of_projects(ps);
}

proof fn lemma_healthy_of_projects(ps: Seq<ProjectView>)
    ensures
        healthy_count(ps.map_values(|p: ProjectView| status_of(p))) == ps.filter(
            |p: ProjectView| p.vcs_status == VcsStatus::Clean && all_submodules_in_place(p.submodules),
        ).len(),
    decreases ps.len(),
{
    reveal(Seq::filter);
    if ps.len() > 0 {
        lemma_healthy_of_projects(ps.drop_last());
        assert(ps.map_values(|p: ProjectView| status_of(p)).drop_last() =~= ps.drop_last().map_values(
            |p: ProjectView| status_of(p),
        ));
        law_status_aligned_iff(ps.last());
    }
}

} // verus!
