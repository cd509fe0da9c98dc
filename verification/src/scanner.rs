//! Scanning: finding projects by name, reading a project's metadata and tags,
//! and assembling project records.
use vstd::prelude::*;
use crate::essence::{extract_essence, first_essence};
use crate::detection::{
    age_secs, detect_activity, detect_vcs_status, discover_sub_projects, is_visible_child,
    is_visible_name, tier_for_age, vcs_of, visible_dirs,
};
use crate::model::{
    opt_chars, project_views, submodule_views, DirEntry, GitStatus, ProjectDetail, ProjectView, StackStrategy,
    StrategyRegistry, SubmoduleDetail, SubmoduleView, TagRegistry, TargetSource, VcsStatus,
};
use crate::paths::{
    join_path, joined_path, path_ends_with, path_has_suffix, paths_equal, same_path,
};
use crate::sorting::{
    lemma_sort_by_key_map, lemma_sort_by_key_sorted, lemma_sort_texts, lex_sorted, pair_key,
    sort_by_key, sort_keyed, sort_texts, sort_texts_spec, sorted_by_key,
};
use crate::strategies::{contains_file, has_file};
use crate::text::{
    chars_of, contains_text, has_infix, has_prefix, lex_le, lowercase, same_text, starts_with,
    to_lowercase, views,
};

verus! {

broadcast use vstd::seq_lib::group_to_multiset_ensures;

// ---------------------------------------------------------------------------
// Finding projects by name
// ---------------------------------------------------------------------------

/// The names of the directories among `entries` that are not hidden and
/// whose lower-cased name contains the lower-cased `query`, in order.
pub open spec fn name_matches(entries: Seq<DirEntry>, query: Seq<char>) -> Seq<Seq<char>>
    decreases entries.len(),
{
    if entries.len() == 0 {
        seq![]
    } else {
        let rest = name_matches(entries.drop_last(), query);
        let e = entries.last();
        if e.is_dir && !has_prefix(e.name@, "."@) && has_infix(
            lowercase(e.name@),
            lowercase(query),
        ) {
            rest.push(e.name@)
        } else {
            rest
        }
    }
}

/// The first `limit` of `s`, or all of it when it is shorter.
pub open spec fn first_n<A>(s: Seq<A>, limit: int) -> Seq<A> {
    if s.len() > limit {
        s.take(limit)
    } else {
        s
    }
}

/// Whether the lower-cased name `name_lower` contains the lower-cased query.
pub fn name_contains_query(name_lower: &str, query_lower: &Vec<char>) -> (r: bool)
    ensures
        r == has_infix(name_lower@, query_lower@),
{
    contains_text(&chars_of(name_lower), query_lower)
}

/// The projects of a root directory whose top-level entries are `entries`
/// that match `query` (case-insensitively, by name), sorted, at most `limit`.
pub fn find_projects(entries: &[DirEntry], query: &str, limit: usize) -> (r: Vec<String>)
    ensures
        views(r@) == first_n(sort_texts_spec(name_matches(entries@, query@)), limit as int),
{
    let query_lower = chars_of(to_lowercase(query).as_str());
    let dot = chars_of(".");
    let mut matches: Vec<String> = Vec::new();
    let mut i: usize = 0;
    assert(entries@.take(0) =~= Seq::<DirEntry>::empty());
    assert(views(matches@) =~= Seq::<Seq<char>>::empty());
    while i < entries.len()
        invariant
            i <= entries.len(),
            query_lower@ == lowercase(query@),
            dot@ == "."@,
            views(matches@) == name_matches(entries@.take(i as int), query@),
        decreases entries.len() - i,
    {
        let e = &entries[i];
        proof {
            assert(entries@.take(i + 1).drop_last() =~= entries@.take(i as int));
        }
        if e.is_dir {
            let name = chars_of(e.name.as_str());
            if !starts_with(&name, &dot) {
                if name_contains_query(to_lowercase(e.name.as_str()).as_str(), &query_lower) {
                    let ghost before = matches@;
                    matches.push(e.name.clone());
                    assert(views(matches@) =~= views(before).push(e.name@));
                }
            }
        }
        i = i + 1;
    }
    assert(entries@.take(entries.len() as int) =~= entries@);
    let mut sorted = sort_texts(matches);
    if sorted.len() > limit {
        sorted.truncate(limit);
        assert(views(sorted@) =~= first_n(
            sort_texts_spec(name_matches(entries@, query@)),
            limit as int,
        ));
    }
    sorted
}

// ---------------------------------------------------------------------------
// Metadata from the stack strategies
// ---------------------------------------------------------------------------

/// `list` extended by each of `items` that it does not hold yet, in order.
pub open spec fn add_unique(list: Seq<Seq<char>>, items: Seq<Seq<char>>) -> Seq<Seq<char>>
    decreases items.len(),
{
    if items.len() == 0 {
        list
    } else {
        let l = add_unique(list, items.drop_last());
        if has_file(l, items.last()) {
            l
        } else {
            l.push(items.last())
        }
    }
}

/// Appends to `list` each of `items` that it does not hold yet.
pub fn extend_unique(list: &mut Vec<String>, items: &[String])
    ensures
        views(final(list)@) == add_unique(views(old(list)@), views(items@)),
{
    let ghost start = views(list@);
    let mut i: usize = 0;
    assert(views(items@).take(0) =~= Seq::<Seq<char>>::empty());
    while i < items.len()
        invariant
            i <= items.len(),
            views(list@) == add_unique(start, views(items@).take(i as int)),
        decreases items.len() - i,
    {
        proof {
            assert(views(items@).take(i + 1).drop_last() =~= views(items@).take(i as int));
            assert(views(items@).take(i + 1).last() == items@[i as int]@);
        }
        if !contains_file(list.as_slice(), items[i].as_str()) {
            let ghost before = list@;
            list.push(items[i].clone());
            assert(views(list@) =~= views(before).push(items@[i as int]@));
        }
        i = i + 1;
    }
    assert(views(items@).take(items.len() as int) =~= views(items@));
}

/// A strategy recognises a listing holding one of its marker files.
pub open spec fn strategy_matches(s: StackStrategy, files: Seq<Seq<char>>) -> bool {
    exists|j: int| 0 <= j < s.match_files@.len() && has_file(files, #[trigger] s.match_files@[j]@)
}

/// Whether `strategy` recognises the listing `files`.
pub fn matches_files(strategy: &StackStrategy, files: &[String]) -> (r: bool)
    ensures
        r == strategy_matches(*strategy, views(files@)),
{
    let mut j: usize = 0;
    while j < strategy.match_files.len()
        invariant
            j <= strategy.match_files@.len(),
            forall|k: int|
                0 <= k < j ==> !has_file(views(files@), #[trigger] strategy.match_files@[k]@),
        decreases strategy.match_files.len() - j,
    {
        if contains_file(files, strategy.match_files[j].as_str()) {
            return true;
        }
        j = j + 1;
    }
    false
}

/// Stack name, taxonomy tags and artifact directories that the strategies
/// `strats` give a listing `files`: every matching strategy adds its tags and
/// artifacts (each once), and the first match names the stack, which is
/// `"Generic"` otherwise.
pub open spec fn strategy_meta(strats: Seq<StackStrategy>, files: Seq<Seq<char>>) -> (
    Seq<char>,
    Seq<Seq<char>>,
    Seq<Seq<char>>,
)
    decreases strats.len(),
{
    if strats.len() == 0 {
        ("Generic"@, seq![], seq![])
    } else {
        let (stack, taxonomy, artifacts) = strategy_meta(strats.drop_last(), files);
        let s = strats.last();
        if strategy_matches(s, files) {
            (
                if stack == "Generic"@ {
                    s.name@
                } else {
                    stack
                },
                add_unique(taxonomy, views(s.tags@)),
                add_unique(artifacts, views(s.artifacts@)),
            )
        } else {
            (stack, taxonomy, artifacts)
        }
    }
}

/// What discovery reads from disk about one directory.
pub struct ProjectFacts {
    /// Names of its top-level entries (those whose names are valid UTF-8).
    pub files: Vec<String>,
    /// The text of its `README.md`, `readme.md` and `README.markdown`, in
    /// that order, `None` where one could not be read.
    pub readmes: Vec<Option<String>>,
}

/// The README candidates of a directory, by their characters.
pub open spec fn readme_views(f: ProjectFacts) -> Seq<Option<Seq<char>>> {
    f.readmes@.map_values(|o: Option<String>| opt_chars(o))
}

/// Stack name, taxonomy, artifact directories and essence of a directory.
pub open spec fn metadata_of(strats: Seq<StackStrategy>, f: ProjectFacts) -> (
    Seq<char>,
    Seq<Seq<char>>,
    Seq<Seq<char>>,
    Option<Seq<char>>,
) {
    let (stack, taxonomy, artifacts) = strategy_meta(strats, views(f.files@));
    (stack, taxonomy, artifacts, first_essence(readme_views(f)))
}

/// Stack name, taxonomy tags, artifact directories and essence of a
/// directory, from what was read of it and the configured strategies.
pub fn get_project_metadata(facts: &ProjectFacts, registry: &StrategyRegistry) -> (r: (
    String,
    Vec<String>,
    Vec<String>,
    Option<String>,
))
    ensures
        (r.0@, views(r.1@), views(r.2@), opt_chars(r.3)) == metadata_of(
            registry.strategies@,
            *facts,
        ),
{
    let ghost strats = registry.strategies@;
    let ghost fv = views(facts.files@);
    let mut taxonomy: Vec<String> = Vec::new();
    let mut artifact_dirs: Vec<String> = Vec::new();
    let mut stack = "Generic".to_owned();
    let mut i: usize = 0;
    assert(strats.take(0) =~= Seq::<StackStrategy>::empty());
    assert(views(taxonomy@) =~= Seq::<Seq<char>>::empty());
    assert(views(artifact_dirs@) =~= Seq::<Seq<char>>::empty());
    while i < registry.strategies.len()
        invariant
            i <= strats.len(),
            strats == registry.strategies@,
            fv == views(facts.files@),
            (stack@, views(taxonomy@), views(artifact_dirs@)) == strategy_meta(
                strats.take(i as int),
                fv,
            ),
        decreases strats.len() - i,
    {
        let s = &registry.strategies[i];
        proof {
            assert(strats.take(i + 1).drop_last() =~= strats.take(i as int));
        }
        if matches_files(s, facts.files.as_slice()) {
            extend_unique(&mut taxonomy, s.tags.as_slice());
            extend_unique(&mut artifact_dirs, s.artifacts.as_slice());
            if same_text(stack.as_str(), "Generic") {
                stack = s.name.clone();
            }
        }
        i = i + 1;
    }
    assert(strats.take(strats.len() as int) =~= strats);
    let essence = extract_essence(facts.readmes.as_slice());
    (stack, taxonomy, artifact_dirs, essence)
}

// ---------------------------------------------------------------------------
// Tags
// ---------------------------------------------------------------------------

/// The tags that `registry` holds for the project `name`: those of the first
/// entry for that name, none when there is no entry.
pub open spec fn tags_for(entries: Seq<(String, Vec<String>)>, name: Seq<char>) -> Seq<Seq<char>>
    decreases entries.len(),
{
    if entries.len() == 0 {
        seq![]
    } else if entries[0].0@ == name {
        views(entries[0].1@)
    } else {
        tags_for(entries.drop_first(), name)
    }
}

impl TagRegistry {
    /// The tags recorded for the project `name`.
    pub fn get_tags(&self, name: &str) -> (r: Vec<String>)
        ensures
            views(r@) == tags_for(self.entries@, name@),
    {
        let mut i: usize = 0;
        assert(self.entries@.skip(0) =~= self.entries@);
        while i < self.entries.len()
            invariant
                i <= self.entries@.len(),
                tags_for(self.entries@, name@) == tags_for(self.entries@.skip(i as int), name@),
            decreases self.entries.len() - i,
        {
            proof {
                let rest = self.entries@.skip(i as int);
                assert(rest.drop_first() =~= self.entries@.skip(i + 1));
                assert(rest[0] == self.entries@[i as int]);
            }
            if same_text(self.entries[i].0.as_str(), name) {
                return self.entries[i].1.clone();
            }
            i = i + 1;
        }
        Vec::new()
    }
}

/// A user tag as a hashtag: unchanged when it starts with `#`, otherwise
/// with `#` put in front.
pub open spec fn hashtag(t: Seq<char>) -> Seq<char> {
    if has_prefix(t, "#"@) {
        t
    } else {
        "#"@ + t
    }
}

/// The tags of a project: its taxonomy extended by each user tag as a
/// hashtag that is not there yet, sorted.
pub open spec fn merged_tags(taxonomy: Seq<Seq<char>>, user: Seq<Seq<char>>) -> Seq<Seq<char>> {
    sort_texts_spec(add_unique(taxonomy, user.map_values(|t: Seq<char>| hashtag(t))))
}

/// `t` as a hashtag.
pub fn to_hashtag(t: &str) -> (r: String)
    ensures
        r@ == hashtag(t@),
{
    let c = chars_of(t);
    let hash = chars_of("#");
    if starts_with(&c, &hash) {
        t.to_owned()
    } else {
        let mut s = "#".to_owned();
        s.append(t);
        s
    }
}

/// The tags of a project from its taxonomy and the tags its user gave it.
pub fn merge_tags(taxonomy: &[String], user: &[String]) -> (r: Vec<String>)
    ensures
        views(r@) == merged_tags(views(taxonomy@), views(user@)),
{
    let mut hashed: Vec<String> = Vec::new();
    let mut i: usize = 0;
    assert(views(hashed@) =~= views(user@).map_values(|t: Seq<char>| hashtag(t)).take(0));
    while i < user.len()
        invariant
            i <= user.len(),
            views(hashed@) == views(user@).map_values(|t: Seq<char>| hashtag(t)).take(i as int),
        decreases user.len() - i,
    {
        let h = to_hashtag(user[i].as_str());
        let ghost before = hashed@;
        hashed.push(h);
        assert(views(hashed@) =~= views(before).push(hashtag(user@[i as int]@)));
        assert(views(hashed@) =~= views(user@).map_values(|t: Seq<char>| hashtag(t)).take(
            i + 1,
        ));
        i = i + 1;
    }
    assert(views(user@).map_values(|t: Seq<char>| hashtag(t)).take(user.len() as int)
        =~= views(user@).map_values(|t: Seq<char>| hashtag(t)));
    let mut all = copy_texts(taxonomy);
    extend_unique(&mut all, hashed.as_slice());
    sort_texts(all)
}

/// No text occurs twice in `s`.
pub open spec fn distinct_texts(s: Seq<Seq<char>>) -> bool {
    forall|i: int, j: int| 0 <= i < j < s.len() ==> #[trigger] s[i] != #[trigger] s[j]
}

/// `add_unique` keeps everything it was given and adds nothing else.
pub proof fn law_add_unique_members(list: Seq<Seq<char>>, items: Seq<Seq<char>>, x: Seq<char>)
    ensures
        has_file(add_unique(list, items), x) <==> (has_file(list, x) || has_file(items, x)),
    decreases items.len(),
{
    if items.len() > 0 {
        let t = items.drop_last();
        law_add_unique_members(list, t, x);
        law_add_unique_members(list, t, items.last());
        let l = add_unique(list, t);
        if has_file(items, x) && !has_file(t, x) {
            let k = choose|k: int| 0 <= k < items.len() && #[trigger] items[k] == x;
            assert(k == items.len() - 1) by {
                if k < items.len() - 1 {
                    assert(t[k] == x);
                }
            }
        }
        if has_file(t, x) {
            let k = choose|k: int| 0 <= k < t.len() && #[trigger] t[k] == x;
            assert(items[k] == x);
        }
        if !has_file(l, items.last()) {
            assert(l.push(items.last())[l.len() as int] == items.last());
            if has_file(l.push(items.last()), x) && x != items.last() {
                let k = choose|k: int| 0 <= k < l.push(items.last()).len() && #[trigger] l.push(
                    items.last(),
                )[k] == x;
                assert(l[k] == x);
            }
            if has_file(l, x) {
                let k = choose|k: int| 0 <= k < l.len() && #[trigger] l[k] == x;
                assert(l.push(items.last())[k] == x);
            }
        }
        assert(items[items.len() - 1] == items.last());
    }
}

/// `add_unique` adds no text twice to a list that holds none twice.
pub proof fn law_add_unique_distinct(list: Seq<Seq<char>>, items: Seq<Seq<char>>)
    requires
        distinct_texts(list),
    ensures
        distinct_texts(add_unique(list, items)),
    decreases items.len(),
{
    if items.len() > 0 {
        law_add_unique_distinct(list, items.drop_last());
        let l = add_unique(list, items.drop_last());
        if !has_file(l, items.last()) {
            let r = l.push(items.last());
            assert forall|i: int, j: int| 0 <= i < j < r.len() implies #[trigger] r[i]
                != #[trigger] r[j] by {
                if j == l.len() {
                    assert(r[i] == l[i]);
                } else {
                    assert(r[i] == l[i] && r[j] == l[j]);
                }
            }
        }
    }
}

/// The taxonomy and artifact directories that the strategies give hold no
/// entry twice.
pub proof fn law_strategy_meta_distinct(strats: Seq<StackStrategy>, files: Seq<Seq<char>>)
    ensures
        distinct_texts(strategy_meta(strats, files).1),
        distinct_texts(strategy_meta(strats, files).2),
    decreases strats.len(),
{
    if strats.len() > 0 {
        law_strategy_meta_distinct(strats.drop_last(), files);
        let (stack, taxonomy, artifacts) = strategy_meta(strats.drop_last(), files);
        let st = strats.last();
        law_add_unique_distinct(taxonomy, views(st.tags@));
        law_add_unique_distinct(artifacts, views(st.artifacts@));
    }
}

/// The tags of a project are sorted; they hold every taxonomy tag and every
/// user tag as a hashtag, and nothing else; and they hold no tag twice when
/// the taxonomy holds none twice.
pub proof fn law_merged_tags(taxonomy: Seq<Seq<char>>, user: Seq<Seq<char>>, x: Seq<char>)
    ensures
        lex_sorted(merged_tags(taxonomy, user)),
        has_file(merged_tags(taxonomy, user), x) <==> (has_file(taxonomy, x) || has_file(
            user.map_values(|t: Seq<char>| hashtag(t)),
            x,
        )),
        distinct_texts(taxonomy) ==> distinct_texts(merged_tags(taxonomy, user)),
{
    let hashed = user.map_values(|t: Seq<char>| hashtag(t));
    let all = add_unique(taxonomy, hashed);
    lemma_sort_texts(all);
    law_add_unique_members(taxonomy, hashed, x);
    let m = merged_tags(taxonomy, user);
    assert(m.to_multiset() == all.to_multiset());
    if has_file(m, x) {
        let k = choose|k: int| 0 <= k < m.len() && #[trigger] m[k] == x;
        assert(m.to_multiset().count(x) > 0);
        assert(all.contains(x));
        let j = choose|j: int| 0 <= j < all.len() && all[j] == x;
        assert(all[j] == x);
    }
    if has_file(all, x) {
        let k = choose|k: int| 0 <= k < all.len() && #[trigger] all[k] == x;
        assert(all.to_multiset().count(x) > 0);
        assert(m.contains(x));
        let j = choose|j: int| 0 <= j < m.len() && m[j] == x;
        assert(m[j] == x);
    }
    if distinct_texts(taxonomy) {
        law_add_unique_distinct(taxonomy, hashed);
        assert(all.no_duplicates()) by {
            assert forall|i: int, j: int| 0 <= i < all.len() && 0 <= j < all.len() && i != j
                implies all[i] != all[j] by {
                if i < j {
                    assert(all[i] != all[j]);
                } else {
                    assert(all[j] != all[i]);
                }
            }
        }
        all.lemma_multiset_has_no_duplicates();
        m.lemma_multiset_has_no_duplicates_conv();
        assert forall|i: int, j: int| 0 <= i < j < m.len() implies #[trigger] m[i]
            != #[trigger] m[j] by {
            assert(m.no_duplicates());
        }
    }
}

/// The names that `find_projects` returns are sorted, at most `limit`, and
/// each is the name of a visible directory matching the query.
pub proof fn law_find_projects(entries: Seq<DirEntry>, query: Seq<char>, limit: int, x: Seq<char>)
    requires
        limit >= 0,
    ensures
        ({
            let r = first_n(sort_texts_spec(name_matches(entries, query)), limit);
            &&& lex_sorted(r)
            &&& r.len() <= limit
            &&& has_file(r, x) ==> has_file(name_matches(entries, query), x)
        }),
{
    let m = name_matches(entries, query);
    let srt = sort_texts_spec(m);
    lemma_sort_texts(m);
    let r = first_n(srt, limit);
    assert forall|i: int, j: int| 0 <= i < j < r.len() implies lex_le(
        #[trigger] r[i],
        #[trigger] r[j],
    ) by {
        assert(r[i] == srt[i] && r[j] == srt[j]);
    }
    if has_file(r, x) {
        let k = choose|k: int| 0 <= k < r.len() && #[trigger] r[k] == x;
        assert(srt[k] == x);
        assert(srt.to_multiset().count(x) > 0);
        assert(m.contains(x));
        let j = choose|j: int| 0 <= j < m.len() && m[j] == x;
        assert(m[j] == x);
    }
}

/// A copy of the strings `v`.
pub fn copy_texts(v: &[String]) -> (r: Vec<String>)
    ensures
        views(r@) == views(v@),
{
    let mut out: Vec<String> = Vec::new();
    let mut i: usize = 0;
    while i < v.len()
        invariant
            i <= v.len(),
            views(out@) == views(v@).take(i as int),
        decreases v.len() - i,
    {
        let ghost before = out@;
        let c = v[i].clone();
        assert(c@ == v@[i as int]@);
        out.push(c);
        assert(views(out@) =~= views(before).push(v@[i as int]@));
        assert(views(out@) =~= views(v@).take(i + 1));
        i = i + 1;
    }
    assert(views(v@).take(v.len() as int) =~= views(v@));
    out
}

// ---------------------------------------------------------------------------
// One project
// ---------------------------------------------------------------------------

/// The state of a registered submodule, as a git probe reports it.
pub struct SubmoduleState {
    pub initialized: bool,
    pub vcs_status: VcsStatus,
    pub expected_commit: Option<String>,
    pub actual_commit: Option<String>,
}

/// A submodule listed in `.gitmodules`, with what was read of its directory
/// and its state (`None` when the probe failed).
pub struct SubmoduleFacts {
    pub name: String,
    pub path: String,
    pub url: String,
    pub facts: ProjectFacts,
    pub state: Option<SubmoduleState>,
}

/// An entry of a project's directory (one whose listing could be read).
pub struct ChildFacts {
    /// The entry's file name.
    pub name: String,
    /// The entry's full path.
    pub path: String,
    /// Whether it is a directory.
    pub is_dir: bool,
    /// Whether it holds a `.git` entry.
    pub has_git: bool,
    /// What was read of it.
    pub facts: ProjectFacts,
    /// What a git probe reported for it (`None` when the probe failed).
    pub vcs_probe: Option<GitStatus>,
}

/// Everything read from disk for the scan of one project directory.
pub struct ScanInput {
    /// The directory's path.
    pub path: String,
    /// Its final path component, `None` when the path has none.
    pub name: Option<String>,
    /// What was read of the directory itself.
    pub facts: ProjectFacts,
    /// The time of the scan, in nanoseconds since the Unix epoch.
    pub now: u128,
    /// Its modification time, `None` when it could not be read.
    pub modified: Option<u128>,
    /// What a git probe reported for it (`None` when the probe failed).
    pub vcs_probe: Option<GitStatus>,
    /// The entries of its `packages`, `apps`, `services` and `crates`
    /// directories.
    pub sub_project_entries: Vec<DirEntry>,
    /// Its `.gitmodules` entries, `None` when they could not be parsed.
    pub gitmodules: Option<Vec<SubmoduleFacts>>,
    /// The entries of its directory.
    pub children: Vec<ChildFacts>,
}

/// The record of a submodule listed in `.gitmodules` whose state is known.
pub open spec fn registered_view(strats: Seq<StackStrategy>, s: SubmoduleFacts, st: SubmoduleState) -> SubmoduleView {
    let meta = metadata_of(strats, s.facts);
    SubmoduleView {
        name: s.name@,
        path: s.path@,
        url: s.url@,
        stack: meta.0,
        essence: meta.3,
        taxonomy: meta.1,
        initialized: st.initialized,
        vcs_status: st.vcs_status,
        expected_commit: opt_chars(st.expected_commit),
        actual_commit: opt_chars(st.actual_commit),
    }
}

/// The records of the `.gitmodules` entries whose state is known, in order.
pub open spec fn registered_subs(strats: Seq<StackStrategy>, infos: Seq<SubmoduleFacts>) -> Seq<
    SubmoduleView,
>
    decreases infos.len(),
{
    if infos.len() == 0 {
        seq![]
    } else {
        let rest = registered_subs(strats, infos.drop_last());
        match infos.last().state {
            Some(st) => rest.push(registered_view(strats, infos.last(), st)),
            None => rest,
        }
    }
}

/// The record of a nested repository found among a project's entries.
pub open spec fn nested_view(strats: Seq<StackStrategy>, c: ChildFacts) -> SubmoduleView {
    let meta = metadata_of(strats, c.facts);
    SubmoduleView {
        name: c.name@,
        path: c.name@,
        url: "local"@,
        stack: meta.0,
        essence: meta.3,
        taxonomy: meta.1,
        initialized: true,
        vcs_status: vcs_of(c.vcs_probe),
        expected_commit: None,
        actual_commit: None,
    }
}

/// Some record of `subs` has a path that ends the path `p`.
pub open spec fn covered_by(p: Seq<char>, subs: Seq<SubmoduleView>) -> bool {
    exists|k: int| 0 <= k < subs.len() && path_has_suffix(p, #[trigger] subs[k].path)
}

/// An entry that is a visible directory holding a repository.
pub open spec fn is_repo_child(c: ChildFacts) -> bool {
    c.is_dir && is_visible_child(c.name@) && c.has_git
}

/// `subs` extended by a record for every entry among `children` that is a
/// visible directory holding a repository and whose path no record so far
/// ends.
pub open spec fn with_nested(strats: Seq<StackStrategy>, subs: Seq<SubmoduleView>, children: Seq<
    ChildFacts,
>) -> Seq<SubmoduleView>
    decreases children.len(),
{
    if children.len() == 0 {
        subs
    } else {
        let prev = with_nested(strats, subs, children.drop_last());
        let c = children.last();
        if is_repo_child(c) && !covered_by(c.path@, prev) {
            prev.push(nested_view(strats, c))
        } else {
            prev
        }
    }
}

/// The submodule records of a scanned project.
pub open spec fn submodules_of(strats: Seq<StackStrategy>, input: ScanInput) -> Seq<SubmoduleView> {
    let registered = match input.gitmodules {
        Some(infos) => registered_subs(strats, infos@),
        None => seq![],
    };
    with_nested(strats, registered, input.children@)
}

/// A stack name or a listing that marks a monorepo.
pub open spec fn is_monorepo(stack: Seq<char>, files: Seq<Seq<char>>) -> bool {
    ||| has_infix(stack, "Monorepo"@)
    ||| has_file(files, "nx.json"@)
    ||| has_file(files, "turbo.json"@)
    ||| has_file(files, "go.work"@)
}

/// The record that a scan builds for a project, or `None` when the path has
/// no final component or names a hidden directory.
pub open spec fn scan_result(
    strats: Seq<StackStrategy>,
    tags: Seq<(String, Vec<String>)>,
    input: ScanInput,
    source: TargetSource,
) -> Option<ProjectView> {
    match input.name {
        None => None,
        Some(name) => if has_prefix(name@, "."@) {
            None
        } else {
            let meta = metadata_of(strats, input.facts);
            Some(
                ProjectView {
                    name: name@,
                    path: input.path@,
                    stack: meta.0,
                    activity: tier_for_age(age_secs(input.now, input.modified)),
                    vcs_status: vcs_of(input.vcs_probe),
                    essence: meta.3,
                    tags: merged_tags(meta.1, tags_for(tags, name@)),
                    taxonomy: meta.1,
                    artifact_dirs: meta.2,
                    sub_projects: if is_monorepo(meta.0, views(input.facts.files@)) {
                        sort_texts_spec(visible_dirs(input.sub_project_entries@))
                    } else {
                        seq![]
                    },
                    submodules: submodules_of(strats, input),
                    source,
                },
            )
        },
    }
}

/// The project record's view, if there is one.
pub open spec fn opt_project_view(o: Option<ProjectDetail>) -> Option<ProjectView> {
    match o {
        Some(d) => Some(d@),
        None => None,
    }
}

/// The record of a submodule listed in `.gitmodules` whose state is known.
fn registered_detail(registry: &StrategyRegistry, s: &SubmoduleFacts, st: &SubmoduleState) -> (r:
    SubmoduleDetail)
    ensures
        r@ == registered_view(registry.strategies@, *s, *st),
{
    let (stack, taxonomy, _artifacts, essence) = get_project_metadata(&s.facts, registry);
    SubmoduleDetail {
        name: s.name.clone(),
        path: s.path.clone(),
        url: s.url.clone(),
        stack,
        essence,
        taxonomy,
        initialized: st.initialized,
        vcs_status: st.vcs_status,
        expected_commit: clone_opt(&st.expected_commit),
        actual_commit: clone_opt(&st.actual_commit),
    }
}

/// A copy of the option's string.
pub fn clone_opt(o: &Option<String>) -> (r: Option<String>)
    ensures
        opt_chars(r) == opt_chars(*o),
{
    match o {
        Some(s) => Some(s.clone()),
        None => None,
    }
}

/// Whether some record of `subs` has a path that ends `p`.
fn is_covered(p: &str, subs: &Vec<SubmoduleDetail>) -> (r: bool)
    ensures
        r == covered_by(p@, submodule_views(subs@)),
{
    let mut k: usize = 0;
    while k < subs.len()
        invariant
            k <= subs.len(),
            forall|j: int| 0 <= j < k ==> !path_has_suffix(p@, #[trigger] subs@[j].path@),
        decreases subs.len() - k,
    {
        if path_ends_with(p, subs[k].path.as_str()) {
            assert(submodule_views(subs@)[k as int].path == subs@[k as int].path@);
            return true;
        }
        k = k + 1;
    }
    assert forall|j: int| 0 <= j < submodule_views(subs@).len() implies !path_has_suffix(
        p@,
        #[trigger] submodule_views(subs@)[j].path,
    ) by {
        assert(submodule_views(subs@)[j].path == subs@[j].path@);
    }
    false
}

/// The record that a scan builds for one project directory, from what was
/// read of it; `None` when its path has no final component or names a hidden
/// directory.
pub fn scan_single_project(
    input: &ScanInput,
    strategy_registry: &StrategyRegistry,
    tag_registry: &TagRegistry,
    source: TargetSource,
) -> (r: Option<ProjectDetail>)
    ensures
        opt_project_view(r) == scan_result(
            strategy_registry.strategies@,
            tag_registry.entries@,
            *input,
            source,
        ),
{
    let ghost strats = strategy_registry.strategies@;
    let name = match &input.name {
        Some(n) => n.clone(),
        None => {
            return None;
        },
    };
    if starts_with(&chars_of(name.as_str()), &chars_of(".")) {
        return None;
    }
    let (stack, taxonomy, artifact_dirs, essence) = get_project_metadata(
        &input.facts,
        strategy_registry,
    );
    let activity = detect_activity(input.now, input.modified);
    let vcs_status = detect_vcs_status(input.vcs_probe);
    let files = input.facts.files.as_slice();
    let monorepo = contains_text(&chars_of(stack.as_str()), &chars_of("Monorepo")) || contains_file(
        files,
        "nx.json",
    ) || contains_file(files, "turbo.json") || contains_file(files, "go.work");
    let sub_projects = if monorepo {
        discover_sub_projects(input.sub_project_entries.as_slice())
    } else {
        Vec::new()
    };
    assert(views(sub_projects@) == (if is_monorepo(stack@, views(input.facts.files@)) {
        sort_texts_spec(visible_dirs(input.sub_project_entries@))
    } else {
        seq![]
    }));

    let mut submodules: Vec<SubmoduleDetail> = Vec::new();
    assert(submodule_views(submodules@) =~= Seq::<SubmoduleView>::empty());
    match &input.gitmodules {
        Some(infos) => {
            let mut i: usize = 0;
            assert(infos@.take(0) =~= Seq::<SubmoduleFacts>::empty());
            while i < infos.len()
                invariant
                    i <= infos.len(),
                    strats == strategy_registry.strategies@,
                    submodule_views(submodules@) == registered_subs(strats, infos@.take(i as int)),
                decreases infos.len() - i,
            {
                let info = &infos[i];
                proof {
                    assert(infos@.take(i + 1).drop_last() =~= infos@.take(i as int));
                }
                match &info.state {
                    Some(st) => {
                        let d = registered_detail(strategy_registry, info, st);
                        let ghost before = submodules@;
                        submodules.push(d);
                        assert(submodule_views(submodules@) =~= submodule_views(before).push(d@));
                    },
                    None => {},
                }
                i = i + 1;
            }
            assert(infos@.take(infos.len() as int) =~= infos@);
        },
        None => {},
    }
    let ghost registered = submodule_views(submodules@);
    let children = &input.children;
    let mut i: usize = 0;
    assert(children@.take(0) =~= Seq::<ChildFacts>::empty());
    while i < children.len()
        invariant
            i <= children.len(),
            strats == strategy_registry.strategies@,
            submodule_views(submodules@) == with_nested(strats, registered, children@.take(i as int)),
        decreases children.len() - i,
    {
        let c = &children[i];
        proof {
            assert(children@.take(i + 1).drop_last() =~= children@.take(i as int));
        }
        if c.is_dir && is_visible_name(c.name.as_str()) && c.has_git && !is_covered(
            c.path.as_str(),
            &submodules,
        ) {
            let (sub_stack, sub_taxonomy, _artifacts, sub_essence) = get_project_metadata(
                &c.facts,
                strategy_registry,
            );
            let d = SubmoduleDetail {
                name: c.name.clone(),
                path: c.name.clone(),
                url: "local".to_owned(),
                stack: sub_stack,
                essence: sub_essence,
                taxonomy: sub_taxonomy,
                initialized: true,
                vcs_status: detect_vcs_status(c.vcs_probe),
                expected_commit: None,
                actual_commit: None,
            };
            let ghost before = submodules@;
            submodules.push(d);
            assert(submodule_views(submodules@) =~= submodule_views(before).push(d@));
        }
        i = i + 1;
    }
    assert(children@.take(children.len() as int) =~= children@);

    let persistent_tags = tag_registry.get_tags(name.as_str());
    let tags = merge_tags(taxonomy.as_slice(), persistent_tags.as_slice());
    Some(
        ProjectDetail {
            name,
            path: input.path.clone(),
            stack,
            activity,
            vcs_status,
            essence,
            tags,
            taxonomy,
            artifact_dirs,
            sub_projects,
            submodules,
            source,
        },
    )
}

// ---------------------------------------------------------------------------
// The whole workspace
// ---------------------------------------------------------------------------

/// Projects are ordered by name.
pub open spec fn name_key() -> spec_fn(ProjectView) -> Seq<char> {
    |v: ProjectView| v.name
}

/// `s` with every record dropped whose path is the same path as that of the
/// record kept just before it, as `dedup_by` on paths does.
pub open spec fn dedup_paths(s: Seq<ProjectView>) -> Seq<ProjectView>
    decreases s.len(),
{
    if s.len() <= 1 {
        s
    } else {
        let d = dedup_paths(s.drop_last());
        if same_path(s.last().path, d.last().path) {
            d
        } else {
            d.push(s.last())
        }
    }
}

/// The hub's record is kept when it has submodules or a known stack.
pub open spec fn hub_kept(hub: Option<ProjectView>) -> bool {
    match hub {
        Some(h) => h.submodules.len() > 0 || h.stack != "Generic"@,
        None => false,
    }
}

/// The `i`th modification time of `m`, `None` past its end.
pub open spec fn time_at(m: Seq<Option<u128>>, i: int) -> Option<u128> {
    if 0 <= i < m.len() {
        m[i]
    } else {
        None
    }
}

/// The project record made for a submodule of the hub at `root`.
pub open spec fn submodule_project(
    root: Seq<char>,
    sub: SubmoduleView,
    modified: Option<u128>,
    now: u128,
    tags: Seq<(String, Vec<String>)>,
) -> ProjectView {
    ProjectView {
        name: sub.name,
        path: joined_path(root, sub.path),
        stack: sub.stack,
        activity: tier_for_age(age_secs(now, modified)),
        vcs_status: sub.vcs_status,
        essence: sub.essence,
        tags: merged_tags(sub.taxonomy, tags_for(tags, sub.name)),
        taxonomy: sub.taxonomy,
        artifact_dirs: seq![],
        sub_projects: seq![],
        submodules: seq![],
        source: TargetSource::Submodule,
    }
}

/// The paths of the hub's submodules, when the hub's record is kept.
pub open spec fn hub_paths(hub: Option<ProjectView>) -> Seq<Seq<char>> {
    if hub_kept(hub) {
        let h = hub.unwrap();
        Seq::new(h.submodules.len(), |i: int| joined_path(h.path, h.submodules[i].path))
    } else {
        seq![]
    }
}

/// The records that the hub contributes: one per submodule (modified at the
/// times `modified`, in the submodules' order), then the hub's own.
pub open spec fn hub_records(
    hub: Option<ProjectView>,
    modified: Seq<Option<u128>>,
    now: u128,
    tags: Seq<(String, Vec<String>)>,
) -> Seq<ProjectView> {
    if hub_kept(hub) {
        let h = hub.unwrap();
        Seq::new(
            h.submodules.len(),
            |i: int| submodule_project(h.path, h.submodules[i], time_at(modified, i), now, tags),
        ).push(h)
    } else {
        seq![]
    }
}

/// `p` is the same path as one of `paths`.
pub open spec fn listed_path(p: Seq<char>, paths: Seq<Seq<char>>) -> bool {
    exists|k: int| 0 <= k < paths.len() && same_path(p, #[trigger] paths[k])
}

/// The records of the directories of the projects folder, skipping those at
/// a hub submodule's path and those that a scan gives no record.
pub open spec fn pond_records(
    strats: Seq<StackStrategy>,
    tags: Seq<(String, Vec<String>)>,
    pond: Seq<ScanInput>,
    skip: Seq<Seq<char>>,
) -> Seq<ProjectView>
    decreases pond.len(),
{
    if pond.len() == 0 {
        seq![]
    } else {
        let rest = pond_records(strats, tags, pond.drop_last(), skip);
        let inp = pond.last();
        if listed_path(inp.path@, skip) {
            rest
        } else {
            match scan_result(strats, tags, inp, TargetSource::PondProject) {
                Some(v) => rest.push(v),
                None => rest,
            }
        }
    }
}

/// All project records of a workspace: the hub's and the projects folder's,
/// sorted by name, with neighbours of the same path reduced to the first.
pub open spec fn all_projects(
    strats: Seq<StackStrategy>,
    tags: Seq<(String, Vec<String>)>,
    hub: ScanInput,
    hub_modified: Seq<Option<u128>>,
    pond: Seq<ScanInput>,
    now: u128,
) -> Seq<ProjectView> {
    let h = scan_result(strats, tags, hub, TargetSource::HubRoot);
    dedup_paths(
        sort_by_key(
            hub_records(h, hub_modified, now, tags) + pond_records(strats, tags, pond, hub_paths(h)),
            name_key(),
        ),
    )
}

proof fn lemma_dedup_paths_members(s: Seq<ProjectView>)
    ensures
        s.len() > 0 ==> dedup_paths(s).len() > 0,
        dedup_paths(s).len() <= s.len(),
        forall|i: int|
            0 <= i < dedup_paths(s).len() ==> exists|k: int|
                0 <= k < s.len() && #[trigger] dedup_paths(s)[i] == s[k],
    decreases s.len(),
{
    if s.len() > 1 {
        let t = s.drop_last();
        lemma_dedup_paths_members(t);
        let d = dedup_paths(t);
        let r = dedup_paths(s);
        assert forall|i: int| 0 <= i < r.len() implies exists|k: int|
            0 <= k < s.len() && #[trigger] r[i] == s[k] by {
            if i < d.len() {
                assert(r[i] == d[i]);
                let k = choose|k: int| 0 <= k < t.len() && d[i] == t[k];
                assert(s[k] == t[k]);
            } else {
                assert(r[i] == s[s.len() - 1]);
            }
        }
    } else if s.len() == 1 {
        assert(dedup_paths(s)[0] == s[0]);
    }
}

/// Reducing neighbours of the same path keeps a name-sorted sequence sorted
/// and leaves no neighbours of the same path.
pub proof fn law_dedup_paths(s: Seq<ProjectView>)
    requires
        sorted_by_key(s, name_key()),
    ensures
        sorted_by_key(dedup_paths(s), name_key()),
        forall|i: int|
            0 <= i < dedup_paths(s).len() - 1 ==> !same_path(
                #[trigger] dedup_paths(s)[i + 1].path,
                dedup_paths(s)[i].path,
            ),
    decreases s.len(),
{
    if s.len() > 1 {
        let t = s.drop_last();
        assert(sorted_by_key(t, name_key())) by {
            assert forall|i: int, j: int| 0 <= i < j < t.len() implies lex_le(
                name_key()(#[trigger] t[i]),
                name_key()(#[trigger] t[j]),
            ) by {
                assert(t[i] == s[i] && t[j] == s[j]);
            }
        }
        law_dedup_paths(t);
        lemma_dedup_paths_members(t);
        let d = dedup_paths(t);
        let r = dedup_paths(s);
        if !same_path(s.last().path, d.last().path) {
            assert(r == d.push(s.last()));
            assert forall|i: int, j: int| 0 <= i < j < r.len() implies lex_le(
                name_key()(#[trigger] r[i]),
                name_key()(#[trigger] r[j]),
            ) by {
                if j < d.len() {
                    assert(r[i] == d[i] && r[j] == d[j]);
                } else {
                    assert(r[i] == d[i]);
                    let k = choose|k: int| 0 <= k < t.len() && d[i] == t[k];
                    assert(t[k] == s[k]);
                    assert(r[j] == s[s.len() - 1]);
                    assert(lex_le(name_key()(s[k]), name_key()(s[s.len() - 1])));
                }
            }
            assert forall|i: int| 0 <= i < r.len() - 1 implies !same_path(
                #[trigger] r[i + 1].path,
                r[i].path,
            ) by {
                if i + 1 < d.len() {
                    assert(r[i + 1] == d[i + 1] && r[i] == d[i]);
                } else {
                    assert(r[i] == d.last());
                }
            }
        }
    }
}

/// A workspace scan lists its projects sorted by name, with no two
/// neighbours at the same path.
pub proof fn law_workspace_sorted(
    strats: Seq<StackStrategy>,
    tags: Seq<(String, Vec<String>)>,
    hub: ScanInput,
    hub_modified: Seq<Option<u128>>,
    pond: Seq<ScanInput>,
    now: u128,
)
    ensures
        ({
            let r = all_projects(strats, tags, hub, hub_modified, pond, now);
            &&& sorted_by_key(r, name_key())
            &&& forall|i: int| 0 <= i < r.len() - 1 ==> !same_path(#[trigger] r[i + 1].path, r[i].path)
        }),
{
    let h = scan_result(strats, tags, hub, TargetSource::HubRoot);
    let all = hub_records(h, hub_modified, now, tags) + pond_records(strats, tags, pond, hub_paths(h));
    lemma_sort_by_key_sorted(all, name_key());
    law_dedup_paths(sort_by_key(all, name_key()));
}

/// The paths of the hub's submodules whose records a workspace scan adds
/// (none when the hub's record is not kept).
pub fn hub_submodule_paths(hub: &Option<ProjectDetail>) -> (r: Vec<String>)
    ensures
        views(r@) == hub_paths(opt_project_view(*hub)),
{
    let ghost hv = opt_project_view(*hub);
    let mut out: Vec<String> = Vec::new();
    match hub {
        Some(h) => {
            if h.submodules.len() > 0 || !same_text(h.stack.as_str(), "Generic") {
                let mut i: usize = 0;
                while i < h.submodules.len()
                    invariant
                        i <= h.submodules.len(),
                        views(out@) =~= Seq::new(
                            i as nat,
                            |k: int| joined_path(h.path@, h.submodules@[k].path@),
                        ),
                    decreases h.submodules.len() - i,
                {
                    let p = join_path(h.path.as_str(), h.submodules[i].path.as_str());
                    let ghost before = out@;
                    out.push(p);
                    assert(views(out@) =~= views(before).push(p@));
                    i = i + 1;
                }
                assert(views(out@) =~= hub_paths(hv));
            } else {
                assert(views(out@) =~= hub_paths(hv));
            }
        },
        None => {
            assert(views(out@) =~= hub_paths(hv));
        },
    }
    out
}

/// Whether `p` is the same path as one of `paths`.
pub fn is_listed_path(p: &str, paths: &[String]) -> (r: bool)
    ensures
        r == listed_path(p@, views(paths@)),
{
    let mut k: usize = 0;
    while k < paths.len()
        invariant
            k <= paths.len(),
            forall|j: int| 0 <= j < k ==> !same_path(p@, #[trigger] paths@[j]@),
        decreases paths.len() - k,
    {
        if paths_equal(p, paths[k].as_str()) {
            assert(views(paths@)[k as int] == paths@[k as int]@);
            return true;
        }
        k = k + 1;
    }
    assert forall|j: int| 0 <= j < views(paths@).len() implies !same_path(
        p@,
        #[trigger] views(paths@)[j],
    ) by {
        assert(views(paths@)[j] == paths@[j]@);
    }
    false
}

/// `records` sorted by name (stably) and reduced to one of each run of
/// neighbours at the same path.
pub fn sort_and_dedup(records: Vec<ProjectDetail>) -> (r: Vec<ProjectDetail>)
    ensures
        project_views(r@) == dedup_paths(sort_by_key(project_views(records@), name_key())),
{
    let ghost orig = records@;
    let mut rest = records;
    let mut keyed: Vec<(Vec<char>, ProjectDetail)> = Vec::new();
    let n = rest.len();
    let mut i: usize = 0;
    while i < n
        invariant
            n == orig.len(),
            i <= n,
            rest@ == orig.skip(i as int),
            keyed.len() == i,
            forall|j: int| 0 <= j < i ==> (#[trigger] keyed@[j]).1 == orig[j],
            forall|j: int| 0 <= j < i ==> (#[trigger] keyed@[j]).0@ == orig[j].name@,
        decreases n - i,
    {
        assert(rest@[0] == orig[i as int]);
        let d = rest.remove(0);
        assert(rest@ =~= orig.skip(i + 1));
        let k = chars_of(d.name.as_str());
        keyed.push((k, d));
        i = i + 1;
    }
    let ghost f = pair_view();
    proof {
        assert(keyed@.map_values(f) =~= project_views(orig));
        lemma_sort_by_key_map(keyed@, pair_key(), f, name_key());
    }
    let sorted = sort_keyed(keyed);
    let ghost sv = project_views(orig);
    let ghost target = sort_by_key(sv, name_key());
    assert(sorted@.map_values(f) == target);
    let mut rest = sorted;
    let mut out: Vec<ProjectDetail> = Vec::new();
    let ghost srt = rest@;
    let m = rest.len();
    let mut i: usize = 0;
    assert(target.take(0) =~= Seq::<ProjectView>::empty());
    assert(project_views(out@) =~= Seq::<ProjectView>::empty());
    while i < m
        invariant
            m == srt.len(),
            i <= m,
            srt.map_values(f) == target,
            f == pair_view(),
            rest@ == srt.skip(i as int),
            project_views(out@) == dedup_paths(target.take(i as int)),
            i > 0 ==> out.len() > 0,
        decreases m - i,
    {
        assert(rest@[0] == srt[i as int]);
        let pr = rest.remove(0);
        assert(pr == srt[i as int]);
        let d = pr.1;
        assert(rest@ =~= srt.skip(i + 1));
        assert(srt.map_values(f)[i as int] == f(srt[i as int]));
        let ghost before = out@;
        proof {
            assert(target.take(i + 1).drop_last() =~= target.take(i as int));
            assert(target[i as int] == d@);
        }
        if i == 0 {
            out.push(d);
            assert(project_views(out@) =~= dedup_paths(target.take(1)));
        } else {
            let last = out.len() - 1;
            assert(project_views(before).last() == out@[last as int]@);
            if !paths_equal(d.path.as_str(), out[last].path.as_str()) {
                out.push(d);
                assert(project_views(out@) =~= project_views(before).push(target[i as int]));
            }
        }
        i = i + 1;
    }
    assert(target.take(m as int) =~= target);
    out
}

/// Moves every record of `src` to the end of `dst`.
fn append_all(dst: &mut Vec<ProjectDetail>, src: Vec<ProjectDetail>)
    ensures
        final(dst)@ == old(dst)@ + src@,
{
    let ghost start = dst@;
    let ghost orig = src@;
    let mut rest = src;
    let n = rest.len();
    let mut i: usize = 0;
    while i < n
        invariant
            n == orig.len(),
            i <= n,
            rest@ == orig.skip(i as int),
            dst@ == start + orig.take(i as int),
        decreases n - i,
    {
        assert(rest@[0] == orig[i as int]);
        let d = rest.remove(0);
        assert(rest@ =~= orig.skip(i + 1));
        dst.push(d);
        assert(dst@ =~= start + orig.take(i + 1));
        i = i + 1;
    }
    assert(orig.take(n as int) =~= orig);
}

/// A keyed project record is seen as its record.
pub open spec fn pair_view() -> spec_fn((Vec<char>, ProjectDetail)) -> ProjectView {
    |p: (Vec<char>, ProjectDetail)| p.1@
}

/// The project records of a whole workspace: `hub` is what was read of the
/// workspace root, `hub_modified` the modification times of the paths that
/// `hub_submodule_paths` gives for it, and `pond` what was read of each entry
/// of the projects folder (in any order), scanned at `now`.
pub fn scan_all_projects(
    hub: &ScanInput,
    hub_modified: &[Option<u128>],
    pond: &[ScanInput],
    strategy_registry: &StrategyRegistry,
    tag_registry: &TagRegistry,
    now: u128,
) -> (r: Vec<ProjectDetail>)
    ensures
        project_views(r@) == all_projects(
            strategy_registry.strategies@,
            tag_registry.entries@,
            *hub,
            hub_modified@,
            pond@,
            now,
        ),
{
    let ghost strats = strategy_registry.strategies@;
    let ghost tags = tag_registry.entries@;
    let hub_detail = scan_single_project(hub, strategy_registry, tag_registry, TargetSource::HubRoot);
    let ghost hv = opt_project_view(hub_detail);
    let skip = hub_submodule_paths(&hub_detail);
    let mut details: Vec<ProjectDetail> = Vec::new();
    match hub_detail {
        Some(h) => {
            if h.submodules.len() > 0 || !same_text(h.stack.as_str(), "Generic") {
                let mut i: usize = 0;
                while i < h.submodules.len()
                    invariant
                        i <= h.submodules.len(),
                        tags == tag_registry.entries@,
                        project_views(details@) =~= Seq::new(
                            i as nat,
                            |k: int|
                                submodule_project(
                                    h.path@,
                                    h.submodules@[k]@,
                                    time_at(hub_modified@, k),
                                    now,
                                    tags,
                                ),
                        ),
                    decreases h.submodules.len() - i,
                {
                    let sub = &h.submodules[i];
                    let path = join_path(h.path.as_str(), sub.path.as_str());
                    let modified = if i < hub_modified.len() {
                        hub_modified[i]
                    } else {
                        None
                    };
                    let user_tags = tag_registry.get_tags(sub.name.as_str());
                    let d = ProjectDetail {
                        name: sub.name.clone(),
                        path,
                        stack: sub.stack.clone(),
                        activity: detect_activity(now, modified),
                        vcs_status: sub.vcs_status,
                        essence: clone_opt(&sub.essence),
                        tags: merge_tags(sub.taxonomy.as_slice(), user_tags.as_slice()),
                        taxonomy: copy_texts(sub.taxonomy.as_slice()),
                        artifact_dirs: Vec::new(),
                        sub_projects: Vec::new(),
                        submodules: Vec::new(),
                        source: TargetSource::Submodule,
                    };
                    proof {
                        assert(views(d.artifact_dirs@) =~= Seq::<Seq<char>>::empty());
                        assert(views(d.sub_projects@) =~= Seq::<Seq<char>>::empty());
                        assert(submodule_views(d.submodules@) =~= Seq::<SubmoduleView>::empty());
                        assert(time_at(hub_modified@, i as int) == modified);
                        assert(h.submodules@[i as int]@ == submodule_views(h.submodules@)[i as int]);
                    }
                    let ghost before = details@;
                    details.push(d);
                    assert(project_views(details@) =~= project_views(before).push(d@));
                    i = i + 1;
                }
                let ghost before = details@;
                let ghost hview = h@;
                let ghost hsubs = h.submodules@;
                let ghost hpath = h.path@;
                assert(project_views(before) =~= Seq::new(
                    hsubs.len(),
                    |k: int| submodule_project(hpath, hsubs[k]@, time_at(hub_modified@, k), now, tags),
                ));
                details.push(h);
                proof {
                    let hr = hub_records(hv, hub_modified@, now, tags);
                    let pv = project_views(details@);
                    assert(hv == Some(hview));
                    assert(hr.len() == pv.len());
                    assert forall|k: int| 0 <= k < pv.len() implies pv[k] == hr[k] by {
                        if k < pv.len() - 1 {
                            assert(pv[k] == project_views(before)[k]);
                            assert(hview.submodules[k] == hsubs[k]@);
                        }
                    }
                    assert(pv =~= hr);
                }
            } else {
                assert(project_views(details@) =~= hub_records(hv, hub_modified@, now, tags));
            }
        },
        None => {
            assert(project_views(details@) =~= hub_records(hv, hub_modified@, now, tags));
        },
    }
    let ghost hub_part = project_views(details@);
    let mut projects: Vec<ProjectDetail> = Vec::new();
    let mut i: usize = 0;
    assert(pond@.take(0) =~= Seq::<ScanInput>::empty());
    assert(project_views(projects@) =~= Seq::<ProjectView>::empty());
    while i < pond.len()
        invariant
            i <= pond.len(),
            strats == strategy_registry.strategies@,
            tags == tag_registry.entries@,
            views(skip@) == hub_paths(hv),
            project_views(projects@) == pond_records(
                strats,
                tags,
                pond@.take(i as int),
                hub_paths(hv),
            ),
        decreases pond.len() - i,
    {
        proof {
            assert(pond@.take(i + 1).drop_last() =~= pond@.take(i as int));
        }
        if !is_listed_path(pond[i].path.as_str(), skip.as_slice()) {
            match scan_single_project(
                &pond[i],
                strategy_registry,
                tag_registry,
                TargetSource::PondProject,
            ) {
                Some(d) => {
                    let ghost before = projects@;
                    projects.push(d);
                    assert(project_views(projects@) =~= project_views(before).push(d@));
                },
                None => {},
            }
        }
        i = i + 1;
    }
    assert(pond@.take(pond.len() as int) =~= pond@);
    let ghost pond_part = project_views(projects@);
    append_all(&mut details, projects);
    assert(project_views(details@) =~= hub_part + pond_part);
    sort_and_dedup(details)
}


/// The entry `e` is a directory, not hidden, whose lower-cased name contains
/// the lower-cased `query`.
pub open spec fn qualifies(e: DirEntry, query: Seq<char>) -> bool {
    e.is_dir && !has_prefix(e.name@, "."@) && has_infix(lowercase(e.name@), lowercase(query))
}

proof fn lemma_name_matches_members(entries: Seq<DirEntry>, query: Seq<char>, x: Seq<char>)
    ensures
        has_file(name_matches(entries, query), x) <==> exists|i: int|
            0 <= i < entries.len() && (#[trigger] entries[i]).name@ == x && qualifies(entries[i], query),
    decreases entries.len(),
{
    if entries.len() > 0 {
        let t = entries.drop_last();
        lemma_name_matches_members(t, query, x);
        let rest = name_matches(t, query);
        let m = name_matches(entries, query);
        if has_file(m, x) {
            let k = choose|k: int| 0 <= k < m.len() && #[trigger] m[k] == x;
            if k < rest.len() {
                assert(rest[k] == x);
                let i = choose|i: int| 0 <= i < t.len() && (#[trigger] t[i]).name@ == x && qualifies(t[i], query);
                assert(entries[i] == t[i]);
            } else {
                assert(entries[entries.len() - 1] == entries.last());
            }
        }
        if exists|i: int| 0 <= i < entries.len() && (#[trigger] entries[i]).name@ == x && qualifies(entries[i], query) {
            let i = choose|i: int| 0 <= i < entries.len() && (#[trigger] entries[i]).name@ == x && qualifies(entries[i], query);
            if i < t.len() {
                assert(t[i] == entries[i]);
                let k = choose|k: int| 0 <= k < rest.len() && #[trigger] rest[k] == x;
                if qualifies(entries.last(), query) {
                    assert(m[k] == x);
                }
            } else {
                assert(m[m.len() - 1] == x);
            }
        }
    }
}

/// Every name that `find_projects` returns is that of a directory among
/// `entries` that is not hidden and whose lower-cased name contains the
/// lower-cased query; and when fewer than `limit` names are returned, every
/// such directory is among them.
pub proof fn law_find_projects_members(entries: Seq<DirEntry>, query: Seq<char>, limit: int, x: Seq<char>)
    requires
        limit >= 0,
    ensures
        ({
            let r = first_n(sort_texts_spec(name_matches(entries, query)), limit);
            &&& has_file(r, x) ==> !has_prefix(x, "."@) && exists|i: int|
                0 <= i < entries.len() && (#[trigger] entries[i]).name@ == x && entries[i].is_dir
                    && has_infix(lowercase(x), lowercase(query))
            &&& (exists|i: int|
                0 <= i < entries.len() && (#[trigger] entries[i]).name@ == x && entries[i].is_dir
                    && !has_prefix(x, "."@) && has_infix(lowercase(x), lowercase(query))) && r.len()
                < limit ==> has_file(r, x)
        }),
{
    let m = name_matches(entries, query);
    let srt = sort_texts_spec(m);
    let r = first_n(srt, limit);
    law_find_projects(entries, query, limit, x);
    lemma_name_matches_members(entries, query, x);
    lemma_sort_texts(m);
    if has_file(r, x) {
        let i = choose|i: int| 0 <= i < entries.len() && (#[trigger] entries[i]).name@ == x && qualifies(entries[i], query);
        assert(entries[i].name@ == x);
    }
    if (exists|i: int|
        0 <= i < entries.len() && (#[trigger] entries[i]).name@ == x && entries[i].is_dir
            && !has_prefix(x, "."@) && has_infix(lowercase(x), lowercase(query))) && r.len() < limit {
        let i = choose|i: int|
            0 <= i < entries.len() && (#[trigger] entries[i]).name@ == x && entries[i].is_dir
                && !has_prefix(x, "."@) && has_infix(lowercase(x), lowercase(query));
        assert(qualifies(entries[i], query));
        assert(has_file(m, x));
        let k = choose|k: int| 0 <= k < m.len() && #[trigger] m[k] == x;
        assert(m.to_multiset().count(x) > 0) by {
            assert(m.contains(x));
        }
        assert(srt.contains(x));
        let j = choose|j: int| 0 <= j < srt.len() && srt[j] == x;
        assert(r =~= srt);
        assert(r[j] == x);
    }
}

/// A project whose listing holds `nx.json`, `turbo.json` or `go.work`, or
/// whose stack name mentions "Monorepo", lists as sub-projects the visible
/// directories of its `packages`, `apps`, `services` and `crates` folders,
/// sorted, whatever its stack; any other project lists none.
pub proof fn law_monorepo_sub_projects(
    strats: Seq<StackStrategy>,
    tags: Seq<(String, Vec<String>)>,
    input: ScanInput,
    source: TargetSource,
)
    ensures
        scan_result(strats, tags, input, source) matches Some(v) ==> {
            let files = views(input.facts.files@);
            let marked = has_file(files, "nx.json"@) || has_file(files, "turbo.json"@) || has_file(
                files,
                "go.work"@,
            ) || has_infix(v.stack, "Monorepo"@);
            &&& marked ==> v.sub_projects == sort_texts_spec(visible_dirs(input.sub_project_entries@))
            &&& !marked ==> v.sub_projects.len() == 0
        },
{
}

} // verus!
