//! Per-project detection: activity tier, version-control state, nested
//! sub-projects and the project's "DNA".
use vstd::prelude::*;
use crate::model::{opt_chars, ActivityTier, DirEntry, GitStatus, ProjectDna, VcsStatus};
use crate::sorting::{lex_sorted, sort_texts, sort_texts_spec};
use crate::strategies::{contains_file, has_file};
use crate::text::{chars_of, contains_text, has_infix, has_prefix, same_text, starts_with, views};

verus! {

broadcast use vstd::seq_lib::group_to_multiset_ensures;

// ---------------------------------------------------------------------------
// Activity
// ---------------------------------------------------------------------------

/// Seconds in a day.
pub const SECS_PER_DAY: u64 = 86400;

/// Nanoseconds in a second.
pub const NANOS_PER_SEC: u128 = 1_000_000_000;

/// The tier of a project last modified `age_secs` seconds ago: active within
/// a week, cold within thirty days, archived after that.
pub open spec fn tier_for_age(age_secs: int) -> ActivityTier {
    if age_secs < 7 * SECS_PER_DAY {
        ActivityTier::Active
    } else if age_secs < 30 * SECS_PER_DAY {
        ActivityTier::Cold
    } else {
        ActivityTier::Archive
    }
}

/// Whole seconds elapsed from `modified` to `now` (both in nanoseconds since
/// the Unix epoch); a modification time that cannot be read counts as now,
/// and one in the future as no time at all.
pub open spec fn age_secs(now: u128, modified: Option<u128>) -> int {
    let m = match modified {
        Some(m) => m,
        None => now,
    };
    if m <= now {
        (now - m) / (NANOS_PER_SEC as int)
    } else {
        0
    }
}

/// Rank of a tier from most to least active.
pub open spec fn tier_rank(t: ActivityTier) -> int {
    match t {
        ActivityTier::Active => 0,
        ActivityTier::Cold => 1,
        ActivityTier::Archive => 2,
    }
}

/// The activity tier of a directory modified at `modified` (nanoseconds
/// since the Unix epoch, `None` when it could not be read), seen at `now`.
pub fn detect_activity(now: u128, modified: Option<u128>) -> (r: ActivityTier)
    ensures
        r == tier_for_age(age_secs(now, modified)),
{
    let m = match modified {
        Some(m) => m,
        None => now,
    };
    let age: u128 = if m <= now {
        (now - m) / NANOS_PER_SEC
    } else {
        0
    };
    let day: u128 = SECS_PER_DAY as u128;
    if age < 7 * day {
        ActivityTier::Active
    } else if age < 30 * day {
        ActivityTier::Cold
    } else {
        ActivityTier::Archive
    }
}

/// An older project is never in a more active tier than a newer one.
pub proof fn law_activity_monotone(a: int, b: int)
    requires
        a <= b,
    ensures
        tier_rank(tier_for_age(a)) <= tier_rank(tier_for_age(b)),
{
}

// ---------------------------------------------------------------------------
// Version control
// ---------------------------------------------------------------------------

/// The version-control state given by a git probe (`None` when the probe
/// failed).
pub open spec fn vcs_of(probe: Option<GitStatus>) -> VcsStatus {
    match probe {
        Some(GitStatus::Clean) => VcsStatus::Clean,
        Some(GitStatus::Dirty) => VcsStatus::Dirty,
        Some(GitStatus::Untracked) => VcsStatus::Untracked,
        Some(GitStatus::NoRepo) => VcsStatus::NoVcs,
        None => VcsStatus::NoVcs,
    }
}

/// The version-control state of a directory, from what a git probe reported.
pub fn detect_vcs_status(probe: Option<GitStatus>) -> (r: VcsStatus)
    ensures
        r == vcs_of(probe),
{
    match probe {
        Some(GitStatus::Clean) => VcsStatus::Clean,
        Some(GitStatus::Dirty) => VcsStatus::Dirty,
        Some(GitStatus::Untracked) => VcsStatus::Untracked,
        Some(GitStatus::NoRepo) => VcsStatus::NoVcs,
        None => VcsStatus::NoVcs,
    }
}

// ---------------------------------------------------------------------------
// Sub-projects
// ---------------------------------------------------------------------------

/// The directories searched for sub-projects, relative to a project.
pub fn sub_project_dirs() -> (r: Vec<String>)
    ensures
        views(r@) == seq!["packages"@, "apps"@, "services"@, "crates"@],
{
    let v = vec![
        "packages".to_owned(),
        "apps".to_owned(),
        "services".to_owned(),
        "crates".to_owned(),
    ];
    assert(views(v@) =~= seq!["packages"@, "apps"@, "services"@, "crates"@]);
    v
}

/// A directory name that is neither hidden nor a dependency or build folder.
pub open spec fn is_visible_child(name: Seq<char>) -> bool {
    &&& !has_prefix(name, "."@)
    &&& name != "node_modules"@
    &&& name != "target"@
}

/// The names of the visible directories among `entries`, in order.
pub open spec fn visible_dirs(entries: Seq<DirEntry>) -> Seq<Seq<char>>
    decreases entries.len(),
{
    if entries.len() == 0 {
        seq![]
    } else {
        let rest = visible_dirs(entries.drop_last());
        let e = entries.last();
        if e.is_dir && is_visible_child(e.name@) {
            rest.push(e.name@)
        } else {
            rest
        }
    }
}

/// Whether `name` is visible as a child project.
pub fn is_visible_name(name: &str) -> (r: bool)
    ensures
        r == is_visible_child(name@),
{
    let n = chars_of(name);
    let dot = chars_of(".");
    !starts_with(&n, &dot) && !same_text(name, "node_modules") && !same_text(name, "target")
}

/// The names of the visible directories among `entries`, in order.
pub fn visible_dir_names(entries: &[DirEntry]) -> (r: Vec<String>)
    ensures
        views(r@) == visible_dirs(entries@),
{
    let mut out: Vec<String> = Vec::new();
    let mut i: usize = 0;
    assert(entries@.take(0) =~= Seq::<DirEntry>::empty());
    assert(views(out@) =~= Seq::<Seq<char>>::empty());
    while i < entries.len()
        invariant
            i <= entries.len(),
            views(out@) == visible_dirs(entries@.take(i as int)),
        decreases entries.len() - i,
    {
        let e = &entries[i];
        proof {
            assert(entries@.take(i + 1).drop_last() =~= entries@.take(i as int));
        }
        if e.is_dir && is_visible_name(e.name.as_str()) {
            let ghost before = out@;
            out.push(e.name.clone());
            assert(views(out@) =~= views(before).push(e.name@));
        }
        i = i + 1;
    }
    assert(entries@.take(entries.len() as int) =~= entries@);
    out
}

/// The sub-projects of a monorepo, given the entries of its `packages`,
/// `apps`, `services` and `crates` directories: the visible directory
/// names, sorted.
pub fn discover_sub_projects(entries: &[DirEntry]) -> (r: Vec<String>)
    ensures
        views(r@) == sort_texts_spec(visible_dirs(entries@)),
        lex_sorted(views(r@)),
        views(r@).to_multiset() == visible_dirs(entries@).to_multiset(),
{
    let names = visible_dir_names(entries);
    sort_texts(names)
}

// ---------------------------------------------------------------------------
// DNA
// ---------------------------------------------------------------------------

/// The relative paths whose presence `detect_dna` looks at.
pub fn dna_probe_paths() -> (r: Vec<String>)
    ensures
        views(r@) == seq![
            "src/models"@,
            "models"@,
            "src/db"@,
            "src/api"@,
            "api"@,
            "src/routes"@,
            "bin"@,
            "src/bin"@,
            "src/cli.rs"@,
            "tests"@,
            "src/tests"@,
            "Dockerfile"@,
            "docker-compose.yml"@,
            "conductor"@,
        ],
{
    let v = vec![
        "src/models".to_owned(),
        "models".to_owned(),
        "src/db".to_owned(),
        "src/api".to_owned(),
        "api".to_owned(),
        "src/routes".to_owned(),
        "bin".to_owned(),
        "src/bin".to_owned(),
        "src/cli.rs".to_owned(),
        "tests".to_owned(),
        "src/tests".to_owned(),
        "Dockerfile".to_owned(),
        "docker-compose.yml".to_owned(),
        "conductor".to_owned(),
    ];
    assert(views(v@) =~= seq![
        "src/models"@,
        "models"@,
        "src/db"@,
        "src/api"@,
        "api"@,
        "src/routes"@,
        "bin"@,
        "src/bin"@,
        "src/cli.rs"@,
        "tests"@,
        "src/tests"@,
        "Dockerfile"@,
        "docker-compose.yml"@,
        "conductor"@,
    ]);
    v
}

/// `label` when `cond` holds, nothing otherwise.
pub open spec fn when(cond: bool, label: Seq<char>) -> Seq<Seq<char>> {
    if cond {
        seq![label]
    } else {
        seq![]
    }
}

/// The roles of a project in which the relative paths `present` exist.
pub open spec fn dna_roles(present: Seq<Seq<char>>) -> Seq<Seq<char>> {
    when(
        has_file(present, "src/models"@) || has_file(present, "models"@) || has_file(
            present,
            "src/db"@,
        ),
        "Data Layer"@,
    ) + when(
        has_file(present, "src/api"@) || has_file(present, "api"@) || has_file(
            present,
            "src/routes"@,
        ),
        "API Surface"@,
    ) + when(
        has_file(present, "bin"@) || has_file(present, "src/bin"@) || has_file(
            present,
            "src/cli.rs"@,
        ),
        "CLI"@,
    ) + when(has_file(present, "tests"@) || has_file(present, "src/tests"@), "Tests"@)
}

/// What the text of a manifest mentions, when it could be read.
pub open spec fn mentions(content: Option<Seq<char>>, needle: Seq<char>) -> bool {
    match content {
        Some(c) => has_infix(c, needle),
        None => false,
    }
}

/// The capabilities of a project, from the paths present and the text of its
/// `Cargo.toml` and `package.json`.
pub open spec fn dna_capabilities(
    present: Seq<Seq<char>>,
    cargo: Option<Seq<char>>,
    package: Option<Seq<char>>,
) -> Seq<Seq<char>> {
    when(
        has_file(present, "Dockerfile"@) || has_file(present, "docker-compose.yml"@),
        "Dockerized"@,
    ) + when(mentions(cargo, "tokio"@), "Async/Tokio"@) + when(
        mentions(cargo, "serde"@),
        "Serialization"@,
    ) + when(mentions(cargo, "clap"@), "CLI/Clap"@) + when(
        mentions(package, "\"express\""@),
        "Express.js"@,
    ) + when(mentions(package, "\"react\""@), "React"@) + when(
        mentions(package, "\"next\""@),
        "Next.js"@,
    )
}

/// The structural patterns of a project in which the paths `present` exist.
pub open spec fn dna_patterns(present: Seq<Seq<char>>) -> Seq<Seq<char>> {
    when(has_file(present, "conductor"@), "Conductor-Managed"@)
}

/// Appends `label` to `v` when `cond` holds.
fn push_when(v: &mut Vec<String>, cond: bool, label: &str)
    ensures
        views(final(v)@) == views(old(v)@) + when(cond, label@),
{
    let ghost before = v@;
    if cond {
        v.push(label.to_owned());
        assert(views(v@) =~= views(before) + when(cond, label@));
    } else {
        assert(views(v@) =~= views(before) + when(cond, label@));
    }
}

/// Whether the manifest text, when it could be read, contains `needle`.
fn manifest_mentions(content: &Option<String>, needle: &str) -> (r: bool)
    ensures
        r == mentions(opt_chars(*content), needle@),
{
    match content {
        Some(c) => contains_text(&chars_of(c.as_str()), &chars_of(needle)),
        None => false,
    }
}

/// The DNA of a project: `present` lists which of `dna_probe_paths` exist
/// in it, and `cargo_toml` and `package_json` hold the text of those
/// manifests where they could be read.
pub fn detect_dna(present: &[String], cargo_toml: &Option<String>, package_json: &Option<String>) -> (r:
    ProjectDna)
    ensures
        views(r.roles@) == dna_roles(views(present@)),
        views(r.capabilities@) == dna_capabilities(
            views(present@),
            opt_chars(*cargo_toml),
            opt_chars(*package_json),
        ),
        views(r.structural_patterns@) == dna_patterns(views(present@)),
{
    let mut roles: Vec<String> = Vec::new();
    let mut capabilities: Vec<String> = Vec::new();
    let mut patterns: Vec<String> = Vec::new();
    assert(views(roles@) =~= Seq::<Seq<char>>::empty());
    assert(views(capabilities@) =~= Seq::<Seq<char>>::empty());
    assert(views(patterns@) =~= Seq::<Seq<char>>::empty());

    let data = contains_file(present, "src/models") || contains_file(present, "models")
        || contains_file(present, "src/db");
    push_when(&mut roles, data, "Data Layer");
    let api = contains_file(present, "src/api") || contains_file(present, "api") || contains_file(
        present,
        "src/routes",
    );
    push_when(&mut roles, api, "API Surface");
    let cli = contains_file(present, "bin") || contains_file(present, "src/bin") || contains_file(
        present,
        "src/cli.rs",
    );
    push_when(&mut roles, cli, "CLI");
    let tests = contains_file(present, "tests") || contains_file(present, "src/tests");
    push_when(&mut roles, tests, "Tests");

    let docker = contains_file(present, "Dockerfile") || contains_file(
        present,
        "docker-compose.yml",
    );
    push_when(&mut capabilities, docker, "Dockerized");
    push_when(&mut capabilities, manifest_mentions(cargo_toml, "tokio"), "Async/Tokio");
    push_when(&mut capabilities, manifest_mentions(cargo_toml, "serde"), "Serialization");
    push_when(&mut capabilities, manifest_mentions(cargo_toml, "clap"), "CLI/Clap");
    push_when(&mut capabilities, manifest_mentions(package_json, "\"express\""), "Express.js");
    push_when(&mut capabilities, manifest_mentions(package_json, "\"react\""), "React");
    push_when(&mut capabilities, manifest_mentions(package_json, "\"next\""), "Next.js");

    push_when(&mut patterns, contains_file(present, "conductor"), "Conductor-Managed");

    assert(views(roles@) =~= dna_roles(views(present@)));
    assert(views(capabilities@) =~= dna_capabilities(
        views(present@),
        opt_chars(*cargo_toml),
        opt_chars(*package_json),
    ));
    assert(views(patterns@) =~= dna_patterns(views(present@)));
    ProjectDna { roles, capabilities, structural_patterns: patterns }
}

} // verus!
