use toad_discovery::detection::{
    detect_activity, detect_dna, detect_vcs_status, discover_sub_projects, NANOS_PER_SEC,
    SECS_PER_DAY,
};
use toad_discovery::essence::{essence_from_text, extract_essence, ESSENCE_LIMIT};
use toad_discovery::model::{
    ActivityTier, ChangeType, ChangelogHistory, ContextType, DirEntry, EcosystemChangelog,
    GitStatus, ProjectDetail, ProjectStack, StackStrategy, StrategyRegistry, SubmoduleDetail,
    TagRegistry, TargetSource, VcsStatus,
};
use toad_discovery::reports::{
    append_changelog, context_type_of, decimal_chars, generate_diff, generate_status_report,
    project_status, registry_is_fresh, search_projects, sync_registry, CHANGELOG_CAPACITY,
};
use toad_discovery::scanner::{
    find_projects, get_project_metadata, hub_submodule_paths, is_listed_path, merge_tags,
    scan_all_projects, scan_single_project, sort_and_dedup, to_hashtag, ChildFacts, ProjectFacts,
    ScanInput, SubmoduleFacts, SubmoduleState,
};
use toad_discovery::sorting::sort_texts;
use toad_discovery::strategies::{
    detect_stack, get_strategies, DiscoveryStrategy, GoStrategy, MonorepoStrategy,
    NodeJSStrategy, PythonStrategy, RustStrategy,
};
use toad_discovery::text::{chars_of, lines_of, string_of, trim_chars};

fn s(x: &str) -> String {
    x.to_string()
}

fn strings(xs: &[&str]) -> Vec<String> {
    xs.iter().map(|x| x.to_string()).collect()
}

fn dir(name: &str) -> DirEntry {
    DirEntry { name: s(name), is_dir: true }
}

fn file(name: &str) -> DirEntry {
    DirEntry { name: s(name), is_dir: false }
}

const NOW: u128 = 1_700_000_000 * NANOS_PER_SEC;

fn days_ago(days: u64) -> u128 {
    NOW - (days as u128) * (SECS_PER_DAY as u128) * NANOS_PER_SEC
}

fn registry() -> StrategyRegistry {
    StrategyRegistry {
        strategies: vec![
            StackStrategy {
                name: s("Rust"),
                match_files: strings(&["Cargo.toml"]),
                tags: strings(&["#rust"]),
                artifacts: strings(&["target"]),
            },
            StackStrategy {
                name: s("NodeJS"),
                match_files: strings(&["package.json"]),
                tags: strings(&["#node", "#javascript"]),
                artifacts: strings(&["node_modules", "dist"]),
            },
            StackStrategy {
                name: s("Monorepo"),
                match_files: strings(&["turbo.json", "nx.json"]),
                tags: strings(&["#monorepo", "#javascript"]),
                artifacts: strings(&["dist"]),
            },
        ],
    }
}

fn facts(files: &[&str], readme: Option<&str>) -> ProjectFacts {
    ProjectFacts { files: strings(files), readmes: vec![readme.map(s), None, None] }
}

fn scan_input(path: &str, name: &str, files: &[&str], readme: Option<&str>) -> ScanInput {
    ScanInput {
        path: s(path),
        name: Some(s(name)),
        facts: facts(files, readme),
        now: NOW,
        modified: Some(NOW),
        vcs_probe: Some(GitStatus::Clean),
        sub_project_entries: vec![],
        gitmodules: None,
        children: vec![],
    }
}

fn project(name: &str, path: &str, vcs: VcsStatus, activity: ActivityTier) -> ProjectDetail {
    ProjectDetail {
        name: s(name),
        path: s(path),
        stack: s("Generic"),
        activity,
        vcs_status: vcs,
        essence: None,
        tags: vec![],
        taxonomy: vec![],
        artifact_dirs: vec![],
        sub_projects: vec![],
        submodules: vec![],
        source: TargetSource::PondProject,
    }
}

fn submodule(name: &str, initialized: bool, expected: Option<&str>, actual: Option<&str>) -> SubmoduleDetail {
    SubmoduleDetail {
        name: s(name),
        path: s(name),
        url: s("https://example.invalid/repo.git"),
        stack: s("Generic"),
        essence: None,
        taxonomy: vec![],
        initialized,
        vcs_status: VcsStatus::Clean,
        expected_commit: expected.map(s),
        actual_commit: actual.map(s),
    }
}

// ---------------------------------------------------------------------------
// Tests carried over from the original suite
// ---------------------------------------------------------------------------

#[test]
fn test_find_projects() {
    let entries = vec![
        dir("Primatif_Core"),
        dir("Primatif_UI"),
        dir("Other_Project"),
        dir(".hidden"),
    ];
    let results = find_projects(&entries, "primatif", 10);
    assert_eq!(results, vec!["Primatif_Core", "Primatif_UI"]);
}

#[test]
fn test_activity_detection() {
    assert_eq!(detect_activity(NOW, Some(NOW)), ActivityTier::Active);
    let cold_time = days_ago(8);
    assert_eq!(detect_activity(NOW, Some(cold_time)), ActivityTier::Cold);
    let archive_time = days_ago(31);
    assert_eq!(detect_activity(NOW, Some(archive_time)), ActivityTier::Archive);
}

#[test]
fn test_scan_all_projects() {
    let hub = scan_input("/ws", "ws", &["rust_p"], None);
    let pond = vec![scan_input(
        "/ws/rust_p",
        "rust_p",
        &["Cargo.toml", "README.md"],
        Some("# Rust Project\nThis is a rust project description that should be captured."),
    )];
    let tags = TagRegistry { entries: vec![] };
    let projects = scan_all_projects(&hub, &[], &pond, &registry(), &tags, NOW);
    assert_eq!(projects.len(), 1);
    assert_eq!(projects[0].name, "rust_p");
    assert_eq!(projects[0].stack, "Rust");
    assert_eq!(projects[0].activity, ActivityTier::Active);
    assert!(projects[0].essence.is_some());
}

#[test]
fn test_detect_stack_all() {
    assert_eq!(detect_stack(&strings(&["go.mod"])), ProjectStack::Go);
    assert_eq!(detect_stack(&strings(&["package.json"])), ProjectStack::NodeJS);
    assert_eq!(detect_stack(&strings(&["pyproject.toml"])), ProjectStack::Python);
    assert_eq!(detect_stack(&strings(&["turbo.json"])), ProjectStack::Monorepo);
}

#[test]
fn test_detect_vcs_status() {
    assert_eq!(detect_vcs_status(Some(GitStatus::NoRepo)), VcsStatus::NoVcs);
    assert_eq!(detect_vcs_status(Some(GitStatus::Clean)), VcsStatus::Clean);
    assert_eq!(detect_vcs_status(Some(GitStatus::Untracked)), VcsStatus::Untracked);
}

#[test]
fn test_extract_essence_truncation() {
    let long_readme = "Long line. ".repeat(100);
    let essence = extract_essence(&[Some(long_readme), None, None]);
    assert!(essence.is_some());
    assert!(essence.unwrap().len() <= 600);
}

#[test]
fn test_discover_sub_projects() {
    let entries = vec![dir("sub-a"), dir("sub-b")];
    let subs = discover_sub_projects(&entries);
    assert_eq!(subs, vec!["sub-a", "sub-b"]);
}

// ---------------------------------------------------------------------------
// Strategies
// ---------------------------------------------------------------------------

#[test]
fn strategies_match_their_markers() {
    let files = strings(&["Cargo.toml", "README.md"]);
    assert!(RustStrategy.matches(&files));
    assert!(!GoStrategy.matches(&files));
    assert!(!NodeJSStrategy.matches(&files));
    assert!(!PythonStrategy.matches(&files));
    assert!(!MonorepoStrategy.matches(&files));
    assert!(PythonStrategy.matches(&strings(&["requirements.txt"])));
    assert!(MonorepoStrategy.matches(&strings(&["lerna.json"])));
    assert!(MonorepoStrategy.matches(&strings(&["go.work"])));
    assert!(MonorepoStrategy.matches(&strings(&["nx.json"])));
    assert_eq!(RustStrategy.stack(), ProjectStack::Rust);
    assert_eq!(GoStrategy.stack(), ProjectStack::Go);
}

#[test]
fn strategies_come_in_priority_order() {
    let stacks: Vec<ProjectStack> = get_strategies().iter().map(|s| s.stack()).collect();
    assert_eq!(
        stacks,
        vec![
            ProjectStack::Monorepo,
            ProjectStack::Rust,
            ProjectStack::Go,
            ProjectStack::NodeJS,
            ProjectStack::Python
        ]
    );
}

#[test]
fn detect_stack_prefers_monorepo_then_rust() {
    assert_eq!(detect_stack(&strings(&["Cargo.toml", "turbo.json"])), ProjectStack::Monorepo);
    assert_eq!(detect_stack(&strings(&["Cargo.toml", "package.json"])), ProjectStack::Rust);
    assert_eq!(detect_stack(&strings(&["README.md"])), ProjectStack::Generic);
    assert_eq!(detect_stack(&[]), ProjectStack::Generic);
    assert_eq!(detect_stack(&strings(&["cargo.toml"])), ProjectStack::Generic);
}

// ---------------------------------------------------------------------------
// Text
// ---------------------------------------------------------------------------

#[test]
fn lines_follow_str_lines() {
    let text = "a\r\nb\n\nc\r";
    let got: Vec<String> = lines_of(&chars_of(text)).iter().map(|l| string_of(l)).collect();
    let expected: Vec<String> = text.lines().map(|l| l.to_string()).collect();
    assert_eq!(got, expected);
    assert!(lines_of(&chars_of("")).is_empty());
    assert_eq!(lines_of(&chars_of("x\n")).len(), 1);
}

#[test]
fn trim_follows_str_trim() {
    for text in ["  hi  ", "\t\u{3000}x y\u{a0}\n", "", "   ", "a"] {
        assert_eq!(string_of(&trim_chars(&chars_of(text))), text.trim());
    }
}

#[test]
fn sorting_matches_string_order() {
    let v = strings(&["b", "a", "B", "é", "aa", "a"]);
    let mut expected = v.clone();
    expected.sort();
    assert_eq!(sort_texts(v), expected);
}

// ---------------------------------------------------------------------------
// Essence
// ---------------------------------------------------------------------------

#[test]
fn essence_skips_noise_and_joins_lines() {
    let readme = "![badge](x.svg)\n[![ci](y)](z)\n<p align=center>\n\n# Title\n  Some text.  \n";
    assert_eq!(essence_from_text(readme), Some(s("# Title Some text.")));
}

#[test]
fn essence_of_empty_readme_is_none() {
    assert_eq!(essence_from_text(""), None);
    assert_eq!(essence_from_text("\n  \n![img](a.png)\n"), None);
}

#[test]
fn essence_keeps_fifteen_lines_then_headers_and_capabilities() {
    let mut readme = String::new();
    for i in 0..20 {
        readme.push_str(&format!("line {}\n", i));
    }
    readme.push_str("This crate PROVIDES a parser.\n");
    readme.push_str("## Usage\n");
    readme.push_str("plain trailing line\n");
    let e = essence_from_text(&readme).unwrap();
    assert!(e.contains("line 14"));
    assert!(!e.contains("line 15"));
    assert!(e.contains("This crate PROVIDES a parser."));
    assert!(e.contains("## Usage"));
    assert!(!e.contains("plain trailing line"));
}

#[test]
fn essence_truncates_with_dots_at_the_limit() {
    let readme = "x".repeat(1000);
    let e = essence_from_text(&readme).unwrap();
    assert_eq!(e.len(), ESSENCE_LIMIT);
    assert!(e.ends_with("..."));
    assert_eq!(&e[..ESSENCE_LIMIT - 3], &"x".repeat(ESSENCE_LIMIT - 3));
}

#[test]
fn essence_uses_first_readable_candidate_with_content() {
    let e = extract_essence(&[None, Some(s("  \n")), Some(s("# Third"))]);
    assert_eq!(e, Some(s("# Third")));
    assert_eq!(extract_essence(&[None, None, None]), None);
}

// ---------------------------------------------------------------------------
// Detection
// ---------------------------------------------------------------------------

#[test]
fn activity_boundaries() {
    assert_eq!(detect_activity(NOW, None), ActivityTier::Active);
    assert_eq!(detect_activity(NOW, Some(NOW + 5)), ActivityTier::Active);
    assert_eq!(detect_activity(NOW, Some(days_ago(7))), ActivityTier::Cold);
    assert_eq!(detect_activity(NOW, Some(days_ago(7) + 1)), ActivityTier::Active);
    assert_eq!(detect_activity(NOW, Some(days_ago(30))), ActivityTier::Archive);
    assert_eq!(detect_activity(NOW, Some(days_ago(30) + NANOS_PER_SEC)), ActivityTier::Cold);
}

#[test]
fn vcs_probe_failure_means_no_vcs() {
    assert_eq!(detect_vcs_status(None), VcsStatus::NoVcs);
    assert_eq!(detect_vcs_status(Some(GitStatus::Dirty)), VcsStatus::Dirty);
}

#[test]
fn sub_projects_skip_hidden_and_build_dirs() {
    let entries = vec![
        dir("zeta"),
        dir(".git"),
        dir("node_modules"),
        dir("target"),
        file("README.md"),
        dir("alpha"),
    ];
    assert_eq!(discover_sub_projects(&entries), vec!["alpha", "zeta"]);
}

#[test]
fn dna_from_paths_and_manifests() {
    let present = strings(&["src/api", "tests", "Dockerfile", "conductor"]);
    let cargo = Some(s("[dependencies]\ntokio = \"1\"\nserde = \"1\"\n"));
    let package = Some(s("{\"dependencies\": {\"react\": \"18\", \"next\": \"14\"}}"));
    let dna = detect_dna(&present, &cargo, &package);
    assert_eq!(dna.roles, vec!["API Surface", "Tests"]);
    assert_eq!(
        dna.capabilities,
        vec!["Dockerized", "Async/Tokio", "Serialization", "React", "Next.js"]
    );
    assert_eq!(dna.structural_patterns, vec!["Conductor-Managed"]);
    let empty = detect_dna(&[], &None, &None);
    assert!(empty.roles.is_empty() && empty.capabilities.is_empty());
}

// ---------------------------------------------------------------------------
// Scanner
// ---------------------------------------------------------------------------

#[test]
fn find_projects_is_case_insensitive_sorted_and_limited() {
    let entries = vec![dir("toad-b"), dir("TOAD-a"), file("toad.txt"), dir("frog"), dir("Toad-c")];
    assert_eq!(find_projects(&entries, "Toad", 10), vec!["TOAD-a", "Toad-c", "toad-b"]);
    assert_eq!(find_projects(&entries, "toad", 2), vec!["TOAD-a", "Toad-c"]);
    assert!(find_projects(&entries, "toad", 0).is_empty());
    assert_eq!(find_projects(&entries, "", 10).len(), 4);
}

#[test]
fn metadata_merges_matching_strategies() {
    let f = facts(&["package.json", "turbo.json"], Some("# Web"));
    let (stack, taxonomy, artifacts, essence) = get_project_metadata(&f, &registry());
    assert_eq!(stack, "NodeJS");
    assert_eq!(taxonomy, vec!["#node", "#javascript", "#monorepo"]);
    assert_eq!(artifacts, vec!["node_modules", "dist"]);
    assert_eq!(essence, Some(s("# Web")));
    let (stack, taxonomy, _, essence) = get_project_metadata(&facts(&[], None), &registry());
    assert_eq!(stack, "Generic");
    assert!(taxonomy.is_empty());
    assert_eq!(essence, None);
}

#[test]
fn tags_gain_hash_and_stay_unique_and_sorted() {
    assert_eq!(to_hashtag("docker"), "#docker");
    assert_eq!(to_hashtag("#rust"), "#rust");
    let merged = merge_tags(&strings(&["#rust"]), &strings(&["rust", "docker", "#cli"]));
    assert_eq!(merged, vec!["#cli", "#docker", "#rust"]);
}

#[test]
fn tag_registry_returns_first_entry() {
    let reg = TagRegistry {
        entries: vec![(s("a"), strings(&["x"])), (s("a"), strings(&["y"])), (s("b"), strings(&["z"]))],
    };
    assert_eq!(reg.get_tags("a"), vec!["x"]);
    assert_eq!(reg.get_tags("b"), vec!["z"]);
    assert!(reg.get_tags("c").is_empty());
}

#[test]
fn scan_single_project_skips_hidden_and_nameless() {
    let tags = TagRegistry { entries: vec![] };
    let hidden = scan_input("/ws/.cache", ".cache", &[], None);
    assert!(scan_single_project(&hidden, &registry(), &tags, TargetSource::PondProject).is_none());
    let mut nameless = scan_input("/", "x", &[], None);
    nameless.name = None;
    assert!(scan_single_project(&nameless, &registry(), &tags, TargetSource::PondProject).is_none());
}

#[test]
fn scan_single_project_assembles_record() {
    let tags = TagRegistry { entries: vec![(s("web"), strings(&["frontend", "#javascript"]))] };
    let mut input = scan_input("/ws/web", "web", &["package.json", "turbo.json"], Some("# Web app"));
    input.modified = Some(days_ago(10));
    input.vcs_probe = Some(GitStatus::Dirty);
    input.sub_project_entries = vec![dir("ui"), dir("api"), dir(".turbo")];
    input.gitmodules = Some(vec![
        SubmoduleFacts {
            name: s("vendor/lib"),
            path: s("vendor/lib"),
            url: s("https://example.invalid/lib.git"),
            facts: facts(&["Cargo.toml"], None),
            state: Some(SubmoduleState {
                initialized: true,
                vcs_status: VcsStatus::Clean,
                expected_commit: Some(s("abcdef0123")),
                actual_commit: Some(s("abcdef0123")),
            }),
        },
        SubmoduleFacts {
            name: s("broken"),
            path: s("broken"),
            url: s("u"),
            facts: facts(&[], None),
            state: None,
        },
    ]);
    input.children = vec![
        ChildFacts {
            name: s("tool"),
            path: s("/ws/web/tool"),
            is_dir: true,
            has_git: true,
            facts: facts(&["go.mod"], None),
            vcs_probe: Some(GitStatus::Untracked),
        },
        ChildFacts {
            name: s("plain"),
            path: s("/ws/web/plain"),
            is_dir: true,
            has_git: false,
            facts: facts(&[], None),
            vcs_probe: None,
        },
        ChildFacts {
            name: s("lib"),
            path: s("/ws/web/vendor/lib"),
            is_dir: true,
            has_git: true,
            facts: facts(&[], None),
            vcs_probe: None,
        },
    ];
    let d = scan_single_project(&input, &registry(), &tags, TargetSource::HubRoot).unwrap();
    assert_eq!(d.name, "web");
    assert_eq!(d.path, "/ws/web");
    assert_eq!(d.stack, "NodeJS");
    assert_eq!(d.activity, ActivityTier::Cold);
    assert_eq!(d.vcs_status, VcsStatus::Dirty);
    assert_eq!(d.essence, Some(s("# Web app")));
    assert_eq!(d.taxonomy, vec!["#node", "#javascript", "#monorepo"]);
    assert_eq!(d.tags, vec!["#frontend", "#javascript", "#monorepo", "#node"]);
    assert_eq!(d.sub_projects, vec!["api", "ui"]);
    assert_eq!(d.source, TargetSource::HubRoot);
    let names: Vec<&str> = d.submodules.iter().map(|m| m.name.as_str()).collect();
    assert_eq!(names, vec!["vendor/lib", "tool"]);
    assert_eq!(d.submodules[0].stack, "Rust");
    assert_eq!(d.submodules[1].url, "local");
    assert_eq!(d.submodules[1].vcs_status, VcsStatus::Untracked);
    assert!(d.submodules[1].initialized);
}

#[test]
fn hub_paths_and_listing() {
    let mut hub = project("ws", "/ws", VcsStatus::Clean, ActivityTier::Active);
    hub.submodules = vec![submodule("a", true, None, None)];
    let paths = hub_submodule_paths(&Some(hub));
    assert_eq!(paths, vec!["/ws/a"]);
    assert!(is_listed_path("/ws//a", &paths));
    assert!(!is_listed_path("/ws/b", &paths));
    assert!(hub_submodule_paths(&None).is_empty());
}

#[test]
fn scan_all_adds_hub_submodules_and_skips_their_pond_copies() {
    let tags = TagRegistry { entries: vec![(s("lib"), strings(&["shared"]))] };
    let mut hub = scan_input("/ws", "ws", &[], None);
    hub.gitmodules = Some(vec![SubmoduleFacts {
        name: s("lib"),
        path: s("lib"),
        url: s("u"),
        facts: facts(&["Cargo.toml"], None),
        state: Some(SubmoduleState {
            initialized: true,
            vcs_status: VcsStatus::Dirty,
            expected_commit: None,
            actual_commit: None,
        }),
    }]);
    let pond = vec![
        scan_input("/ws/lib", "lib", &["Cargo.toml"], None),
        scan_input("/ws/app", "app", &[], None),
    ];
    let all = scan_all_projects(&hub, &[Some(days_ago(40))], &pond, &registry(), &tags, NOW);
    let names: Vec<&str> = all.iter().map(|p| p.name.as_str()).collect();
    assert_eq!(names, vec!["app", "lib", "ws"]);
    assert_eq!(all[1].source, TargetSource::Submodule);
    assert_eq!(all[1].path, "/ws/lib");
    assert_eq!(all[1].activity, ActivityTier::Archive);
    assert_eq!(all[1].tags, vec!["#rust", "#shared"]);
    assert_eq!(all[2].source, TargetSource::HubRoot);
}

#[test]
fn sort_and_dedup_keeps_first_of_same_path() {
    let records = vec![
        project("b", "/p/b", VcsStatus::Clean, ActivityTier::Active),
        project("a", "/p/a", VcsStatus::Clean, ActivityTier::Active),
        project("a", "/p/a", VcsStatus::Dirty, ActivityTier::Active),
        project("a", "/p/other", VcsStatus::Clean, ActivityTier::Active),
    ];
    let out = sort_and_dedup(records);
    let seen: Vec<(&str, &str, VcsStatus)> =
        out.iter().map(|p| (p.name.as_str(), p.path.as_str(), p.vcs_status)).collect();
    assert_eq!(
        seen,
        vec![("a", "/p/a", VcsStatus::Clean), ("a", "/p/other", VcsStatus::Clean), ("b", "/p/b", VcsStatus::Clean)]
    );
}

// ---------------------------------------------------------------------------
// Reports
// ---------------------------------------------------------------------------

#[test]
fn diff_reports_added_modified_removed() {
    let old = vec![
        project("keep", "/k", VcsStatus::Clean, ActivityTier::Active),
        project("change", "/c", VcsStatus::Clean, ActivityTier::Active),
        project("gone", "/g", VcsStatus::Dirty, ActivityTier::Cold),
    ];
    let new = vec![
        project("keep", "/k", VcsStatus::Clean, ActivityTier::Active),
        project("change", "/c", VcsStatus::Dirty, ActivityTier::Active),
        project("fresh", "/f", VcsStatus::Untracked, ActivityTier::Active),
    ];
    let changes = generate_diff(&old, &new);
    assert_eq!(changes.len(), 3);
    assert_eq!(changes[0].name, "change");
    assert_eq!(changes[0].change_type, ChangeType::Modified);
    assert_eq!(changes[0].old_vcs, Some(VcsStatus::Clean));
    assert_eq!(changes[0].new_vcs, Some(VcsStatus::Dirty));
    assert_eq!(changes[0].old_activity, None);
    assert_eq!(changes[1].name, "fresh");
    assert_eq!(changes[1].change_type, ChangeType::Added);
    assert_eq!(changes[1].new_activity, Some(ActivityTier::Active));
    assert_eq!(changes[2].name, "gone");
    assert_eq!(changes[2].change_type, ChangeType::Removed);
    assert_eq!(changes[2].old_vcs, Some(VcsStatus::Dirty));
    assert_eq!(changes[2].old_activity, Some(ActivityTier::Cold));
}

#[test]
fn diff_of_same_snapshot_is_empty() {
    let snap = vec![
        project("a", "/a", VcsStatus::Clean, ActivityTier::Active),
        project("a", "/a2", VcsStatus::Dirty, ActivityTier::Cold),
        project("b", "/b", VcsStatus::NoVcs, ActivityTier::Archive),
    ];
    assert!(generate_diff(&snap, &snap).is_empty());
}

#[test]
fn diff_uses_last_record_of_a_name() {
    let old = vec![project("a", "/a", VcsStatus::Clean, ActivityTier::Active)];
    let new = vec![
        project("a", "/a", VcsStatus::Clean, ActivityTier::Active),
        project("a", "/a2", VcsStatus::Dirty, ActivityTier::Active),
    ];
    let changes = generate_diff(&old, &new);
    assert_eq!(changes.len(), 1);
    assert_eq!(changes[0].new_vcs, Some(VcsStatus::Dirty));
}

#[test]
fn changelog_keeps_the_newest_fifty() {
    let mut history = ChangelogHistory { entries: vec![] };
    for t in 0..(CHANGELOG_CAPACITY as u64 + 5) {
        append_changelog(&mut history, EcosystemChangelog { timestamp: t, changes: vec![] });
        assert!(history.entries.len() <= CHANGELOG_CAPACITY);
    }
    assert_eq!(history.entries.len(), CHANGELOG_CAPACITY);
    assert_eq!(history.entries[0].timestamp, 5);
    assert_eq!(history.entries.last().unwrap().timestamp, CHANGELOG_CAPACITY as u64 + 4);
}

#[test]
fn sync_records_changes_only_when_there_are_some() {
    let a = vec![project("a", "/a", VcsStatus::Clean, ActivityTier::Active)];
    let b = vec![
        project("a", "/a", VcsStatus::Clean, ActivityTier::Active),
        project("b", "/b", VcsStatus::Clean, ActivityTier::Active),
    ];
    let same = sync_registry(&a, &a, 7);
    assert!(same.changelog.is_none());
    assert_eq!(same.count, 1);
    let grown = sync_registry(&a, &b, 7);
    let entry = grown.changelog.unwrap();
    assert_eq!(entry.timestamp, 7);
    assert_eq!(entry.changes.len(), 1);
    assert_eq!(entry.changes[0].change_type, ChangeType::Added);
    assert_eq!(grown.count, 2);
}

#[test]
fn registry_freshness() {
    assert!(registry_is_fresh(5, 5, 3));
    assert!(!registry_is_fresh(5, 6, 3));
    assert!(!registry_is_fresh(5, 5, 0));
}

#[test]
fn search_by_name_stack_essence_and_tag() {
    let mut a = project("Alpha", "/a", VcsStatus::Clean, ActivityTier::Active);
    a.tags = strings(&["#rust"]);
    let mut b = project("beta", "/b", VcsStatus::Clean, ActivityTier::Active);
    b.stack = s("ALPHA-stack");
    let mut c = project("gamma", "/c", VcsStatus::Clean, ActivityTier::Active);
    c.essence = Some(s("Provides alpha features"));
    let d = project("delta", "/d", VcsStatus::Clean, ActivityTier::Active);
    let all = vec![a, b, c, d];
    let res = search_projects(all, "alpha", None);
    assert_eq!(res.query, "alpha");
    let names: Vec<&str> = res.matches.iter().map(|p| p.name.as_str()).collect();
    assert_eq!(names, vec!["Alpha", "beta", "gamma"]);

    let mut e = project("Alpha", "/a", VcsStatus::Clean, ActivityTier::Active);
    e.tags = strings(&["#rust"]);
    let f = project("alphabet", "/f", VcsStatus::Clean, ActivityTier::Active);
    let tagged = search_projects(vec![e, f], "ALPHA", Some("rust"));
    let names: Vec<&str> = tagged.matches.iter().map(|p| p.name.as_str()).collect();
    assert_eq!(names, vec!["Alpha"]);
}

#[test]
fn search_finds_projects_by_tags_and_taxonomy() {
    let mut p = project("alpha", "/a", VcsStatus::Clean, ActivityTier::Active);
    p.stack = s("Generic");
    p.essence = None;
    p.tags = strings(&["#web"]);
    p.taxonomy = strings(&["#web"]);
    let mut q = project("beta", "/b", VcsStatus::Clean, ActivityTier::Active);
    q.taxonomy = strings(&["#Backend"]);
    let r = project("gamma", "/c", VcsStatus::Clean, ActivityTier::Active);
    let res = search_projects(vec![p, q, r], "web", None);
    let names: Vec<&str> = res.matches.iter().map(|p| p.name.as_str()).collect();
    assert_eq!(names, vec!["alpha"]);

    let mut q2 = project("beta", "/b", VcsStatus::Clean, ActivityTier::Active);
    q2.taxonomy = strings(&["#Backend"]);
    let res = search_projects(vec![q2], "BACKEND", None);
    assert_eq!(res.matches.len(), 1);
}

#[test]
fn search_tag_filter_narrows_and_empty_query_matches_all() {
    let build = || {
        let mut a = project("app-one", "/a", VcsStatus::Clean, ActivityTier::Active);
        a.tags = strings(&["#rust"]);
        let b = project("app-two", "/b", VcsStatus::Clean, ActivityTier::Active);
        let mut c = project("lib", "/c", VcsStatus::Clean, ActivityTier::Active);
        c.tags = strings(&["#rust"]);
        vec![a, b, c]
    };
    let all = search_projects(build(), "app", None);
    let names: Vec<&str> = all.matches.iter().map(|p| p.name.as_str()).collect();
    assert_eq!(names, vec!["app-one", "app-two"]);
    let tagged = search_projects(build(), "app", Some("#rust"));
    let names: Vec<&str> = tagged.matches.iter().map(|p| p.name.as_str()).collect();
    assert_eq!(names, vec!["app-one"]);
    let everything = search_projects(build(), "", None);
    assert_eq!(everything.matches.len(), 3);
}

#[test]
fn status_report_filtered_by_query_and_tag() {
    let build = || {
        let mut a = project("web-ui", "/a", VcsStatus::Clean, ActivityTier::Active);
        a.tags = strings(&["#web"]);
        let b = project("web-api", "/b", VcsStatus::Dirty, ActivityTier::Active);
        let mut c = project("tools", "/c", VcsStatus::Clean, ActivityTier::Active);
        c.tags = strings(&["#web"]);
        vec![a, b, c]
    };
    let by_query = generate_status_report(&build(), None, false, true, Some("WEB"), None);
    let names: Vec<&str> = by_query.projects.iter().map(|p| p.name.as_str()).collect();
    assert_eq!(names, vec!["web-ui", "web-api", "tools"]);
    let by_tag = generate_status_report(&build(), None, false, true, None, Some("web"));
    let names: Vec<&str> = by_tag.projects.iter().map(|p| p.name.as_str()).collect();
    assert_eq!(names, vec!["web-ui", "tools"]);
    assert_eq!(by_tag.summary, "02/2 projects are HEALTHY & CLEAN");
    let both = generate_status_report(&build(), None, false, true, Some("api"), Some("web"));
    assert!(both.projects.is_empty());
    assert_eq!(both.summary, "00/0 projects are HEALTHY & CLEAN");
}

#[test]
fn status_reports_alignment_issues() {
    let mut p = project("hub", "/h", VcsStatus::Clean, ActivityTier::Active);
    p.submodules = vec![
        submodule("ok", true, Some("1234567890"), Some("1234567890")),
        submodule("drift", true, Some("abcdef123456"), Some("0123456789ab")),
        submodule("new", false, None, None),
    ];
    let st = project_status(&p);
    assert!(!st.is_aligned);
    assert_eq!(
        st.issues,
        vec![
            "Submodule 'drift' is out of alignment (expected abcdef1..., found 0123456)",
            "Submodule 'new' is not initialized",
        ]
    );
}

#[test]
fn status_report_summary_and_context() {
    let clean = project("a", "/a", VcsStatus::Clean, ActivityTier::Active);
    let dirty = project("b", "/b", VcsStatus::Dirty, ActivityTier::Active);
    let report = generate_status_report(&[clean, dirty], Some(s("ctx")), false, true, None, None);
    assert_eq!(report.summary, "01/2 projects are HEALTHY & CLEAN");
    assert_eq!(report.context_type, ContextType::Pond);
    assert_eq!(report.active_context, Some(s("ctx")));
    assert_eq!(report.projects.len(), 2);
    assert!(report.projects[0].is_aligned);
    let empty = generate_status_report(&[], None, false, false, None, None);
    assert_eq!(empty.summary, "00/0 projects are HEALTHY & CLEAN");
    assert_eq!(empty.context_type, ContextType::Generic);
    assert_eq!(context_type_of(true, true), ContextType::Hub);
}

#[test]
fn decimal_matches_display() {
    for n in [0usize, 7, 10, 99, 100, 12345, usize::MAX] {
        assert_eq!(string_of(&decimal_chars(n)), n.to_string());
    }
}
