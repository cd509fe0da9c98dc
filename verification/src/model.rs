//! The records that discovery reads and produces, held as plain values.
use vstd::prelude::*;
use crate::text::views;

verus! {

/// The technology stack a project is built with.
#[derive(Debug, Clone, Copy, PartialEq, Eq, Structural)]
pub enum ProjectStack {
    Rust,
    Go,
    NodeJS,
    Python,
    Monorepo,
    Generic,
}

/// How recently a project was touched.
#[derive(Debug, Clone, Copy, PartialEq, Eq, Structural)]
pub enum ActivityTier {
    Active,
    Cold,
    Archive,
}

/// The version-control state of a project.
#[derive(Debug, Clone, Copy, PartialEq, Eq, Structural)]
pub enum VcsStatus {
    Clean,
    Dirty,
    Untracked,
    /// Not under version control.
    NoVcs,
}

/// What a git status probe reports about a directory.
#[derive(Debug, Clone, Copy, PartialEq, Eq, Structural)]
pub enum GitStatus {
    Clean,
    Dirty,
    Untracked,
    NoRepo,
}

/// Where a project record came from.
#[derive(Debug, Clone, Copy, PartialEq, Eq, Structural)]
pub enum TargetSource {
    HubRoot,
    Submodule,
    PondProject,
}

/// The kind of change between two registry snapshots.
#[derive(Debug, Clone, Copy, PartialEq, Eq, Structural)]
pub enum ChangeType {
    Added,
    Removed,
    Modified,
}

/// The kind of directory a workspace's projects live in.
#[derive(Debug, Clone, Copy, PartialEq, Eq, Structural)]
pub enum ContextType {
    Hub,
    Pond,
    Generic,
}

/// An entry of a directory listing whose name is valid UTF-8.
pub struct DirEntry {
    pub name: String,
    pub is_dir: bool,
}

/// Roles, capabilities and structural patterns inferred for a project.
pub struct ProjectDna {
    pub roles: Vec<String>,
    pub capabilities: Vec<String>,
    pub structural_patterns: Vec<String>,
}

/// A submodule (or nested repository) of a project.
pub struct SubmoduleDetail {
    pub name: String,
    pub path: String,
    pub url: String,
    pub stack: String,
    pub essence: Option<String>,
    pub taxonomy: Vec<String>,
    pub initialized: bool,
    pub vcs_status: VcsStatus,
    pub expected_commit: Option<String>,
    pub actual_commit: Option<String>,
}

/// Everything discovery records about one project.
pub struct ProjectDetail {
    pub name: String,
    pub path: String,
    pub stack: String,
    pub activity: ActivityTier,
    pub vcs_status: VcsStatus,
    pub essence: Option<String>,
    pub tags: Vec<String>,
    pub taxonomy: Vec<String>,
    pub artifact_dirs: Vec<String>,
    pub sub_projects: Vec<String>,
    pub submodules: Vec<SubmoduleDetail>,
    pub source: TargetSource,
}

/// A stack recognised by marker files, with the tags and artifact
/// directories that go with it.
pub struct StackStrategy {
    pub name: String,
    pub match_files: Vec<String>,
    pub tags: Vec<String>,
    pub artifacts: Vec<String>,
}

/// The configured stack strategies, in the order in which they are tried.
pub struct StrategyRegistry {
    pub strategies: Vec<StackStrategy>,
}

/// Tags that users attached to projects, by project name.
pub struct TagRegistry {
    pub entries: Vec<(String, Vec<String>)>,
}

/// One difference between two registry snapshots.
pub struct ProjectChange {
    pub name: String,
    pub change_type: ChangeType,
    pub old_vcs: Option<VcsStatus>,
    pub new_vcs: Option<VcsStatus>,
    pub old_activity: Option<ActivityTier>,
    pub new_activity: Option<ActivityTier>,
}

/// A set of changes recorded at one moment (seconds since the Unix epoch).
pub struct EcosystemChangelog {
    pub timestamp: u64,
    pub changes: Vec<ProjectChange>,
}

/// The recorded changelog entries, oldest first.
pub struct ChangelogHistory {
    pub entries: Vec<EcosystemChangelog>,
}

/// Health of one project in a status report.
pub struct ProjectStatus {
    pub name: String,
    pub stack: String,
    pub activity: ActivityTier,
    pub vcs_status: VcsStatus,
    pub is_aligned: bool,
    pub issues: Vec<String>,
}

/// The status of a whole workspace.
pub struct StatusReport {
    pub active_context: Option<String>,
    pub context_type: ContextType,
    pub projects: Vec<ProjectStatus>,
    pub summary: String,
}

/// The projects that a search selected.
pub struct SearchResult {
    pub query: String,
    pub matches: Vec<ProjectDetail>,
}

/// The characters of the option's string.
pub open spec fn opt_chars(o: Option<String>) -> Option<Seq<char>> {
    match o {
        Some(s) => Some(s@),
        None => None,
    }
}

/// A submodule record by the characters of its texts.
pub struct SubmoduleView {
    pub name: Seq<char>,
    pub path: Seq<char>,
    pub url: Seq<char>,
    pub stack: Seq<char>,
    pub essence: Option<Seq<char>>,
    pub taxonomy: Seq<Seq<char>>,
    pub initialized: bool,
    pub vcs_status: VcsStatus,
    pub expected_commit: Option<Seq<char>>,
    pub actual_commit: Option<Seq<char>>,
}

impl View for SubmoduleDetail {
    type V = SubmoduleView;

    open spec fn view(&self) -> SubmoduleView {
        SubmoduleView {
            name: self.name@,
            path: self.path@,
            url: self.url@,
            stack: self.stack@,
            essence: opt_chars(self.essence),
            taxonomy: views(self.taxonomy@),
            initialized: self.initialized,
            vcs_status: self.vcs_status,
            expected_commit: opt_chars(self.expected_commit),
            actual_commit: opt_chars(self.actual_commit),
        }
    }
}

/// The view of each submodule record of a sequence.
pub open spec fn submodule_views(s: Seq<SubmoduleDetail>) -> Seq<SubmoduleView> {
    s.map_values(|d: SubmoduleDetail| d@)
}

/// A project record by the characters of its texts.
pub struct ProjectView {
    pub name: Seq<char>,
    pub path: Seq<char>,
    pub stack: Seq<char>,
    pub activity: ActivityTier,
    pub vcs_status: VcsStatus,
    pub essence: Option<Seq<char>>,
    pub tags: Seq<Seq<char>>,
    pub taxonomy: Seq<Seq<char>>,
    pub artifact_dirs: Seq<Seq<char>>,
    pub sub_projects: Seq<Seq<char>>,
    pub submodules: Seq<SubmoduleView>,
    pub source: TargetSource,
}

impl View for ProjectDetail {
    type V = ProjectView;

    open spec fn view(&self) -> ProjectView {
        ProjectView {
            name: self.name@,
            path: self.path@,
            stack: self.stack@,
            activity: self.activity,
            vcs_status: self.vcs_status,
            essence: opt_chars(self.essence),
            tags: views(self.tags@),
            taxonomy: views(self.taxonomy@),
            artifact_dirs: views(self.artifact_dirs@),
            sub_projects: views(self.sub_projects@),
            submodules: submodule_views(self.submodules@),
            source: self.source,
        }
    }
}

/// The view of each project record of a sequence.
pub open spec fn project_views(s: Seq<ProjectDetail>) -> Seq<ProjectView> {
    s.map_values(|d: ProjectDetail| d@)
}

} // verus!
