//! Project discovery for a workspace of software projects: stack detection,
//! README essence extraction, activity tiers, tag handling, registry diffs
//! and status reports, stated and proved over plain values.

pub mod detection;
pub mod essence;
pub mod model;
pub mod paths;
pub mod reports;
pub mod scanner;
pub mod sorting;
pub mod strategies;
pub mod text;

pub use detection::{detect_activity, detect_dna, detect_vcs_status, discover_sub_projects};
pub use essence::extract_essence;
pub use reports::{generate_diff, generate_status_report, search_projects, sync_registry};
pub use scanner::{find_projects, get_project_metadata, scan_all_projects, scan_single_project};
pub use strategies::{detect_stack, get_strategies};
