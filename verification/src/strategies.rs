//! Built-in stack detection: each strategy recognises a stack by the marker
//! files present at a project's top level.
use vstd::prelude::*;
use crate::model::ProjectStack;
use crate::text::{same_text, views};

verus! {

/// `name` is one of the file names `files`.
pub open spec fn has_file(files: Seq<Seq<char>>, name: Seq<char>) -> bool {
    exists|i: int| 0 <= i < files.len() && #[trigger] files[i] == name
}

/// Whether the file `name` is among `files`.
pub fn contains_file(files: &[String], name: &str) -> (r: bool)
    ensures
        r == has_file(views(files@), name@),
{
    let mut i: usize = 0;
    while i < files.len()
        invariant
            i <= files.len(),
            forall|j: int| 0 <= j < i ==> files@[j]@ != name@,
        decreases files.len() - i,
    {
        if same_text(files[i].as_str(), name) {
            assert(views(files@)[i as int] == name@);
            return true;
        }
        i = i + 1;
    }
    assert forall|j: int| 0 <= j < views(files@).len() implies #[trigger] views(files@)[j]
        != name@ by {
        assert(files@[j]@ != name@);
    }
    false
}

/// A way of recognising one stack from a directory listing.
pub trait DiscoveryStrategy {
    /// The stack that this strategy recognises.
    spec fn spec_stack(&self) -> ProjectStack;

    /// Whether this strategy recognises the listing `files`.
    spec fn spec_matches(&self, files: Seq<Seq<char>>) -> bool;

    fn stack(&self) -> (r: ProjectStack)
        ensures
            r == self.spec_stack(),
    ;

    fn matches(&self, files: &[String]) -> (r: bool)
        ensures
            r == self.spec_matches(views(files@)),
    ;
}

/// Recognises Rust projects by `Cargo.toml`.
pub struct RustStrategy;

impl DiscoveryStrategy for RustStrategy {
    open spec fn spec_stack(&self) -> ProjectStack {
        ProjectStack::Rust
    }

    open spec fn spec_matches(&self, files: Seq<Seq<char>>) -> bool {
        has_file(files, "Cargo.toml"@)
    }

    fn stack(&self) -> (r: ProjectStack) {
        ProjectStack::Rust
    }

    fn matches(&self, files: &[String]) -> (r: bool) {
        contains_file(files, "Cargo.toml")
    }
}

/// Recognises Go projects by `go.mod`.
pub struct GoStrategy;

impl DiscoveryStrategy for GoStrategy {
    open spec fn spec_stack(&self) -> ProjectStack {
        ProjectStack::Go
    }

    open spec fn spec_matches(&self, files: Seq<Seq<char>>) -> bool {
        has_file(files, "go.mod"@)
    }

    fn stack(&self) -> (r: ProjectStack) {
        ProjectStack::Go
    }

    fn matches(&self, files: &[String]) -> (r: bool) {
        contains_file(files, "go.mod")
    }
}

/// Recognises Node.js projects by `package.json`.
pub struct NodeJSStrategy;

impl DiscoveryStrategy for NodeJSStrategy {
    open spec fn spec_stack(&self) -> ProjectStack {
        ProjectStack::NodeJS
    }

    open spec fn spec_matches(&self, files: Seq<Seq<char>>) -> bool {
        has_file(files, "package.json"@)
    }

    fn stack(&self) -> (r: ProjectStack) {
        ProjectStack::NodeJS
    }

    fn matches(&self, files: &[String]) -> (r: bool) {
        contains_file(files, "package.json")
    }
}

/// Recognises Python projects by `requirements.txt` or `pyproject.toml`.
pub struct PythonStrategy;

impl DiscoveryStrategy for PythonStrategy {
    open spec fn spec_stack(&self) -> ProjectStack {
        ProjectStack::Python
    }

    open spec fn spec_matches(&self, files: Seq<Seq<char>>) -> bool {
        has_file(files, "requirements.txt"@) || has_file(files, "pyproject.toml"@)
    }

    fn stack(&self) -> (r: ProjectStack) {
        ProjectStack::Python
    }

    fn matches(&self, files: &[String]) -> (r: bool) {
        contains_file(files, "requirements.txt") || contains_file(files, "pyproject.toml")
    }
}

/// Recognises monorepos by `nx.json`, `turbo.json`, `go.work` or `lerna.json`.
pub struct MonorepoStrategy;

impl DiscoveryStrategy for MonorepoStrategy {
    open spec fn spec_stack(&self) -> ProjectStack {
        ProjectStack::Monorepo
    }

    open spec fn spec_matches(&self, files: Seq<Seq<char>>) -> bool {
        ||| has_file(files, "nx.json"@)
        ||| has_file(files, "turbo.json"@)
        ||| has_file(files, "go.work"@)
        ||| has_file(files, "lerna.json"@)
    }

    fn stack(&self) -> (r: ProjectStack) {
        ProjectStack::Monorepo
    }

    fn matches(&self, files: &[String]) -> (r: bool) {
        contains_file(files, "nx.json") || contains_file(files, "turbo.json") || contains_file(
            files,
            "go.work",
        ) || contains_file(files, "lerna.json")
    }
}

/// The stack that the built-in strategies give a directory whose top-level
/// entries are `files`: the first match in the order monorepo, Rust, Go,
/// Node.js, Python, and `Generic` when none matches.
pub open spec fn stack_of(files: Seq<Seq<char>>) -> ProjectStack {
    if MonorepoStrategy.spec_matches(files) {
        ProjectStack::Monorepo
    } else if RustStrategy.spec_matches(files) {
        ProjectStack::Rust
    } else if GoStrategy.spec_matches(files) {
        ProjectStack::Go
    } else if NodeJSStrategy.spec_matches(files) {
        ProjectStack::NodeJS
    } else if PythonStrategy.spec_matches(files) {
        ProjectStack::Python
    } else {
        ProjectStack::Generic
    }
}

/// One of the built-in strategies.
pub enum BuiltinStrategy {
    Monorepo(MonorepoStrategy),
    Rust(RustStrategy),
    Go(GoStrategy),
    NodeJS(NodeJSStrategy),
    Python(PythonStrategy),
}

impl DiscoveryStrategy for BuiltinStrategy {
    open spec fn spec_stack(&self) -> ProjectStack {
        match self {
            BuiltinStrategy::Monorepo(s) => s.spec_stack(),
            BuiltinStrategy::Rust(s) => s.spec_stack(),
            BuiltinStrategy::Go(s) => s.spec_stack(),
            BuiltinStrategy::NodeJS(s) => s.spec_stack(),
            BuiltinStrategy::Python(s) => s.spec_stack(),
        }
    }

    open spec fn spec_matches(&self, files: Seq<Seq<char>>) -> bool {
        match self {
            BuiltinStrategy::Monorepo(s) => s.spec_matches(files),
            BuiltinStrategy::Rust(s) => s.spec_matches(files),
            BuiltinStrategy::Go(s) => s.spec_matches(files),
            BuiltinStrategy::NodeJS(s) => s.spec_matches(files),
            BuiltinStrategy::Python(s) => s.spec_matches(files),
        }
    }

    fn stack(&self) -> (r: ProjectStack) {
        match self {
            BuiltinStrategy::Monorepo(s) => s.stack(),
            BuiltinStrategy::Rust(s) => s.stack(),
            BuiltinStrategy::Go(s) => s.stack(),
            BuiltinStrategy::NodeJS(s) => s.stack(),
            BuiltinStrategy::Python(s) => s.stack(),
        }
    }

    fn matches(&self, files: &[String]) -> (r: bool) {
        match self {
            BuiltinStrategy::Monorepo(s) => s.matches(files),
            BuiltinStrategy::Rust(s) => s.matches(files),
            BuiltinStrategy::Go(s) => s.matches(files),
            BuiltinStrategy::NodeJS(s) => s.matches(files),
            BuiltinStrategy::Python(s) => s.matches(files),
        }
    }
}

/// The built-in strategies, in the order in which they are tried: monorepo
/// markers first, then Rust, Go, Node.js and Python.
pub fn get_strategies() -> (r: Vec<BuiltinStrategy>)
    ensures
        r@ == seq![
            BuiltinStrategy::Monorepo(MonorepoStrategy),
            BuiltinStrategy::Rust(RustStrategy),
            BuiltinStrategy::Go(GoStrategy),
            BuiltinStrategy::NodeJS(NodeJSStrategy),
            BuiltinStrategy::Python(PythonStrategy),
        ],
{
    let mut v: Vec<BuiltinStrategy> = Vec::new();
    v.push(BuiltinStrategy::Monorepo(MonorepoStrategy));
    v.push(BuiltinStrategy::Rust(RustStrategy));
    v.push(BuiltinStrategy::Go(GoStrategy));
    v.push(BuiltinStrategy::NodeJS(NodeJSStrategy));
    v.push(BuiltinStrategy::Python(PythonStrategy));
    assert(v@ =~= seq![
        BuiltinStrategy::Monorepo(MonorepoStrategy),
        BuiltinStrategy::Rust(RustStrategy),
        BuiltinStrategy::Go(GoStrategy),
        BuiltinStrategy::NodeJS(NodeJSStrategy),
        BuiltinStrategy::Python(PythonStrategy),
    ]);
    v
}

/// The stack of a directory whose top-level entries are named `files`.
pub fn detect_stack(files: &[String]) -> (r: ProjectStack)
    ensures
        r == stack_of(views(files@)),
{
    let strategies = get_strategies();
    let ghost f = views(files@);
    let mut i: usize = 0;
    while i < strategies.len()
        invariant
            i <= strategies@.len(),
            f == views(files@),
            strategies@ == seq![
                BuiltinStrategy::Monorepo(MonorepoStrategy),
                BuiltinStrategy::Rust(RustStrategy),
                BuiltinStrategy::Go(GoStrategy),
                BuiltinStrategy::NodeJS(NodeJSStrategy),
                BuiltinStrategy::Python(PythonStrategy),
            ],
            forall|j: int| 0 <= j < i ==> !(#[trigger] strategies@[j]).spec_matches(f),
        decreases strategies.len() - i,
    {
        let st = &strategies[i];
        assert(*st == strategies@[i as int]);
        let m = st.matches(files);
        assert(m == st.spec_matches(f));
        if m {
            proof {
                assert(!strategies@[0].spec_matches(f) || i == 0);
                assert(!strategies@[1].spec_matches(f) || i <= 1);
                assert(!strategies@[2].spec_matches(f) || i <= 2);
                assert(!strategies@[3].spec_matches(f) || i <= 3);
            }
            return st.stack();
        }
        i = i + 1;
    }
    assert(!strategies@[0].spec_matches(f));
    assert(!strategies@[1].spec_matches(f));
    assert(!strategies@[2].spec_matches(f));
    assert(!strategies@[3].spec_matches(f));
    assert(!strategies@[4].spec_matches(f));
    ProjectStack::Generic
}

} // verus!
