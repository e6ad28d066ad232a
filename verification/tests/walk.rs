//! Walks over trees that are held in memory.

use globstar::walk::traversal::prefix_depth;
use globstar::walk::{Frame, Kind, Listed, Step, Target};
use globstar::{CompileOptions, Glob, Walk, WalkError, WalkOptions};
use std::collections::{BTreeMap, BTreeSet};

/// What stands at a path of a [`Tree`].
#[derive(Clone, Debug, PartialEq)]
enum Node {
    File,
    Dir,
    /// A symbolic link to a path of the tree.
    Link(String),
}

/// A directory tree. Paths are relative to its root, which is the empty path
/// and what a leading slash stands for. Walks start at `base`.
struct Tree {
    nodes: BTreeMap<String, Node>,
    base: String,
}

/// What a walk yields for an entry.
#[derive(Clone, Debug, PartialEq)]
struct Found {
    path: String,
    kind: Option<Kind>,
    depth: usize,
}

type Walker = Walk<String, Found>;

fn join(dir: &str, name: &str) -> String {
    if dir.is_empty() {
        name.to_string()
    } else {
        format!("{dir}/{name}")
    }
}

impl Tree {
    fn new() -> Self {
        let mut nodes = BTreeMap::new();
        nodes.insert(String::new(), Node::Dir);
        Tree { nodes, base: String::new() }
    }

    fn parents(&mut self, path: &str) {
        for (at, c) in path.char_indices() {
            if c == '/' {
                self.nodes.insert(path[..at].to_string(), Node::Dir);
            }
        }
    }

    fn touch(&mut self, path: &str) {
        self.parents(path);
        self.nodes.insert(path.to_string(), Node::File);
    }

    fn mkdir(&mut self, path: &str) {
        self.parents(path);
        self.nodes.insert(path.to_string(), Node::Dir);
    }

    fn symlink(&mut self, target: &str, path: &str) {
        self.parents(path);
        self.nodes.insert(path.to_string(), Node::Link(target.to_string()));
    }

    fn options(&self) -> WalkOptions {
        WalkOptions::new("/tree")
    }

    fn follow(&self, path: &str) -> Option<(String, Node)> {
        match self.nodes.get(path)? {
            Node::Link(to) => self.follow(to),
            node => Some((path.to_string(), node.clone())),
        }
    }

    /// What a path leads to when it is opened from the base, step by step.
    fn open(&self, path: &str) -> Option<(String, Node)> {
        let mut at = if path.starts_with('/') { String::new() } else { self.base.clone() };
        let mut node = self.nodes.get(&at)?.clone();
        for segment in path.split('/').filter(|s| !s.is_empty() && *s != ".") {
            if segment == ".." {
                at = at.rfind('/').map_or(String::new(), |k| at[..k].to_string());
            } else {
                at = join(&at, segment);
            }
            (at, node) = self.follow(&at)?;
        }
        Some((at, node))
    }

    fn entries(&self, dir: &str) -> Vec<(String, Node)> {
        let mut out = Vec::new();
        for (path, node) in &self.nodes {
            let (parent, name) = match path.rfind('/') {
                Some(at) => (&path[..at], &path[at + 1..]),
                None => ("", path.as_str()),
            };
            if !path.is_empty() && parent == dir {
                out.push((name.to_string(), node.clone()));
            }
        }
        out
    }

    fn listing(&self, walk: &Walker, dir: &Frame<String>) -> Vec<Listed<String, Found>> {
        let relative = String::from_utf8(dir.relative.clone()).unwrap();
        let mut out = Vec::new();
        for (name, node) in self.entries(&dir.place) {
            let here = join(&dir.place, &name);
            let (place, kind) = match &node {
                Node::File => (here, Kind::File),
                Node::Dir => (here, Kind::Dir),
                Node::Link(to) => match self.follow(to) {
                    Some((real, Node::Dir)) => (real, Kind::Link { to_dir: true }),
                    _ => (here, Kind::Link { to_dir: false }),
                },
            };
            let bytes = name.clone().into_bytes();
            let target = if walk.wants_target(dir, &bytes, kind) {
                Some(place.clone().into_bytes())
            } else {
                None
            };
            let item = Found { path: join(&relative, &name), kind: Some(kind), depth: dir.depth + 1 };
            out.push(Listed::Entry { name: bytes, kind, target, place, item });
        }
        out
    }

    /// Starts a walk at each of its prefixes.
    fn start(&self, walk: &mut Walker) {
        for prefix in walk.prefixes() {
            let path = String::from_utf8(prefix.clone()).unwrap();
            let depth = if prefix.is_empty() { 0 } else { prefix_depth(&prefix) };
            let item = Found { path: path.clone(), kind: None, depth };
            let (place, target) = match self.open(&path) {
                None => (path, Target::Missing),
                Some((real, Node::Dir)) => (real, Target::Dir),
                Some((real, _)) => (real, Target::Other),
            };
            walk.seed(prefix, target, place, item);
        }
    }

    /// All that a walk yields, in its order.
    fn walk(&self, mut walk: Walker) -> Vec<Found> {
        self.start(&mut walk);
        let mut out = Vec::new();
        loop {
            match walk.next_step() {
                Step::Yield(item) => out.push(item),
                Step::Read(dir) => {
                    let listing = self.listing(&walk, &dir);
                    walk.expand(dir, listing);
                }
                Step::Done => return out,
            }
        }
    }
}

/// What a walk yields, and what it reads, when nothing is handed over.
fn remaining(walk: &mut Walker) -> (Vec<Found>, Vec<Frame<String>>) {
    let mut items = Vec::new();
    let mut dirs = Vec::new();
    loop {
        match walk.next_step() {
            Step::Yield(item) => items.push(item),
            Step::Read(dir) => dirs.push(dir),
            Step::Done => return (items, dirs),
        }
    }
}

fn collect_rel(walker: Walker, t: &Tree) -> BTreeSet<String> {
    t.walk(walker).into_iter().map(|e| e.path).collect()
}

#[test]
fn walker_literal_direct_hit() {
    let mut t = Tree::new();
    t.touch("src/main.rs");
    t.touch("src/lib.rs");
    t.touch("README.md");

    let got = collect_rel(Walker::new("src/main.rs", t.options()).unwrap(), &t);
    let expected: BTreeSet<String> = ["src/main.rs"].iter().map(|s| s.to_string()).collect();
    assert_eq!(got, expected);
}

#[test]
fn walker_star_extension_prunes_other_dirs() {
    let mut t = Tree::new();
    t.touch("src/main.rs");
    t.touch("src/lib.rs");
    t.touch("src/notes.md");
    t.touch("tests/smoke.rs");

    let got = collect_rel(Walker::new("src/*.rs", t.options()).unwrap(), &t);
    let expected: BTreeSet<String> = ["src/lib.rs", "src/main.rs"]
        .iter()
        .map(|s| s.to_string())
        .collect();
    assert_eq!(got, expected);
}

#[test]
fn walker_globstar_recursive() {
    let mut t = Tree::new();
    t.touch("src/main.rs");
    t.touch("src/cli/run.rs");
    t.touch("src/cli/commands/build.rs");
    t.touch("src/notes.md");
    t.touch("tests/smoke.rs");

    let got = collect_rel(Walker::new("src/**/*.rs", t.options()).unwrap(), &t);
    let expected: BTreeSet<String> = ["src/cli/commands/build.rs", "src/cli/run.rs", "src/main.rs"]
        .iter()
        .map(|s| s.to_string())
        .collect();
    assert_eq!(got, expected);
}

#[test]
fn walker_brace_expansion() {
    let mut t = Tree::new();
    t.touch("a.ts");
    t.touch("b.tsx");
    t.touch("c.js");
    t.touch("d.rs");

    let got = collect_rel(Walker::new("*.{ts,tsx}", t.options()).unwrap(), &t);
    let expected: BTreeSet<String> = ["a.ts", "b.tsx"].iter().map(|s| s.to_string()).collect();
    assert_eq!(got, expected);
}

#[test]
fn walker_extglob_negate() {
    let mut t = Tree::new();
    t.touch("main.js");
    t.touch("main.min.js");
    t.touch("util.js");
    t.touch("util.min.js");

    let got = collect_rel(
        Walker::from_patterns(&["**/*.js", "!(*.min).js"], t.options()).unwrap(),
        &t,
    );
    let expected: BTreeSet<String> = ["main.js", "main.min.js", "util.js", "util.min.js"]
        .iter()
        .map(|s| s.to_string())
        .collect();
    assert_eq!(got, expected);
}

#[test]
fn walker_lone_negation_yields_nothing() {
    let mut t = Tree::new();
    t.touch("a.js");
    t.touch("b.js");

    let got = collect_rel(Walker::new("!a.js", t.options()).unwrap(), &t);
    assert!(got.is_empty(), "expected empty, got {got:?}");
}

#[test]
fn walker_multi_bang_parity_routes_by_count() {
    let mut t = Tree::new();
    t.touch("a.js");
    t.touch("b.js");
    let got = collect_rel(Walker::from_patterns(&["!!a.js"], t.options()).unwrap(), &t);
    let expected: BTreeSet<String> = ["a.js"].iter().map(|s| s.to_string()).collect();
    assert_eq!(got, expected, "!!a.js should resolve to positive a.js");
    let got = collect_rel(
        Walker::from_patterns(&["**/*.js", "!!!a.js"], t.options()).unwrap(),
        &t,
    );
    let expected: BTreeSet<String> = ["b.js"].iter().map(|s| s.to_string()).collect();
    assert_eq!(got, expected, "!!!a.js should route a.js into ignore set");
}

#[test]
fn walker_prunes_unrelated_subtrees() {
    let mut t = Tree::new();
    t.touch("src/a.ts");
    t.touch("src/b.ts");
    t.touch("other/c.ts");
    t.touch("other/deep/d.ts");

    let got = collect_rel(Walker::new("src/**/*.ts", t.options()).unwrap(), &t);
    let expected: BTreeSet<String> = ["src/a.ts", "src/b.ts"]
        .iter()
        .map(|s| s.to_string())
        .collect();
    assert_eq!(got, expected);
}

#[test]
fn walker_empty_dir() {
    let t = Tree::new();
    let got = collect_rel(Walker::new("**/*.rs", t.options()).unwrap(), &t);
    assert!(got.is_empty());
}

#[test]
fn walker_yields_dir_match() {
    let mut t = Tree::new();
    t.mkdir("src/components");
    t.touch("src/components/button.ts");
    t.touch("src/other.ts");

    let got = collect_rel(Walker::new("src/components", t.options()).unwrap(), &t);
    let expected: BTreeSet<String> = ["src/components"].iter().map(|s| s.to_string()).collect();
    assert_eq!(got, expected);
}

#[test]
fn walker_dot_protection_default_hides_dotfiles() {
    let mut t = Tree::new();
    t.touch(".env");
    t.touch("main.rs");

    let got = collect_rel(Walker::new("*", t.options()).unwrap(), &t);
    let expected: BTreeSet<String> = ["main.rs"].iter().map(|s| s.to_string()).collect();
    assert_eq!(got, expected);
}

#[test]
fn walker_dot_true_includes_dotfiles() {
    let mut t = Tree::new();
    t.touch(".env");
    t.touch("main.rs");

    let walker = Walker::new(
        "*",
        WalkOptions {
            dot: true,
            ..t.options()
        },
    )
    .unwrap();
    let got = collect_rel(walker, &t);
    let expected: BTreeSet<String> = [".env", "main.rs"].iter().map(|s| s.to_string()).collect();
    assert_eq!(got, expected);
}

#[test]
fn walker_case_sensitive_default_misses_other_case() {
    let mut t = Tree::new();
    t.touch("Main.TS");
    t.touch("other.rs");

    let got = collect_rel(Walker::new("*.ts", t.options()).unwrap(), &t);
    let expected: BTreeSet<String> = BTreeSet::new();
    assert_eq!(
        got, expected,
        "case-sensitive default should not match Main.TS"
    );
}

#[test]
fn walker_case_insensitive_matches_mixed_case() {
    let mut t = Tree::new();
    t.touch("Main.TS");
    t.touch("LIB.ts");
    t.touch("other.rs");

    let walker = Walker::new(
        "*.ts",
        WalkOptions {
            case_insensitive: true,
            ..t.options()
        },
    )
    .unwrap();
    let got = collect_rel(walker, &t);
    let expected: BTreeSet<String> = ["Main.TS", "LIB.ts"]
        .iter()
        .map(|s| s.to_string())
        .collect();
    assert_eq!(got, expected);
}

#[test]
fn walker_missing_prefix_yields_nothing_silently() {
    let mut t = Tree::new();
    t.touch("unrelated.rs");

    let got = collect_rel(
        Walker::new("nonexistent/**/*.rs", t.options()).unwrap(),
        &t,
    );
    assert!(got.is_empty());
}

#[test]
fn walker_prefix_skips_sibling_dirs() {
    let mut t = Tree::new();
    t.touch("src/main.ts");
    t.touch("src/sub/foo.ts");
    t.touch("node_modules/a.ts");
    t.touch("node_modules/deep/nested/b.ts");

    let got = collect_rel(Walker::new("src/**/*.ts", t.options()).unwrap(), &t);
    let expected: BTreeSet<String> = ["src/main.ts", "src/sub/foo.ts"]
        .iter()
        .map(|s| s.to_string())
        .collect();
    assert_eq!(got, expected);
}

#[test]
fn walker_brace_prefix_walks_both_roots() {
    let mut t = Tree::new();
    t.touch("src/main.rs");
    t.touch("tests/smoke.rs");
    t.touch("lib/vendored.rs");

    let got = collect_rel(Walker::new("{src,tests}/*.rs", t.options()).unwrap(), &t);
    let expected: BTreeSet<String> = ["src/main.rs", "tests/smoke.rs"]
        .iter()
        .map(|s| s.to_string())
        .collect();
    assert_eq!(got, expected);
}

#[test]
fn walker_pure_literal_missing_file_yields_nothing() {
    let mut t = Tree::new();
    t.touch("other.rs");

    let got = collect_rel(Walker::new("src/main.rs", t.options()).unwrap(), &t);
    assert!(got.is_empty());
}

#[test]
fn walker_from_patterns_union() {
    let mut t = Tree::new();
    t.touch("src/main.ts");
    t.touch("src/lib.rs");
    t.touch("README.md");
    t.touch("tests/smoke.ts");

    let walker = Walker::from_patterns(&["README.md", "src/*.rs", "**/*.ts"], t.options()).unwrap();
    let got = collect_rel(walker, &t);
    let expected: BTreeSet<String> = ["README.md", "src/lib.rs", "src/main.ts", "tests/smoke.ts"]
        .iter()
        .map(|s| s.to_string())
        .collect();
    assert_eq!(got, expected);
}

#[test]
fn walker_from_patterns_shared_prefix() {
    let mut t = Tree::new();
    t.touch("src/main.ts");
    t.touch("src/lib.rs");
    t.touch("src/notes.md");
    t.touch("dist/bundle.js");
    t.touch("node_modules/pkg/index.ts");

    let walker = Walker::from_patterns(&["src/**/*.ts", "src/**/*.rs"], t.options()).unwrap();
    let got = collect_rel(walker, &t);
    let expected: BTreeSet<String> = ["src/lib.rs", "src/main.ts"]
        .iter()
        .map(|s| s.to_string())
        .collect();
    assert_eq!(got, expected);
}

#[test]
fn walker_from_patterns_distinct_prefixes() {
    let mut t = Tree::new();
    t.touch("src/main.rs");
    t.touch("tests/smoke.rs");
    t.touch("lib/vendored.rs");

    let walker = Walker::from_patterns(&["src/*.rs", "tests/*.rs"], t.options()).unwrap();
    let got = collect_rel(walker, &t);
    let expected: BTreeSet<String> = ["src/main.rs", "tests/smoke.rs"]
        .iter()
        .map(|s| s.to_string())
        .collect();
    assert_eq!(got, expected);
}

#[test]
fn walker_from_patterns_pruning_requires_all_agree() {
    let mut t = Tree::new();
    t.touch("src/main.ts");
    t.touch("node_modules/pkg/package.json");

    let walker =
        Walker::from_patterns(&["src/**/*.ts", "node_modules/**/package.json"], t.options()).unwrap();
    let got = collect_rel(walker, &t);
    let expected: BTreeSet<String> = ["node_modules/pkg/package.json", "src/main.ts"]
        .iter()
        .map(|s| s.to_string())
        .collect();
    assert_eq!(got, expected);
}

#[test]
fn walker_from_patterns_literal_file_in_union() {
    let mut t = Tree::new();
    t.touch("src/main.ts");
    t.touch("package.json");

    let walker = Walker::from_patterns(&["package.json", "src/**/*.ts"], t.options()).unwrap();
    let got = collect_rel(walker, &t);
    let expected: BTreeSet<String> = ["package.json", "src/main.ts"]
        .iter()
        .map(|s| s.to_string())
        .collect();
    assert_eq!(got, expected);
}

#[test]
fn walker_from_patterns_empty_yields_nothing() {
    let mut t = Tree::new();
    t.touch("main.rs");

    let walker = Walker::from_patterns(&[], t.options()).unwrap();
    let got = collect_rel(walker, &t);
    assert!(got.is_empty());
}

#[test]
fn walker_ignore_skips_files() {
    let mut t = Tree::new();
    t.touch("src/main.rs");
    t.touch("src/gen.rs");
    t.touch("src/lib.rs");

    let walker = Walker::new(
        "src/*.rs",
        WalkOptions {
            ignore: vec!["**/gen.rs".into()],
            ..t.options()
        },
    )
    .unwrap();
    let got = collect_rel(walker, &t);
    let expected: BTreeSet<String> = ["src/lib.rs", "src/main.rs"]
        .iter()
        .map(|s| s.to_string())
        .collect();
    assert_eq!(got, expected);
}

#[test]
fn walker_ignore_prunes_dirs() {
    let mut t = Tree::new();
    t.touch("src/a.ts");
    t.touch("src/deep/b.ts");
    t.touch("node_modules/pkg/index.ts");
    t.touch("node_modules/pkg/nested/x.ts");

    let walker = Walker::new(
        "**/*.ts",
        WalkOptions {
            ignore: vec!["**/node_modules/**".into()],
            ..t.options()
        },
    )
    .unwrap();
    let got = collect_rel(walker, &t);
    let expected: BTreeSet<String> = ["src/a.ts", "src/deep/b.ts"]
        .iter()
        .map(|s| s.to_string())
        .collect();
    assert_eq!(got, expected);
}

#[test]
fn walker_new_invalid_pattern_returns_err() {
    let t = Tree::new();
    let err = Walker::new("[unclosed", t.options()).err().unwrap();
    match err {
        WalkError::InvalidPattern { pattern, .. } => assert_eq!(pattern, "[unclosed"),
        _ => panic!("expected InvalidPattern, got {err:?}"),
    }
}

#[test]
fn walker_ignore_invalid_pattern_returns_err() {
    let mut t = Tree::new();
    t.touch("a.rs");
    let err = Walker::new(
        "*.rs",
        WalkOptions {
            ignore: vec!["[bad".into()],
            ..t.options()
        },
    )
    .err().unwrap();
    match err {
        WalkError::InvalidPattern { pattern, .. } => assert_eq!(pattern, "[bad"),
        _ => panic!("expected InvalidPattern, got {err:?}"),
    }
}

#[test]
fn walker_rust_workspace_finds_source_files() {
    let mut t = Tree::new();
    t.touch("Cargo.toml");
    t.touch("Cargo.lock");
    t.touch("crates/core/Cargo.toml");
    t.touch("crates/core/src/lib.rs");
    t.touch("crates/core/src/parser.rs");
    t.touch("crates/core/src/engine/mod.rs");
    t.touch("crates/core/src/engine/backtrack.rs");
    t.touch("crates/core/tests/integration.rs");
    t.touch("crates/cli/Cargo.toml");
    t.touch("crates/cli/src/main.rs");
    t.touch("crates/cli/src/args.rs");
    t.touch("target/debug/deps/core-abc.rlib");
    t.touch("target/debug/build/core-abc/build-script-build");
    t.touch("target/release/cli.exe");

    let got = collect_rel(
        Walker::new("crates/*/src/**/*.rs", t.options()).unwrap(),
        &t,
    );
    let expected: BTreeSet<String> = [
        "crates/cli/src/args.rs",
        "crates/cli/src/main.rs",
        "crates/core/src/engine/backtrack.rs",
        "crates/core/src/engine/mod.rs",
        "crates/core/src/lib.rs",
        "crates/core/src/parser.rs",
    ]
    .iter()
    .map(|s| s.to_string())
    .collect();
    assert_eq!(got, expected);
}

#[test]
fn walker_rust_workspace_multi_source_and_tests() {
    let mut t = Tree::new();
    t.touch("crates/core/src/lib.rs");
    t.touch("crates/core/tests/integration.rs");
    t.touch("crates/cli/src/main.rs");
    t.touch("crates/cli/tests/smoke.rs");
    t.touch("target/debug/deps/core.rlib");

    let walker =
        Walker::from_patterns(&["crates/*/src/**/*.rs", "crates/*/tests/**/*.rs"], t.options()).unwrap();
    let got = collect_rel(walker, &t);
    let expected: BTreeSet<String> = [
        "crates/cli/src/main.rs",
        "crates/cli/tests/smoke.rs",
        "crates/core/src/lib.rs",
        "crates/core/tests/integration.rs",
    ]
    .iter()
    .map(|s| s.to_string())
    .collect();
    assert_eq!(got, expected);
}

#[test]
fn walker_node_project_typescript_sources() {
    let mut t = Tree::new();
    t.touch("package.json");
    t.touch("tsconfig.json");
    t.touch("src/index.ts");
    t.touch("src/components/Button.tsx");
    t.touch("src/components/Modal.tsx");
    t.touch("src/utils/math.ts");
    t.touch("src/utils/strings.ts");
    t.touch("tests/Button.test.tsx");
    t.touch("dist/index.js");
    t.touch("dist/index.d.ts");
    t.touch("node_modules/react/index.js");
    t.touch("node_modules/react/index.d.ts");
    t.touch("node_modules/lodash/src/index.ts");

    let got = collect_rel(Walker::new("src/**/*.{ts,tsx}", t.options()).unwrap(), &t);
    let expected: BTreeSet<String> = [
        "src/components/Button.tsx",
        "src/components/Modal.tsx",
        "src/index.ts",
        "src/utils/math.ts",
        "src/utils/strings.ts",
    ]
    .iter()
    .map(|s| s.to_string())
    .collect();
    assert_eq!(got, expected);
}

#[test]
fn walker_node_project_sources_and_tests() {
    let mut t = Tree::new();
    t.touch("src/Button.tsx");
    t.touch("src/Button.test.tsx");
    t.touch("src/utils.ts");
    t.touch("tests/integration/auth.test.ts");
    t.touch("node_modules/react/index.js");

    let walker =
        Walker::from_patterns(&["src/**/*.{ts,tsx}", "tests/**/*.test.{ts,tsx}"], t.options()).unwrap();
    let got = collect_rel(walker, &t);
    let expected: BTreeSet<String> = [
        "src/Button.test.tsx",
        "src/Button.tsx",
        "src/utils.ts",
        "tests/integration/auth.test.ts",
    ]
    .iter()
    .map(|s| s.to_string())
    .collect();
    assert_eq!(got, expected);
}

#[test]
fn walker_python_project_source_files() {
    let mut t = Tree::new();
    t.touch("setup.py");
    t.touch("README.md");
    t.touch("src/mypackage/__init__.py");
    t.touch("src/mypackage/core.py");
    t.touch("src/mypackage/utils/helpers.py");
    t.touch("src/mypackage/__pycache__/__init__.cpython-311.pyc");
    t.touch("src/mypackage/__pycache__/core.cpython-311.pyc");
    t.touch(".venv/bin/python");
    t.touch(".venv/lib/python3.11/site-packages/pip/__init__.py");

    let got = collect_rel(Walker::new("src/**/*.py", t.options()).unwrap(), &t);
    let expected: BTreeSet<String> = [
        "src/mypackage/__init__.py",
        "src/mypackage/core.py",
        "src/mypackage/utils/helpers.py",
    ]
    .iter()
    .map(|s| s.to_string())
    .collect();
    assert_eq!(got, expected);
}

#[test]
fn walker_wide_flat_directory() {
    let mut t = Tree::new();
    for i in 0..100 {
        t.touch(&format!("files/item_{i}.txt"));
    }
    t.touch("files/README.md");
    t.touch("files/config.json");

    let got = collect_rel(Walker::new("files/*.txt", t.options()).unwrap(), &t);
    assert_eq!(got.len(), 100);
    assert!(got.contains("files/item_0.txt"));
    assert!(got.contains("files/item_50.txt"));
    assert!(got.contains("files/item_99.txt"));
    assert!(!got.contains("files/README.md"));
    assert!(!got.contains("files/config.json"));
}

#[test]
fn walker_deep_nesting() {
    let mut t = Tree::new();
    t.touch("a/b/c/d/e/f/g/h/leaf.rs");
    t.touch("a/b/c/d/shallow.rs");
    t.touch("a/shallow.rs");
    t.touch("unrelated.rs");

    let got = collect_rel(Walker::new("a/**/*.rs", t.options()).unwrap(), &t);
    let expected: BTreeSet<String> = [
        "a/b/c/d/e/f/g/h/leaf.rs",
        "a/b/c/d/shallow.rs",
        "a/shallow.rs",
    ]
    .iter()
    .map(|s| s.to_string())
    .collect();
    assert_eq!(got, expected);
}

#[test]
fn walker_recursive_suffix_pattern() {
    let mut t = Tree::new();
    t.touch("dist/bundle.min.js");
    t.touch("dist/bundle.js");
    t.touch("vendor/jquery.min.js");
    t.touch("vendor/jquery.js");
    t.touch("src/main.ts");
    t.touch("public/assets/analytics.min.js");

    let got = collect_rel(Walker::new("**/*.min.js", t.options()).unwrap(), &t);
    let expected: BTreeSet<String> = [
        "dist/bundle.min.js",
        "public/assets/analytics.min.js",
        "vendor/jquery.min.js",
    ]
    .iter()
    .map(|s| s.to_string())
    .collect();
    assert_eq!(got, expected);
}

#[test]
fn walker_extglob_non_min_js() {
    let mut t = Tree::new();
    t.touch("src/main.js");
    t.touch("src/utils.js");
    t.touch("dist/bundle.min.js");
    t.touch("dist/app.min.js");
    t.touch("vendor/lib.js");
    t.touch("README.md");
    t.touch("src/!(bundle.min).js");

    let got = collect_rel(Walker::new("src/!(*.min).js", t.options()).unwrap(), &t);
    let expected: BTreeSet<String> = ["src/!(bundle.min).js"]
        .iter()
        .map(|s| s.to_string())
        .collect();
    assert_eq!(got, expected);
}

#[test]
fn walker_literal_directory_target() {
    let mut t = Tree::new();
    t.touch("target/debug/main");
    t.touch("target/release/main");
    t.touch("src/main.rs");

    let got = collect_rel(Walker::new("target", t.options()).unwrap(), &t);
    let expected: BTreeSet<String> = ["target"].iter().map(|s| s.to_string()).collect();
    assert_eq!(got, expected);
}

#[test]
fn walker_mixed_tiers_via_from_patterns() {
    let mut t = Tree::new();
    t.touch("Cargo.toml");
    t.touch("Cargo.lock");
    t.touch("README.md");
    t.touch("src/lib.rs");
    t.touch("src/cli/main.rs");
    t.touch("tests/smoke.rs");
    t.touch("target/debug/deps/crate.rlib");

    let walker = Walker::from_patterns(&["Cargo.toml", "*.md", "src/**/*.rs"], t.options()).unwrap();
    let got = collect_rel(walker, &t);
    let expected: BTreeSet<String> = ["Cargo.toml", "README.md", "src/cli/main.rs", "src/lib.rs"]
        .iter()
        .map(|s| s.to_string())
        .collect();
    assert_eq!(got, expected);
}


#[test]
fn walker_leading_slash_stays_within_base() {
    let mut t = Tree::new();
    t.touch("sandbox/x.ts");
    t.touch("tmp/escape/escape_me.ts");
    t.base = "sandbox".to_string();
    assert_eq!(t.open("/tmp/escape/escape_me.ts").unwrap().1, Node::File);

    let pattern = format!("{}/*.ts", "/tmp/escape");
    let got = collect_rel(Walker::new(&pattern, t.options()).expect("construct walker"), &t);

    assert!(
        got.is_empty(),
        "leading `/` in pattern must not let the walker escape opts.base; \
         escape target's files must not be yielded. got: {got:?}"
    );
    let got = collect_rel(Walker::new("/*.ts", t.options()).unwrap(), &t);
    let expected: BTreeSet<String> = ["x.ts"].iter().map(|s| s.to_string()).collect();
    assert_eq!(got, expected);
}

#[test]
fn dir_entry_file_type_distinguishes_file_from_dir() {
    let mut t = Tree::new();
    t.touch("readme.md");
    t.mkdir("docs");
    t.touch("docs/intro.md");

    let mut files = 0u32;
    let mut dirs = 0u32;
    for e in t.walk(Walker::from_patterns(&["**/*.md", "docs"], t.options()).unwrap()) {
        if e.kind == Some(Kind::File) {
            files += 1;
        } else if e.kind == Some(Kind::Dir) {
            dirs += 1;
        }
    }
    assert_eq!(files, 2, "expected 2 files (readme.md, docs/intro.md)");
    assert_eq!(dirs, 1, "expected 1 dir (docs)");
}

#[test]
fn dir_entry_depth_tracks_descent() {
    let mut t = Tree::new();
    t.touch("a.rs");
    t.touch("b/c.rs");
    t.touch("b/d/e.rs");

    let mut depths: Vec<usize> = t
        .walk(Walker::new("**/*.rs", t.options()).unwrap())
        .into_iter()
        .map(|e| e.depth)
        .collect();
    depths.sort_unstable();
    assert_eq!(depths, vec![1, 2, 3]);
}

#[test]
fn dir_entry_file_name_returns_leaf() {
    let mut t = Tree::new();
    t.touch("nested/deeply/target.txt");

    let found = t.walk(Walker::new("**/target.txt", t.options()).unwrap());
    let entry = found.first().expect("at least one entry");
    assert_eq!(entry.path.rsplit('/').next(), Some("target.txt"));
    assert_eq!(entry.path, "nested/deeply/target.txt");
}

#[test]
fn walker_follow_links_off_drops_symlinks() {
    let mut t = Tree::new();
    t.touch("real.txt");
    t.symlink("real.txt", "link.txt");

    let got = collect_rel(
        Walker::new("*.txt", WalkOptions { follow_links: false, ..t.options() }).unwrap(),
        &t,
    );
    let want: BTreeSet<String> = std::iter::once("real.txt".to_string()).collect();
    assert_eq!(got, want, "follow_links:false should drop symlinks entirely");
}

#[test]
fn walker_follow_links_on_breaks_cycles() {
    let mut t = Tree::new();
    t.touch("a.txt");
    t.symlink("", "loop");

    let got = collect_rel(
        Walker::new("**/*.txt", WalkOptions { follow_links: true, ..t.options() }).unwrap(),
        &t,
    );
    assert!(
        got.contains("a.txt"),
        "cycle protection must still yield the real file; got {got:?}"
    );
    assert!(
        got.iter().all(|p| !p.contains("loop/loop")),
        "cycle protection must cap depth at one re-entry; got {got:?}"
    );
    let want: BTreeSet<String> = ["a.txt", "loop/a.txt"].iter().map(|s| s.to_string()).collect();
    assert_eq!(got, want);
}

#[test]
fn default_options_walk_the_current_directory() {
    let o = WalkOptions::default();
    assert_eq!(o.base, ".");
    assert!(!o.dot && !o.case_insensitive && o.follow_links && o.ignore.is_empty());
    let w = Walker::new("*.rs", o).unwrap();
    assert_eq!(w.base(), ".");
}

#[test]
fn links_are_yielded_and_followed() {
    let mut t = Tree::new();
    t.touch("real/x.txt");
    t.symlink("real", "alias");
    t.symlink("nowhere", "dangling.txt");
    let got = collect_rel(Walker::new("**", t.options()).unwrap(), &t);
    let want: BTreeSet<String> = ["real", "real/x.txt", "alias", "alias/x.txt", "dangling.txt"]
        .iter()
        .map(|s| s.to_string())
        .collect();
    assert_eq!(got, want);
    let off = WalkOptions { follow_links: false, ..t.options() };
    let got = collect_rel(Walker::new("**", off).unwrap(), &t);
    let want: BTreeSet<String> = ["real", "real/x.txt"].iter().map(|s| s.to_string()).collect();
    assert_eq!(got, want);
}

#[test]
fn link_without_a_known_target_is_not_descended() {
    let mut w = Walker::new("**", WalkOptions::default()).unwrap();
    let root = Found { path: String::new(), kind: None, depth: 0 };
    assert_eq!(w.prefixes(), vec![Vec::<u8>::new()]);
    w.seed(Vec::new(), Target::Dir, String::new(), root);
    let (_, mut dirs) = remaining(&mut w);
    let dir = dirs.pop().unwrap();
    let kind = Kind::Link { to_dir: true };
    assert!(w.wants_target(&dir, &b"l".to_vec(), kind));
    assert!(!w.wants_target(&dir, &b"l".to_vec(), Kind::Link { to_dir: false }));
    assert!(!w.wants_target(&dir, &b"l".to_vec(), Kind::Dir));
    let item = Found { path: "l".to_string(), kind: Some(kind), depth: 1 };
    w.expand(
        dir,
        vec![Listed::Entry { name: b"l".to_vec(), kind, target: None, place: String::new(), item: item.clone() }],
    );
    let (items, dirs) = remaining(&mut w);
    assert_eq!(items, vec![item]);
    assert!(dirs.is_empty());
}

#[test]
fn a_walk_yields_what_matches_and_is_not_ignored() {
    let mut t = Tree::new();
    for path in [
        "a.rs", "src/a.rs", "src/b.ts", "src/x/c.rs", "src/x/y/d.rs", ".git/config", "src/.x/e.rs",
        "target/a.rs", "docs/src/f.rs",
    ] {
        t.touch(path);
    }
    t.mkdir("empty");
    let ignored = Glob::new_with("target", CompileOptions::default().dot(false)).unwrap();
    for pattern in ["**", "*", "**/*.rs", "src/**", "src/*/*.rs", "{src,docs}/**/*.rs", "*/a.rs", "empty"] {
        let g = Glob::new_with(pattern, CompileOptions::default().dot(false)).unwrap();
        let opts = WalkOptions { ignore: vec!["target".to_string()], ..t.options() };
        let got = collect_rel(Walker::new(pattern, opts).unwrap(), &t);
        let want: BTreeSet<String> = t
            .nodes
            .keys()
            .filter(|p| !p.is_empty() && g.is_match(p.as_bytes()))
            .filter(|p| !ignored.is_match(p.as_bytes()) && !p.starts_with("target/"))
            .cloned()
            .collect();
        assert_eq!(got, want, "{pattern}");
    }
}

#[test]
fn a_backslash_in_a_name_separates() {
    let mut t = Tree::new();
    t.touch("x\\y");
    assert!(collect_rel(Walker::new("*", t.options()).unwrap(), &t).is_empty());
    let got = collect_rel(Walker::new("**/y", t.options()).unwrap(), &t);
    let want: BTreeSet<String> = ["x\\y"].iter().map(|s| s.to_string()).collect();
    assert_eq!(got, want);
}

#[test]
fn entries_of_a_directory_come_in_the_order_read() {
    let mut t = Tree::new();
    t.touch("c");
    t.touch("a");
    t.touch("b/z");
    t.touch("b/y");
    let order: Vec<String> =
        t.walk(Walker::new("**", t.options()).unwrap()).into_iter().map(|e| e.path).collect();
    assert_eq!(order, vec!["a", "b", "c", "b/y", "b/z"]);
}

#[test]
fn errors_are_yielded_and_the_walk_goes_on() {
    let bad = Found { path: "bad".to_string(), kind: None, depth: 1 };
    let good = Found { path: "good".to_string(), kind: Some(Kind::File), depth: 1 };
    let late = Found { path: "late".to_string(), kind: None, depth: 9 };
    let mut w = Walker::new("*", WalkOptions::default()).unwrap();
    w.seed(Vec::new(), Target::Dir, String::new(), late.clone());
    let (_, mut dirs) = remaining(&mut w);
    let dir = dirs.pop().unwrap();
    assert_eq!(dir.depth, 0);
    w.expand(
        dir,
        vec![
            Listed::Failed(bad.clone()),
            Listed::Entry {
                name: b"good".to_vec(),
                kind: Kind::File,
                target: None,
                place: "good".to_string(),
                item: good.clone(),
            },
        ],
    );
    w.fail(late.clone());
    let (items, dirs) = remaining(&mut w);
    assert_eq!(items, vec![late, bad, good]);
    assert!(dirs.is_empty());
}

#[test]
fn missing_and_plain_prefixes() {
    let at = |target| {
        let mut w = Walker::new("src/lib.rs", WalkOptions::default()).unwrap();
        let prefix = w.prefixes().pop().unwrap();
        assert_eq!(prefix, b"src/lib.rs".to_vec());
        assert_eq!(prefix_depth(&prefix), 2);
        let item = Found { path: "hit".to_string(), kind: None, depth: 2 };
        w.seed(prefix, target, String::new(), item);
        let (items, dirs) = remaining(&mut w);
        (items.len(), dirs.len())
    };
    assert_eq!(at(Target::Missing), (0, 0));
    assert_eq!(at(Target::Other), (1, 0));
    assert_eq!(at(Target::Dir), (1, 0));
}

#[test]
fn a_start_that_is_ignored_yields_nothing() {
    let mut t = Tree::new();
    t.touch("a.js");
    t.touch("b/c/d.js");
    assert!(t.walk(Walker::from_patterns(&["a.js", "!a.js"], t.options()).unwrap()).is_empty());
    assert!(t.walk(Walker::from_patterns(&["b/c/*", "!b/c"], t.options()).unwrap()).is_empty());
    assert!(t.walk(Walker::from_patterns(&["b/c/*", "!b"], t.options()).unwrap()).is_empty());
    let found = t.walk(Walker::from_patterns(&["b/c/*", "!a.js"], t.options()).unwrap());
    assert_eq!(found.len(), 1);
}

#[test]
fn no_walk_starts_outside_its_base() {
    for pattern in ["../x", "a/../../x", "a/./../..", "..", "./..", "a//../../x", "a\\\\b/../../x"] {
        let mut w = Walker::new(pattern, WalkOptions::default()).unwrap();
        for prefix in w.prefixes() {
            let item = Found { path: "out".to_string(), kind: None, depth: 0 };
            w.seed(prefix, Target::Dir, String::new(), item);
        }
        let (items, dirs) = remaining(&mut w);
        assert!(items.is_empty() && dirs.is_empty(), "{pattern}");
    }
    let mut w = Walker::new("a/..b/c..", WalkOptions::default()).unwrap();
    for prefix in w.prefixes() {
        let item = Found { path: "in".to_string(), kind: None, depth: 0 };
        w.seed(prefix, Target::Other, String::new(), item);
    }
    assert_eq!(remaining(&mut w).0.len(), 1);
}

#[test]
fn a_start_may_climb_inside_its_base() {
    let mut t = Tree::new();
    t.touch("sandbox/b");
    t.touch("sandbox/a/x.ts");
    t.touch("sandbox/c/y.ts");
    t.touch("b");
    t.base = "sandbox".to_string();
    let got = |pattern: &str| collect_rel(Walker::new(pattern, t.options()).unwrap(), &t);
    let only = |path: &str| BTreeSet::from([path.to_string()]);
    assert_eq!(got("a/../b"), only("a/../b"));
    assert_eq!(got("a/../c/*.ts"), only("a/../c/y.ts"));
    assert!(got("missing/../b").is_empty());
    assert!(got("../b").is_empty());
    assert!(got("a/../../b").is_empty());
    let ignoring = Walker::from_patterns(&["a/../b", "!a"], t.options()).unwrap();
    assert!(collect_rel(ignoring, &t).is_empty());
}

#[test]
fn pairs_of_bangs_cancel_out() {
    let mut t = Tree::new();
    t.touch("a.js");
    t.touch("b.js");
    for (many, few) in [(["!!*.js", "!b.js"], ["*.js", "!b.js"]), (["*.js", "!!!b.js"], ["*.js", "!b.js"])] {
        let x = collect_rel(Walker::from_patterns(&many, t.options()).unwrap(), &t);
        let y = collect_rel(Walker::from_patterns(&few, t.options()).unwrap(), &t);
        assert_eq!(x, y);
        assert_eq!(x.len(), 1);
    }
}

#[test]
fn walk_error_texts() {
    let e = Walker::new("[unclosed", WalkOptions::default()).err().unwrap();
    assert_eq!(e.message(), "invalid pattern '[unclosed': unterminated character class at byte 0");
    let e = Walker::from_patterns(&["a", "/{b", "!c"], WalkOptions::default()).err().unwrap();
    match &e {
        WalkError::InvalidPattern { pattern, .. } => assert_eq!(pattern, "{b"),
        _ => panic!("expected InvalidPattern, got {e:?}"),
    }
    let io = WalkError::Io { path: "a/b".to_string(), source: "denied".to_string() };
    assert_eq!(io.message(), "walker error at a/b: denied");
}
