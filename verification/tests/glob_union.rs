//! Unions of patterns.

use globstar::{Glob, GlobError};

/// Oracle: independently compile each pattern and OR the results.
/// Equivalent to what `Glob::union` should produce for non-negated
/// inputs, but computed without sharing any state across patterns.
fn or_oracle(patterns: &[&str], path: &[u8]) -> bool {
    patterns
        .iter()
        .any(|p| Glob::new(p).map(|g| g.is_match(path)).unwrap_or(false))
}

const PATHS: &[&[u8]] = &[
    b"foo.ts",
    b"foo.tsx",
    b"foo.js",
    b"foo.jsx",
    b"README.md",
    b"src/a/b.ts",
    b"src/main.rs",
    b"node_modules/foo/index.js",
];

#[test]
fn equivalence_with_or_oracle() {
    let patterns = ["**/*.ts", "**/*.tsx", "**/*.js"];
    let u = Glob::union(&patterns).unwrap();
    assert_eq!(u.engine_name(), "Segment");
    for p in PATHS {
        assert_eq!(u.is_match(p), or_oracle(&patterns, p), "path {p:?}");
    }
}

#[test]
fn empty_throws() {
    let result = Glob::union(&[]);
    assert!(matches!(result, Err(GlobError::EmptyPatternSet)));
}

#[test]
fn single_pattern_degenerates() {
    let u = Glob::union(&["foo.txt"]).unwrap();
    assert!(u.is_match(b"foo.txt"));
    assert!(!u.is_match(b"foo.tx"));
    assert_eq!(u.engine_name(), "Literal");
}

#[test]
fn negated_pattern_rejected() {
    let result = Glob::union(&["a", "!b"]);
    assert!(matches!(
        result,
        Err(GlobError::NegatedInUnion { index: 1, .. })
    ));
}

#[test]
fn brace_meta_in_patterns_safe() {
    // Patterns with literal `,` `{` `}` must not be re-interpreted by the
    // AST-level merge — `union(["a,b.txt", "{x}.log"])` matches the
    // literal strings, NOT the brace-expansions of those bytes.
    let u = Glob::union(&["a,b.txt", "{x}.log"]).unwrap();
    assert!(u.is_match(b"a,b.txt"));
    assert!(u.is_match(b"{x}.log"));
    assert!(!u.is_match(b"a"));
    assert!(!u.is_match(b"b.txt"));
    assert!(!u.is_match(b"x.log"));
}

#[test]
fn factoring_preserves_globstar_fold() {
    // Regression: `["//", "a/**/"]` previously broke when the trailing
    // `/` was lifted across the `**` fold boundary.
    let patterns = ["//", "a/**/"];
    let u = Glob::union(&patterns).unwrap();
    let test_paths: &[&[u8]] = &[b"a/", b"a/b/", b"//", b"a/b/c/", b"foo"];
    for p in test_paths {
        assert_eq!(u.is_match(p), or_oracle(&patterns, p), "path {p:?}");
    }
}

#[test]
fn factoring_lifts_shared_prefix_for_globstar_patterns() {
    // The whole point of factoring: union should produce the same SSM
    // as the hand-written brace, so this should match identically.
    let u = Glob::union(&["**/*.ts", "**/*.tsx", "**/*.js", "**/*.jsx", "**/*.md"]).unwrap();
    let manual = Glob::new("**/*.{ts,tsx,js,jsx,md}").unwrap();
    let test_paths: &[&[u8]] = &[
        b"foo.ts",
        b"foo.tsx",
        b"foo.js",
        b"foo.jsx",
        b"foo.md",
        b"foo.rs",
        b"a/b/c/foo.ts",
        b"foo.txt",
        b"",
    ];
    for p in test_paths {
        assert_eq!(u.is_match(p), manual.is_match(p), "path {p:?}");
    }
}
