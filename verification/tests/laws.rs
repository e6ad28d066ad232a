//! What holds of every pattern, on chosen ones.

use globstar::parser::parse;
use globstar::seps::Seps;
use globstar::{CompileOptions, DirMatch, Glob, Matcher, SegGlob};

const PATTERNS: &[&str] =
    &["a", "a/b", "*", "**", "*.rs", "a/**", "**/b", "a/**/b", "{a,b}/c", "a/{**,x}/b", "[!a]*"];

const PATHS: &[&str] =
    &["a", "b", "ab", "a/b", "a/x/b", "a/b/c", "b/c", ".a", "a/.b", "m.rs", "x/y/z", "a/x/y/b"];

fn opts(dot: bool, ci: bool) -> CompileOptions {
    CompileOptions::default().dot(dot).case_insensitive(ci)
}

#[test]
fn a_verdict_says_whether_the_directory_matches() {
    for pattern in PATTERNS {
        let g = Glob::new(pattern).unwrap();
        for path in PATHS {
            assert_eq!(g.match_dir(path.as_bytes()).is_match(), g.is_match(path.as_bytes()));
        }
    }
}

#[test]
fn pruning_loses_no_match() {
    for pattern in PATTERNS {
        for bang in ["", "!"] {
            let g = Glob::new(&format!("{bang}{pattern}")).unwrap();
            for path in PATHS {
                for (at, c) in path.char_indices() {
                    if c == '/' && g.is_match(path.as_bytes()) {
                        assert!(g.match_dir(&path.as_bytes()[..at]).should_descend());
                    }
                }
            }
        }
    }
}

#[test]
fn what_is_pruned_is_empty() {
    let g = Glob::new("src/*.rs").unwrap();
    assert!(g.match_dir(b"lib").is_pruned());
    assert!(!g.is_match(b"lib") && !g.is_match(b"lib/m.rs"));
    assert!(g.match_dir(b"src/a").is_pruned());
    assert!(!g.is_match(b"src/a") && !g.is_match(b"src/a/m.rs"));
}

#[test]
fn dot_only_adds_matches() {
    for pattern in PATTERNS {
        let strict = Glob::new_with(pattern, opts(false, false)).unwrap();
        let wide = Glob::new_with(pattern, opts(true, false)).unwrap();
        for path in PATHS {
            assert!(!strict.is_match(path.as_bytes()) || wide.is_match(path.as_bytes()));
        }
    }
    assert!(Glob::new_with("*", opts(true, false)).unwrap().is_match(b".a"));
    assert!(!Glob::new_with("*", opts(false, false)).unwrap().is_match(b".a"));
}

#[test]
fn a_bang_turns_every_answer_round() {
    for pattern in PATTERNS {
        let g = Glob::new(pattern).unwrap();
        let one = Glob::new(&format!("!{pattern}")).unwrap();
        let two = Glob::new(&format!("!!{pattern}")).unwrap();
        for path in PATHS {
            assert_eq!(one.is_match(path.as_bytes()), !g.is_match(path.as_bytes()));
            assert_eq!(two.is_match(path.as_bytes()), g.is_match(path.as_bytes()));
        }
    }
}

#[test]
fn matches_lie_at_or_below_a_static_prefix() {
    for pattern in PATTERNS {
        let g = Glob::new(pattern).unwrap();
        let prefixes = g.static_prefixes();
        for path in PATHS {
            if g.is_match(path.as_bytes()) {
                assert!(prefixes.iter().any(|p| {
                    p.is_empty()
                        || path.as_bytes() == p.as_slice()
                        || (path.as_bytes().starts_with(p) && path.as_bytes()[p.len()] == b'/')
                }));
            }
        }
    }
}

#[test]
fn a_union_matches_what_a_member_matches() {
    for a in PATTERNS {
        for b in PATTERNS {
            let u = Glob::union(&[a, b]).unwrap();
            let (x, y) = (Glob::new(a).unwrap(), Glob::new(b).unwrap());
            for path in PATHS {
                let path = path.as_bytes();
                assert_eq!(u.is_match(path), x.is_match(path) || y.is_match(path), "{a} {b}");
                if x.match_dir(path).should_descend() || y.match_dir(path).should_descend() {
                    assert!(u.match_dir(path).should_descend(), "{a} {b}");
                }
            }
        }
    }
}

fn union_is_or(parts: &[&str], paths: &[&str]) {
    let u = Glob::union(parts).unwrap();
    let members: Vec<Glob> = parts.iter().map(|p| Glob::new(p).unwrap()).collect();
    for path in paths {
        let any = members.iter().any(|g| g.is_match(path.as_bytes()));
        assert_eq!(u.is_match(path.as_bytes()), any, "{parts:?} {path}");
    }
}

#[test]
fn globstars_in_braces_stay_with_their_separators_in_a_union() {
    union_is_or(&["a/{**,b}/c", "a/d"], &["a//c", "a/c", "a/b/c", "a/x/y/c", "a/d", "a"]);
    assert!(Glob::union(&["a/{**,b}/c", "a/d"]).unwrap().is_match(b"a//c"));
    union_is_or(&["a/{**,x}/b", "a/y"], &["a/b", "a/x/b", "a/y", "a//b", "a/q/r/b"]);
    union_is_or(&["x/{**,y}/b", "z/b"], &["x/b", "x/y/b", "x/q/r/b", "z/b", "x//b", "b"]);
    union_is_or(
        &["src/{**/*.ts,x}", "src/*.js"],
        &["src/a.ts", "src/a/b.ts", "src/x", "src/y.js", "src//a.ts", "src/a/y.js", "src"],
    );
    union_is_or(&["x/{**,y}/b", "z/c"], &["x/b", "x/y/b", "z/c", "z/b", "x//b"]);
    union_is_or(
        &["{**,a}/**/c", "b/**/c"],
        &["c", "a/c", "a//c", "b/c", "b//c", "b/x/c", "q/r/c", "/c"],
    );
    assert!(Glob::union(&["x/{**,y}/b", "z/b"]).unwrap().is_match(b"x/b"));
}

#[test]
fn a_separator_sinks_into_nested_braces() {
    let g = Glob::new("a/{{**,b}/c,d}").unwrap();
    for path in ["a/c", "a//c", "a/b/c", "a/x/y/c", "a/d"] {
        assert!(g.is_match(path.as_bytes()), "{path}");
    }
    assert!(!g.is_match(b"ac") && !g.is_match(b"a/b") && !g.is_match(b"d"));
}

#[test]
fn order_and_repetition_do_not_matter_to_a_union() {
    let paths = ["a/", "a/b/", "//", "a/b/c/", "foo", "a", "/", ""];
    let u = Glob::union(&["//", "a/**/"]).unwrap();
    for path in ["a/", "a/b/", "//", "a/b/c/"] {
        assert!(u.is_match(path.as_bytes()), "{path}");
    }
    assert!(!u.is_match(b"foo"));
    let v = Glob::union(&["a/**/", "//", "a/**/"]).unwrap();
    for path in paths {
        assert_eq!(u.is_match(path.as_bytes()), v.is_match(path.as_bytes()), "{path}");
    }
}

#[test]
fn a_union_of_patterns_with_leading_separators() {
    let u = Glob::union(&["**/a", "/b", "**/c/**"]).unwrap();
    for path in ["/a", "//a", "/b", "b", "/c/d", "c/d", "/d"] {
        let any = ["**/a", "/b", "**/c/**"]
            .iter()
            .any(|p| Glob::new(p).unwrap().is_match(path.as_bytes()));
        assert_eq!(u.is_match(path.as_bytes()), any, "{path}");
    }
    let parts = ["{a/,b/}**/c", "**/c"];
    let u = Glob::union(&parts).unwrap();
    assert!(u.is_match(b"a/c") && u.is_match(b"x/c") && u.is_match(b"/c"));
    let parts = ["{p\\/*/,b/}**/c", "**/c"];
    union_is_or(&parts, &["b/c", "x/c", "c", "/c", "//c", "p/x/c", "/b/c"]);
    assert_eq!(Glob::union(&parts).unwrap().engine_name(), "PikeVm");
    assert!(Glob::union(&parts).unwrap().is_match(b"/c"));
    let mut many = String::from("{a0/");
    for i in 1..65 {
        many.push_str(&format!(",a{i}/"));
    }
    many.push_str("}**/b");
    union_is_or(&["**/b", &many], &["/b", "b", "a7/b", "a64/x/b", "/a7/b", "a65/b", "c"]);
}

#[test]
fn a_negated_pattern_says_whether_the_directory_matches() {
    let g = Glob::new("!foo").unwrap();
    assert_eq!(g.match_dir(b"bar"), DirMatch::DescendAndMatch);
    assert_eq!(g.match_dir(b"foo"), DirMatch::Descend);
    assert_eq!(g.match_dir(b""), DirMatch::DescendAndMatch);
    let s = SegGlob::new("!foo").unwrap();
    assert_eq!(s.match_dir(b"bar"), DirMatch::DescendAndMatch);
    assert_eq!(s.match_dir(b"foo"), DirMatch::Descend);
    for pattern in PATTERNS {
        let g = Glob::new(&format!("!{pattern}")).unwrap();
        for path in PATHS {
            let d = g.match_dir(path.as_bytes());
            assert!(d.should_descend());
            assert_eq!(d.is_match(), g.is_match(path.as_bytes()));
        }
    }
}

#[test]
fn one_more_bang_is_counted() {
    for pattern in PATTERNS {
        let a = parse(pattern.as_bytes()).unwrap();
        let b = parse(format!("!{pattern}").as_bytes()).unwrap();
        assert_eq!(b.negation_count, a.negation_count + 1);
        assert_eq!(b.body, a.body);
        assert_ne!(b.is_negated(), a.is_negated());
    }
}

#[test]
fn a_run_of_stars_is_one_star() {
    for (many, one) in [("a***b", "a*b"), ("x/***a", "x/*a"), ("{a**,b}", "{a*,b}"), ("**?", "*?")] {
        for dot in [false, true] {
            let (m, o) = (
                Glob::new_with(many, opts(dot, false)).unwrap(),
                Glob::new_with(one, opts(dot, false)).unwrap(),
            );
            for path in ["", "a", "ab", "axb", "x/a", "x/.a", "b", "a/b", ".a", "aaab"] {
                assert_eq!(m.is_match(path.as_bytes()), o.is_match(path.as_bytes()), "{many} {path}");
            }
        }
    }
}

#[test]
fn case_makes_no_difference_where_it_is_ignored() {
    let patterns = ["Src/*.rs", "[a-f]x?", "[!M-p]*", "{A,b}/**", "README.md", "!*.Ts"];
    let pairs = [
        ("src/MAIN.RS", "SRC/main.rs"),
        ("Axé", "aXé"),
        ("nO", "No"),
        ("A/b/C", "a/B/c"),
        ("readme.MD", "ReadMe.md"),
        ("x.TS", "X.ts"),
    ];
    for pattern in patterns {
        let g = Glob::new_with(pattern, opts(false, true)).unwrap();
        for (a, b) in pairs {
            assert_eq!(g.is_match(a.as_bytes()), g.is_match(b.as_bytes()), "{pattern} {a}");
            assert_eq!(g.match_dir(a.as_bytes()), g.match_dir(b.as_bytes()), "{pattern} {a}");
        }
    }
}

#[test]
fn plain_text_matches_itself() {
    for text in ["a", "src/lib.rs", "a//b", "/x", "x/", "a,b}", "]-^", "é.txt", "a!b"] {
        let g = Glob::new(text).unwrap();
        assert_eq!(g.engine_name(), "Literal");
        assert!(g.is_match(text.as_bytes()));
        for other in ["", "b", "src/lib.rsx", "a/b", "x", "e.txt"] {
            assert!(!g.is_match(other.as_bytes()), "{text} {other}");
        }
    }
}

#[test]
fn case_is_folded_for_ascii_letters_only() {
    let g = Glob::new_with("[a-c]é*.RS", opts(false, true)).unwrap();
    assert!(g.is_match("Béx.rs".as_bytes()));
    assert!(!g.is_match("BÉx.rs".as_bytes()));
    let g = Glob::new_with("[!a]", opts(false, true)).unwrap();
    assert!(!g.is_match(b"A") && !g.is_match(b"a") && g.is_match(b"b"));
}

#[test]
fn verdicts_are_made_of_two_flags() {
    for exact in [false, true] {
        for below in [false, true] {
            let v = DirMatch::from_exact_prefix(exact, below);
            assert_eq!((v.is_match(), v.should_descend()), (exact, below));
            assert_eq!(v.is_pruned(), !exact && !below);
        }
    }
}

#[test]
fn separators_are_chosen() {
    let windows = Seps { backslash: true };
    let g = Glob::new_with_seps("a/*", opts(false, false), windows).unwrap();
    assert!(g.is_match(b"a\\b") && g.is_match(b"a/b") && !g.is_match(b"a\\b\\c"));
    let g = Glob::new_with_seps("a/*", opts(false, false), Seps::slash_only()).unwrap();
    assert!(!g.is_match(b"a\\b") && g.is_match(b"a/b\\c"));
    let u = Glob::union_with_seps(&["a/*", "b"], opts(false, false), windows).unwrap();
    assert!(u.is_match(b"a\\x") && u.is_match(b"b"));
    assert_eq!(Seps::platform(), Seps { backslash: std::path::is_separator('\\') });
    assert!(Seps::platform().is_sep(b'/') && !Seps::platform().is_sep(b'a'));
}

#[test]
fn a_union_is_or_where_a_backslash_separates_too() {
    let windows = Seps { backslash: true };
    let paths: &[&[u8]] = &[b"a/b", b"a\\b", b"a/bc", b"a\\bc", b"x", b"a", b"x/a/b", b"x\\a\\b"];
    for parts in [["a\\/b*", "x"], ["x/{a,c}\\/b", "a\\/b?"], ["a/b", "x/a/b"]] {
        let u = Glob::union_with_seps(&parts, opts(false, false), windows).unwrap();
        for path in paths {
            let any = parts.iter().any(|p| {
                Glob::new_with_seps(p, opts(false, false), windows).unwrap().is_match(path)
            });
            assert_eq!(u.is_match(path), any, "{parts:?} {path:?}");
        }
    }
    let u = Glob::union_with_seps(&["a\\/b", "x"], opts(false, false), windows).unwrap();
    let g = Glob::new_with_seps("a\\/b", opts(false, false), windows).unwrap();
    for path in [&b"a/b"[..], b"a/c", b"a", b"x"] {
        assert_eq!(u.is_match(path), g.is_match(path) || path == b"x");
    }
}

fn count<M: Matcher>(m: &M) -> usize {
    PATHS.iter().filter(|p| m.is_match(p.as_bytes())).count()
}

#[test]
fn matchers_share_a_trait() {
    let g = Glob::new("a/**").unwrap();
    assert_eq!(count(&g), PATHS.iter().filter(|p| g.is_match(p.as_bytes())).count());
    assert_eq!(Matcher::match_dir(&g, b"a"), g.match_dir(b"a"));
    assert_eq!(Matcher::static_prefixes(&g), g.static_prefixes());
}
