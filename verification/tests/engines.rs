//! The engines, each on its own and against each other.

use globstar::engine::facts::LiteralFacts;
use globstar::engine::fxhash::FxHasher;
use globstar::engine::literal::LiteralMatcher;
use globstar::engine::ops::{compute_static_prefixes, extract_prefix, lower, Op, OpProgram};
use globstar::engine::pikevm::PikeVm;
use globstar::engine::segment::exec::SegmentMatcher;
use globstar::engine::segment::forks::expand_forks;
use globstar::engine::thompson_dfa::ThompsonDfa;
use globstar::parser::parse;
use globstar::seps::Seps;
use globstar::{CompileOptions, DirMatch, Glob, SegGlob, Tier};

const PATTERNS: &[&str] = &[
    "a", "*", "?", "**", "*.rs", "a/*", "a/**", "**/a", "a/**/b", "[ab]/?", "[!a]", ".*", "{a,b}/c",
    "{a/,**/}b", "a*b*c", "*a*", "**/*.{rs,toml}", "a/{**,x}/b", "**/.git/**", "a\\/b*", "x/",
];

const PATHS: &[&str] = &[
    "", "a", "b", "c", "ab", ".a", ".git", "a/b", "a/.b", "a/b/c", "a/x/b", "b/c", "abc", "main.rs",
    "src/main.rs", "src/.cargo/x.toml", "x", "x/", "/a", "a//b", "a/", ".git/config", "é",
];

fn program(pattern: &str, ci: bool) -> OpProgram {
    lower(&parse(pattern.as_bytes()).unwrap().body, ci)
}

fn ops(pattern: &str) -> Vec<Op> {
    program(pattern, false).ops().to_vec()
}

#[test]
fn table_and_automaton_agree() {
    for pattern in PATTERNS {
        for dot in [false, true] {
            for ci in [false, true] {
                let dfa = ThompsonDfa::build(program(pattern, ci), dot).ok().unwrap();
                let pike = PikeVm::new(program(pattern, ci), dot);
                assert_eq!(dfa.static_prefixes(), pike.static_prefixes());
                for path in PATHS {
                    let path = path.as_bytes();
                    assert_eq!(dfa.is_match(path), pike.is_match(path), "{pattern} {path:?}");
                    assert_eq!(dfa.match_dir(path), pike.match_dir(path), "{pattern} {path:?}");
                }
            }
        }
    }
}

#[test]
fn all_paths_lie_below_the_empty_one() {
    let dfa = ThompsonDfa::build(program("a", false), false).ok().unwrap();
    assert_eq!(dfa.match_dir(b""), DirMatch::Descend);
    assert_eq!(dfa.match_dir(b"a"), DirMatch::Match);
    assert_eq!(dfa.match_dir(b"b"), DirMatch::Pruned);
    let dfa = ThompsonDfa::build(program("a/[.]x", false), false).ok().unwrap();
    let pike = PikeVm::new(program("a/[.]x", false), false);
    assert_eq!(dfa.match_dir(b"a"), pike.match_dir(b"a"));
}

#[test]
fn segments_and_automaton_agree_on_every_path() {
    for pattern in PATTERNS {
        for dot in [false, true] {
            let pike = PikeVm::new(program(pattern, false), dot);
            if let Ok(m) = SegmentMatcher::build(program(pattern, false), dot) {
                for path in PATHS {
                    let path = path.as_bytes();
                    assert_eq!(m.is_match(path), pike.is_match(path), "{pattern} {path:?}");
                    assert_eq!(m.match_dir(path), pike.match_dir(path), "{pattern} {path:?}");
                }
            }
        }
    }
}

#[test]
fn table_sizes() {
    let dfa = ThompsonDfa::build(program("ab", false), false).ok().unwrap();
    assert_eq!(dfa.num_byte_classes(), 3);
    assert_eq!(dfa.num_states(), 4);
    let dfa = ThompsonDfa::build(program("{a,b,c,d,e,f,g,h}", false), false).ok().unwrap();
    assert_eq!(dfa.num_byte_classes(), 9);
    let dfa = ThompsonDfa::build(program("*", false), false).ok().unwrap();
    assert_eq!(dfa.num_byte_classes(), 3);
    let dfa = ThompsonDfa::build(program("*", false), true).ok().unwrap();
    assert_eq!(dfa.num_byte_classes(), 2);
}

#[test]
fn table_that_grows_too_large_is_given_up() {
    let large = program("*a????????????", false);
    let size = large.len();
    let back = ThompsonDfa::build(large, true).err().unwrap();
    assert_eq!(back.len(), size);
    assert!(ThompsonDfa::build(program("*a????????", false), true).is_ok());
}

#[test]
fn table_verdicts() {
    let dfa = ThompsonDfa::build(program("src/**/*.rs", false), false).ok().unwrap();
    assert_eq!(dfa.match_dir(b"src"), DirMatch::Descend);
    assert_eq!(dfa.match_dir(b"src/a"), DirMatch::Descend);
    assert_eq!(dfa.match_dir(b"lib"), DirMatch::Pruned);
    assert_eq!(dfa.match_dir(b"src/.git"), DirMatch::Pruned);
    assert_eq!(dfa.match_dir(b"src/x.rs"), DirMatch::DescendAndMatch);
}

#[test]
fn segments_and_automaton_agree() {
    for pattern in PATTERNS {
        for dot in [false, true] {
            let Ok(seg) = SegmentMatcher::build(program(pattern, false), dot) else {
                continue;
            };
            let pike = PikeVm::new(program(pattern, false), dot);
            for path in PATHS {
                if path.starts_with('/') {
                    continue;
                }
                let path = path.as_bytes();
                assert_eq!(seg.is_match(path), pike.is_match(path), "{pattern} {path:?}");
                if !path.is_empty() {
                    assert_eq!(seg.match_dir(path), pike.match_dir(path), "{pattern} {path:?}");
                }
            }
        }
    }
}

#[test]
fn segment_shapes() {
    let shape = |p: &str| SegmentMatcher::build(program(p, false), false).ok().unwrap().shape();
    assert_eq!(shape("*.rs"), (1, 1));
    assert_eq!(shape("a/*/b"), (1, 3));
    assert_eq!(shape("{a/b,c}"), (2, 2));
}

#[test]
fn escaped_separators_are_not_split() {
    let back = SegmentMatcher::build(program("a\\/b*", false), false).err().unwrap();
    assert_eq!(back.len(), 2);
}

fn lit(text: &str) -> Op {
    Op::Lit(text.as_bytes().to_vec())
}

fn made(ops: Vec<Op>) -> OpProgram {
    OpProgram::new(ops, false)
}

#[test]
fn raw_globstars_are_handed_back() {
    let back = SegmentMatcher::build(made(vec![Op::Globstar]), false).err().unwrap();
    assert_eq!(back.len(), 1);
    let deep = vec![lit("a"), Op::Alternation(vec![vec![lit("b")], vec![Op::Sep, Op::Globstar]])];
    let back = SegmentMatcher::build(made(deep), false).err().unwrap();
    assert_eq!(back.len(), 2);
}

#[test]
fn separators_behind_a_bare_globstar() {
    let any = || Op::GlobstarAny;
    let programs = [
        (vec![any(), Op::Sep, lit("b")], (1, 2)),
        (vec![any(), Op::Sep], (1, 2)),
        (vec![any(), Op::Sep, any()], (1, 2)),
        (vec![any(), Op::Sep, Op::OptSegmentsSlash, lit("b")], (1, 3)),
        (vec![lit("a"), Op::SlashAnything, Op::Sep, lit("b")], (1, 3)),
        (vec![lit("a"), Op::Sep, any(), Op::Sep, Op::Star, Op::Sep, lit("b")], (1, 4)),
        (
            vec![Op::Alternation(vec![vec![any()], vec![lit("x"), Op::Sep]]), Op::Sep, lit("b")],
            (2, 2),
        ),
    ];
    for (ops, shape) in programs {
        for dot in [false, true] {
            let seg = SegmentMatcher::build(made(ops.clone()), dot).ok().unwrap();
            assert_eq!(seg.shape(), shape, "{ops:?}");
            let pike = PikeVm::new(made(ops.clone()), dot);
            let extra = ["/", "//", "/b", "a/x/y/b", "a/.x/b", "x//b", "b/", "a//b/"];
            for path in PATHS.iter().chain(&extra) {
                let path = path.as_bytes();
                assert_eq!(seg.is_match(path), pike.is_match(path), "{ops:?} {path:?}");
                assert_eq!(seg.match_dir(path), pike.match_dir(path), "{ops:?} {path:?}");
            }
        }
    }
    let seg = SegmentMatcher::build(made(vec![any(), Op::Sep, lit("b")]), false).ok().unwrap();
    assert!(seg.is_match(b"a/b") && seg.is_match(b"/b") && seg.is_match(b"a/x/b"));
    assert!(!seg.is_match(b"b") && !seg.is_match(b".a/b"));
    assert!(SegmentMatcher::build(made(vec![any(), lit("b")]), false).is_err());
}

#[test]
fn one_globstar_is_matched_from_both_ends() {
    for (pattern, path, hit) in [
        ("a/**/b", "a/b", true),
        ("a/**/b", "a/x/y/b", true),
        ("a/**/b", "a/.x/b", false),
        ("a/b/**/b/c", "a/b/c", false),
        ("a/b/**/b/c", "a/b/b/c", true),
        ("a/**", "a/", true),
        ("a/**", "a", false),
        ("*/**/*.rs", "m.rs", false),
        ("*/**/*.rs", "x/m.rs", true),
    ] {
        let seg = SegmentMatcher::build(program(pattern, false), false).ok().unwrap();
        let pike = PikeVm::new(program(pattern, false), false);
        assert_eq!(seg.is_match(path.as_bytes()), hit, "{pattern} {path}");
        assert_eq!(pike.is_match(path.as_bytes()), hit, "{pattern} {path}");
        assert_eq!(seg.match_dir(path.as_bytes()).is_match(), hit, "{pattern} {path}");
    }
}

#[test]
fn forks_spread_braces_over_segments() {
    assert_eq!(expand_forks(&ops("{a/b,c}d")).unwrap().len(), 2);
    assert_eq!(expand_forks(&ops("{a,b}")).unwrap().len(), 1);
    let many = "{a/b,c/d}".repeat(12);
    assert!(expand_forks(&ops(&many)).is_none());
}

#[test]
fn literal_bytes() {
    let m = LiteralMatcher::new(b"src/Main.rs".to_vec(), false);
    assert!(m.is_match(b"src/Main.rs"));
    assert!(!m.is_match(b"src/main.rs"));
    assert_eq!(m.match_dir(b"src"), DirMatch::Descend);
    assert_eq!(m.match_dir(b"src/Main.rs"), DirMatch::Match);
    assert_eq!(m.match_dir(b"sr"), DirMatch::Pruned);
    assert_eq!(m.static_prefixes(), vec![b"src/Main.rs".to_vec()]);
    let m = LiteralMatcher::new(b"src/Main.rs".to_vec(), true);
    assert!(m.is_match(b"SRC/MAIN.RS"));
    let m = LiteralMatcher::new_with_seps(b"a/b".to_vec(), false, Seps { backslash: true });
    assert!(m.is_match(b"a\\b"));
    assert!(m.is_match(b"a/b"));
}

#[test]
fn literal_ends() {
    let f = LiteralFacts::extract(&ops("**/*.rs"), false);
    assert_eq!(f.suffix, b".rs".to_vec());
    assert!(f.suffix_set.is_empty());
    assert!(f.accept(b"a/b.rs"));
    assert!(!f.accept(b"a/b.ts"));
    assert!(!f.accept(b"rs"));
    let f = LiteralFacts::extract(&ops("*.{rs,toml}"), false);
    assert!(f.suffix.is_empty());
    assert_eq!(f.suffix_set, vec![b".rs".to_vec(), b".toml".to_vec()]);
    assert!(f.accept(b"x.toml"));
    assert!(!f.accept(b"x.tom"));
    let f = LiteralFacts::extract(&ops("a*"), false);
    assert!(f.suffix.is_empty() && f.suffix_set.is_empty());
    assert!(f.accept(b""));
    let f = LiteralFacts::extract(&program("*.RS", true).ops().to_vec(), true);
    assert!(f.accept(b"x.rs"));
    let f = LiteralFacts::extract(&ops("*/b"), false);
    assert!(f.accept_with(Seps { backslash: true }, b"a\\b"));
    assert!(!f.accept_with(Seps::slash_only(), b"a\\b"));
}

#[test]
fn prefixes_of_programs() {
    assert_eq!(extract_prefix(&ops("src/lib/*.rs")), b"src/lib".to_vec());
    assert_eq!(extract_prefix(&ops("*.rs")), b"".to_vec());
    assert_eq!(compute_static_prefixes(&ops("src/lib/*.rs")), vec![b"src/lib".to_vec()]);
    assert_eq!(compute_static_prefixes(&ops("src/l*")), vec![b"src".to_vec()]);
    assert_eq!(
        compute_static_prefixes(&ops("{src,tests}/*.rs")),
        vec![b"src".to_vec(), b"tests".to_vec()]
    );
    assert_eq!(compute_static_prefixes(&ops("{a,*}/b")), vec![b"".to_vec()]);
}

fn mixed(words: &[u64]) -> u64 {
    words.iter().fold(0u64, |h, w| (h.rotate_left(5) ^ w).wrapping_mul(0x517c_c1b7_2722_0a95))
}

#[test]
fn hashes() {
    assert_eq!(FxHasher::default().finish(), 0);
    let mut h = FxHasher::default();
    h.write_u64(1);
    assert_eq!(h.finish(), 0x517c_c1b7_2722_0a95);
    h.write_u8(2);
    h.write_u16(3);
    h.write_u32(4);
    h.write_usize(5);
    assert_eq!(h.finish(), mixed(&[1, 2, 3, 4, 5]));
    let mut h = FxHasher::default();
    h.write(&[1, 0, 0, 0, 0, 0, 0, 2, 3, 0, 0, 1, 4, 1, 5]);
    assert_eq!(h.finish(), mixed(&[0x0200_0000_0000_0001, 0x0100_0003, 0x0104, 5]));
}

#[test]
fn both_fronts_agree() {
    for pattern in PATTERNS {
        let g = Glob::new(pattern).unwrap();
        let s = SegGlob::new(pattern).unwrap();
        assert_eq!(g.tier(), s.tier());
        assert_eq!(g.static_prefixes(), s.static_prefixes());
        for path in PATHS {
            assert_eq!(g.is_match(path.as_bytes()), s.is_match(path.as_bytes()));
            assert_eq!(g.match_dir(path.as_bytes()), s.match_dir(path.as_bytes()));
        }
    }
    let opts = CompileOptions::default().dot(true).case_insensitive(true);
    let s = SegGlob::new_with("*.RS", opts).unwrap();
    assert!(s.is_match(b".main.rs"));
    assert_eq!(s.tier(), Tier::SimpleWildcard);
    assert_eq!(s.engine_name(), "Segment");
    let u = SegGlob::union(&["*.rs", "src/**"]).unwrap();
    assert!(u.is_match(b"src/a/b") && u.is_match(b"m.rs") && !u.is_match(b"lib/m.rs"));
    let u = SegGlob::union_with(&["a", "b"], opts).unwrap();
    assert!(u.is_match(b"B"));
}

#[test]
fn compiled_patterns_can_be_cloned() {
    let g = Glob::new("src/**/*.rs").unwrap();
    let h = g.clone();
    assert!(h.is_match(b"src/a.rs") && !h.is_match(b"a.rs"));
    let p = PikeVm::new(program("a*", false), false).clone();
    assert!(p.is_match(b"ab"));
}
