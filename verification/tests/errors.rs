//! Errors and their texts.

use globstar::{Glob, GlobError, SegGlob};

fn refused(pattern: &str) -> GlobError {
    let e = Glob::new(pattern).err().unwrap();
    assert_eq!(SegGlob::new(pattern).err().unwrap(), e);
    e
}

#[test]
fn empty_pattern() {
    assert_eq!(refused(""), GlobError::Empty);
    assert_eq!(refused("").message(), "empty pattern");
}

#[test]
fn too_long_pattern() {
    assert!(Glob::new(&"a".repeat(65536)).is_ok());
    let e = refused(&"a".repeat(65537));
    assert_eq!(e, GlobError::TooLong { len: 65537, max: 65536 });
    assert_eq!(e.message(), "pattern too long: 65537 > 65536");
}

#[test]
fn unterminated() {
    let e = refused("ab[c");
    assert_eq!(e, GlobError::UnterminatedClass { at: 2 });
    assert_eq!(e.message(), "unterminated character class at byte 2");
    let e = refused("a{b,c");
    assert_eq!(e, GlobError::UnterminatedBrace { at: 1 });
    assert_eq!(e.message(), "unterminated brace expansion at byte 1");
}

#[test]
fn trailing_backslash() {
    let e = refused("a\\");
    assert_eq!(e, GlobError::TrailingBackslash);
    assert_eq!(e.message(), "pattern ends with lone backslash");
}

#[test]
fn deep_braces() {
    let nested = |n: usize| format!("{}a{}", "{b,".repeat(n), "}".repeat(n));
    assert!(Glob::new(&nested(32)).is_ok());
    let e = refused(&nested(33));
    assert_eq!(e, GlobError::BraceNestingTooDeep { max: 32 });
    assert_eq!(e.message(), "brace nesting exceeds limit 32");
}

#[test]
fn backwards_range() {
    let e = refused("x[z-a]");
    match e {
        GlobError::InvalidRange { low, high, .. } => assert_eq!((low, high), (b'z', b'a')),
        _ => panic!("{e:?}"),
    }
    assert_eq!(
        GlobError::InvalidRange { at: 10, low: 122, high: 97 }.message(),
        "invalid character class range 122..97 at byte 10"
    );
}

#[test]
fn refused_unions() {
    let e = Glob::union(&[]).err().unwrap();
    assert_eq!(e, GlobError::EmptyPatternSet);
    assert_eq!(e.message(), "Glob::union requires at least one pattern");
    let e = SegGlob::union(&["a", "!b\t\"c"]).err().unwrap();
    assert_eq!(e, GlobError::NegatedInUnion { index: 1, pattern: "!b\t\"c".to_string() });
    assert_eq!(
        e.message(),
        "negated pattern \"!b\\t\\\"c\" at index 1 is not allowed in Glob::union; \
         use Glob::union(includes) and Glob::union(excludes) separately"
    );
    assert_eq!(Glob::union(&["a", "", "[b"]).err().unwrap(), GlobError::Empty);
    assert!(Glob::union(&["a", "!!b"]).is_ok());
}
