//! The line protocol.

use globstar::seps::Seps;
use globstar::wire::{
    decode_pattern, dir_token, err_token, handle, handle_with_seps, hex, is_match_token,
    parse_flags, unescape,
};
use globstar::{DirMatch, GlobError};

#[test]
fn match_requests() {
    assert_eq!(handle("m\t00\t*.rs\tmain.rs"), "match");
    assert_eq!(handle("m\t00\t*.rs\tmain.ts"), "no-match");
    assert_eq!(handle("m\t00\t*\t.env"), "no-match");
    assert_eq!(handle("m\t10\t*\t.env"), "match");
    assert_eq!(handle("m\t00\t*.rs\tMAIN.RS"), "no-match");
    assert_eq!(handle("m\t01\t*.rs\tMAIN.RS"), "match");
    assert_eq!(handle("m\t00\t!*.rs\tmain.ts"), "match");
    assert_eq!(handle("m\t00\t?\t\\xff"), "match");
    assert_eq!(handle("m\t00\ta\t"), "no-match");
}

#[test]
fn dir_requests() {
    assert_eq!(handle("d\t00\tsrc/*.rs\tsrc"), "descend");
    assert_eq!(handle("d\t00\tsrc/*.rs\tlib"), "pruned");
    assert_eq!(handle("d\t00\tsrc\tsrc"), "match");
    assert_eq!(handle("d\t00\t**\tsrc"), "descend-match");
}

#[test]
fn union_requests() {
    assert_eq!(handle("u\t00\tb.ts\t*.rs\t*.ts"), "match");
    assert_eq!(handle("u\t00\tb.md\t*.rs\t*.ts"), "no-match");
    assert_eq!(handle("u\t00\tb.md\t*.rs\t!*.ts"), "err:NegatedInUnion");
    assert_eq!(handle("u\t00\tb.md\t*.rs\t[a"), "err:UnterminatedClass");
}

#[test]
fn malformed_requests() {
    for line in ["", "m", "m\t00", "x\t00\ta\tb", "m\t0\ta\tb", "m\t000\ta\tb", "u\t00\ta"] {
        assert_eq!(handle(line), "err:BadRequest");
    }
    assert_eq!(handle("m\t00\ta"), "err:BadRequest");
    assert_eq!(handle("d\t00\ta"), "err:BadRequest");
}

#[test]
fn refused_patterns_are_named() {
    let deep = format!("{}a{}", "{b,".repeat(33), "}".repeat(33));
    let long = "a".repeat(65537);
    for (pattern, kind) in [
        ("", "Empty"),
        (long.as_str(), "TooLong"),
        ("[a", "UnterminatedClass"),
        ("{a,b", "UnterminatedBrace"),
        ("a\\", "TrailingBackslash"),
        (deep.as_str(), "BraceNestingTooDeep"),
        ("[z-a]", "InvalidRange"),
    ] {
        assert_eq!(handle(&format!("m\t00\t{pattern}\tx")), format!("err:{kind}"));
        assert_eq!(handle(&format!("d\t00\t{pattern}\tx")), format!("err:{kind}"));
    }
    assert_eq!(err_token(&GlobError::EmptyPatternSet), "err:EmptyPatternSet");
    assert_eq!(
        err_token(&GlobError::NegatedInUnion { index: 0, pattern: "!a".to_string() }),
        "err:NegatedInUnion"
    );
}

#[test]
fn patterns_must_be_utf8() {
    assert_eq!(handle("m\t00\t\\xff\tx"), "err:NonUtf8Pattern");
    assert_eq!(handle("d\t00\t\\xc3\tx"), "err:NonUtf8Pattern");
    assert_eq!(handle("u\t00\tx\ta\t\\x80"), "err:NonUtf8Pattern");
    assert_eq!(handle("m\t00\t\\xc3\\xa9\t\\xc3\\xa9"), "match");
    assert_eq!(handle("m\t00\té\t\\xc3\\xa9"), "match");
    assert_eq!(decode_pattern(b"\\xc3\\xa9*"), Ok("é*".to_string()));
    assert_eq!(decode_pattern(b"\\xc3"), Err("err:NonUtf8Pattern".to_string()));
}

#[test]
fn a_backslash_may_separate() {
    let windows = Seps { backslash: true };
    assert_eq!(handle_with_seps("m\t00\ta/b\ta\\\\b", windows), "match");
    assert_eq!(handle_with_seps("m\t00\ta/b\ta\\\\b", Seps::slash_only()), "no-match");
}

#[test]
fn unescaping() {
    assert_eq!(unescape(b"abc"), b"abc");
    assert_eq!(unescape(b"a\\\\b"), b"a\\b");
    assert_eq!(unescape(b"\\x00\\xfF"), [0x00, 0xff]);
    assert_eq!(unescape(b"\\n"), b"\\n");
    assert_eq!(unescape(b"\\xg0a"), b"\\xg0a");
    assert_eq!(unescape(b"\\xZZ"), b"\\xZZ");
    assert_eq!(unescape(b"a\\\\b\\x2f"), b"a\\b/");
    assert_eq!(unescape(b"\\x4"), b"\\x4");
    assert_eq!(unescape(b"\\x\\x41"), b"\\xA");
    assert_eq!(unescape(b"\\x0"), b"\\x0");
    assert_eq!(unescape(b"\\"), b"\\");
    assert_eq!(unescape(b""), b"");
}

#[test]
fn what_is_escaped_is_read_back() {
    let mut all: Vec<u8> = Vec::new();
    for b in 0..=255u8 {
        all.push(b);
    }
    let mut line = String::new();
    for &b in &all {
        if b == b'\\' {
            line.push_str("\\\\");
        } else if (0x20..0x7f).contains(&b) {
            line.push(b as char);
        } else {
            line.push_str(&format!("\\x{b:02x}"));
        }
    }
    assert_eq!(unescape(line.as_bytes()), all);
}

#[test]
fn hex_digits() {
    assert_eq!(hex(b'0'), Some(0));
    assert_eq!(hex(b'9'), Some(9));
    assert_eq!(hex(b'a'), Some(10));
    assert_eq!(hex(b'F'), Some(15));
    assert_eq!(hex(b'g'), None);
    assert_eq!(hex(b'/'), None);
}

#[test]
fn flags() {
    let o = parse_flags(b"10").unwrap();
    assert!(o.dot && !o.case_insensitive);
    let o = parse_flags(b"01").unwrap();
    assert!(!o.dot && o.case_insensitive);
    let o = parse_flags(b"x2").unwrap();
    assert!(!o.dot && !o.case_insensitive);
    assert!(parse_flags(b"1").is_none());
    assert!(parse_flags(b"111").is_none());
}

#[test]
fn tokens() {
    assert_eq!(is_match_token(true), "match");
    assert_eq!(is_match_token(false), "no-match");
    assert_eq!(dir_token(DirMatch::Pruned), "pruned");
    assert_eq!(dir_token(DirMatch::Descend), "descend");
    assert_eq!(dir_token(DirMatch::Match), "match");
    assert_eq!(dir_token(DirMatch::DescendAndMatch), "descend-match");
}
