//! Errors of compiling a pattern.

use vstd::prelude::*;

verus! {

/// Maximum allowed pattern length in bytes.
pub const MAX_PATTERN_LEN: usize = 65536;

/// Maximum allowed brace nesting depth.
pub const MAX_BRACE_NESTING: usize = 32;

/// Why a pattern, or a set of patterns, does not compile.
#[derive(Debug, Clone, PartialEq, Eq)]
pub enum GlobError {
    /// Empty pattern (`""`).
    Empty,
    /// Pattern length exceeds [`MAX_PATTERN_LEN`].
    TooLong { len: usize, max: usize },
    /// Unterminated character class `[...`.
    UnterminatedClass { at: usize },
    /// Unterminated brace `{...`.
    UnterminatedBrace { at: usize },
    /// Pattern ends with a lone backslash.
    TrailingBackslash,
    /// Brace nesting exceeds [`MAX_BRACE_NESTING`].
    BraceNestingTooDeep { max: usize },
    /// Character class range with right endpoint smaller than left.
    InvalidRange { at: usize, low: u8, high: u8 },
    /// A union of no patterns.
    EmptyPatternSet,
    /// A negated (`!`-prefixed) pattern in a union.
    NegatedInUnion { index: usize, pattern: String },
}

/// The decimal digit `d`.
pub open spec fn digit(d: nat) -> char {
    (0x30 + d) as char
}

/// `n` in decimal, without leading zeros.
pub open spec fn decimal(n: nat) -> Seq<char>
    decreases n,
{
    if n < 10 {
        seq![digit(n)]
    } else {
        decimal(n / 10).push(digit(n % 10))
    }
}

/// What the standard library's `Debug` writes for a string.
pub uninterp spec fn debug_text(s: Seq<char>) -> Seq<char>;

/// The text of an error.
pub open spec fn error_text(e: GlobError) -> Seq<char> {
    match e {
        GlobError::Empty => "empty pattern"@,
        GlobError::TooLong { len, max } => "pattern too long: "@ + decimal(len as nat) + " > "@
            + decimal(max as nat),
        GlobError::UnterminatedClass { at } => "unterminated character class at byte "@ + decimal(
            at as nat,
        ),
        GlobError::UnterminatedBrace { at } => "unterminated brace expansion at byte "@ + decimal(
            at as nat,
        ),
        GlobError::TrailingBackslash => "pattern ends with lone backslash"@,
        GlobError::BraceNestingTooDeep { max } => "brace nesting exceeds limit "@ + decimal(
            max as nat,
        ),
        GlobError::InvalidRange { at, low, high } => "invalid character class range "@ + decimal(
            low as nat,
        ) + ".."@ + decimal(high as nat) + " at byte "@ + decimal(at as nat),
        GlobError::EmptyPatternSet => "Glob::union requires at least one pattern"@,
        GlobError::NegatedInUnion { index, pattern } => "negated pattern "@ + debug_text(pattern@)
            + " at index "@ + decimal(index as nat)
            + " is not allowed in Glob::union; use Glob::union(includes) and Glob::union(excludes) separately"@,
    }
}

/// Calls the `Debug` impl of `str` through `format!`: the string in double
/// quotes, with what it escapes. The text is named, not spelled out.
#[verifier::external_body]
fn debug_string(s: &str) -> (r: String)
    ensures
        r@ == debug_text(s@),
{
    format!("{:?}", s)
}

/// Appends a decimal digit.
fn push_digit(out: &mut String, d: usize)
    requires
        d < 10,
    ensures
        final(out)@ == old(out)@.push(digit(d as nat)),
{
    proof {
        reveal_strlit("0");
        reveal_strlit("1");
        reveal_strlit("2");
        reveal_strlit("3");
        reveal_strlit("4");
        reveal_strlit("5");
        reveal_strlit("6");
        reveal_strlit("7");
        reveal_strlit("8");
        reveal_strlit("9");
    }
    let text: &str = match d {
        0 => "0",
        1 => "1",
        2 => "2",
        3 => "3",
        4 => "4",
        5 => "5",
        6 => "6",
        7 => "7",
        8 => "8",
        _ => "9",
    };
    assert(text@ =~= seq![digit(d as nat)]);
    out.append(text);
    assert(out@ =~= old(out)@.push(digit(d as nat)));
}

/// Appends a number in decimal.
pub(crate) fn push_decimal(out: &mut String, n: usize)
    ensures
        final(out)@ == old(out)@ + decimal(n as nat),
    decreases n,
{
    if n < 10 {
        push_digit(out, n);
        assert(out@ =~= old(out)@ + decimal(n as nat));
    } else {
        push_decimal(out, n / 10);
        push_digit(out, n % 10);
        assert(out@ =~= old(out)@ + decimal(n as nat));
    }
}

impl GlobError {
    /// The text of the error.
    pub fn message(&self) -> (r: String)
        ensures
            r@ == error_text(*self),
    {
        let mut out: String = String::new();
        proof {
            reveal_strlit("");
        }
        match self {
            GlobError::Empty => out.append("empty pattern"),
            GlobError::TooLong { len, max } => {
                out.append("pattern too long: ");
                push_decimal(&mut out, *len);
                out.append(" > ");
                push_decimal(&mut out, *max);
            },
            GlobError::UnterminatedClass { at } => {
                out.append("unterminated character class at byte ");
                push_decimal(&mut out, *at);
            },
            GlobError::UnterminatedBrace { at } => {
                out.append("unterminated brace expansion at byte ");
                push_decimal(&mut out, *at);
            },
            GlobError::TrailingBackslash => out.append("pattern ends with lone backslash"),
            GlobError::BraceNestingTooDeep { max } => {
                out.append("brace nesting exceeds limit ");
                push_decimal(&mut out, *max);
            },
            GlobError::InvalidRange { at, low, high } => {
                out.append("invalid character class range ");
                push_decimal(&mut out, *low as usize);
                out.append("..");
                push_decimal(&mut out, *high as usize);
                out.append(" at byte ");
                push_decimal(&mut out, *at);
            },
            GlobError::EmptyPatternSet => out.append("Glob::union requires at least one pattern"),
            GlobError::NegatedInUnion { index, pattern } => {
                out.append("negated pattern ");
                out.append(debug_string(pattern.as_str()).as_str());
                out.append(" at index ");
                push_decimal(&mut out, *index);
                out.append(
                    " is not allowed in Glob::union; use Glob::union(includes) and Glob::union(excludes) separately",
                );
            },
        }
        assert(out@ =~= error_text(*self));
        out
    }
}

} // verus!
