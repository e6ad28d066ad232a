//! A line protocol for asking what patterns match.
//!
//! A request is one line of fields with tabs between: a command, two flags
//! (`dot` and `case_insensitive`, each `0` or `1`), and escaped byte strings.
//!
//! | request                          | answer                                             |
//! |----------------------------------|----------------------------------------------------|
//! | `m <flags> <pattern> <path>`     | `match`, `no-match` or `err:<Kind>`                |
//! | `d <flags> <pattern> <dir>`      | `pruned`, `descend`, `match`, `descend-match` or `err:<Kind>` |
//! | `u <flags> <path> <pattern>...`  | `match`, `no-match` or `err:<Kind>`                |
//!
//! In an escaped field `\\` stands for a backslash, `\xHH` for the byte `HH`,
//! and every other byte for itself. A pattern must be UTF-8 and is answered
//! `err:NonUtf8Pattern` otherwise; a path may be any bytes. A line that is no
//! request is answered `err:BadRequest`.

use crate::dir_match::DirMatch;
use crate::error::GlobError;
use crate::glob::{self, Glob};
use crate::options::CompileOptions;
use crate::seps::Seps;
use vstd::prelude::*;
use vstd::string::*;

verus! {

/// Where the first tab of `b` stands, or its end.
pub open spec fn first_tab(b: Seq<u8>) -> int
    decreases b.len(),
{
    if b.len() == 0 || b[0] == 0x09 {
        0
    } else {
        1 + first_tab(b.skip(1))
    }
}

/// The fields of a line.
pub open spec fn fields(b: Seq<u8>) -> Seq<Seq<u8>>
    decreases b.len(),
{
    let n = first_tab(b);
    if 0 <= n < b.len() {
        seq![b.take(n)] + fields(b.skip(n + 1))
    } else {
        seq![b]
    }
}

/// The value of a hexadecimal digit.
pub open spec fn digit(b: u8) -> Option<u8> {
    if 0x30 <= b <= 0x39 {
        Some((b - 0x30) as u8)
    } else if 0x61 <= b <= 0x66 {
        Some((b - 0x61 + 10) as u8)
    } else if 0x41 <= b <= 0x46 {
        Some((b - 0x41 + 10) as u8)
    } else {
        None
    }
}

/// The byte that two hexadecimal digits stand for.
pub open spec fn escaped_byte(hi: u8, lo: u8) -> Option<u8> {
    match (digit(hi), digit(lo)) {
        (Some(h), Some(l)) => Some((h * 16 + l) as u8),
        _ => None,
    }
}

/// An escape by two hexadecimal digits stands at the start of `b`.
pub open spec fn escapes(b: Seq<u8>) -> bool {
    b.len() > 3 && b[0] == 0x5c && b[1] == 0x78 && escaped_byte(b[2], b[3]) is Some
}

/// What an escaped field stands for. What is no escape stands for itself.
pub open spec fn unescaped(b: Seq<u8>) -> Seq<u8>
    decreases b.len(),
{
    if b.len() == 0 {
        seq![]
    } else if b[0] == 0x5c && b.len() > 1 && b[1] == 0x5c {
        seq![0x5cu8] + unescaped(b.skip(2))
    } else if escapes(b) {
        seq![escaped_byte(b[2], b[3])->0] + unescaped(b.skip(4))
    } else {
        seq![b[0]] + unescaped(b.skip(1))
    }
}

/// `w` is a way to write the byte `b` in a field.
pub open spec fn writes(b: u8, w: Seq<u8>) -> bool {
    ||| b != 0x5c && w == seq![b]
    ||| b == 0x5c && w == seq![0x5cu8, 0x5cu8]
    ||| w.len() == 4 && escapes(w) && escaped_byte(w[2], w[3]) == Some(b)
}

/// One after the other.
pub open spec fn flat(ws: Seq<Seq<u8>>) -> Seq<u8>
    decreases ws.len(),
{
    if ws.len() == 0 {
        seq![]
    } else {
        ws[0] + flat(ws.skip(1))
    }
}

/// However the bytes are written, the field stands for them.
pub proof fn law_unescape_reads_what_was_written(bytes: Seq<u8>, ws: Seq<Seq<u8>>)
    requires
        bytes.len() == ws.len(),
        forall|i: int| 0 <= i < bytes.len() ==> writes(#[trigger] bytes[i], ws[i]),
    ensures
        unescaped(flat(ws)) == bytes,
    decreases bytes.len(),
{
    if bytes.len() == 0 {
        assert(unescaped(flat(ws)) =~= bytes);
    } else {
        let rest = flat(ws.skip(1));
        let all = flat(ws);
        let w = ws[0];
        assert(writes(bytes[0], ws[0]));
        assert forall|i: int| 0 <= i < bytes.skip(1).len() implies writes(
            #[trigger] bytes.skip(1)[i],
            ws.skip(1)[i],
        ) by {
            assert(writes(bytes[i + 1], ws[i + 1]));
        }
        law_unescape_reads_what_was_written(bytes.skip(1), ws.skip(1));
        assert(all =~= w + rest);
        assert(all.skip(w.len() as int) =~= rest);
        assert(all[0] == w[0]);
        if w.len() > 1 {
            assert(all[1] == w[1]);
        }
        if w.len() == 4 {
            assert(all[2] == w[2] && all[3] == w[3]);
        }
        assert(unescaped(all) =~= seq![bytes[0]] + unescaped(rest));
        assert(seq![bytes[0]] + bytes.skip(1) =~= bytes);
    }
}

/// The options that the flags stand for.
pub open spec fn flags(b: Seq<u8>) -> Option<CompileOptions> {
    if b.len() == 2 {
        Some(CompileOptions { dot: b[0] == 0x31, case_insensitive: b[1] == 0x31 })
    } else {
        None
    }
}

/// The kind of an error.
pub open spec fn kind_text(e: GlobError) -> Seq<char> {
    match e {
        GlobError::Empty => "Empty"@,
        GlobError::TooLong { .. } => "TooLong"@,
        GlobError::UnterminatedClass { .. } => "UnterminatedClass"@,
        GlobError::UnterminatedBrace { .. } => "UnterminatedBrace"@,
        GlobError::TrailingBackslash => "TrailingBackslash"@,
        GlobError::BraceNestingTooDeep { .. } => "BraceNestingTooDeep"@,
        GlobError::InvalidRange { .. } => "InvalidRange"@,
        GlobError::EmptyPatternSet => "EmptyPatternSet"@,
        GlobError::NegatedInUnion { .. } => "NegatedInUnion"@,
    }
}

pub open spec fn error_answer(e: GlobError) -> Seq<char> {
    "err:"@ + kind_text(e)
}

pub open spec fn match_answer(m: bool) -> Seq<char> {
    if m {
        "match"@
    } else {
        "no-match"@
    }
}

pub open spec fn dir_answer(d: DirMatch) -> Seq<char> {
    match d {
        DirMatch::Pruned => "pruned"@,
        DirMatch::Descend => "descend"@,
        DirMatch::Match => "match"@,
        DirMatch::DescendAndMatch => "descend-match"@,
    }
}

/// A field holds a pattern.
pub open spec fn is_text(field: Seq<u8>) -> bool {
    vstd::utf8::valid_utf8(unescaped(field))
}

/// The pattern that a field holds.
pub open spec fn text(field: Seq<u8>) -> Seq<char> {
    vstd::utf8::decode_utf8(unescaped(field))
}

pub open spec fn all_texts(cols: Seq<Seq<u8>>) -> bool {
    forall|i: int| 0 <= i < cols.len() ==> is_text(#[trigger] cols[i])
}

pub open spec fn texts(cols: Seq<Seq<u8>>) -> Seq<Seq<char>> {
    Seq::new(cols.len(), |i: int| text(cols[i]))
}

/// `r` answers a request for a match or for a verdict.
pub open spec fn answers_one(cols: Seq<Seq<u8>>, opts: CompileOptions, seps: Seps, r: Seq<char>) -> bool {
    if cols.len() < 4 {
        r == "err:BadRequest"@
    } else if !is_text(cols[2]) {
        r == "err:NonUtf8Pattern"@
    } else {
        match glob::compiled(text(cols[2]), opts, seps) {
            Ok(g) => r == if cols[0] == seq![0x6du8] {
                match_answer(g.matches(unescaped(cols[3])))
            } else {
                dir_answer(g.verdict(unescaped(cols[3])))
            },
            Err(e) => r == error_answer(e),
        }
    }
}

/// `r` answers a request for a match of a union.
pub open spec fn answers_union(
    cols: Seq<Seq<u8>>,
    opts: CompileOptions,
    seps: Seps,
    r: Seq<char>,
) -> bool {
    if cols.len() < 4 {
        r == "err:BadRequest"@
    } else if !all_texts(cols.skip(3)) {
        r == "err:NonUtf8Pattern"@
    } else {
        let pats = texts(cols.skip(3));
        if glob::all_admitted(pats, pats.len() as int) {
            r == match_answer(glob::union_of(pats, opts, seps).matches(unescaped(cols[2])))
        } else {
            exists|k: int, e: GlobError| #[trigger]
                glob::refused_at(pats, k, e) && r == error_answer(e)
        }
    }
}

/// `r` answers a line.
pub open spec fn answers(line: Seq<u8>, seps: Seps, r: Seq<char>) -> bool {
    let cols = fields(line);
    if cols.len() < 3 || flags(cols[1]) is None {
        r == "err:BadRequest"@
    } else {
        let opts = flags(cols[1])->0;
        if cols[0] == seq![0x6du8] || cols[0] == seq![0x64u8] {
            answers_one(cols, opts, seps, r)
        } else if cols[0] == seq![0x75u8] {
            answers_union(cols, opts, seps, r)
        } else {
            r == "err:BadRequest"@
        }
    }
}

pub open spec fn cols_view(cols: Seq<Vec<u8>>) -> Seq<Seq<u8>> {
    Seq::new(cols.len(), |i: int| cols[i]@)
}

/// Calls `String::from_utf8`: the string whose UTF-8 encoding the bytes are,
/// or none where the bytes are no UTF-8.
#[verifier::external_body]
fn string_from(bytes: Vec<u8>) -> (r: Option<String>)
    ensures
        match r {
            Some(s) => vstd::utf8::valid_utf8(bytes@) && s@ == vstd::utf8::decode_utf8(bytes@),
            None => !vstd::utf8::valid_utf8(bytes@),
        },
{
    String::from_utf8(bytes).ok()
}

proof fn lemma_fields_tab(b: Seq<u8>, n: int)
    requires
        0 <= n < b.len(),
        forall|k: int| 0 <= k < n ==> b[k] != 0x09,
        b[n] == 0x09,
    ensures
        first_tab(b) == n,
    decreases n,
{
    if n > 0 {
        lemma_fields_tab(b.skip(1), n - 1);
    }
}

proof fn lemma_fields_end(b: Seq<u8>)
    requires
        forall|k: int| 0 <= k < b.len() ==> b[k] != 0x09,
    ensures
        first_tab(b) == b.len(),
    decreases b.len(),
{
    if b.len() > 0 {
        lemma_fields_end(b.skip(1));
    }
}

fn split_fields(line: &[u8]) -> (r: Vec<Vec<u8>>)
    ensures
        cols_view(r@) == fields(line@),
{
    let mut out: Vec<Vec<u8>> = Vec::new();
    let mut cur: Vec<u8> = Vec::new();
    let ghost mut start: int = 0;
    assert(line@.skip(0) =~= line@);
    assert(cols_view(out@) + fields(line@) =~= fields(line@));
    for i in 0..line.len()
        invariant
            0 <= start <= i,
            cur@ == line@.subrange(start, i as int),
            forall|k: int| start <= k < i ==> line@[k] != 0x09,
            cols_view(out@) + fields(line@.skip(start)) == fields(line@),
    {
        if line[i] == 0x09 {
            let ghost before = out@;
            let ghost field = cur@;
            let done: Vec<u8> = cur;
            out.push(done);
            cur = Vec::new();
            proof {
                let rest = line@.skip(start);
                lemma_fields_tab(rest, i - start);
                assert(rest.take(i - start) =~= field);
                assert(rest.skip(i - start + 1) =~= line@.skip(i + 1));
                assert(cols_view(out@) =~= cols_view(before).push(field));
                assert(cols_view(before) + fields(rest) =~= cols_view(out@) + fields(
                    line@.skip(i + 1),
                ));
                start = i + 1;
                assert(cur@ =~= line@.subrange(start, i + 1));
            }
        } else {
            cur.push(line[i]);
            assert(cur@ =~= line@.subrange(start, i + 1));
        }
    }
    let ghost before = out@;
    let ghost field = cur@;
    out.push(cur);
    proof {
        let rest = line@.skip(start);
        lemma_fields_end(rest);
        assert(rest =~= field);
        assert(cols_view(out@) =~= cols_view(before).push(field));
        assert(cols_view(before) + fields(rest) =~= cols_view(out@));
    }
    out
}

/// The value of a hexadecimal digit.
pub fn hex(b: u8) -> (r: Option<u8>)
    ensures
        r == digit(b),
{
    if 0x30 <= b && b <= 0x39 {
        Some(b - 0x30)
    } else if 0x61 <= b && b <= 0x66 {
        Some(b - 0x61 + 10)
    } else if 0x41 <= b && b <= 0x46 {
        Some(b - 0x41 + 10)
    } else {
        None
    }
}

/// What an escaped field stands for. What is no escape stays as it is.
pub fn unescape(b: &[u8]) -> (r: Vec<u8>)
    ensures
        r@ == unescaped(b@),
{
    let mut out: Vec<u8> = Vec::new();
    let mut i: usize = 0;
    assert(b@.skip(0) =~= b@);
    assert(out@ + unescaped(b@) =~= unescaped(b@));
    while i < b.len()
        invariant
            i <= b@.len(),
            out@ + unescaped(b@.skip(i as int)) == unescaped(b@),
        decreases b@.len() - i,
    {
        let ghost rest = b@.skip(i as int);
        let ghost before = out@;
        let ghost at = i as int;
        let left: usize = b.len() - i;
        let mut byte: u8 = b[i];
        let mut width: usize = 1;
        if b[i] == 0x5c && left > 1 && b[i + 1] == 0x5c {
            width = 2;
        } else if b[i] == 0x5c && left > 3 && b[i + 1] == 0x78 {
            match (hex(b[i + 2]), hex(b[i + 3])) {
                (Some(h), Some(l)) => {
                    byte = h * 16 + l;
                    width = 4;
                },
                _ => {},
            }
        }
        out.push(byte);
        i = i + width;
        proof {
            assert(rest.skip(i - at) =~= b@.skip(i as int));
            assert(before + unescaped(rest) =~= out@ + unescaped(b@.skip(i as int)));
        }
    }
    assert(out@ + unescaped(b@.skip(i as int)) =~= out@);
    out
}

/// Two characters: `dot`, then `case_insensitive`, each `0` or `1`.
pub fn parse_flags(b: &[u8]) -> (r: Option<CompileOptions>)
    ensures
        r == flags(b@),
{
    if b.len() != 2 {
        return None;
    }
    Some(CompileOptions { dot: b[0] == 0x31, case_insensitive: b[1] == 0x31 })
}

/// The pattern that an escaped field holds, where it is UTF-8.
pub fn decode_pattern(field: &[u8]) -> (r: Result<String, String>)
    ensures
        match r {
            Ok(s) => is_text(field@) && s@ == text(field@),
            Err(t) => !is_text(field@) && t@ == "err:NonUtf8Pattern"@,
        },
{
    match string_from(unescape(field)) {
        Some(s) => Ok(s),
        None => Err("err:NonUtf8Pattern".to_owned()),
    }
}

pub fn is_match_token(m: bool) -> (r: String)
    ensures
        r@ == match_answer(m),
{
    if m {
        "match".to_owned()
    } else {
        "no-match".to_owned()
    }
}

pub fn dir_token(d: DirMatch) -> (r: String)
    ensures
        r@ == dir_answer(d),
{
    match d {
        DirMatch::Pruned => "pruned".to_owned(),
        DirMatch::Descend => "descend".to_owned(),
        DirMatch::Match => "match".to_owned(),
        DirMatch::DescendAndMatch => "descend-match".to_owned(),
    }
}

pub fn err_token(e: &GlobError) -> (r: String)
    ensures
        r@ == error_answer(*e),
{
    let kind: &str = match e {
        GlobError::Empty => "Empty",
        GlobError::TooLong { .. } => "TooLong",
        GlobError::UnterminatedClass { .. } => "UnterminatedClass",
        GlobError::UnterminatedBrace { .. } => "UnterminatedBrace",
        GlobError::TrailingBackslash => "TrailingBackslash",
        GlobError::BraceNestingTooDeep { .. } => "BraceNestingTooDeep",
        GlobError::InvalidRange { .. } => "InvalidRange",
        GlobError::EmptyPatternSet => "EmptyPatternSet",
        GlobError::NegatedInUnion { .. } => "NegatedInUnion",
    };
    let mut out: String = "err:".to_owned();
    out.append(kind);
    out
}

fn is_command(field: &Vec<u8>, c: u8) -> (r: bool)
    ensures
        r == (field@ == seq![c]),
{
    let r: bool = field.len() == 1 && field[0] == c;
    if r {
        assert(field@ =~= seq![c]);
    }
    r
}

fn bad_request() -> (r: String)
    ensures
        r@ == "err:BadRequest"@,
{
    "err:BadRequest".to_owned()
}

fn handle_one(cols: &Vec<Vec<u8>>, opts: CompileOptions, seps: Seps) -> (r: String)
    requires
        cols@.len() >= 3,
        cols@[0]@ == seq![0x6du8] || cols@[0]@ == seq![0x64u8],
    ensures
        answers_one(cols_view(cols@), opts, seps, r@),
{
    let ghost views = cols_view(cols@);
    if cols.len() < 4 {
        return bad_request();
    }
    assert(views[0] == cols@[0]@ && views[2] == cols@[2]@ && views[3] == cols@[3]@);
    let pattern: String = match decode_pattern(cols[2].as_slice()) {
        Ok(p) => p,
        Err(t) => return t,
    };
    let path: Vec<u8> = unescape(cols[3].as_slice());
    match Glob::new_with_seps(pattern.as_str(), opts, seps) {
        Ok(g) => {
            if is_command(&cols[0], 0x6d) {
                is_match_token(g.is_match(path.as_slice()))
            } else {
                dir_token(g.match_dir(path.as_slice()))
            }
        },
        Err(e) => err_token(&e),
    }
}

fn handle_union(cols: &Vec<Vec<u8>>, opts: CompileOptions, seps: Seps) -> (r: String)
    requires
        cols@.len() >= 3,
    ensures
        answers_union(cols_view(cols@), opts, seps, r@),
{
    let ghost views = cols_view(cols@);
    if cols.len() < 4 {
        return bad_request();
    }
    let ghost rest = views.skip(3);
    let path: Vec<u8> = unescape(cols[2].as_slice());
    let mut patterns: Vec<String> = Vec::new();
    for i in 3..cols.len()
        invariant
            views == cols_view(cols@),
            rest == views.skip(3),
            cols@.len() >= 4,
            patterns@.len() == i - 3,
            forall|k: int|
                0 <= k < i - 3 ==> is_text(#[trigger] rest[k]) && patterns@[k]@ == text(rest[k]),
    {
        assert(rest[i - 3] == cols@[i as int]@);
        match decode_pattern(cols[i].as_slice()) {
            Ok(p) => {
                patterns.push(p);
            },
            Err(t) => {
                return t;
            },
        }
    }
    let mut all: Vec<&str> = Vec::new();
    for i in 0..patterns.len()
        invariant
            all@.len() == i,
            forall|k: int| 0 <= k < i ==> (#[trigger] all@[k])@ == patterns@[k]@,
    {
        all.push(patterns[i].as_str());
    }
    assert(glob::texts_of(all@) =~= texts(rest));
    assert(views[2] == cols@[2]@);
    match Glob::union_with_seps(all.as_slice(), opts, seps) {
        Ok(g) => is_match_token(g.is_match(path.as_slice())),
        Err(e) => err_token(&e),
    }
}

/// Answers one line, with given separators.
pub fn handle_with_seps(line: &str, seps: Seps) -> (r: String)
    ensures
        answers(glob::text_bytes(line@), seps, r@),
{
    let cols: Vec<Vec<u8>> = split_fields(line.as_bytes());
    let ghost views = cols_view(cols@);
    if cols.len() < 3 {
        return bad_request();
    }
    assert(views[0] == cols@[0]@ && views[1] == cols@[1]@);
    let opts: CompileOptions = match parse_flags(cols[1].as_slice()) {
        Some(o) => o,
        None => return bad_request(),
    };
    if is_command(&cols[0], 0x6d) || is_command(&cols[0], 0x64) {
        handle_one(&cols, opts, seps)
    } else if is_command(&cols[0], 0x75) {
        handle_union(&cols, opts, seps)
    } else {
        bad_request()
    }
}

/// Answers one line, with the separators of this platform.
pub fn handle(line: &str) -> (r: String)
    ensures
        exists|seps: Seps| #[trigger] answers(glob::text_bytes(line@), seps, r@),
{
    handle_with_seps(line, Seps::platform())
}

} // verus!
