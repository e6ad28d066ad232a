//! What does not compile, and why.
//!
//! Each law takes a pattern that is well written up to some position, and says
//! which error what stands there gives.

use crate::ast::{ClassItem, SpecNode};
use crate::error::{self, GlobError};
use crate::glob::{self, SpecGlob};
use crate::notation::{self, Letter, Mark, Member};
use crate::options::CompileOptions;
use crate::parser::{self, SequenceContext};
use crate::seps::Seps;
use vstd::prelude::*;

verus! {

/// Marks that a pattern may start with, before something that starts no
/// segment.
pub open spec fn opening(ms: Seq<Mark>) -> bool {
    notation::well(ms, true, false, false) && notation::within(ms, 32) && (ms.len() > 0 ==> ms[0]
        != Mark::Byte(0x21))
}

/// `n` times `!`, the marks, and then `tail`.
pub open spec fn begun(n: nat, ms: Seq<Mark>, tail: Seq<u8>) -> Seq<u8> {
    notation::exclamations(n) + notation::text(ms) + tail
}

/// Where `tail` stands.
pub open spec fn place(n: nat, ms: Seq<Mark>) -> int {
    n as int + notation::text(ms).len()
}

/// Reading gets as far as `tail`.
proof fn lemma_begun(n: nat, ms: Seq<Mark>, tail: Seq<u8>)
    requires
        opening(ms),
        tail.len() > 0,
        tail[0] != 0x2a,
        tail[0] != 0x2f,
        tail[0] != 0x21,
        begun(n, ms, tail).len() <= 65536,
    ensures
        ({
            let s = begun(n, ms, tail);
            let (nodes, lit) = notation::run(ms, seq![], seq![]);
            let r = parser::sequence(s, place(n, ms), 0, SequenceContext::Top, nodes, lit);
            &&& notation::stands(s, place(n, ms), tail)
            &&& r is Err ==> parser::parsed(s) == Err::<(int, SpecNode), GlobError>(r->Err_0)
        }),
{
    let s = begun(n, ms, tail);
    let t = notation::text(ms);
    let e = place(n, ms);
    let ctx = SequenceContext::Top;
    assert(notation::stands(s, n as int, t)) by {
        assert forall|k: int| 0 <= k < t.len() implies s[n + k] == #[trigger] t[k] by {}
    }
    assert(notation::stands(s, e, tail)) by {
        assert forall|k: int| 0 <= k < tail.len() implies s[e + k] == #[trigger] tail[k] by {}
    }
    notation::lemma_first(s, e, tail);
    if ms.len() > 0 {
        let rest = ms.drop_first();
        assert(notation::well_mark(ms[0], true, notation::ends(rest, false), false));
        notation::lemma_head(ms[0], false, true, notation::ends(rest, false));
        notation::lemma_first(s, n as int, t);
        assert(t[0] == notation::mark_text(ms[0])[0]);
        assert(t[0] != 0x21) by {
            if let Mark::Class(b) = ms[0] {
                assert(notation::bracket_text(b)[0] == 0x5b);
            }
        }
    } else {
        assert(t =~= seq![]);
    }
    notation::lemma_bangs(s, 0, n);
    notation::lemma_read_to(ms, s, n as int, 0, ctx, seq![], seq![], true, false);
}

// Lengths.

/// An empty pattern is refused, and so is one of more than 65536 bytes.
pub proof fn law_length_is_limited(text: Seq<char>, opts: CompileOptions, seps: Seps)
    requires
        glob::text_bytes(text).len() <= usize::MAX,
    ensures
        glob::text_bytes(text).len() == 0 ==> glob::compiled(text, opts, seps) == Err::<
            SpecGlob,
            GlobError,
        >(GlobError::Empty),
        glob::text_bytes(text).len() > 65536 ==> glob::compiled(text, opts, seps) == Err::<
            SpecGlob,
            GlobError,
        >(GlobError::TooLong { len: glob::text_bytes(text).len() as usize, max: 65536 }),
{
}

// Escapes.

/// A backslash with nothing behind it is refused.
pub proof fn law_trailing_backslash_is_refused(
    n: nat,
    ms: Seq<Mark>,
    text: Seq<char>,
    opts: CompileOptions,
    seps: Seps,
)
    requires
        opening(ms),
        glob::text_bytes(text) == begun(n, ms, seq![0x5cu8]),
        glob::text_bytes(text).len() <= 65536,
    ensures
        glob::compiled(text, opts, seps) == Err::<SpecGlob, GlobError>(
            GlobError::TrailingBackslash,
        ),
{
    lemma_begun(n, ms, seq![0x5cu8]);
    notation::lemma_first(begun(n, ms, seq![0x5cu8]), place(n, ms), seq![0x5cu8]);
}

// Classes.

proof fn lemma_members_to(
    ms: Seq<Member>,
    s: Seq<u8>,
    p: int,
    start: int,
    done: Seq<ClassItem>,
)
    requires
        notation::well_members(ms),
        notation::stands(s, p, notation::members_text(ms)),
        ({
            let e = p + notation::members_text(ms).len();
            e >= s.len() || s[e] != 0x2d
        }),
    ensures
        parser::class_items(s, p, start, done) == parser::class_items(
            s,
            p + notation::members_text(ms).len(),
            start,
            done + notation::items_of(ms),
        ),
    decreases ms.len(),
{
    if ms.len() == 0 {
        assert(done + notation::items_of(ms) =~= done);
    } else {
        let m = ms[0];
        let less = ms.drop_first();
        let t = notation::member_text(m);
        let u = notation::members_text(less);
        assert(notation::well_member(m));
        assert(notation::well_members(less)) by {
            assert forall|i: int| 0 <= i < less.len() implies notation::well_member(
                #[trigger] less[i],
            ) by {
                assert(less[i] == ms[i + 1]);
            }
        }
        notation::lemma_stands_split(s, p, t, u);
        let e = p + t.len();
        let next = done.push(notation::item_of(m));
        lemma_members_to(less, s, e, start, next);
        assert(next + notation::items_of(less) =~= done + notation::items_of(ms));
        if less.len() > 0 {
            assert(notation::well_member(less[0]));
            notation::lemma_first(s, e, u);
            assert(u[0] == notation::member_text(less[0])[0]);
        }
        match m {
            Member::Single(l) => {
                notation::lemma_letter(l, s, p, start);
            },
            Member::Span(x, y) => {
                let tx = notation::letter_text(x);
                let ty = notation::letter_text(y);
                assert(t =~= tx + (seq![0x2du8] + ty));
                notation::lemma_stands_split(s, p, tx, seq![0x2du8] + ty);
                notation::lemma_stands_split(s, p + tx.len(), seq![0x2du8], ty);
                notation::lemma_first(s, p + tx.len(), seq![0x2du8]);
                notation::lemma_letter(x, s, p, start);
                notation::lemma_letter(y, s, p + tx.len() + 1, start);
            },
        }
    }
}

/// The start of a class: `[`, a negation, and members.
pub open spec fn class_text(negation: Seq<u8>, members: Seq<Member>) -> Seq<u8> {
    seq![0x5bu8] + negation + notation::members_text(members)
}

/// A negation of a class, or none.
pub open spec fn negates(negation: Seq<u8>) -> bool {
    negation == Seq::<u8>::empty() || negation == seq![0x21u8] || negation == seq![0x5eu8]
}

/// The members of a class that was begun are read.
proof fn lemma_class_begun(
    s: Seq<u8>,
    p: int,
    negation: Seq<u8>,
    members: Seq<Member>,
    tail: Seq<u8>,
)
    requires
        negates(negation),
        notation::well_members(members),
        negation.len() == 0 ==> !notation::bang_first(members),
        notation::stands(s, p, class_text(negation, members) + tail),
        s.len() == p + class_text(negation, members).len() + tail.len(),
        tail.len() > 0 ==> tail[0] != 0x2d && tail[0] != 0x5d,
        tail.len() > 0 && negation.len() == 0 && members.len() == 0 ==> tail[0] != 0x21 && tail[0]
            != 0x5e,
    ensures
        ({
            let e = p + class_text(negation, members).len();
            let items = parser::class_items(s, e, p, notation::items_of(members));
            &&& notation::stands(s, e, tail)
            &&& s[p] == 0x5b
            &&& items is Err ==> parser::class_at(s, p) is Err && parser::class_at(s, p)->Err_0
                == items->Err_0
        }),
{
    let head = seq![0x5bu8] + negation;
    let t = notation::members_text(members);
    let q = p + head.len();
    notation::lemma_stands_split(s, p, class_text(negation, members), tail);
    notation::lemma_stands_split(s, p, head, t);
    notation::lemma_first(s, p, head);
    if negation.len() > 0 {
        assert(s[p + 1] == head[1]);
    }
    if tail.len() > 0 {
        notation::lemma_first(s, q + t.len(), tail);
    }
    if members.len() > 0 {
        assert(notation::well_member(members[0]));
        notation::lemma_first(s, q, t);
        assert(t[0] == notation::member_text(members[0])[0]);
    } else {
        assert(t =~= seq![]);
    }
    assert(parser::items_start(s, p) == q);
    lemma_members_to(members, s, q, p, seq![]);
    assert(Seq::<ClassItem>::empty() + notation::items_of(members) =~= notation::items_of(members));
}

/// A class that nothing closes is refused, and so is one with a `/` in it. The
/// error tells where the `[` stands.
pub proof fn law_open_class_is_refused(
    n: nat,
    ms: Seq<Mark>,
    negation: Seq<u8>,
    members: Seq<Member>,
    tail: Seq<u8>,
    text: Seq<char>,
    opts: CompileOptions,
    seps: Seps,
)
    requires
        opening(ms),
        negates(negation),
        notation::well_members(members),
        negation.len() == 0 ==> !notation::bang_first(members),
        tail.len() > 0 ==> tail[0] == 0x2f,
        glob::text_bytes(text) == begun(n, ms, class_text(negation, members) + tail),
        glob::text_bytes(text).len() <= 65536,
    ensures
        glob::compiled(text, opts, seps) == Err::<SpecGlob, GlobError>(
            GlobError::UnterminatedClass { at: place(n, ms) as usize },
        ),
{
    let rest = class_text(negation, members) + tail;
    let s = begun(n, ms, rest);
    let p = place(n, ms);
    lemma_begun(n, ms, rest);
    lemma_class_begun(s, p, negation, members, tail);
    let e = p + class_text(negation, members).len();
    if tail.len() > 0 {
        notation::lemma_first(s, e, tail);
    }
}

/// A range that runs backwards is refused. The error tells its ends, and where
/// the `[` stands.
pub proof fn law_backward_range_is_refused(
    n: nat,
    ms: Seq<Mark>,
    negation: Seq<u8>,
    members: Seq<Member>,
    low: Letter,
    high: Letter,
    tail: Seq<u8>,
    text: Seq<char>,
    opts: CompileOptions,
    seps: Seps,
)
    requires
        opening(ms),
        negates(negation),
        notation::well_members(members),
        negation.len() == 0 ==> !notation::bang_first(members.push(Member::Span(low, high))),
        notation::well_letter(low),
        notation::well_letter(high),
        high.byte < low.byte,
        glob::text_bytes(text) == begun(
            n,
            ms,
            class_text(negation, members) + (notation::letter_text(low) + seq![0x2du8]
                + notation::letter_text(high) + tail),
        ),
        glob::text_bytes(text).len() <= 65536,
    ensures
        glob::compiled(text, opts, seps) == Err::<SpecGlob, GlobError>(
            GlobError::InvalidRange { at: place(n, ms) as usize, low: low.byte, high: high.byte },
        ),
{
    let back = notation::letter_text(low) + seq![0x2du8] + notation::letter_text(high) + tail;
    let rest = class_text(negation, members) + back;
    let s = begun(n, ms, rest);
    let p = place(n, ms);
    let e = p + class_text(negation, members).len();
    lemma_begun(n, ms, rest);
    assert(back[0] == notation::letter_text(low)[0]);
    let more = members.push(Member::Span(low, high));
    if members.len() > 0 {
        assert(more[0] == members[0]);
    } else {
        assert(more[0] == Member::Span(low, high));
    }
    lemma_class_begun(s, p, negation, members, back);
    lemma_backwards(s, e, p, low, high, tail, notation::items_of(members));
    assert(s[p] == 0x5b);
    assert(parser::class_at(s, p) is Err);
}

proof fn lemma_backwards(
    s: Seq<u8>,
    e: int,
    p: int,
    low: Letter,
    high: Letter,
    tail: Seq<u8>,
    done: Seq<ClassItem>,
)
    requires
        notation::well_letter(low),
        notation::well_letter(high),
        high.byte < low.byte,
        notation::stands(
            s,
            e,
            notation::letter_text(low) + seq![0x2du8] + notation::letter_text(high) + tail,
        ),
    ensures
        parser::class_items(s, e, p, done) == Err::<(Seq<ClassItem>, int), GlobError>(
            GlobError::InvalidRange { at: p as usize, low: low.byte, high: high.byte },
        ),
{
    let tl = notation::letter_text(low);
    let th = notation::letter_text(high);
    let back = tl + seq![0x2du8] + th + tail;
    assert(back =~= tl + (seq![0x2du8] + (th + tail)));
    notation::lemma_stands_split(s, e, tl, seq![0x2du8] + (th + tail));
    notation::lemma_stands_split(s, e + tl.len(), seq![0x2du8], th + tail);
    notation::lemma_first(s, e + tl.len(), seq![0x2du8]);
    notation::lemma_stands_split(s, e + tl.len() + 1, th, tail);
    notation::lemma_letter(low, s, e, p);
    notation::lemma_letter(high, s, e + tl.len() + 1, p);
}

// Braces.

/// The branch reads the same wherever it stands.
pub open spec fn anywhere(b: Seq<Mark>) -> bool {
    notation::well(b, true, true, true) && notation::well(b, true, false, true) && notation::well(
        b,
        false,
        true,
        true,
    ) && notation::well(b, false, false, true) && notation::within(b, 31)
}

/// Branches with commas between them, and nothing that closes them.
pub open spec fn open_text(bs: Seq<Seq<Mark>>) -> Seq<u8>
    decreases bs.len(),
{
    if bs.len() == 0 {
        seq![]
    } else if bs.len() == 1 {
        notation::text(bs[0])
    } else {
        notation::text(bs[0]) + (seq![0x2cu8] + open_text(bs.drop_first()))
    }
}

proof fn lemma_open_branches(
    bs: Seq<Seq<Mark>>,
    s: Seq<u8>,
    p: int,
    fresh: bool,
    next: bool,
    start: int,
    done: Seq<SpecNode>,
)
    requires
        bs.len() > 0,
        forall|i: int| 0 <= i < bs.len() ==> anywhere(#[trigger] bs[i]),
        notation::stands(s, p, open_text(bs)),
        s.len() == p + open_text(bs).len(),
    ensures
        parser::branches(
            s,
            p,
            1,
            SequenceContext::Brace { prev_boundary: fresh, next_boundary: next },
            start,
            done,
        ) == Err::<(Seq<SpecNode>, int), GlobError>(
            GlobError::UnterminatedBrace { at: start as usize },
        ),
    decreases bs.len(),
{
    let ctx = SequenceContext::Brace { prev_boundary: fresh, next_boundary: next };
    let b = bs[0];
    let t = notation::text(b);
    let e = p + t.len();
    assert(anywhere(b));
    if bs.len() == 1 {
        notation::lemma_read(b, s, p, 1, ctx, seq![], seq![], fresh, true);
    } else {
        let less = bs.drop_first();
        let u = open_text(less);
        notation::lemma_stands_split(s, p, t, seq![0x2cu8] + u);
        notation::lemma_stands_split(s, e, seq![0x2cu8], u);
        notation::lemma_first(s, e, seq![0x2cu8]);
        notation::lemma_read(b, s, p, 1, ctx, seq![], seq![], fresh, next);
        assert forall|i: int| 0 <= i < less.len() implies anywhere(#[trigger] less[i]) by {
            assert(less[i] == bs[i + 1]);
        }
        lemma_open_branches(
            less,
            s,
            e + 1,
            fresh,
            next,
            start,
            done.push(notation::tree(b)),
        );
    }
}

/// A brace that nothing closes is refused. The error tells where it stands.
pub proof fn law_open_brace_is_refused(
    n: nat,
    ms: Seq<Mark>,
    bs: Seq<Seq<Mark>>,
    text: Seq<char>,
    opts: CompileOptions,
    seps: Seps,
)
    requires
        opening(ms),
        bs.len() > 0,
        forall|i: int| 0 <= i < bs.len() ==> anywhere(#[trigger] bs[i]),
        glob::text_bytes(text) == begun(n, ms, seq![0x7bu8] + open_text(bs)),
        glob::text_bytes(text).len() <= 65536,
    ensures
        glob::compiled(text, opts, seps) == Err::<SpecGlob, GlobError>(
            GlobError::UnterminatedBrace { at: place(n, ms) as usize },
        ),
{
    let rest = seq![0x7bu8] + open_text(bs);
    let s = begun(n, ms, rest);
    let p = place(n, ms);
    let ctx = SequenceContext::Top;
    lemma_begun(n, ms, rest);
    notation::lemma_stands_split(s, p, seq![0x7bu8], open_text(bs));
    notation::lemma_first(s, p, seq![0x7bu8]);
    let (nodes, lit) = notation::run(ms, seq![], seq![]);
    let (single, after) = parser::look_ahead(s, p + 1, 0, true, ctx);
    lemma_open_branches(
        bs,
        s,
        p + 1,
        !single && lit.len() == 0 && ctx.starts_segment(nodes),
        !single && after,
        p,
        seq![],
    );
}

proof fn lemma_nested(
    s: Seq<u8>,
    p: int,
    depth: int,
    ctx: SequenceContext,
    nodes: Seq<SpecNode>,
    lit: Seq<u8>,
)
    requires
        0 <= p,
        0 <= depth <= 32,
        p + (33 - depth) <= s.len(),
        forall|k: int| p <= k < p + (33 - depth) ==> #[trigger] s[k] == 0x7b,
    ensures
        parser::sequence(s, p, depth, ctx, nodes, lit) == Err::<(SpecNode, int), GlobError>(
            GlobError::BraceNestingTooDeep { max: 32 },
        ),
    decreases 32 - depth,
{
    assert(s[p] == 0x7b);
    if depth < 32 {
        let (single, after) = parser::look_ahead(s, p + 1, 0, true, ctx);
        let inner = SequenceContext::Brace {
            prev_boundary: !single && lit.len() == 0 && ctx.starts_segment(nodes),
            next_boundary: !single && after,
        };
        lemma_nested(s, p + 1, depth + 1, inner, seq![], seq![]);
        assert(parser::branches(s, p + 1, depth + 1, inner, p, seq![]) is Err);
    }
}

/// Braces that open more than 32 deep are refused, whatever follows them.
pub proof fn law_nesting_is_limited(
    n: nat,
    deep: nat,
    tail: Seq<u8>,
    text: Seq<char>,
    opts: CompileOptions,
    seps: Seps,
)
    requires
        deep > 32,
        glob::text_bytes(text) == notation::exclamations(n) + Seq::new(deep, |i: int| 0x7bu8)
            + tail,
        glob::text_bytes(text).len() <= 65536,
    ensures
        glob::compiled(text, opts, seps) == Err::<SpecGlob, GlobError>(
            GlobError::BraceNestingTooDeep { max: 32 },
        ),
{
    let s = glob::text_bytes(text);
    notation::lemma_bangs(s, 0, n);
    lemma_nested(s, n as int, 0, SequenceContext::Top, seq![], seq![]);
}

// Unions.

/// A union is refused for the first of its patterns that does not compile, with
/// the error that this one gives alone, or that is negated, and then the error
/// tells which one it is.
pub proof fn law_union_is_refused_for_its_first_bad_pattern(
    texts: Seq<Seq<char>>,
    k: int,
    e: GlobError,
    opts: CompileOptions,
    seps: Seps,
)
    requires
        glob::refused_at(texts, k, e),
    ensures
        0 <= k < texts.len(),
        forall|i: int|
            0 <= i < k ==> (glob::compiled(#[trigger] texts[i], opts, seps) matches Ok(g)
                && !g.negated),
        match glob::compiled(texts[k], opts, seps) {
            Ok(g) => g.negated && (e matches GlobError::NegatedInUnion { index, pattern } && index
                == k && pattern@ == texts[k]),
            Err(own) => e == own,
        },
{
    assert forall|i: int| 0 <= i < k implies (glob::compiled(
        #[trigger] texts[i],
        opts,
        seps,
    ) matches Ok(g) && !g.negated) by {
        assert(glob::admitted(texts[i]));
        lemma_counted(texts[i]);
    }
    lemma_counted(texts[k]);
}

proof fn lemma_counted(text: Seq<char>)
    ensures
        parser::parsed(glob::text_bytes(text)) matches Ok((bangs, body)) ==> bangs >= 0,
{
    lemma_bangs_count(glob::text_bytes(text), 0);
}

proof fn lemma_bangs_count(s: Seq<u8>, p: int)
    ensures
        parser::bangs(s, p) >= 0,
    decreases parser::left(s, p),
{
    if p < s.len() && s[p] == 0x21 {
        lemma_bangs_count(s, p + 1);
    }
}

// Numbers.

/// The number that decimal digits stand for.
pub open spec fn number(digits: Seq<char>) -> int
    decreases digits.len(),
{
    if digits.len() == 0 {
        0
    } else {
        10 * number(digits.drop_last()) + (digits.last() as int - 0x30)
    }
}

/// A number in the text of an error reads as that number, and starts with no
/// `0` unless it is one.
pub proof fn law_numbers_read_as_they_are(n: nat)
    ensures
        number(error::decimal(n)) == n,
        error::decimal(n).len() > 0,
        n > 0 ==> error::decimal(n)[0] != '0',
        forall|i: int|
            0 <= i < error::decimal(n).len() ==> '0' <= #[trigger] error::decimal(n)[i] <= '9',
    decreases n,
{
    let cs = error::decimal(n);
    assert(error::digit(n % 10) as int == 0x30 + n % 10);
    if n < 10 {
        assert(cs.drop_last() =~= seq![]);
        assert(number(cs.drop_last()) == 0);
    } else {
        law_numbers_read_as_they_are(n / 10);
        assert(cs.drop_last() =~= error::decimal(n / 10));
        assert(cs[0] == error::decimal(n / 10)[0]);
    }
}

} // verus!
