//! How a pattern is written, mark by mark, and how it reads.
//!
//! A pattern is a sequence of marks. [`text`] writes the marks down as bytes,
//! and [`tree`] is the syntax tree that those bytes stand for. The proofs show
//! that reading what was written gives that tree back.

use crate::ast::{ClassItem, SpecClass, SpecNode};
use crate::error::{GlobError, MAX_BRACE_NESTING};
use crate::parser::{self, SequenceContext};
use vstd::prelude::*;

verus! {

/// A byte of a class, as it is or behind a backslash.
#[verifier::ext_equal]
pub struct Letter {
    pub byte: u8,
    pub escaped: bool,
}

/// A member of a class: one byte, or all from one to another.
#[verifier::ext_equal]
pub enum Member {
    Single(Letter),
    Span(Letter, Letter),
}

/// A class: `[`, a `!` or `^` where it is negated, a `]` that is a member, the
/// other members, a `-` that is one too, and `]`.
#[verifier::ext_equal]
pub struct Bracket {
    pub negation: Seq<u8>,
    pub closing: bool,
    pub members: Seq<Member>,
    pub dash: bool,
}

/// One mark of a pattern.
#[verifier::ext_equal]
pub enum Mark {
    /// A byte that stands for itself.
    Byte(u8),
    /// A byte behind a backslash.
    Escaped(u8),
    /// `/`
    Slash,
    /// `?`
    One,
    /// `*`
    Many,
    /// `**` in a segment of its own.
    Deep,
    /// `[...]`
    Class(Bracket),
    /// `{...,...}`
    Either(Seq<Seq<Mark>>),
}

// Writing.

pub open spec fn letter_text(l: Letter) -> Seq<u8> {
    if l.escaped {
        seq![0x5cu8, l.byte]
    } else {
        seq![l.byte]
    }
}

pub open spec fn member_text(m: Member) -> Seq<u8> {
    match m {
        Member::Single(l) => letter_text(l),
        Member::Span(a, b) => letter_text(a) + seq![0x2du8] + letter_text(b),
    }
}

pub open spec fn members_text(ms: Seq<Member>) -> Seq<u8>
    decreases ms.len(),
{
    if ms.len() == 0 {
        seq![]
    } else {
        member_text(ms[0]) + members_text(ms.drop_first())
    }
}

/// The byte `b` where `there` holds, and nothing elsewhere.
pub open spec fn maybe(there: bool, b: u8) -> Seq<u8> {
    if there {
        seq![b]
    } else {
        seq![]
    }
}

/// The members of a class and what closes it.
pub open spec fn inside_text(b: Bracket) -> Seq<u8> {
    members_text(b.members) + (maybe(b.dash, 0x2d) + seq![0x5du8])
}

pub open spec fn bracket_text(b: Bracket) -> Seq<u8> {
    (seq![0x5bu8] + b.negation) + (maybe(b.closing, 0x5d) + inside_text(b))
}

pub open spec fn mark_text(m: Mark) -> Seq<u8>
    decreases m, 0int,
{
    match m {
        Mark::Byte(b) => seq![b],
        Mark::Escaped(b) => seq![0x5cu8, b],
        Mark::Slash => seq![0x2fu8],
        Mark::One => seq![0x3fu8],
        Mark::Many => seq![0x2au8],
        Mark::Deep => seq![0x2au8, 0x2au8],
        Mark::Class(b) => bracket_text(b),
        Mark::Either(bs) => seq![0x7bu8] + branches_text(bs),
    }
}

/// The bytes that the marks are written as.
pub open spec fn text(ms: Seq<Mark>) -> Seq<u8>
    decreases ms, 0int,
{
    if ms.len() == 0 {
        seq![]
    } else {
        mark_text(ms[0]) + text(ms.drop_first())
    }
}

/// The branches of a brace with commas between them, and its `}`.
pub open spec fn branches_text(bs: Seq<Seq<Mark>>) -> Seq<u8>
    decreases bs, 0int,
{
    if bs.len() == 0 {
        seq![]
    } else if bs.len() == 1 {
        text(bs[0]) + seq![0x7du8]
    } else {
        text(bs[0]) + (seq![0x2cu8] + branches_text(bs.drop_first()))
    }
}

// What is well written.

/// A letter of a class is no separator, and what has a meaning of its own in a
/// class stands behind a backslash.
pub open spec fn well_letter(l: Letter) -> bool {
    l.byte != 0x2f && (l.escaped || !(l.byte == 0x5c || l.byte == 0x5d || l.byte == 0x2d))
}

/// A `!` or a `^` that would negate a class as its first byte.
pub open spec fn bang(l: Letter) -> bool {
    !l.escaped && (l.byte == 0x21 || l.byte == 0x5e)
}

/// The members start with such a letter.
pub open spec fn bang_first(ms: Seq<Member>) -> bool {
    ms.len() > 0 && match ms[0] {
        Member::Single(l) => bang(l),
        Member::Span(a, _) => bang(a),
    }
}

pub open spec fn well_member(m: Member) -> bool {
    match m {
        Member::Single(l) => well_letter(l),
        Member::Span(a, b) => well_letter(a) && well_letter(b) && a.byte <= b.byte,
    }
}

pub open spec fn well_members(ms: Seq<Member>) -> bool {
    forall|i: int| 0 <= i < ms.len() ==> well_member(#[trigger] ms[i])
}

pub open spec fn well_bracket(b: Bracket) -> bool {
    (b.negation == Seq::<u8>::empty() || b.negation == seq![0x21u8] || b.negation == seq![0x5eu8])
        && (b.closing || b.members.len() > 0 || b.dash) && well_members(b.members) && (
    b.negation.len() == 0 && !b.closing ==> !bang_first(b.members))
}

/// A byte that has a meaning of its own, in a brace or outside of it.
pub open spec fn special(b: u8, inside: bool) -> bool {
    b == 0x5c || b == 0x2f || b == 0x3f || b == 0x2a || b == 0x5b || b == 0x7b || (inside && (b
        == 0x2c || b == 0x7d))
}

/// A segment ends with the mark, whichever way is taken through it.
pub open spec fn shut(m: Mark) -> bool
    decreases m, 0int,
{
    match m {
        Mark::Slash => true,
        Mark::Either(bs) => bs.len() > 0 && all_shut(bs),
        _ => false,
    }
}

pub open spec fn all_shut(bs: Seq<Seq<Mark>>) -> bool
    decreases bs, 0int,
{
    forall|i: int| 0 <= i < bs.len() ==> shut_end(#[trigger] bs[i])
}

/// A segment ends with the last mark.
pub open spec fn shut_end(ms: Seq<Mark>) -> bool
    decreases ms, 0int,
{
    ms.len() > 0 && shut(ms[ms.len() - 1])
}

/// A segment ends where `ms` follow, `next` telling whether one ends behind
/// them.
pub open spec fn ends(ms: Seq<Mark>, next: bool) -> bool {
    if ms.len() == 0 {
        next
    } else {
        ms[0] is Slash
    }
}

/// The marks can be read back one by one: bytes have no meaning of their own,
/// a `**` has its segment for itself and follows no other, and two `*` in a row
/// have not. A segment starts at the marks where `fresh` holds, one ends behind
/// them where `next` does, and they stand in a brace where `inside` does.
pub open spec fn well(ms: Seq<Mark>, fresh: bool, next: bool, inside: bool) -> bool
    decreases ms, 0int,
{
    if ms.len() == 0 {
        true
    } else {
        let m = ms[0];
        let rest = ms.drop_first();
        &&& well_mark(m, fresh, ends(rest, next), inside)
        &&& m is Many && rest.len() > 0 && rest[0] is Many ==> !(fresh && ends(
            rest.drop_first(),
            next,
        ))
        &&& m is Deep && rest.len() > 1 ==> !(rest[1] is Deep)
        &&& well(rest, shut(m), next, inside)
    }
}

pub open spec fn well_mark(m: Mark, fresh: bool, next: bool, inside: bool) -> bool
    decreases m, 0int,
{
    match m {
        Mark::Byte(b) => !special(b, inside),
        Mark::Deep => fresh && next,
        Mark::Class(b) => well_bracket(b),
        Mark::Either(bs) => bs.len() > 1 && all_well(bs, fresh, next),
        _ => true,
    }
}

pub open spec fn all_well(bs: Seq<Seq<Mark>>, fresh: bool, next: bool) -> bool
    decreases bs, 0int,
{
    forall|i: int| 0 <= i < bs.len() ==> well(#[trigger] bs[i], fresh, next, true)
}

/// The marks nest braces at most `depth` deep.
pub open spec fn within(ms: Seq<Mark>, depth: int) -> bool
    decreases ms, 0int,
{
    forall|i: int| 0 <= i < ms.len() ==> mark_within(#[trigger] ms[i], depth)
}

pub open spec fn mark_within(m: Mark, depth: int) -> bool
    decreases m, 0int,
{
    match m {
        Mark::Either(bs) => depth > 0 && all_within(bs, depth - 1),
        _ => true,
    }
}

pub open spec fn all_within(bs: Seq<Seq<Mark>>, depth: int) -> bool
    decreases bs, 0int,
{
    forall|i: int| 0 <= i < bs.len() ==> within(#[trigger] bs[i], depth)
}

// What is read.

pub open spec fn item_of(m: Member) -> ClassItem {
    match m {
        Member::Single(l) => ClassItem::Byte(l.byte),
        Member::Span(a, b) => ClassItem::Range(a.byte, b.byte),
    }
}

pub open spec fn items_of(ms: Seq<Member>) -> Seq<ClassItem> {
    Seq::new(ms.len(), |i: int| item_of(ms[i]))
}

pub open spec fn maybe_item(there: bool, b: u8) -> Seq<ClassItem> {
    if there {
        seq![ClassItem::Byte(b)]
    } else {
        seq![]
    }
}

pub open spec fn class_of(b: Bracket) -> SpecClass {
    SpecClass {
        negated: b.negation.len() > 0,
        items: maybe_item(b.closing, 0x5d) + items_of(b.members) + maybe_item(b.dash, 0x2d),
    }
}

pub open spec fn node_of(m: Mark) -> SpecNode
    decreases m, 0int,
{
    match m {
        Mark::Byte(b) => SpecNode::Literal(seq![b]),
        Mark::Escaped(b) => SpecNode::Literal(seq![b]),
        Mark::Slash => SpecNode::Separator,
        Mark::One => SpecNode::AnyChar,
        Mark::Many => SpecNode::Star,
        Mark::Deep => SpecNode::Globstar,
        Mark::Class(b) => SpecNode::Class(class_of(b)),
        Mark::Either(bs) => SpecNode::Brace(trees(bs)),
    }
}

/// The nodes behind `nodes` and the literal bytes `lit`, with the literal bytes
/// that are collected at the end.
pub open spec fn run(ms: Seq<Mark>, nodes: Seq<SpecNode>, lit: Seq<u8>) -> (
    Seq<SpecNode>,
    Seq<u8>,
)
    decreases ms, 0int,
{
    if ms.len() == 0 {
        (nodes, lit)
    } else {
        match ms[0] {
            Mark::Byte(b) => run(ms.drop_first(), nodes, lit.push(b)),
            Mark::Escaped(b) => run(ms.drop_first(), nodes, lit.push(b)),
            m => run(ms.drop_first(), parser::flushed(nodes, lit).push(node_of(m)), seq![]),
        }
    }
}

/// All nodes behind `nodes` and the literal bytes `lit`.
pub open spec fn nodes_of(ms: Seq<Mark>, nodes: Seq<SpecNode>, lit: Seq<u8>) -> Seq<SpecNode>
    decreases ms, 1int,
{
    parser::flushed(run(ms, nodes, lit).0, run(ms, nodes, lit).1)
}

/// The syntax tree of the marks.
pub open spec fn tree(ms: Seq<Mark>) -> SpecNode
    decreases ms, 2int,
{
    parser::gathered(nodes_of(ms, seq![], seq![]))
}

pub open spec fn trees(bs: Seq<Seq<Mark>>) -> Seq<SpecNode>
    decreases bs, 0int,
{
    Seq::new(
        bs.len(),
        |i: int|
            if 0 <= i < bs.len() {
                tree(bs[i])
            } else {
                SpecNode::Separator
            },
    )
}

// Bytes at a position.

/// The bytes `t` stand at `p`.
pub open spec fn stands(s: Seq<u8>, p: int, t: Seq<u8>) -> bool {
    0 <= p && p + t.len() <= s.len() && forall|k: int|
        0 <= k < t.len() ==> s[p + k] == #[trigger] t[k]
}

pub proof fn lemma_stands_split(s: Seq<u8>, p: int, a: Seq<u8>, b: Seq<u8>)
    requires
        stands(s, p, a + b),
    ensures
        stands(s, p, a),
        stands(s, p + a.len(), b),
{
    let t = a + b;
    assert forall|k: int| 0 <= k < a.len() implies s[p + k] == #[trigger] a[k] by {
        assert(t[k] == a[k]);
    }
    assert forall|k: int| 0 <= k < b.len() implies s[p + a.len() + k] == #[trigger] b[k] by {
        assert(t[a.len() + k] == b[k]);
    }
}

/// The byte at `p` is the first of those that stand there.
pub proof fn lemma_first(s: Seq<u8>, p: int, t: Seq<u8>)
    requires
        stands(s, p, t),
        t.len() > 0,
    ensures
        s[p] == t[0],
        p < s.len(),
{
    assert(s[p + 0] == t[0]);
}

/// A sequence in `ctx` stops at `e`.
pub open spec fn closes(s: Seq<u8>, e: int, ctx: SequenceContext) -> bool {
    e >= s.len() || (ctx is Brace && (s[e] == 0x2c || s[e] == 0x7d))
}

/// What stands at `e` goes on neither a `*` nor a `**` before it.
pub open spec fn fenced(s: Seq<u8>, e: int) -> bool {
    e >= s.len() || (s[e] != 0x2a && s[e] != 0x2f)
}

// Classes.

pub proof fn lemma_letter(l: Letter, s: Seq<u8>, p: int, start: int)
    requires
        well_letter(l),
        stands(s, p, letter_text(l)),
    ensures
        parser::class_byte(s, p, start) == Ok::<(u8, int), GlobError>(
            (l.byte, p + letter_text(l).len()),
        ),
        s[p] != 0x5d,
        s[p] != 0x2d,
        s[p] != 0x2f,
        p < s.len(),
        parser::skim_members(s, p) == parser::skim_members(s, p + letter_text(l).len()),
{
    lemma_first(s, p, letter_text(l));
    if l.escaped {
        assert(s[p + 1] == letter_text(l)[1]);
    }
}

proof fn lemma_members_head(b: Bracket)
    requires
        well_members(b.members),
    ensures
        inside_text(b).len() > 0,
        b.members.len() == 0 && !b.dash ==> inside_text(b)[0] == 0x5d,
        b.members.len() == 0 && b.dash ==> inside_text(b)[0] == 0x2d,
        b.members.len() > 0 ==> inside_text(b)[0] != 0x5d && inside_text(b)[0] != 0x2d,
        b.members.len() > 0 && !bang_first(b.members) ==> inside_text(b)[0] != 0x21 && inside_text(
            b,
        )[0] != 0x5e,
{
    if b.members.len() > 0 {
        assert(well_member(b.members[0]));
        let t = member_text(b.members[0]);
        assert(inside_text(b)[0] == members_text(b.members)[0]);
        assert(members_text(b.members)[0] == t[0]);
    } else {
        assert(members_text(b.members) =~= seq![]);
    }
}

#[verifier::rlimit(40)]
proof fn lemma_members(b: Bracket, s: Seq<u8>, p: int, start: int, done: Seq<ClassItem>)
    requires
        well_members(b.members),
        stands(s, p, inside_text(b)),
    ensures
        parser::class_items(s, p, start, done) == Ok::<(Seq<ClassItem>, int), GlobError>(
            (
                done + items_of(b.members) + maybe_item(b.dash, 0x2d),
                p + inside_text(b).len(),
            ),
        ),
        parser::skim_members(s, p) == p + inside_text(b).len() - 1,
    decreases b.members.len(),
{
    if b.members.len() == 0 {
        let t = maybe(b.dash, 0x2d) + seq![0x5du8];
        assert(inside_text(b) =~= t);
        lemma_first(s, p, t);
        if b.dash {
            assert(s[p + 1] == t[1]);
            assert(parser::class_items(s, p + 1, start, done.push(ClassItem::Byte(0x2d))) is Ok);
            assert(done + items_of(b.members) + maybe_item(b.dash, 0x2d) =~= done.push(
                ClassItem::Byte(0x2d),
            ));
            assert(parser::skim_members(s, p + 1) == p + 1);
        } else {
            assert(done + items_of(b.members) + maybe_item(b.dash, 0x2d) =~= done);
        }
    } else {
        let m = b.members[0];
        let less = Bracket { members: b.members.drop_first(), ..b };
        let t = member_text(m);
        let u = inside_text(less);
        assert(inside_text(b) =~= t + u);
        assert(well_member(m));
        assert(well_members(less.members)) by {
            assert forall|i: int| 0 <= i < less.members.len() implies well_member(
                #[trigger] less.members[i],
            ) by {
                assert(less.members[i] == b.members[i + 1]);
            }
        }
        lemma_stands_split(s, p, t, u);
        let e = p + t.len();
        let next = done.push(item_of(m));
        lemma_members(less, s, e, start, next);
        assert(next + items_of(less.members) + maybe_item(b.dash, 0x2d) =~= done + items_of(
            b.members,
        ) + maybe_item(b.dash, 0x2d));
        lemma_members_head(less);
        lemma_first(s, e, u);
        match m {
            Member::Single(l) => {
                lemma_letter(l, s, p, start);
                assert(!parser::range_at(s, e)) by {
                    if less.members.len() == 0 && b.dash {
                        assert(u =~= seq![0x2du8, 0x5du8]);
                        assert(s[e + 1] == u[1]);
                    }
                }
            },
            Member::Span(x, y) => {
                let tx = letter_text(x);
                let ty = letter_text(y);
                assert(t =~= tx + (seq![0x2du8] + ty));
                lemma_stands_split(s, p, tx, seq![0x2du8] + ty);
                lemma_stands_split(s, p + tx.len(), seq![0x2du8], ty);
                lemma_first(s, p + tx.len(), seq![0x2du8]);
                lemma_letter(x, s, p, start);
                lemma_letter(y, s, p + tx.len() + 1, start);
                assert(parser::skim_members(s, p + tx.len()) == parser::skim_members(
                    s,
                    p + tx.len() + 1,
                ));
            },
        }
    }
}

proof fn lemma_bracket(b: Bracket, s: Seq<u8>, p: int)
    requires
        well_bracket(b),
        stands(s, p, bracket_text(b)),
    ensures
        parser::class_at(s, p) == Ok::<(SpecClass, int), GlobError>(
            (class_of(b), p + bracket_text(b).len()),
        ),
        parser::skim_class(s, p) == p + bracket_text(b).len(),
        bracket_text(b)[0] == 0x5b,
{
    let head = seq![0x5bu8] + b.negation;
    let mid = maybe(b.closing, 0x5d);
    let tail = inside_text(b);
    lemma_stands_split(s, p, head, mid + tail);
    let q = p + head.len();
    lemma_stands_split(s, q, mid, tail);
    lemma_members_head(b);
    lemma_first(s, q + mid.len(), tail);
    if b.negation.len() > 0 {
        assert(s[p + 1] == head[1]);
    }
    if b.closing {
        lemma_first(s, q, mid);
    }
    assert(parser::items_start(s, p) == q);
    lemma_members(b, s, q + mid.len(), p, maybe_item(b.closing, 0x5d));
    assert(maybe_item(true, 0x5d) =~= seq![ClassItem::Byte(0x5d)]);
}

// How a mark starts.

pub proof fn lemma_head(m: Mark, inside: bool, fresh: bool, next: bool)
    requires
        well_mark(m, fresh, next, inside),
    ensures
        mark_text(m).len() > 0,
        mark_text(m)[0] == 0x2f <==> m is Slash,
        mark_text(m)[0] == 0x2a <==> m is Many || m is Deep,
        inside ==> mark_text(m)[0] != 0x2c && mark_text(m)[0] != 0x7d,
        m is Many ==> mark_text(m).len() == 1,
        m is Slash ==> mark_text(m).len() == 1,
{
    if let Mark::Class(b) = m {
        assert(bracket_text(b)[0] == 0x5b);
    }
}

/// Whether a segment ends before `ms` can be told from their first byte.
proof fn lemma_ends(
    ms: Seq<Mark>,
    s: Seq<u8>,
    p: int,
    ctx: SequenceContext,
    fresh: bool,
    next: bool,
)
    requires
        well(ms, fresh, next, ctx is Brace),
        stands(s, p, text(ms)),
        ctx.ends_segment(s, p + text(ms).len()) == next,
        fenced(s, p + text(ms).len()),
    ensures
        ctx.ends_segment(s, p) == ends(ms, next),
        ms.len() > 0 ==> p < s.len() && s[p] == mark_text(ms[0])[0],
        p < s.len() && s[p] == 0x2a ==> ms.len() > 0 && (ms[0] is Many || ms[0] is Deep),
        p < s.len() && s[p] == 0x2f ==> ms.len() > 0 && ms[0] is Slash,
        ms.len() > 0 ==> !closes(s, p, ctx),
{
    if ms.len() > 0 {
        let rest = ms.drop_first();
        lemma_head(ms[0], ctx is Brace, fresh, ends(rest, next));
        lemma_first(s, p, text(ms));
        assert(text(ms)[0] == mark_text(ms[0])[0]);
    }
}

/// The marks behind the first one stand behind it.
proof fn lemma_rest(ms: Seq<Mark>, s: Seq<u8>, p: int)
    requires
        ms.len() > 0,
        stands(s, p, text(ms)),
    ensures
        stands(s, p, mark_text(ms[0])),
        stands(s, p + mark_text(ms[0]).len(), text(ms.drop_first())),
        p + text(ms).len() == p + mark_text(ms[0]).len() + text(ms.drop_first()).len(),
{
    lemma_stands_split(s, p, mark_text(ms[0]), text(ms.drop_first()));
}

pub proof fn lemma_branches_split(bs: Seq<Seq<Mark>>, s: Seq<u8>, p: int)
    requires
        bs.len() > 0,
        stands(s, p, branches_text(bs)),
    ensures
        stands(s, p, text(bs[0])),
        p + text(bs[0]).len() < s.len(),
        bs.len() == 1 ==> s[p + text(bs[0]).len()] == 0x7d && branches_text(bs).len() == text(
            bs[0],
        ).len() + 1,
        bs.len() > 1 ==> s[p + text(bs[0]).len()] == 0x2c && stands(
            s,
            p + text(bs[0]).len() + 1,
            branches_text(bs.drop_first()),
        ) && branches_text(bs).len() == text(bs[0]).len() + 1 + branches_text(
            bs.drop_first(),
        ).len(),
{
    let t = text(bs[0]);
    let e = p + t.len();
    if bs.len() == 1 {
        lemma_stands_split(s, p, t, seq![0x7du8]);
        lemma_first(s, e, seq![0x7du8]);
    } else {
        let u = branches_text(bs.drop_first());
        lemma_stands_split(s, p, t, seq![0x2cu8] + u);
        lemma_stands_split(s, e, seq![0x2cu8], u);
        lemma_first(s, e, seq![0x2cu8]);
    }
}

pub proof fn lemma_all_rest(bs: Seq<Seq<Mark>>, fresh: bool, next: bool, depth: int)
    requires
        bs.len() > 0,
    ensures
        all_well(bs, fresh, next) ==> all_well(bs.drop_first(), fresh, next) && well(
            bs[0],
            fresh,
            next,
            true,
        ),
        all_within(bs, depth) ==> all_within(bs.drop_first(), depth) && within(bs[0], depth),
{
    let less = bs.drop_first();
    if all_well(bs, fresh, next) {
        assert forall|i: int| 0 <= i < less.len() implies well(
            #[trigger] less[i],
            fresh,
            next,
            true,
        ) by {
            assert(less[i] == bs[i + 1]);
        }
    }
    if all_within(bs, depth) {
        assert forall|i: int| 0 <= i < less.len() implies within(#[trigger] less[i], depth) by {
            assert(less[i] == bs[i + 1]);
        }
    }
}

// The look ahead.

/// A look ahead passes over marks.
pub proof fn lemma_look(
    ms: Seq<Mark>,
    s: Seq<u8>,
    p: int,
    depth: int,
    single: bool,
    ctx: SequenceContext,
    fresh: bool,
    next: bool,
)
    requires
        well(ms, fresh, next, true),
        stands(s, p, text(ms)),
        depth >= 0,
    ensures
        parser::look_ahead(s, p, depth, single, ctx) == parser::look_ahead(
            s,
            p + text(ms).len(),
            depth,
            single,
            ctx,
        ),
    decreases ms, 0int,
{
    if ms.len() > 0 {
        let m = ms[0];
        let rest = ms.drop_first();
        let t = mark_text(m);
        lemma_rest(ms, s, p);
        assert(well_mark(m, fresh, ends(rest, next), true));
        lemma_head(m, true, fresh, ends(rest, next));
        lemma_first(s, p, t);
        lemma_look(rest, s, p + t.len(), depth, single, ctx, shut(m), next);
        match m {
            Mark::Deep => {
                assert(s[p + 1] == t[1]);
                assert(parser::look_ahead(s, p + 1, depth, single, ctx) == parser::look_ahead(
                    s,
                    p + 2,
                    depth,
                    single,
                    ctx,
                ));
            },
            Mark::Class(b) => {
                lemma_bracket(b, s, p);
            },
            Mark::Either(bs) => {
                lemma_stands_split(s, p, seq![0x7bu8], branches_text(bs));
                lemma_look_inner(bs, s, p + 1, depth + 1, single, ctx, fresh, ends(rest, next));
            },
            _ => {},
        }
    }
}

/// A look ahead passes over the branches of an inner brace.
proof fn lemma_look_inner(
    bs: Seq<Seq<Mark>>,
    s: Seq<u8>,
    p: int,
    depth: int,
    single: bool,
    ctx: SequenceContext,
    fresh: bool,
    next: bool,
)
    requires
        bs.len() > 0,
        all_well(bs, fresh, next),
        stands(s, p, branches_text(bs)),
        depth > 0,
    ensures
        parser::look_ahead(s, p, depth, single, ctx) == parser::look_ahead(
            s,
            p + branches_text(bs).len(),
            depth - 1,
            single,
            ctx,
        ),
    decreases bs, 0int,
{
    lemma_branches_split(bs, s, p);
    lemma_all_rest(bs, fresh, next, 0);
    lemma_look(bs[0], s, p, depth, single, ctx, fresh, next);
    if bs.len() > 1 {
        lemma_look_inner(
            bs.drop_first(),
            s,
            p + text(bs[0]).len() + 1,
            depth,
            single,
            ctx,
            fresh,
            next,
        );
    }
}

/// A look ahead over the branches of a brace finds its commas and its end.
proof fn lemma_look_own(
    bs: Seq<Seq<Mark>>,
    s: Seq<u8>,
    p: int,
    single: bool,
    ctx: SequenceContext,
    fresh: bool,
    next: bool,
)
    requires
        bs.len() > 0,
        all_well(bs, fresh, next),
        stands(s, p, branches_text(bs)),
    ensures
        parser::look_ahead(s, p, 0, single, ctx) == (
            single && bs.len() == 1,
            ctx.ends_segment(s, p + branches_text(bs).len()),
        ),
    decreases bs, 0int,
{
    lemma_branches_split(bs, s, p);
    lemma_all_rest(bs, fresh, next, 0);
    lemma_look(bs[0], s, p, 0, single, ctx, fresh, next);
    if bs.len() > 1 {
        lemma_look_own(
            bs.drop_first(),
            s,
            p + text(bs[0]).len() + 1,
            false,
            ctx,
            fresh,
            next,
        );
    }
}

// Where segments end.

proof fn lemma_run_shut(ms: Seq<Mark>, nodes: Seq<SpecNode>, lit: Seq<u8>)
    requires
        ms.len() > 0,
    ensures
        nodes_of(ms, nodes, lit).len() > 0,
        parser::trails_boundary(nodes_of(ms, nodes, lit).last()) == shut(ms[ms.len() - 1]),
    decreases ms, 0int,
{
    let m = ms[0];
    let rest = ms.drop_first();
    if ms.len() > 1 {
        assert(rest[rest.len() - 1] == ms[ms.len() - 1]);
        match m {
            Mark::Byte(b) => lemma_run_shut(rest, nodes, lit.push(b)),
            Mark::Escaped(b) => lemma_run_shut(rest, nodes, lit.push(b)),
            _ => lemma_run_shut(rest, parser::flushed(nodes, lit).push(node_of(m)), seq![]),
        }
    } else {
        lemma_node_shut(m);
        match m {
            Mark::Byte(b) => {
                assert(run(ms, nodes, lit) == run(rest, nodes, lit.push(b)));
            },
            Mark::Escaped(b) => {
                assert(run(ms, nodes, lit) == run(rest, nodes, lit.push(b)));
            },
            _ => {
                let now = parser::flushed(nodes, lit).push(node_of(m));
                assert(run(ms, nodes, lit) == run(rest, now, seq![]));
                assert(run(rest, now, seq![]) == (now, Seq::<u8>::empty()));
            },
        }
    }
}

proof fn lemma_node_shut(m: Mark)
    ensures
        parser::trails_boundary(node_of(m)) == shut(m),
    decreases m, 0int,
{
    if let Mark::Either(bs) = m {
        let ts = trees(bs);
        assert(shut(m) == (bs.len() > 0 && all_shut(bs)));
        assert(node_of(m) == SpecNode::Brace(ts));
        assert(parser::trails_boundary(node_of(m)) == (ts.len() > 0 && parser::all_trail_boundary(
            ts,
        )));
        assert forall|i: int| 0 <= i < bs.len() implies parser::trails_boundary(#[trigger] ts[i])
            == shut_end(bs[i]) by {
            lemma_tree_shut(bs[i]);
        }
        if all_shut(bs) {
            assert forall|i: int| 0 <= i < ts.len() implies parser::trails_boundary(
                #[trigger] ts[i],
            ) by {
                assert(shut_end(bs[i]));
            }
        } else {
            let i = choose|i: int| 0 <= i < bs.len() && !shut_end(#[trigger] bs[i]);
            assert(!parser::trails_boundary(ts[i]));
        }
    }
}

proof fn lemma_tree_shut(ms: Seq<Mark>)
    ensures
        parser::trails_boundary(tree(ms)) == shut_end(ms),
    decreases ms, 1int,
{
    if ms.len() > 0 {
        lemma_run_shut(ms, seq![], seq![]);
    }
}

// Reading.

proof fn lemma_no_repeat(
    ms: Seq<Mark>,
    s: Seq<u8>,
    p: int,
    ctx: SequenceContext,
    next: bool,
)
    requires
        well(ms, false, next, ctx is Brace),
        ms.len() > 1 ==> !(ms[1] is Deep),
        stands(s, p, text(ms)),
        ctx.ends_segment(s, p + text(ms).len()) == next,
        fenced(s, p + text(ms).len()),
    ensures
        !parser::repeats_globstar(s, p),
{
    if parser::repeats_globstar(s, p) {
        lemma_ends(ms, s, p, ctx, false, next);
        assert(ms[0] is Slash);
        let a = ms.drop_first();
        lemma_rest(ms, s, p);
        assert(mark_text(ms[0]).len() == 1);
        assert(well(a, true, next, ctx is Brace));
        lemma_ends(a, s, p + 1, ctx, true, next);
        assert(a[0] is Many);
        assert(a[0] == ms[1]);
        let b = a.drop_first();
        lemma_rest(a, s, p + 1);
        assert(well(b, false, next, ctx is Brace));
        lemma_ends(b, s, p + 2, ctx, false, next);
        assert(b[0] is Many || b[0] is Deep);
        let c = b.drop_first();
        lemma_rest(b, s, p + 2);
        assert(b[0] is Many);
        assert(well(c, false, next, ctx is Brace));
        lemma_ends(c, s, p + 3, ctx, false, next);
        assert(a.drop_first()[0] is Many);
        assert(!ends(c, next));
    }
}

/// Reading passes over what was written, and keeps its nodes.
#[verifier::rlimit(40)]
pub proof fn lemma_read_to(
    ms: Seq<Mark>,
    s: Seq<u8>,
    p: int,
    depth: int,
    ctx: SequenceContext,
    nodes: Seq<SpecNode>,
    lit: Seq<u8>,
    fresh: bool,
    next: bool,
)
    requires
        well(ms, fresh, next, ctx is Brace),
        within(ms, MAX_BRACE_NESTING - depth),
        stands(s, p, text(ms)),
        depth >= 0,
        ctx.starts_segment(parser::flushed(nodes, lit)) == fresh,
        ctx.ends_segment(s, p + text(ms).len()) == next,
        fenced(s, p + text(ms).len()),
    ensures
        parser::sequence(s, p, depth, ctx, nodes, lit) == parser::sequence(
            s,
            p + text(ms).len(),
            depth,
            ctx,
            run(ms, nodes, lit).0,
            run(ms, nodes, lit).1,
        ),
    decreases ms, 0int,
{
    let all = parser::flushed(nodes, lit);
    if ms.len() > 0 {
        let m = ms[0];
        let rest = ms.drop_first();
        let t = mark_text(m);
        let e = p + t.len();
        lemma_rest(ms, s, p);
        assert(well_mark(m, fresh, ends(rest, next), ctx is Brace));
        lemma_head(m, ctx is Brace, fresh, ends(rest, next));
        lemma_ends(ms, s, p, ctx, fresh, next);
        lemma_ends(rest, s, e, ctx, shut(m), next);
        lemma_node_shut(m);
        assert(within(rest, MAX_BRACE_NESTING - depth)) by {
            assert forall|i: int| 0 <= i < rest.len() implies mark_within(
                #[trigger] rest[i],
                MAX_BRACE_NESTING - depth,
            ) by {
                assert(rest[i] == ms[i + 1]);
            }
        }
        assert(mark_within(m, MAX_BRACE_NESTING - depth));
        let now = all.push(node_of(m));
        assert(parser::flushed(now, seq![]) == now);
        match m {
            Mark::Byte(b) => {
                lemma_read_to(rest, s, e, depth, ctx, nodes, lit.push(b), false, next);
            },
            Mark::Escaped(b) => {
                assert(s[p + 1] == t[1]);
                lemma_read_to(rest, s, e, depth, ctx, nodes, lit.push(b), false, next);
            },
            Mark::Many => {
                lemma_read_to(rest, s, e, depth, ctx, now, seq![], shut(m), next);
                if parser::owns_segment(s, p, ctx, all) {
                    assert(well(rest, false, next, ctx is Brace));
                    assert(s[p + 1] == 0x2a);
                    assert(well_mark(
                        rest[0],
                        false,
                        ends(rest.drop_first(), next),
                        ctx is Brace,
                    ));
                    assert(rest[0] is Many);
                    assert(well(rest.drop_first(), false, next, ctx is Brace));
                    lemma_rest(rest, s, e);
                    lemma_ends(rest.drop_first(), s, e + 1, ctx, false, next);
                }
            },
            Mark::Deep => {
                lemma_read_to(rest, s, e, depth, ctx, now, seq![], shut(m), next);
                assert(s[p + 1] == t[1]);
                lemma_no_repeat(rest, s, e, ctx, next);
            },
            Mark::Class(b) => {
                lemma_read_to(rest, s, e, depth, ctx, now, seq![], shut(m), next);
                lemma_bracket(b, s, p);
            },
            Mark::Either(bs) => {
                lemma_read_to(rest, s, e, depth, ctx, now, seq![], shut(m), next);
                let after = ends(rest, next);
                lemma_stands_split(s, p, seq![0x7bu8], branches_text(bs));
                lemma_look_own(bs, s, p + 1, true, ctx, fresh, after);
                let inner = SequenceContext::Brace { prev_boundary: fresh, next_boundary: after };
                lemma_read_branches(bs, s, p + 1, depth + 1, inner, p, seq![], fresh, after);
                assert(Seq::<SpecNode>::empty() + trees(bs) =~= trees(bs));
            },
            _ => {
                lemma_read_to(rest, s, e, depth, ctx, now, seq![], shut(m), next);
            },
        }
    }
}

/// Reading what was written gives its nodes back.
pub proof fn lemma_read(
    ms: Seq<Mark>,
    s: Seq<u8>,
    p: int,
    depth: int,
    ctx: SequenceContext,
    nodes: Seq<SpecNode>,
    lit: Seq<u8>,
    fresh: bool,
    next: bool,
)
    requires
        well(ms, fresh, next, ctx is Brace),
        within(ms, MAX_BRACE_NESTING - depth),
        stands(s, p, text(ms)),
        depth >= 0,
        ctx.starts_segment(parser::flushed(nodes, lit)) == fresh,
        ctx.ends_segment(s, p + text(ms).len()) == next,
        closes(s, p + text(ms).len(), ctx),
    ensures
        parser::sequence(s, p, depth, ctx, nodes, lit) == Ok::<(SpecNode, int), GlobError>(
            (parser::gathered(nodes_of(ms, nodes, lit)), p + text(ms).len()),
        ),
    decreases ms, 1int,
{
    lemma_read_to(ms, s, p, depth, ctx, nodes, lit, fresh, next);
}

proof fn lemma_read_branches(
    bs: Seq<Seq<Mark>>,
    s: Seq<u8>,
    p: int,
    depth: int,
    ctx: SequenceContext,
    start: int,
    done: Seq<SpecNode>,
    fresh: bool,
    next: bool,
)
    requires
        bs.len() > 0,
        ctx == (SequenceContext::Brace { prev_boundary: fresh, next_boundary: next }),
        all_well(bs, fresh, next),
        all_within(bs, MAX_BRACE_NESTING - depth),
        stands(s, p, branches_text(bs)),
        depth >= 0,
    ensures
        parser::branches(s, p, depth, ctx, start, done) == Ok::<(Seq<SpecNode>, int), GlobError>(
            (done + trees(bs), p + branches_text(bs).len()),
        ),
    decreases bs, 0int,
{
    lemma_branches_split(bs, s, p);
    lemma_all_rest(bs, fresh, next, MAX_BRACE_NESTING - depth);
    lemma_read(bs[0], s, p, depth, ctx, seq![], seq![], fresh, next);
    let n = tree(bs[0]);
    if bs.len() > 1 {
        let less = bs.drop_first();
        let q = p + text(bs[0]).len() + 1;
        lemma_read_branches(less, s, q, depth, ctx, start, done.push(n), fresh, next);
        assert(done.push(n) + trees(less) =~= done + trees(bs));
    } else {
        assert(done.push(n) =~= done + trees(bs));
    }
}

/// `n` times `!`.
pub open spec fn exclamations(n: nat) -> Seq<u8> {
    Seq::new(n, |i: int| 0x21u8)
}

/// The marks are a whole pattern that can be read back: braces nest at most 32
/// deep, and a first `!` stands behind a backslash.
pub open spec fn whole(ms: Seq<Mark>) -> bool {
    well(ms, true, true, false) && within(ms, 32) && (ms.len() > 0 ==> ms[0] != Mark::Byte(0x21))
}

pub proof fn lemma_bangs(s: Seq<u8>, p: int, n: nat)
    requires
        0 <= p <= n <= s.len(),
        forall|k: int| 0 <= k < n ==> #[trigger] s[k] == 0x21,
        n < s.len() ==> s[n as int] != 0x21,
    ensures
        parser::bangs(s, p) == n - p,
    decreases n - p,
{
    if p < n {
        lemma_bangs(s, p + 1, n);
    }
}

/// A pattern reads as the tree of its marks, behind the `!` it starts with.
pub proof fn lemma_reads(n: nat, ms: Seq<Mark>)
    requires
        whole(ms),
        0 < n + text(ms).len() <= 65536,
    ensures
        parser::parsed(exclamations(n) + text(ms)) == Ok::<(int, SpecNode), GlobError>(
            (n as int, tree(ms)),
        ),
{
    let s = exclamations(n) + text(ms);
    let ctx = SequenceContext::Top;
    assert(stands(s, n as int, text(ms)));
    lemma_ends(ms, s, n as int, ctx, true, true);
    if ms.len() > 0 && s[n as int] == 0x21 {
        match ms[0] {
            Mark::Class(b) => {
                assert(bracket_text(b)[0] == 0x5b);
            },
            _ => {},
        }
    }
    lemma_bangs(s, 0, n);
    lemma_read(ms, s, n as int, 0, ctx, seq![], seq![], true, true);
}

} // verus!
