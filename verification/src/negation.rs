//! What a leading `!` does to a pattern.
//!
//! A `!` before a pattern moves every position by one and changes nothing else
//! of how the rest is parsed.

use crate::ast::{ClassItem, SpecNode};
use crate::error::{GlobError, MAX_PATTERN_LEN};
use crate::glob::{self, SpecGlob};
use crate::laws;
use crate::options::CompileOptions;
use crate::parser::{self, SequenceContext};
use crate::seps::Seps;
use vstd::prelude::*;

verus! {

/// `t` is `s` behind one more byte.
spec fn behind(s: Seq<u8>, t: Seq<u8>) -> bool {
    t.len() == s.len() + 1 && forall|k: int| 0 <= k < s.len() ==> #[trigger] s[k] == t[k + 1]
}

/// Both fail, or both give the same with positions one apart.
spec fn same_step<A>(a: Result<(A, int), GlobError>, b: Result<(A, int), GlobError>) -> bool {
    match (a, b) {
        (Ok((x, p)), Ok((y, q))) => x == y && q == p + 1,
        (Err(_), Err(_)) => true,
        _ => false,
    }
}

proof fn lemma_past_globstars(s: Seq<u8>, t: Seq<u8>, p: int)
    requires
        behind(s, t),
        0 <= p,
    ensures
        parser::past_globstars(t, p + 1) == parser::past_globstars(s, p) + 1,
        parser::repeats_globstar(t, p + 1) == parser::repeats_globstar(s, p),
    decreases parser::left(s, p),
{
    if p + 3 <= s.len() {
        assert(s[p] == t[p + 1]);
        assert(s[p + 1] == t[p + 2]);
        assert(s[p + 2] == t[p + 3]);
        if p + 3 < s.len() {
            assert(s[p + 3] == t[p + 4]);
        }
    }
    if parser::repeats_globstar(s, p) {
        lemma_past_globstars(s, t, p + 3);
    }
}

proof fn lemma_ends_segment(s: Seq<u8>, t: Seq<u8>, ctx: SequenceContext, i: int)
    requires
        behind(s, t),
        0 <= i,
    ensures
        ctx.ends_segment(t, i + 1) == ctx.ends_segment(s, i),
{
    if i < s.len() {
        assert(s[i] == t[i + 1]);
    }
}

proof fn lemma_class_byte(s: Seq<u8>, t: Seq<u8>, p: int, start: int)
    requires
        behind(s, t),
        0 <= p,
    ensures
        same_step(parser::class_byte(s, p, start), parser::class_byte(t, p + 1, start + 1)),
        parser::class_byte(s, p, start) matches Ok((b, q)) ==> q > p,
{
    if p < s.len() {
        assert(s[p] == t[p + 1]);
        if p + 1 < s.len() {
            assert(s[p + 1] == t[p + 2]);
        }
    }
}

proof fn lemma_range_at(s: Seq<u8>, t: Seq<u8>, p: int)
    requires
        behind(s, t),
        0 <= p,
    ensures
        parser::range_at(t, p + 1) == parser::range_at(s, p),
{
    if p < s.len() {
        assert(s[p] == t[p + 1]);
        if p + 1 < s.len() {
            assert(s[p + 1] == t[p + 2]);
        }
    }
}

proof fn lemma_class_items(s: Seq<u8>, t: Seq<u8>, p: int, start: int, done: Seq<ClassItem>)
    requires
        behind(s, t),
        0 <= p,
    ensures
        same_step(
            parser::class_items(s, p, start, done),
            parser::class_items(t, p + 1, start + 1, done),
        ),
    decreases parser::left(s, p),
{
    if p < s.len() {
        assert(s[p] == t[p + 1]);
        if s[p] != 0x5d {
            lemma_class_byte(s, t, p, start);
            if let Ok((low, q)) = parser::class_byte(s, p, start) {
                lemma_range_at(s, t, q);
                if parser::range_at(s, q) {
                    lemma_class_byte(s, t, q + 1, start);
                    if let Ok((high, u)) = parser::class_byte(s, q + 1, start) {
                        if high >= low {
                            lemma_class_items(
                                s,
                                t,
                                u,
                                start,
                                done.push(ClassItem::Range(low, high)),
                            );
                        }
                    }
                } else {
                    lemma_class_items(s, t, q, start, done.push(ClassItem::Byte(low)));
                }
            }
        }
    }
}

proof fn lemma_items_start(s: Seq<u8>, t: Seq<u8>, p: int)
    requires
        behind(s, t),
        0 <= p,
    ensures
        parser::items_start(t, p + 1) == parser::items_start(s, p) + 1,
        parser::negates_at(t, p + 2) == parser::negates_at(s, p + 1),
{
    if p + 1 < s.len() {
        assert(s[p + 1] == t[p + 2]);
    }
}

proof fn lemma_class_at(s: Seq<u8>, t: Seq<u8>, p: int)
    requires
        behind(s, t),
        0 <= p,
    ensures
        same_step(parser::class_at(s, p), parser::class_at(t, p + 1)),
{
    lemma_items_start(s, t, p);
    let q = parser::items_start(s, p);
    if q < s.len() {
        assert(s[q] == t[q + 1]);
    }
    lemma_class_items(s, t, q + 1, p, seq![ClassItem::Byte(0x5d)]);
    lemma_class_items(s, t, q, p, seq![]);
}

proof fn lemma_skim_members(s: Seq<u8>, t: Seq<u8>, i: int)
    requires
        behind(s, t),
        0 <= i,
    ensures
        parser::skim_members(t, i + 1) == parser::skim_members(s, i) + 1,
        parser::skim_members(s, i) >= i,
    decreases parser::left(s, i),
{
    if i < s.len() {
        assert(s[i] == t[i + 1]);
        if s[i] != 0x5d && s[i] != 0x2f {
            lemma_skim_members(
                s,
                t,
                if s[i] == 0x5c {
                    i + 2
                } else {
                    i + 1
                },
            );
        }
    }
}

proof fn lemma_look_ahead(
    s: Seq<u8>,
    t: Seq<u8>,
    i: int,
    depth: int,
    single: bool,
    ctx: SequenceContext,
)
    requires
        behind(s, t),
        0 <= i,
    ensures
        parser::look_ahead(t, i + 1, depth, single, ctx) == parser::look_ahead(
            s,
            i,
            depth,
            single,
            ctx,
        ),
    decreases parser::left(s, i),
{
    if i < s.len() {
        assert(s[i] == t[i + 1]);
        if s[i] == 0x5c {
            lemma_look_ahead(s, t, i + 2, depth, single, ctx);
        } else if s[i] == 0x5b {
            lemma_items_start(s, t, i);
            let a = parser::items_start(s, i);
            if a < s.len() {
                assert(s[a] == t[a + 1]);
            }
            lemma_skim_members(s, t, a);
            lemma_skim_members(s, t, a + 1);
            assert(parser::skim_class(t, i + 1) == parser::skim_class(s, i) + 1);
            lemma_look_ahead(s, t, parser::skim_class(s, i), depth, single, ctx);
        } else if s[i] == 0x7b {
            lemma_look_ahead(s, t, i + 1, depth + 1, single, ctx);
        } else if s[i] == 0x2c && depth == 0 {
            lemma_look_ahead(s, t, i + 1, depth, false, ctx);
        } else if s[i] == 0x7d {
            if depth == 0 {
                lemma_ends_segment(s, t, ctx, i + 1);
            } else {
                lemma_look_ahead(s, t, i + 1, depth - 1, single, ctx);
            }
        } else {
            lemma_look_ahead(s, t, i + 1, depth, single, ctx);
        }
    }
}

#[verifier::spinoff_prover]
#[verifier::rlimit(40)]
proof fn lemma_sequence(
    s: Seq<u8>,
    t: Seq<u8>,
    p: int,
    depth: int,
    ctx: SequenceContext,
    nodes: Seq<SpecNode>,
    lit: Seq<u8>,
)
    requires
        behind(s, t),
        0 <= p,
    ensures
        same_step(
            parser::sequence(s, p, depth, ctx, nodes, lit),
            parser::sequence(t, p + 1, depth, ctx, nodes, lit),
        ),
    decreases parser::left(s, p), 0int,
{
    let all = parser::flushed(nodes, lit);
    let none = Seq::<u8>::empty();
    if p < s.len() {
        assert(s[p] == t[p + 1]);
        if ctx is Brace && (s[p] == 0x2c || s[p] == 0x7d) {
        } else if s[p] == 0x5c {
            if p + 1 < s.len() {
                assert(s[p + 1] == t[p + 2]);
                lemma_sequence(s, t, p + 2, depth, ctx, nodes, lit.push(s[p + 1]));
            }
        } else if s[p] == 0x2f {
            lemma_sequence(s, t, p + 1, depth, ctx, all.push(SpecNode::Separator), none);
        } else if s[p] == 0x3f {
            lemma_sequence(s, t, p + 1, depth, ctx, all.push(SpecNode::AnyChar), none);
        } else if s[p] == 0x2a {
            if p + 1 < s.len() {
                assert(s[p + 1] == t[p + 2]);
            }
            lemma_ends_segment(s, t, ctx, p + 2);
            assert(parser::owns_segment(t, p + 1, ctx, all) == parser::owns_segment(
                s,
                p,
                ctx,
                all,
            ));
            if parser::owns_segment(s, p, ctx, all) {
                parser::lemma_past_globstars(s, p + 2);
                lemma_past_globstars(s, t, p + 2);
                lemma_sequence(
                    s,
                    t,
                    parser::past_globstars(s, p + 2),
                    depth,
                    ctx,
                    all.push(SpecNode::Globstar),
                    none,
                );
            } else {
                lemma_sequence(s, t, p + 1, depth, ctx, all.push(SpecNode::Star), none);
            }
        } else if s[p] == 0x5b {
            parser::lemma_class_at(s, p);
            lemma_class_at(s, t, p);
            if let Ok((c, q)) = parser::class_at(s, p) {
                lemma_sequence(s, t, q, depth, ctx, all.push(SpecNode::Class(c)), none);
            }
        } else if s[p] == 0x7b {
            lemma_look_ahead(s, t, p + 1, 0, true, ctx);
            let (single, after) = parser::look_ahead(s, p + 1, 0, true, ctx);
            let inner = SequenceContext::Brace {
                prev_boundary: !single && lit.len() == 0 && ctx.starts_segment(nodes),
                next_boundary: !single && after,
            };
            lemma_branches(s, t, p + 1, depth + 1, inner, p, seq![]);
            if let Ok((bs, q)) = parser::branches(s, p + 1, depth + 1, inner, p, seq![]) {
                if q > p {
                    if bs.len() == 1 {
                        lemma_sequence(
                            s,
                            t,
                            q,
                            depth,
                            ctx,
                            parser::flushed(nodes, lit.push(0x7b)).push(bs[0]),
                            seq![0x7d],
                        );
                    } else {
                        lemma_sequence(s, t, q, depth, ctx, all.push(SpecNode::Brace(bs)), none);
                    }
                }
            }
        } else {
            lemma_sequence(s, t, p + 1, depth, ctx, nodes, lit.push(s[p]));
        }
    }
}

proof fn lemma_branches(
    s: Seq<u8>,
    t: Seq<u8>,
    p: int,
    depth: int,
    ctx: SequenceContext,
    start: int,
    done: Seq<SpecNode>,
)
    requires
        behind(s, t),
        0 <= p,
    ensures
        same_step(
            parser::branches(s, p, depth, ctx, start, done),
            parser::branches(t, p + 1, depth, ctx, start + 1, done),
        ),
    decreases parser::left(s, p), 1int,
{
    lemma_sequence(s, t, p, depth, ctx, seq![], seq![]);
    if let Ok((n, q)) = parser::sequence(s, p, depth, ctx, seq![], seq![]) {
        if q >= p && q < s.len() {
            assert(s[q] == t[q + 1]);
            if s[q] == 0x2c {
                lemma_branches(s, t, q + 1, depth, ctx, start, done.push(n));
            }
        }
    }
}

proof fn lemma_bangs(s: Seq<u8>, t: Seq<u8>, p: int)
    requires
        behind(s, t),
        0 <= p,
    ensures
        parser::bangs(t, p + 1) == parser::bangs(s, p),
        parser::bangs(s, p) >= 0,
    decreases parser::left(s, p),
{
    if p < s.len() {
        assert(s[p] == t[p + 1]);
        if s[p] == 0x21 {
            lemma_bangs(s, t, p + 1);
        }
    }
}

/// The text with a `!` before it.
pub open spec fn banged(text: Seq<char>) -> Seq<char> {
    seq!['!'] + text
}

/// The bytes of a text with a `!` before it.
proof fn lemma_banged_bytes(text: Seq<char>)
    ensures
        glob::text_bytes(banged(text)) == seq![0x21u8] + glob::text_bytes(text),
{
    let t = banged(text);
    assert(t[0] == '!');
    assert(t.skip(1) =~= text);
    assert(t.drop_first() =~= text);
    assert('!' as u32 == 0x21u32);
    assert((0x21u32 & 0x7fu32) as u8 == 0x21u8) by (bit_vector);
    assert(vstd::utf8::encode_scalar(0x21u32) =~= seq![0x21u8]);
    assert(vstd::utf8::encode_utf8(t) =~= seq![0x21u8] + vstd::utf8::encode_utf8(text));
}

/// One more `!` before a pattern is counted, and the rest is parsed as it was.
pub proof fn law_bang_is_counted(s: Seq<u8>)
    requires
        parser::parsed(s) is Ok,
        s.len() < MAX_PATTERN_LEN,
    ensures
        ({
            let (bangs, body) = parser::parsed(s)->Ok_0;
            parser::parsed(seq![0x21u8] + s) == Ok::<(int, SpecNode), GlobError>((bangs + 1, body))
        }),
{
    let t = seq![0x21u8] + s;
    assert(behind(s, t)) by {
        assert forall|k: int| 0 <= k < s.len() implies #[trigger] s[k] == t[k + 1] by {}
    }
    lemma_bangs(s, t, 0);
    assert(parser::bangs(t, 0) == 1 + parser::bangs(t, 1));
    let p = parser::bangs(s, 0);
    lemma_sequence(s, t, p, 0, SequenceContext::Top, seq![], seq![]);
}

/// A `!` before a pattern negates it: where the pattern compiles and is not too
/// long already, it compiles with the `!` too, and then matches exactly what
/// it did not match before.
pub proof fn law_bang_negates(
    text: Seq<char>,
    opts: CompileOptions,
    seps: Seps,
    path: Seq<u8>,
)
    requires
        glob::compiled(text, opts, seps) is Ok,
        glob::text_bytes(text).len() < MAX_PATTERN_LEN,
    ensures
        glob::compiled(banged(text), opts, seps) is Ok,
        (glob::compiled(banged(text), opts, seps)->Ok_0).matches(path) == !(glob::compiled(
            text,
            opts,
            seps,
        )->Ok_0).matches(path),
{
    lemma_banged_bytes(text);
    law_bang_is_counted(glob::text_bytes(text));
    let g = glob::compiled(text, opts, seps)->Ok_0;
    let h = glob::compiled(banged(text), opts, seps)->Ok_0;
    assert(h == SpecGlob { negated: !g.negated, ..g });
    laws::law_negation_flips(g, path);
}

} // verus!
