//! A brace without a comma stands for itself.

use crate::ast::SpecNode;
use crate::engine::ops::folding;
use crate::engine::ops::lower;
use crate::engine::ops::prefixes;
use crate::engine::ops::SpecOp;
use crate::error::GlobError;
use crate::glob;
use crate::meaning;
use crate::notation::{self, Mark};
use crate::openings;
use crate::options::CompileOptions;
use crate::parser::{self, SequenceContext};
use crate::seps::Seps;
use crate::unions;
use vstd::prelude::*;

verus! {

/// The marks with a brace and nothing else around them.
pub open spec fn enclosed(ms: Seq<Mark>) -> Seq<u8> {
    seq![0x7bu8] + notation::text(ms) + seq![0x7du8]
}

/// The marks between two escaped braces.
pub open spec fn between_braces(ms: Seq<Mark>) -> Seq<Mark> {
    seq![Mark::Escaped(0x7b)] + ms + seq![Mark::Escaped(0x7d)]
}

/// The syntax tree of such a pattern.
pub open spec fn enclosed_tree(ms: Seq<Mark>) -> SpecNode {
    SpecNode::Concat(
        seq![
            SpecNode::Literal(seq![0x7bu8]),
            notation::tree(ms),
            SpecNode::Literal(seq![0x7du8]),
        ],
    )
}

proof fn lemma_enclosed(ms: Seq<Mark>)
    requires
        notation::well(ms, false, false, true),
        notation::within(ms, 31),
        enclosed(ms).len() <= 65536,
    ensures
        parser::parsed(enclosed(ms)) == Ok::<(int, SpecNode), GlobError>((0int, enclosed_tree(ms))),
{
    let s = enclosed(ms);
    let t = notation::text(ms);
    let top = SequenceContext::Top;
    let e: int = 1 + t.len() as int;
    assert(notation::stands(s, 1, t)) by {
        assert forall|k: int| 0 <= k < t.len() implies s[1 + k] == #[trigger] t[k] by {}
    }
    assert(s[0] == 0x7b);
    assert(s[e] == 0x7d);
    assert(s.len() == e + 1);
    notation::lemma_look(ms, s, 1, 0, true, top, false, false);
    assert(parser::look_ahead(s, 1, 0, true, top) == (true, true));
    let inner = SequenceContext::Brace { prev_boundary: false, next_boundary: false };
    notation::lemma_read(ms, s, 1, 1, inner, seq![], seq![], false, false);
    let n = notation::tree(ms);
    let none = Seq::<SpecNode>::empty();
    assert(parser::branches(s, 1, 1, inner, 0, none) == Ok::<(Seq<SpecNode>, int), GlobError>(
        (none.push(n), e + 1),
    ));
    let lit = Seq::<u8>::empty().push(0x7bu8);
    let nodes = parser::flushed(none, lit).push(n);
    assert(parser::sequence(s, 0, 0, top, none, seq![]) == parser::sequence(
        s,
        e + 1,
        0,
        top,
        nodes,
        seq![0x7du8],
    ));
    assert(lit =~= seq![0x7bu8]);
    assert(parser::flushed(nodes, seq![0x7du8]) =~= seq![
        SpecNode::Literal(seq![0x7bu8]),
        n,
        SpecNode::Literal(seq![0x7du8]),
    ]);
    assert(parser::bangs(s, 0) == 0);
}

/// Merging what was merged changes nothing.
proof fn lemma_merged_twice(out: Seq<SpecOp>, ops: Seq<SpecOp>)
    ensures
        lower::append_all(out, lower::append_all(seq![], ops)) == lower::append_all(out, ops),
    decreases ops.len(),
{
    if ops.len() > 0 {
        let head = ops.drop_last();
        let op = ops.last();
        lemma_merged_twice(out, head);
        let c = lower::append_all(seq![], head);
        let d = lower::append(c, op);
        if c.len() > 0 && c.last() is Star && op is Star {
            assert(lower::append_all(out, c) == lower::append(
                lower::append_all(out, c.drop_last()),
                SpecOp::Star,
            ));
            assert(lower::append_all(out, c).last() is Star);
        } else if c.len() > 0 && c.last() is Lit && op is Lit {
            let a = c.last()->Lit_0;
            let b = op->Lit_0;
            let less = c.drop_last();
            let e = lower::append_all(out, less);
            assert(d.drop_last() =~= less);
            assert(d.last() == SpecOp::Lit(a + b));
            let f = lower::append(e, SpecOp::Lit(a));
            assert(lower::append_all(out, c) == f);
            assert(lower::append_all(out, d) == lower::append(e, SpecOp::Lit(a + b)));
            if e.len() > 0 && e.last() is Lit {
                let x = e.last()->Lit_0;
                assert(f.drop_last() =~= e.drop_last());
                assert((x + a) + b =~= x + (a + b));
            } else {
                assert(f =~= e.push(SpecOp::Lit(a)));
                assert(f.drop_last() =~= e);
            }
            assert(lower::append(f, op) =~= lower::append_all(out, d));
        } else {
            assert(d =~= c.push(op));
            assert(d.drop_last() =~= c);
        }
    }
}

/// The tree and the marks merge into one program behind anything.
proof fn lemma_merged_behind(out: Seq<SpecOp>, ms: Seq<Mark>, ci: bool)
    ensures
        lower::append_all(out, lower::raw(notation::tree(ms), ci)) == lower::append_all(
            out,
            meaning::ops_of(ms, ci),
        ),
{
    meaning::lemma_merged_tree(ms, ci);
    lemma_merged_twice(out, lower::raw(notation::tree(ms), ci));
    lemma_merged_twice(out, meaning::ops_of(ms, ci));
}

proof fn lemma_enclosed_program(ms: Seq<Mark>, ci: bool)
    requires
        meaning::shallow(ms, true),
    ensures
        lower::lowered(enclosed_tree(ms), ci) == lower::lead(
            lower::fold(lower::append_all(seq![], meaning::ops_of(between_braces(ms), ci))),
        ),
{
    let n = notation::tree(ms);
    let x = SpecNode::Literal(seq![0x7bu8]);
    let z = SpecNode::Literal(seq![0x7du8]);
    let xs = seq![x, n, z];
    let first = seq![SpecOp::Lit(seq![0x7bu8])];
    let last = seq![SpecOp::Lit(seq![0x7du8])];
    let none = Seq::<SpecOp>::empty();
    meaning::lemma_tree_calm(ms, true);
    assert(unions::all_calm(xs)) by {
        assert forall|i: int| 0 <= i < xs.len() implies unions::calm(#[trigger] xs[i]) by {}
    }
    assert(unions::calm(enclosed_tree(ms)));
    unions::lemma_calm_uncrowded(enclosed_tree(ms));
    unions::lemma_raw_concat(seq![x, n], seq![z], ci);
    unions::lemma_raw_concat(seq![x], seq![n], ci);
    unions::lemma_raw_one(x, ci);
    unions::lemma_raw_one(n, ci);
    unions::lemma_raw_one(z, ci);
    assert(seq![x, n] + seq![z] =~= xs);
    assert(seq![x] + seq![n] =~= seq![x, n]);
    let r = lower::raw(n, ci);
    assert(lower::raw(enclosed_tree(ms), ci) =~= first + r + last);
    folding::lemma_append_split(none, first + r, last);
    folding::lemma_append_split(none, first, r);
    lemma_merged_behind(lower::append_all(none, first), ms, ci);
    let ops = meaning::ops_of(ms, ci);
    assert(meaning::ops_of(between_braces(ms), ci) =~= first + ops + last);
    folding::lemma_append_split(none, first + ops, last);
    folding::lemma_append_split(none, first, ops);
}

/// A brace without a comma stands for itself: the pattern matches what it does
/// with a backslash before each of its two braces.
///
/// Where a backslash separates segments too, the path holds none.
pub proof fn law_lone_brace_stands_for_itself(
    ms: Seq<Mark>,
    text: Seq<char>,
    opts: CompileOptions,
    seps: Seps,
    path: Seq<u8>,
)
    requires
        notation::well(ms, false, false, true),
        notation::within(ms, 31),
        meaning::shallow(ms, true),
        meaning::apart(between_braces(ms)),
        enclosed(ms).len() <= 65536,
        glob::text_bytes(text) == enclosed(ms),
        seps.backslash ==> forall|k: int| 0 <= k < path.len() ==> #[trigger] path[k] != 0x5c,
    ensures
        glob::compiled(text, opts, seps) matches Ok(g) && g.matches(path) == meaning::meets(
            between_braces(ms),
            meaning::wholly(opts, path),
            seps,
            path,
            0,
        ),
{
    let ci = opts.case_insensitive;
    let how = meaning::wholly(opts, path);
    let cx = meaning::sight(how, seps);
    let all = between_braces(ms);
    lemma_enclosed(ms);
    openings::lemma_parsed_fair(enclosed(ms));
    let g = glob::compiled(text, opts, seps)->Ok_0;
    assert(prefixes::slashed(seps, path));
    unions::law_slashed_paths_are_told_apart(g.body, seps, path);
    unions::lemma_glob_program(g, path);
    lemma_enclosed_program(ms, ci);
    assert(meaning::shallow(all, true)) by {
        assert forall|k: int| 0 <= k < all.len() implies meaning::shallow_mark(
            #[trigger] all[k],
            true,
        ) by {
            if 1 <= k < 1 + ms.len() {
                assert(all[k] == ms[k - 1]);
            }
        }
    }
    meaning::lemma_ops_unfolded(all, ci);
    meaning::lemma_apart_once(all, ci);
    folding::lemma_merge_lead(meaning::ops_of(all, ci), cx, path);
    assert(folding::alike_at(
        lower::lowered(enclosed_tree(ms), ci),
        lower::lead(meaning::folded(all, ci)),
        cx,
        path,
        0,
        path.len() as int,
    ));
    meaning::lemma_led_meets(all, how, seps, path);
}

} // verus!
