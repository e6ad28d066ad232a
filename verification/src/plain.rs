//! Patterns without special characters.

use crate::ast::{self, SpecNode};
use crate::engine::literal;
use crate::error::MAX_PATTERN_LEN;
use crate::glob;
use crate::options::CompileOptions;
use crate::parser::{self, SequenceContext};
use crate::seps::Seps;
use vstd::prelude::*;

verus! {

/// The byte stands for itself: it is none of `\`, `?`, `*`, `[` and `{`.
pub open spec fn plain(b: u8) -> bool {
    b != 0x5c && b != 0x3f && b != 0x2a && b != 0x5b && b != 0x7b
}

/// The bytes are a pattern in which every byte stands for itself.
pub open spec fn plain_pattern(s: Seq<u8>) -> bool {
    &&& 0 < s.len() <= MAX_PATTERN_LEN
    &&& s[0] != 0x21
    &&& forall|k: int| 0 <= k < s.len() ==> plain(#[trigger] s[k])
}

proof fn lemma_push_pure(nodes: Seq<SpecNode>, n: SpecNode)
    requires
        ast::all_pure(nodes),
        ast::pure_literal(n),
    ensures
        ast::all_pure(nodes.push(n)),
        ast::literal_bytes_all(nodes.push(n)) == ast::literal_bytes_all(nodes)
            + ast::literal_bytes(n),
{
    let all = nodes.push(n);
    assert forall|k: int| 0 <= k < all.len() implies ast::pure_literal(#[trigger] all[k]) by {
        if k < nodes.len() {
            assert(all[k] == nodes[k]);
        }
    }
    assert(all.drop_last() =~= nodes);
}

proof fn lemma_flushed(nodes: Seq<SpecNode>, lit: Seq<u8>)
    requires
        ast::all_pure(nodes),
    ensures
        ast::all_pure(parser::flushed(nodes, lit)),
        ast::literal_bytes_all(parser::flushed(nodes, lit)) == ast::literal_bytes_all(nodes) + lit,
{
    if lit.len() > 0 {
        lemma_push_pure(nodes, SpecNode::Literal(lit));
    } else {
        assert(ast::literal_bytes_all(nodes) + lit =~= ast::literal_bytes_all(nodes));
    }
}

/// Plain bytes are parsed to what they spell.
proof fn lemma_plain_sequence(s: Seq<u8>, p: int, nodes: Seq<SpecNode>, lit: Seq<u8>)
    requires
        0 <= p <= s.len(),
        forall|k: int| 0 <= k < s.len() ==> plain(#[trigger] s[k]),
        ast::all_pure(nodes),
        ast::literal_bytes_all(nodes) + lit == s.take(p),
    ensures
        parser::sequence(s, p, 0, SequenceContext::Top, nodes, lit) matches Ok((n, _))
            && ast::pure_literal(n) && ast::literal_bytes(n) == s,
    decreases s.len() - p,
{
    let all = parser::flushed(nodes, lit);
    lemma_flushed(nodes, lit);
    if p >= s.len() {
        assert(s.take(p) =~= s);
        if all.len() == 1 {
            assert(ast::pure_literal(all[0]));
            assert(all.drop_last() =~= Seq::<SpecNode>::empty());
            assert(ast::literal_bytes_all(all.drop_last()) =~= Seq::<u8>::empty());
            assert(ast::literal_bytes_all(all) =~= ast::literal_bytes(all[0]));
        }
    } else {
        assert(plain(s[p]));
        assert(s.take(p + 1) =~= s.take(p) + seq![s[p]]);
        if s[p] == 0x2f {
            lemma_push_pure(all, SpecNode::Separator);
            let none = Seq::<u8>::empty();
            let next = all.push(SpecNode::Separator);
            assert(ast::literal_bytes_all(next) + none =~= s.take(p + 1));
            lemma_plain_sequence(s, p + 1, next, none);
        } else {
            assert(ast::literal_bytes_all(nodes) + lit.push(s[p]) =~= s.take(p + 1));
            lemma_plain_sequence(s, p + 1, nodes, lit.push(s[p]));
        }
    }
}

/// A pattern without special characters compiles, and matches itself and
/// nothing else, up to how separators and, where it is ignored, ASCII case are
/// written.
pub proof fn law_plain_text_matches_itself(
    text: Seq<char>,
    opts: CompileOptions,
    seps: Seps,
    path: Seq<u8>,
)
    requires
        plain_pattern(glob::text_bytes(text)),
    ensures
        glob::compiled(text, opts, seps) is Ok,
        (glob::compiled(text, opts, seps)->Ok_0).matches(path) <==> {
            let s = glob::text_bytes(text);
            &&& path.len() == s.len()
            &&& forall|k: int|
                0 <= k < s.len() ==> literal::literal_byte(
                    seps,
                    opts.case_insensitive,
                    #[trigger] s[k],
                    path[k],
                )
        },
        !opts.case_insensitive && !seps.backslash ==> ((glob::compiled(
            text,
            opts,
            seps,
        )->Ok_0).matches(path) <==> path == glob::text_bytes(text)),
{
    let s = glob::text_bytes(text);
    let none = Seq::<SpecNode>::empty();
    let lit = Seq::<u8>::empty();
    assert(parser::bangs(s, 0) == 0);
    assert(ast::literal_bytes_all(none) + lit =~= s.take(0));
    lemma_plain_sequence(s, 0, none, lit);
    let g = glob::compiled(text, opts, seps)->Ok_0;
    assert(g.literal() == s);
    if !opts.case_insensitive && !seps.backslash && g.matches(path) {
        assert(path =~= s) by {
            assert forall|k: int| 0 <= k < s.len() implies path[k] == s[k] by {
                assert(literal::literal_byte(seps, false, s[k], path[k]));
            }
        }
    }
}

} // verus!
