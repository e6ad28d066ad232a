//! The class of a pattern, told from its marks.

use crate::ast::{self, SpecNode};
use crate::choices;
use crate::glob::{self, Tier};
use crate::notation::{self, Mark};
use crate::options::CompileOptions;
use crate::parser;
use crate::seps::Seps;
use vstd::prelude::*;

verus! {

/// The mark is a byte that stands for itself, or a slash.
pub open spec fn literal_mark(m: Mark) -> bool {
    m is Byte || m is Escaped || m is Slash
}

/// The mark is a node of its own.
pub open spec fn own_node(m: Mark) -> bool {
    !(m is Byte) && !(m is Escaped)
}

/// `n` is the node of one of the marks, or literal bytes.
pub open spec fn comes_from(ms: Seq<Mark>, n: SpecNode) -> bool {
    n is Literal || exists|k: int|
        0 <= k < ms.len() && own_node(#[trigger] ms[k]) && n == notation::node_of(ms[k])
}

/// The nodes are those of the marks, and literal bytes.
#[verifier::rlimit(40)]
proof fn lemma_nodes_kinds(ms: Seq<Mark>, nodes: Seq<SpecNode>, lit: Seq<u8>)
    ensures
        forall|k: int|
            0 <= k < ms.len() && own_node(#[trigger] ms[k]) ==> notation::nodes_of(
                ms,
                nodes,
                lit,
            ).contains(notation::node_of(ms[k])),
        forall|j: int|
            0 <= j < notation::nodes_of(ms, nodes, lit).len() ==> nodes.contains(
                #[trigger] notation::nodes_of(ms, nodes, lit)[j],
            ) || comes_from(ms, notation::nodes_of(ms, nodes, lit)[j]),
    decreases ms.len(),
{
    let all = notation::nodes_of(ms, nodes, lit);
    if ms.len() == 0 {
        assert forall|j: int| 0 <= j < all.len() implies nodes.contains(#[trigger] all[j])
            || comes_from(ms, all[j]) by {
            if j < nodes.len() {
                assert(all[j] == nodes[j]);
            }
        }
    } else {
        let m = ms[0];
        let rest = ms.drop_first();
        match m {
            Mark::Byte(b) => {
                lemma_nodes_kinds(rest, nodes, lit.push(b));
                assert(all == notation::nodes_of(rest, nodes, lit.push(b)));
                lemma_kinds_step(ms, nodes, nodes, all);
            },
            Mark::Escaped(b) => {
                lemma_nodes_kinds(rest, nodes, lit.push(b));
                assert(all == notation::nodes_of(rest, nodes, lit.push(b)));
                lemma_kinds_step(ms, nodes, nodes, all);
            },
            _ => {
                let now = parser::flushed(nodes, lit).push(notation::node_of(m));
                lemma_nodes_kinds(rest, now, seq![]);
                assert(all == notation::nodes_of(rest, now, seq![]));
                choices::lemma_nodes_behind(rest, now, seq![]);
                assert(all[now.len() - 1] == notation::node_of(m));
                assert(all.contains(notation::node_of(m)));
                assert forall|n: SpecNode| #[trigger] now.contains(n) implies nodes.contains(n)
                    || comes_from(ms, n) by {
                    let j = choose|j: int| 0 <= j < now.len() && now[j] == n;
                    if j < nodes.len() {
                        assert(nodes[j] == n);
                    } else if j == now.len() - 1 {
                        assert(own_node(ms[0]));
                    }
                }
                lemma_kinds_step(ms, nodes, now, all);
            },
        }
    }
}

proof fn lemma_kinds_step(
    ms: Seq<Mark>,
    nodes: Seq<SpecNode>,
    now: Seq<SpecNode>,
    all: Seq<SpecNode>,
)
    requires
        ms.len() > 0,
        own_node(ms[0]) ==> all.contains(notation::node_of(ms[0])),
        forall|n: SpecNode| #[trigger] now.contains(n) ==> nodes.contains(n) || comes_from(ms, n),
        forall|k: int|
            0 <= k < ms.drop_first().len() && own_node(#[trigger] ms.drop_first()[k])
                ==> all.contains(notation::node_of(ms.drop_first()[k])),
        forall|j: int|
            0 <= j < all.len() ==> now.contains(#[trigger] all[j]) || comes_from(
                ms.drop_first(),
                all[j],
            ),
    ensures
        forall|k: int|
            0 <= k < ms.len() && own_node(#[trigger] ms[k]) ==> all.contains(
                notation::node_of(ms[k]),
            ),
        forall|j: int|
            0 <= j < all.len() ==> nodes.contains(#[trigger] all[j]) || comes_from(ms, all[j]),
{
    let rest = ms.drop_first();
    assert forall|k: int| 0 <= k < ms.len() && own_node(#[trigger] ms[k]) implies all.contains(
        notation::node_of(ms[k]),
    ) by {
        if k > 0 {
            assert(rest[k - 1] == ms[k]);
            assert(own_node(rest[k - 1]));
        }
    }
    assert forall|j: int| 0 <= j < all.len() implies nodes.contains(#[trigger] all[j])
        || comes_from(ms, all[j]) by {
        if !now.contains(all[j]) && !(all[j] is Literal) {
            let k = choose|k: int|
                0 <= k < rest.len() && own_node(#[trigger] rest[k]) && all[j]
                    == notation::node_of(rest[k]);
            assert(ms[k + 1] == rest[k]);
            assert(own_node(ms[k + 1]));
        }
    }
}

/// A pattern of bytes and slashes is a literal, one with a `**` or a brace is of
/// the globstar class, and any other one has simple wildcards.
#[verifier::rlimit(40)]
pub proof fn law_tier_tells_what_a_pattern_holds(
    n: nat,
    ms: Seq<Mark>,
    text: Seq<char>,
    opts: CompileOptions,
    seps: Seps,
)
    requires
        notation::whole(ms),
        0 < n + notation::text(ms).len() <= 65536,
        glob::text_bytes(text) == notation::exclamations(n) + notation::text(ms),
    ensures
        glob::compiled(text, opts, seps) matches Ok(g) && g.tier() == if forall|k: int|
            0 <= k < ms.len() ==> literal_mark(#[trigger] ms[k]) {
            Tier::Literal
        } else if exists|k: int| 0 <= k < ms.len() && (#[trigger] ms[k] is Deep || ms[k] is Either) {
            Tier::Globstar
        } else {
            Tier::SimpleWildcard
        },
{
    let none = Seq::<SpecNode>::empty();
    let xs = notation::nodes_of(ms, none, seq![]);
    let t = notation::tree(ms);
    notation::lemma_reads(n, ms);
    lemma_nodes_kinds(ms, none, seq![]);
    assert forall|j: int| 0 <= j < xs.len() implies comes_from(ms, #[trigger] xs[j]) by {
        assert(!none.contains(xs[j]));
    }
    let pure = ast::all_pure(xs);
    let deep = ast::some_mentions_globstar(xs) || glob::some_has_brace(xs);
    assert(ast::pure_literal(t) == pure) by {
        if xs.len() == 1 {
            if ast::pure_literal(xs[0]) {
                assert(ast::all_pure(xs));
            }
        }
    }
    assert((ast::mentions_globstar(t) || glob::has_brace(t)) == deep) by {
        if xs.len() == 1 {
            if ast::mentions_globstar(xs[0]) || glob::has_brace(xs[0]) {
                assert(deep);
            }
        }
    }
    if forall|k: int| 0 <= k < ms.len() ==> literal_mark(#[trigger] ms[k]) {
        assert forall|j: int| 0 <= j < xs.len() implies ast::pure_literal(#[trigger] xs[j]) by {
            assert(comes_from(ms, xs[j]));
        }
    } else {
        let k = choose|k: int| 0 <= k < ms.len() && !literal_mark(#[trigger] ms[k]);
        assert(own_node(ms[k]));
        let n0 = notation::node_of(ms[k]);
        assert(!ast::pure_literal(n0));
        let j = choose|j: int| 0 <= j < xs.len() && xs[j] == n0;
        assert(!ast::pure_literal(xs[j]));
        if exists|k: int| 0 <= k < ms.len() && (#[trigger] ms[k] is Deep || ms[k] is Either) {
            let i = choose|k: int|
                0 <= k < ms.len() && (#[trigger] ms[k] is Deep || ms[k] is Either);
            assert(own_node(ms[i]));
            let n1 = notation::node_of(ms[i]);
            let q = choose|q: int| 0 <= q < xs.len() && xs[q] == n1;
            assert(ast::mentions_globstar(n1) || glob::has_brace(n1));
            assert(ast::mentions_globstar(xs[q]) || glob::has_brace(xs[q]));
            assert(deep);
        } else {
            assert forall|j: int| 0 <= j < xs.len() implies !ast::mentions_globstar(
                #[trigger] xs[j],
            ) && !glob::has_brace(xs[j]) by {
                assert(comes_from(ms, xs[j]));
            }
            assert(!deep);
        }
    }
}

} // verus!
