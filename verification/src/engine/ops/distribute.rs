//! Separators next to a brace with a `**` at the edge of a branch.
//!
//! Such a separator belongs to every expansion of the brace, so it moves into
//! the branches: `{**,x}/b` becomes `{**/,x/}b`, and each branch is then
//! lowered with the separator that its `**` needs.

use crate::ast::{self, Node, SpecNode};
use vstd::prelude::*;

verus! {

/// The node starts with a `**`.
pub open spec fn leads(n: SpecNode) -> bool
    decreases n, 0int,
{
    match n {
        SpecNode::Globstar => true,
        SpecNode::Concat(xs) => xs.len() > 0 && leads(xs[0]),
        SpecNode::Brace(bs) => some_leads(bs),
        _ => false,
    }
}

pub open spec fn some_leads(bs: Seq<SpecNode>) -> bool
    decreases bs, 1int,
{
    exists|i: int| 0 <= i < bs.len() && leads(#[trigger] bs[i])
}

/// The node ends with a `**`.
pub open spec fn trails(n: SpecNode) -> bool
    decreases n, 0int,
{
    match n {
        SpecNode::Globstar => true,
        SpecNode::Concat(xs) => xs.len() > 0 && trails(xs[xs.len() - 1]),
        SpecNode::Brace(bs) => some_trails(bs),
        _ => false,
    }
}

pub open spec fn some_trails(bs: Seq<SpecNode>) -> bool
    decreases bs, 1int,
{
    exists|i: int| 0 <= i < bs.len() && trails(#[trigger] bs[i])
}

/// Node `i` is a brace that has a separator next to the `**` at its edge.
pub open spec fn crowded_at(xs: Seq<SpecNode>, i: int) -> bool {
    xs[i] is Brace && {
        ||| i > 0 && xs[i - 1] is Separator && some_leads(xs[i]->Brace_0)
        ||| i + 1 < xs.len() && xs[i + 1] is Separator && some_trails(xs[i]->Brace_0)
    }
}

/// Some brace in the node has a separator next to the `**` at its edge.
pub open spec fn crowded(n: SpecNode) -> bool
    decreases n, 0int,
{
    match n {
        SpecNode::Concat(xs) => (exists|i: int|
            0 <= i < xs.len() && #[trigger] crowded_at(xs, i)) || some_crowded(xs),
        SpecNode::Brace(bs) => some_crowded(bs),
        _ => false,
    }
}

pub open spec fn some_crowded(xs: Seq<SpecNode>) -> bool
    decreases xs, 1int,
{
    exists|i: int| 0 <= i < xs.len() && crowded(#[trigger] xs[i])
}

/// How many inner nodes there are.
pub open spec fn weight(n: SpecNode) -> nat
    decreases n, 0nat,
{
    match n {
        SpecNode::Concat(xs) => 1 + weights(xs),
        SpecNode::Brace(xs) => 1 + weights(xs),
        _ => 0,
    }
}

pub open spec fn weights(xs: Seq<SpecNode>) -> nat
    decreases xs, xs.len(),
{
    if xs.len() == 0 {
        0
    } else {
        weights(xs.drop_last()) + weight(xs.last())
    }
}

pub proof fn lemma_weights_concat(a: Seq<SpecNode>, b: Seq<SpecNode>)
    ensures
        weights(a + b) == weights(a) + weights(b),
    decreases b.len(),
{
    if b.len() == 0 {
        assert(a + b =~= a);
    } else {
        assert((a + b).drop_last() =~= a + b.drop_last());
        lemma_weights_concat(a, b.drop_last());
    }
}

proof fn lemma_weights_one(n: SpecNode)
    ensures
        weights(seq![n]) == weight(n),
{
    assert(seq![n].drop_last() =~= Seq::<SpecNode>::empty());
    assert(weights(Seq::<SpecNode>::empty()) == 0);
}

pub proof fn lemma_weights_first(xs: Seq<SpecNode>)
    requires
        xs.len() > 0,
    ensures
        weights(xs) == weight(xs[0]) + weights(xs.drop_first()),
{
    assert(xs =~= seq![xs[0]] + xs.drop_first());
    lemma_weights_concat(seq![xs[0]], xs.drop_first());
    lemma_weights_one(xs[0]);
}

/// The nodes of a branch.
pub open spec fn opened(b: SpecNode) -> Seq<SpecNode> {
    match b {
        SpecNode::Concat(xs) => xs,
        _ => seq![b],
    }
}

/// The branch with the separators that it takes in. They stand next to its own
/// first and last node, which may be a brace that takes them in turn.
pub open spec fn framed(b: SpecNode, before: bool, after: bool) -> Seq<SpecNode> {
    sep_if(before) + opened(b) + sep_if(after)
}

pub open spec fn sep_if(yes: bool) -> Seq<SpecNode> {
    if yes {
        seq![SpecNode::Separator]
    } else {
        seq![]
    }
}

pub proof fn lemma_weights_framed(b: SpecNode, before: bool, after: bool)
    ensures
        b is Concat ==> weights(framed(b, before, after)) < weight(b),
        !(b is Concat) ==> weights(framed(b, before, after)) == weight(b) && framed(
            b,
            before,
            after,
        ).len() <= 3,
{
    lemma_weights_one(SpecNode::Separator);
    assert(weights(Seq::<SpecNode>::empty()) == 0);
    lemma_weights_one(b);
    lemma_weights_concat(sep_if(before), opened(b));
    lemma_weights_concat(sep_if(before) + opened(b), sep_if(after));
}

/// The brace takes in the separator that `out` ends with, unless a `**` before
/// it owns that one.
pub open spec fn takes_before(out: Seq<SpecNode>, bs: Seq<SpecNode>) -> bool {
    out.len() > 0 && out.last() is Separator && !(out.len() > 1 && out[out.len()
        - 2] is Globstar) && some_leads(bs)
}

/// The brace takes in the separator behind it.
pub open spec fn takes_after(bs: Seq<SpecNode>, tail: Seq<SpecNode>) -> bool {
    tail.len() > 0 && tail[0] is Separator && some_trails(bs)
}

/// The node with such separators moved into the branches.
pub open spec fn spread(n: SpecNode) -> SpecNode
    decreases weight(n), 0nat,
{
    match n {
        SpecNode::Concat(xs) => SpecNode::Concat(spread_from(seq![], xs)),
        SpecNode::Brace(bs) => SpecNode::Brace(spread_all(bs)),
        _ => n,
    }
}

pub open spec fn spread_all(bs: Seq<SpecNode>) -> Seq<SpecNode>
    decreases weights(bs), bs.len(),
{
    if bs.len() == 0 {
        seq![]
    } else {
        spread_all(bs.drop_last()).push(spread(bs.last()))
    }
}

/// The branches, each with the separators that it takes in.
pub open spec fn spread_branches(bs: Seq<SpecNode>, before: bool, after: bool) -> Seq<SpecNode>
    decreases weights(bs), bs.len() + 3,
{
    if bs.len() == 0 {
        seq![]
    } else {
        proof {
            lemma_weights_framed(bs.last(), before, after);
        }
        spread_branches(bs.drop_last(), before, after).push(
            SpecNode::Concat(spread_from(seq![], framed(bs.last(), before, after))),
        )
    }
}

/// A sequence from left to right: `out` is done, `rest` is not. A separator
/// between two braces goes to the left one.
pub open spec fn spread_from(out: Seq<SpecNode>, rest: Seq<SpecNode>) -> Seq<SpecNode>
    decreases weights(rest), rest.len(),
{
    if rest.len() == 0 {
        out
    } else {
        proof {
            lemma_weights_first(rest);
            if rest.drop_first().len() > 0 {
                lemma_weights_first(rest.drop_first());
            }
        }
        let tail = rest.drop_first();
        match rest[0] {
            SpecNode::Brace(bs) => {
                let before = takes_before(out, bs);
                let after = takes_after(bs, tail);
                if !before && !after {
                    spread_from(out.push(spread(rest[0])), tail)
                } else {
                    spread_from(
                        (if before {
                            out.drop_last()
                        } else {
                            out
                        }).push(SpecNode::Brace(spread_branches(bs, before, after))),
                        if after {
                            tail.drop_first()
                        } else {
                            tail
                        },
                    )
                }
            },
            _ => spread_from(out.push(spread(rest[0])), tail),
        }
    }
}

/// Moving separators keeps a tree sound.
pub proof fn lemma_spread_sound(n: SpecNode)
    requires
        ast::sound(n),
    ensures
        ast::sound(spread(n)),
    decreases weight(n), 0nat,
{
    match n {
        SpecNode::Concat(xs) => {
            lemma_spread_from_sound(seq![], xs);
        },
        SpecNode::Brace(bs) => {
            lemma_spread_all_sound(bs);
        },
        _ => {},
    }
}

proof fn lemma_spread_all_sound(bs: Seq<SpecNode>)
    requires
        ast::all_sound(bs),
    ensures
        ast::all_sound(spread_all(bs)),
        spread_all(bs).len() == bs.len(),
    decreases weights(bs), bs.len(),
{
    if bs.len() > 0 {
        assert(ast::sound(bs[bs.len() - 1]));
        assert(ast::all_sound(bs.drop_last())) by {
            assert forall|i: int| 0 <= i < bs.drop_last().len() implies ast::sound(
                #[trigger] bs.drop_last()[i],
            ) by {
                assert(bs.drop_last()[i] == bs[i]);
            }
        }
        lemma_spread_all_sound(bs.drop_last());
        lemma_spread_sound(bs.last());
    }
}

pub proof fn lemma_spread_branches_sound(bs: Seq<SpecNode>, before: bool, after: bool)
    requires
        ast::all_sound(bs),
    ensures
        ast::all_sound(spread_branches(bs, before, after)),
        spread_branches(bs, before, after).len() == bs.len(),
    decreases weights(bs), bs.len() + 3,
{
    if bs.len() > 0 {
        let f = framed(bs.last(), before, after);
        assert(ast::sound(bs[bs.len() - 1]));
        assert(ast::all_sound(bs.drop_last())) by {
            assert forall|i: int| 0 <= i < bs.drop_last().len() implies ast::sound(
                #[trigger] bs.drop_last()[i],
            ) by {
                assert(bs.drop_last()[i] == bs[i]);
            }
        }
        lemma_weights_framed(bs.last(), before, after);
        assert(ast::sound(SpecNode::Separator));
        assert(ast::all_sound(opened(bs.last()))) by {
            if let SpecNode::Concat(xs) = bs.last() {
                assert(ast::all_sound(xs));
            }
        }
        assert(ast::all_sound(f)) by {
            let front = sep_if(before);
            let o = opened(bs.last());
            assert forall|i: int| 0 <= i < f.len() implies ast::sound(#[trigger] f[i]) by {
                if front.len() <= i < front.len() + o.len() {
                    assert(f[i] == o[i - front.len()]);
                }
            }
        }
        lemma_spread_branches_sound(bs.drop_last(), before, after);
        lemma_spread_from_sound(seq![], f);
        assert(ast::sound(SpecNode::Concat(spread_from(seq![], f))));
    }
}

pub proof fn lemma_spread_from_sound(out: Seq<SpecNode>, rest: Seq<SpecNode>)
    requires
        ast::all_sound(out),
        ast::all_sound(rest),
    ensures
        ast::all_sound(spread_from(out, rest)),
    decreases weights(rest), rest.len(),
{
    if rest.len() > 0 {
        lemma_weights_first(rest);
        let tail = rest.drop_first();
        assert(ast::all_sound(tail)) by {
            assert forall|i: int| 0 <= i < tail.len() implies ast::sound(#[trigger] tail[i]) by {
                assert(tail[i] == rest[i + 1]);
            }
        }
        assert(ast::sound(rest[0]));
        lemma_spread_sound(rest[0]);
        match rest[0] {
            SpecNode::Brace(bs) => {
                let before = takes_before(out, bs);
                let after = takes_after(bs, tail);
                if !before && !after {
                    lemma_spread_from_sound(out.push(spread(rest[0])), tail);
                } else {
                    assert(ast::all_sound(bs));
                    lemma_spread_branches_sound(bs, before, after);
                    let kept = if before {
                        out.drop_last()
                    } else {
                        out
                    };
                    let left = if after {
                        tail.drop_first()
                    } else {
                        tail
                    };
                    assert(ast::all_sound(left)) by {
                        assert forall|i: int| 0 <= i < left.len() implies ast::sound(
                            #[trigger] left[i],
                        ) by {
                            if after {
                                assert(left[i] == tail[i + 1]);
                            }
                        }
                    }
                    let node = SpecNode::Brace(spread_branches(bs, before, after));
                    assert(ast::sound(node));
                    assert(ast::all_sound(kept.push(node))) by {
                        assert forall|i: int| 0 <= i < kept.push(node).len() implies ast::sound(
                            #[trigger] kept.push(node)[i],
                        ) by {
                            if i < kept.len() {
                                assert(kept.push(node)[i] == out[i]);
                            }
                        }
                    }
                    if after {
                        lemma_weights_first(tail);
                    }
                    lemma_spread_from_sound(kept.push(node), left);
                }
            },
            _ => {
                lemma_spread_from_sound(out.push(spread(rest[0])), tail);
            },
        }
    }
}

fn leads_globstar(node: &Node) -> (r: bool)
    ensures
        r == leads(node@),
    decreases node,
{
    match node {
        Node::Globstar => true,
        Node::Concat(xs) => {
            if xs.len() == 0 {
                false
            } else {
                assert(decreases_to!(node => xs@[0]));
                leads_globstar(&xs[0])
            }
        },
        Node::Brace(bs) => any_leads(bs),
        _ => false,
    }
}

fn any_leads(bs: &Vec<Node>) -> (r: bool)
    ensures
        r == some_leads(ast::nodes_view(bs@)),
    decreases bs,
{
    for i in 0..bs.len()
        invariant
            forall|k: int| 0 <= k < i ==> !leads(#[trigger] ast::nodes_view(bs@)[k]),
    {
        assert(decreases_to!(bs => bs@[i as int]));
        assert(ast::nodes_view(bs@)[i as int] == ast::node_view(bs@[i as int]));
        if leads_globstar(&bs[i]) {
            return true;
        }
    }
    false
}

fn trails_globstar(node: &Node) -> (r: bool)
    ensures
        r == trails(node@),
    decreases node,
{
    match node {
        Node::Globstar => true,
        Node::Concat(xs) => {
            if xs.len() == 0 {
                false
            } else {
                assert(decreases_to!(node => xs@[xs@.len() - 1]));
                trails_globstar(&xs[xs.len() - 1])
            }
        },
        Node::Brace(bs) => any_trails(bs),
        _ => false,
    }
}

pub(crate) fn any_trails(bs: &Vec<Node>) -> (r: bool)
    ensures
        r == some_trails(ast::nodes_view(bs@)),
    decreases bs,
{
    for i in 0..bs.len()
        invariant
            forall|k: int| 0 <= k < i ==> !trails(#[trigger] ast::nodes_view(bs@)[k]),
    {
        assert(decreases_to!(bs => bs@[i as int]));
        assert(ast::nodes_view(bs@)[i as int] == ast::node_view(bs@[i as int]));
        if trails_globstar(&bs[i]) {
            return true;
        }
    }
    false
}

/// Whether any brace in the tree sits next to a separator with a `**` at that
/// edge of a branch.
pub(crate) fn needs_sep_distribution(node: &Node) -> (r: bool)
    ensures
        r == crowded(node@),
    decreases node,
{
    match node {
        Node::Concat(xs) => {
            let ghost views = ast::nodes_view(xs@);
            for i in 0..xs.len()
                invariant
                    views == ast::nodes_view(xs@),
                    node@ == SpecNode::Concat(views),
                    forall|k: int| 0 <= k < i ==> !#[trigger] crowded_at(views, k),
            {
                assert(views[i as int] == ast::node_view(xs@[i as int]));
                if let Node::Brace(branches) = &xs[i] {
                    let prev_sep: bool = i > 0 && is_separator(&xs[i - 1]);
                    let next_sep: bool = i + 1 < xs.len() && is_separator(&xs[i + 1]);
                    assert(i > 0 ==> views[i - 1] == ast::node_view(xs@[i - 1]));
                    if (prev_sep && any_leads(branches)) || (next_sep && any_trails(branches)) {
                        assert(crowded_at(views, i as int));
                        return true;
                    }
                }
            }
            any_needs(xs)
        },
        Node::Brace(bs) => any_needs(bs),
        _ => false,
    }
}

fn is_separator(node: &Node) -> (r: bool)
    ensures
        r == (node@ is Separator),
{
    matches!(node, Node::Separator)
}

fn any_needs(bs: &Vec<Node>) -> (r: bool)
    ensures
        r == some_crowded(ast::nodes_view(bs@)),
    decreases bs,
{
    for i in 0..bs.len()
        invariant
            forall|k: int| 0 <= k < i ==> !crowded(#[trigger] ast::nodes_view(bs@)[k]),
    {
        assert(decreases_to!(bs => bs@[i as int]));
        assert(ast::nodes_view(bs@)[i as int] == ast::node_view(bs@[i as int]));
        if needs_sep_distribution(&bs[i]) {
            return true;
        }
    }
    false
}

/// The same items, last one first.
pub(crate) fn reversed<T>(v: Vec<T>) -> (r: Vec<T>)
    ensures
        r@ == v@.reverse(),
{
    let ghost all = v@;
    let mut v = v;
    let mut out: Vec<T> = Vec::new();
    while v.len() > 0
        invariant
            v@.len() + out@.len() == all.len(),
            v@ == all.take(v@.len() as int),
            out@ == all.reverse().take(out@.len() as int),
        decreases v@.len(),
    {
        let ghost n = v@.len() as int;
        if let Some(x) = v.pop() {
            out.push(x);
        }
        assert(v@ =~= all.take(n - 1));
        assert(out@ =~= all.reverse().take(out@.len() as int));
    }
    assert(out@ =~= all.reverse());
    out
}

/// Moves separators that flank a brace with a `**` at its edge into every
/// branch. What moved may next flank a nested brace, and moves on.
pub(crate) fn distribute_seps(node: Node) -> (r: Node)
    ensures
        r@ == spread(node@),
    decreases weight(node@), 0nat,
{
    match node {
        Node::Concat(xs) => Node::Concat(distribute_seq(xs)),
        Node::Brace(bs) => Node::Brace(distribute_all(bs)),
        other => other,
    }
}

proof fn lemma_views_append(xs: Seq<Node>, ys: Seq<Node>)
    ensures
        ast::nodes_view(xs + ys) == ast::nodes_view(xs) + ast::nodes_view(ys),
{
    assert(ast::nodes_view(xs + ys) =~= ast::nodes_view(xs) + ast::nodes_view(ys));
}

proof fn lemma_views_push(xs: Seq<Node>, x: Node)
    ensures
        ast::nodes_view(xs.push(x)) == ast::nodes_view(xs).push(ast::node_view(x)),
{
    assert(ast::nodes_view(xs.push(x)) =~= ast::nodes_view(xs).push(ast::node_view(x)));
}

/// Taking the top of a stack takes the first of what is left.
proof fn lemma_pop(stack: Seq<Node>)
    requires
        stack.len() > 0,
    ensures
        ast::nodes_view(stack).reverse()[0] == ast::node_view(stack.last()),
        ast::nodes_view(stack.drop_last()).reverse() == ast::nodes_view(
            stack,
        ).reverse().drop_first(),
{
    assert(ast::nodes_view(stack.drop_last()).reverse() =~= ast::nodes_view(
        stack,
    ).reverse().drop_first());
}

/// An inner node has no more weight than all of them.
pub proof fn lemma_weight_of(xs: Seq<SpecNode>, i: int)
    requires
        0 <= i < xs.len(),
    ensures
        weight(xs[i]) <= weights(xs),
    decreases xs.len(),
{
    if i < xs.len() - 1 {
        lemma_weight_of(xs.drop_last(), i);
    }
}

fn distribute_all(bs: Vec<Node>) -> (r: Vec<Node>)
    ensures
        ast::nodes_view(r@) == spread_all(ast::nodes_view(bs@)),
    decreases weights(ast::nodes_view(bs@)), bs@.len(),
{
    let ghost views = ast::nodes_view(bs@);
    let mut out: Vec<Node> = Vec::new();
    let mut stack: Vec<Node> = reversed(bs);
    let ghost mut i: int = 0;
    proof {
        assert(ast::nodes_view(out@) =~= seq![]);
        assert(ast::nodes_view(stack@).reverse() =~= views.skip(0));
        assert(views.take(0) =~= seq![]);
    }
    while stack.len() > 0
        invariant
            views == ast::nodes_view(bs@),
            0 <= i <= views.len(),
            ast::nodes_view(stack@).reverse() == views.skip(i),
            ast::nodes_view(out@) == spread_all(views.take(i)),
        decreases stack@.len(),
    {
        proof {
            lemma_pop(stack@);
            assert(views.skip(i).drop_first() =~= views.skip(i + 1));
            assert(views.skip(i).len() == stack@.len());
        }
        if let Some(node) = stack.pop() {
            proof {
                assert(views.skip(i)[0] == ast::node_view(node));
                lemma_weight_of(views, i);
                assert(views.take(i + 1).drop_last() =~= views.take(i));
                assert(views.take(i + 1).last() == views[i]);
            }
            let done = distribute_seps(node);
            proof {
                lemma_views_push(out@, done);
                i = i + 1;
            }
            out.push(done);
        }
    }
    assert(views.skip(i).len() == stack@.len());
    assert(views.take(i) =~= views);
    out
}

fn distribute_branches(bs: Vec<Node>, before: bool, after: bool) -> (r: Vec<Node>)
    ensures
        ast::nodes_view(r@) == spread_branches(ast::nodes_view(bs@), before, after),
    decreases weights(ast::nodes_view(bs@)), bs@.len() + 5,
{
    let ghost views = ast::nodes_view(bs@);
    let mut out: Vec<Node> = Vec::new();
    let mut stack: Vec<Node> = reversed(bs);
    let ghost mut i: int = 0;
    proof {
        assert(ast::nodes_view(out@) =~= seq![]);
        assert(ast::nodes_view(stack@).reverse() =~= views.skip(0));
        assert(views.take(0) =~= seq![]);
    }
    while stack.len() > 0
        invariant
            views == ast::nodes_view(bs@),
            0 <= i <= views.len(),
            ast::nodes_view(stack@).reverse() == views.skip(i),
            ast::nodes_view(out@) == spread_branches(views.take(i), before, after),
        decreases stack@.len(),
    {
        proof {
            lemma_pop(stack@);
            assert(views.skip(i).drop_first() =~= views.skip(i + 1));
            assert(views.skip(i).len() == stack@.len());
        }
        if let Some(node) = stack.pop() {
            let ghost nv = ast::node_view(node);
            let mut sequence: Vec<Node> = Vec::new();
            if before {
                sequence.push(Node::Separator);
            }
            match node {
                Node::Concat(mut xs) => {
                    proof {
                        lemma_views_append(sequence@, xs@);
                    }
                    sequence.append(&mut xs);
                },
                other => {
                    proof {
                        lemma_views_push(sequence@, other);
                    }
                    sequence.push(other);
                },
            }
            if after {
                sequence.push(Node::Separator);
            }
            proof {
                assert(views.skip(i)[0] == nv);
                lemma_weight_of(views, i);
                assert(views.take(i + 1).drop_last() =~= views.take(i));
                assert(views.take(i + 1).last() == views[i]);
                lemma_weights_framed(nv, before, after);
                assert(ast::node_view(Node::Separator) == SpecNode::Separator);
                assert(ast::nodes_view(sequence@) =~= framed(nv, before, after));
            }
            let done = Node::Concat(distribute_seq(sequence));
            proof {
                lemma_views_push(out@, done);
                i = i + 1;
            }
            out.push(done);
        }
    }
    assert(views.skip(i).len() == stack@.len());
    assert(views.take(i) =~= views);
    out
}

/// What is done after a brace, where `out` was done before it and `tail` stands
/// behind it.
spec fn brace_out(out: Seq<SpecNode>, bs: Seq<SpecNode>, tail: Seq<SpecNode>) -> Seq<SpecNode> {
    let before = takes_before(out, bs);
    let after = takes_after(bs, tail);
    if !before && !after {
        out.push(spread(SpecNode::Brace(bs)))
    } else {
        (if before {
            out.drop_last()
        } else {
            out
        }).push(SpecNode::Brace(spread_branches(bs, before, after)))
    }
}

/// What is left after a brace.
spec fn brace_rest(bs: Seq<SpecNode>, tail: Seq<SpecNode>) -> Seq<SpecNode> {
    if takes_after(bs, tail) {
        tail.drop_first()
    } else {
        tail
    }
}

/// One step of [`spread_from`].
proof fn lemma_spread_step(out: Seq<SpecNode>, rest: Seq<SpecNode>)
    requires
        rest.len() > 0,
    ensures
        spread_from(out, rest) == match rest[0] {
            SpecNode::Brace(bs) => spread_from(
                brace_out(out, bs, rest.drop_first()),
                brace_rest(bs, rest.drop_first()),
            ),
            _ => spread_from(out.push(spread(rest[0])), rest.drop_first()),
        },
        weight(rest[0]) + weights(rest.drop_first()) == weights(rest),
        rest[0] matches SpecNode::Brace(bs) ==> weights(brace_rest(bs, rest.drop_first()))
            <= weights(rest),
{
    lemma_weights_first(rest);
    if rest.drop_first().len() > 0 {
        lemma_weights_first(rest.drop_first());
    }
}

/// Takes one brace, with the separators next to it that it takes in.
fn distribute_brace(out: &mut Vec<Node>, stack: &mut Vec<Node>, branches: Vec<Node>)
    ensures
        ast::nodes_view(final(out)@) == brace_out(
            ast::nodes_view(old(out)@),
            ast::nodes_view(branches@),
            ast::nodes_view(old(stack)@).reverse(),
        ),
        ast::nodes_view(final(stack)@).reverse() == brace_rest(
            ast::nodes_view(branches@),
            ast::nodes_view(old(stack)@).reverse(),
        ),
        final(stack)@.len() <= old(stack)@.len(),
    decreases 1 + weights(ast::nodes_view(branches@)), 1nat,
{
    let ghost ov = ast::nodes_view(out@);
    let ghost tail = ast::nodes_view(stack@).reverse();
    let ghost bs = ast::nodes_view(branches@);
    let n: usize = out.len();
    let prev_is_sep: bool = n > 0 && is_separator(&out[n - 1]);
    let owned: bool = n > 1 && matches!(out[n - 2], Node::Globstar);
    let absorb_prev: bool = prev_is_sep && !owned && any_leads(&branches);
    let m: usize = stack.len();
    let absorb_next: bool = m > 0 && is_separator(&stack[m - 1]) && any_trails(&branches);
    proof {
        assert(n > 0 ==> ov.last() == ast::node_view(out@[n - 1]));
        assert(n > 1 ==> ov[n - 2] == ast::node_view(out@[n - 2]));
        assert(m > 0 ==> tail[0] == ast::node_view(stack@[m - 1]));
        assert(absorb_prev == takes_before(ov, bs));
        assert(absorb_next == takes_after(bs, tail));
    }
    if !absorb_prev && !absorb_next {
        let done = distribute_seps(Node::Brace(branches));
        proof {
            lemma_views_push(out@, done);
        }
        out.push(done);
    } else {
        if absorb_prev {
            let dropped = out.pop();
            assert(ast::nodes_view(out@) =~= ov.drop_last());
        }
        if absorb_next {
            proof {
                lemma_pop(stack@);
            }
            let dropped = stack.pop();
        }
        let done = Node::Brace(distribute_branches(branches, absorb_prev, absorb_next));
        proof {
            lemma_views_push(out@, done);
        }
        out.push(done);
    }
}

fn distribute_seq(children: Vec<Node>) -> (r: Vec<Node>)
    ensures
        ast::nodes_view(r@) == spread_from(seq![], ast::nodes_view(children@)),
    decreases weights(ast::nodes_view(children@)), children@.len() + 1,
{
    let ghost all = ast::nodes_view(children@);
    let ghost goal = spread_from(seq![], all);
    let mut out: Vec<Node> = Vec::new();
    let mut stack: Vec<Node> = reversed(children);
    proof {
        assert(ast::nodes_view(out@) =~= seq![]);
        assert(ast::nodes_view(stack@).reverse() =~= all);
    }
    while stack.len() > 0
        invariant
            all == ast::nodes_view(children@),
            spread_from(ast::nodes_view(out@), ast::nodes_view(stack@).reverse()) == goal,
            weights(ast::nodes_view(stack@).reverse()) <= weights(all),
            stack@.len() <= children@.len(),
        decreases stack@.len(),
    {
        proof {
            lemma_pop(stack@);
            lemma_spread_step(ast::nodes_view(out@), ast::nodes_view(stack@).reverse());
        }
        if let Some(child) = stack.pop() {
            match child {
                Node::Brace(branches) => distribute_brace(&mut out, &mut stack, branches),
                other => {
                    let done = distribute_seps(other);
                    proof {
                        lemma_views_push(out@, done);
                    }
                    out.push(done);
                },
            }
        }
    }
    assert(ast::nodes_view(stack@).reverse().len() == 0);
    out
}

} // verus!
