//! Common ends of several patterns.
//!
//! A union of patterns is one brace. What all members start or end with is
//! lifted out of it, so that it is matched once. A `**` and the separators
//! around it are lifted together or not at all, since they are lowered
//! together. Nothing is lifted where a `**` would still be torn from what stands
//! before it.

use crate::ast::{self, Node, SpecNode};
use crate::engine::ops::distribute;
use crate::engine::ops::distribute::{any_trails, reversed};
use vstd::prelude::*;

verus! {

/// A node without inner nodes that is the same wherever it stands.
pub open spec fn leaf(n: SpecNode) -> bool {
    match n {
        SpecNode::Literal(_) => true,
        SpecNode::Separator => true,
        SpecNode::AnyChar => true,
        SpecNode::Star => true,
        SpecNode::Globstar => true,
        _ => false,
    }
}

/// How many nodes at the end belong together.
pub open spec fn edge(s: Seq<SpecNode>) -> int {
    let n = s.len();
    if n == 0 {
        0
    } else if n == 1 {
        1
    } else if s[n - 1] is Globstar && s[n - 2] is Separator {
        2
    } else if s[n - 1] is Separator && s[n - 2] is Globstar {
        if n > 2 && s[n - 3] is Separator {
            3
        } else {
            2
        }
    } else {
        1
    }
}

pub open spec fn ending(s: Seq<SpecNode>, n: int) -> Seq<SpecNode> {
    s.skip(s.len() - n)
}

/// `s` ends with the same `n` nodes as `first`, and they belong together.
pub open spec fn same_ending(s: Seq<SpecNode>, first: Seq<SpecNode>, n: int) -> bool {
    edge(s) == n && ending(s, n) == ending(first, n) && forall|k: int|
        0 <= k < n ==> leaf(#[trigger] ending(first, n)[k])
}

/// All sequences end with the same `n` nodes.
pub open spec fn all_end_alike(seqs: Seq<Seq<SpecNode>>, n: int) -> bool {
    forall|i: int| 1 <= i < seqs.len() ==> same_ending(#[trigger] seqs[i], seqs[0], n)
}

pub open spec fn shorten(seqs: Seq<Seq<SpecNode>>, n: int) -> Seq<Seq<SpecNode>> {
    Seq::new(seqs.len(), |i: int| seqs[i].take(seqs[i].len() - n))
}

/// The last node is a literal.
pub open spec fn ends_literal(s: Seq<SpecNode>) -> bool {
    s.len() > 0 && s.last() is Literal
}

pub open spec fn all_end_literal(seqs: Seq<Seq<SpecNode>>) -> bool {
    forall|i: int| 0 <= i < seqs.len() ==> ends_literal(#[trigger] seqs[i])
}

/// The bytes of the last literal.
pub open spec fn last_bytes(s: Seq<SpecNode>) -> Seq<u8> {
    s.last()->Literal_0
}

/// The byte with `n` bytes behind it in the last literal is `first`'s.
pub open spec fn same_byte_back(s: Seq<SpecNode>, first: Seq<SpecNode>, n: int) -> bool {
    n < last_bytes(s).len() && n < last_bytes(first).len() && last_bytes(s)[last_bytes(s).len() - 1
        - n] == last_bytes(first)[last_bytes(first).len() - 1 - n]
}

pub open spec fn all_bytes_back(seqs: Seq<Seq<SpecNode>>, n: int) -> bool {
    forall|i: int| 0 <= i < seqs.len() ==> same_byte_back(#[trigger] seqs[i], seqs[0], n)
}

/// How many bytes, from `n` on, the last literals end with in common.
pub open spec fn common_back(seqs: Seq<Seq<SpecNode>>, n: int) -> int
    decreases last_bytes(seqs[0]).len() - n,
{
    if seqs.len() > 0 && all_bytes_back(seqs, n) {
        proof {
            assert(same_byte_back(seqs[0], seqs[0], n));
        }
        common_back(seqs, n + 1)
    } else {
        n
    }
}

/// The sequence without the last `n` bytes of its last literal.
pub open spec fn trimmed(s: Seq<SpecNode>, n: int) -> Seq<SpecNode> {
    let b = last_bytes(s);
    if b.len() == n {
        s.drop_last()
    } else {
        s.drop_last().push(SpecNode::Literal(b.take(b.len() - n)))
    }
}

pub open spec fn trim_all(seqs: Seq<Seq<SpecNode>>, n: int) -> Seq<Seq<SpecNode>> {
    Seq::new(seqs.len(), |i: int| trimmed(seqs[i], n))
}

/// What is left of the sequences, and what they all end with.
pub open spec fn lifted(seqs: Seq<Seq<SpecNode>>) -> (Seq<Seq<SpecNode>>, Seq<SpecNode>)
    decreases seqs[0].len(),
{
    let n = edge(seqs[0]);
    if seqs.len() > 0 && n > 0 && all_end_alike(seqs, n) {
        let (left, end) = lifted(shorten(seqs, n));
        (left, end + ending(seqs[0], n))
    } else if all_end_literal(seqs) && common_back(seqs, 0) > 0 {
        let n = common_back(seqs, 0);
        let b = last_bytes(seqs[0]);
        (trim_all(seqs, n), seq![SpecNode::Literal(b.skip(b.len() - n))])
    } else {
        (seqs, seq![])
    }
}

/// A node read from right to left.
pub open spec fn mirrored_node(n: SpecNode) -> SpecNode {
    match n {
        SpecNode::Literal(b) => SpecNode::Literal(b.reverse()),
        _ => n,
    }
}

/// A sequence read from right to left.
pub open spec fn mirrored(s: Seq<SpecNode>) -> Seq<SpecNode> {
    Seq::new(s.len(), |k: int| mirrored_node(s[s.len() - 1 - k]))
}

pub open spec fn mirror_all(seqs: Seq<Seq<SpecNode>>) -> Seq<Seq<SpecNode>> {
    Seq::new(seqs.len(), |i: int| mirrored(seqs[i]))
}

/// The nodes of a branch.
pub open spec fn spelled_out(n: SpecNode) -> Seq<SpecNode> {
    match n {
        SpecNode::Concat(xs) => xs,
        _ => seq![n],
    }
}

/// One node for the nodes of a branch.
pub open spec fn joined(s: Seq<SpecNode>) -> SpecNode {
    if s.len() == 1 {
        s[0]
    } else {
        SpecNode::Concat(s)
    }
}

/// What all branches start with, what is left of each, and what they all end
/// with.
pub open spec fn parts(bs: Seq<SpecNode>) -> (Seq<SpecNode>, Seq<Seq<SpecNode>>, Seq<SpecNode>) {
    let seqs = Seq::new(bs.len(), |i: int| spelled_out(bs[i]));
    let (rest, start) = lifted(mirror_all(seqs));
    let (mids, end) = lifted(mirror_all(rest));
    (mirrored(start), mids, end)
}

/// What is left of each branch, as one node.
pub open spec fn middle_of(mids: Seq<Seq<SpecNode>>) -> Seq<SpecNode> {
    Seq::new(mids.len(), |i: int| joined(mids[i]))
}

/// What the branches have in common can be lifted.
///
/// A `**` that they all end with starts the pattern of a branch that is nothing
/// but the common end, so something must stay before it. And a separator before
/// such a `**` must not be taken in by the brace, as it is where a branch ends
/// with a `**` of its own.
pub open spec fn lifts(start: Seq<SpecNode>, middle: Seq<SpecNode>, end: Seq<SpecNode>) -> bool {
    &&& end.len() > 0 && end[0] is Globstar ==> start.len() > 1 || (start.len() == 1
        && !(start[0] is Separator))
    &&& end.len() > 1 && end[0] is Separator && end[1] is Globstar ==> !distribute::some_trails(
        middle,
    )
}

/// The tree of a union of branches.
pub open spec fn factored(bs: Seq<SpecNode>) -> SpecNode {
    let (start, mids, end) = parts(bs);
    if mids.len() == 1 {
        joined(start + spelled_out(joined(mids[0])) + end)
    } else if lifts(start, middle_of(mids), end) {
        joined(start + seq![SpecNode::Brace(middle_of(mids))] + end)
    } else {
        SpecNode::Brace(bs)
    }
}

// The code.

pub open spec fn seqs_view(s: Seq<Vec<Node>>) -> Seq<Seq<SpecNode>> {
    Seq::new(s.len(), |i: int| ast::nodes_view(s[i]@))
}

/// Every sequence is made of sound nodes.
pub open spec fn all_sound_seqs(seqs: Seq<Seq<SpecNode>>) -> bool {
    forall|i: int| 0 <= i < seqs.len() ==> ast::all_sound(#[trigger] seqs[i])
}

/// Whether two nodes are the same leaf.
fn node_eq(a: &Node, b: &Node) -> (r: bool)
    ensures
        r == (a@ == b@ && leaf(a@)),
{
    match (a, b) {
        (Node::Literal(x), Node::Literal(y)) => bytes_eq(x, y),
        (Node::Separator, Node::Separator) => true,
        (Node::Globstar, Node::Globstar) => true,
        (Node::AnyChar, Node::AnyChar) => true,
        (Node::Star, Node::Star) => true,
        _ => false,
    }
}

fn bytes_eq(x: &Vec<u8>, y: &Vec<u8>) -> (r: bool)
    ensures
        r == (x@ == y@),
{
    if x.len() != y.len() {
        return false;
    }
    for i in 0..x.len()
        invariant
            x@.len() == y@.len(),
            forall|k: int| 0 <= k < i ==> x@[k] == y@[k],
    {
        if x[i] != y[i] {
            return false;
        }
    }
    assert(x@ =~= y@);
    true
}

/// How many nodes at the end belong together.
fn fold_group_at_edge(s: &Vec<Node>) -> (r: usize)
    ensures
        r == edge(ast::nodes_view(s@)),
        r <= s@.len(),
{
    let n: usize = s.len();
    let ghost v = ast::nodes_view(s@);
    if n == 0 {
        return 0;
    }
    if n == 1 {
        return 1;
    }
    assert(v[n - 1] == ast::node_view(s@[n - 1]));
    assert(v[n - 2] == ast::node_view(s@[n - 2]));
    if matches!(s[n - 1], Node::Globstar) && matches!(s[n - 2], Node::Separator) {
        2
    } else if matches!(s[n - 1], Node::Separator) && matches!(s[n - 2], Node::Globstar) {
        assert(n > 2 ==> v[n - 3] == ast::node_view(s@[n - 3]));
        if n > 2 && matches!(s[n - 3], Node::Separator) {
            3
        } else {
            2
        }
    } else {
        1
    }
}

/// Whether `s` ends with the same `size` leaves as `first`.
fn ends_alike(s: &Vec<Node>, first: &Vec<Node>, size: usize) -> (r: bool)
    requires
        0 < size <= first@.len(),
    ensures
        r == same_ending(ast::nodes_view(s@), ast::nodes_view(first@), size as int),
{
    let ghost sv = ast::nodes_view(s@);
    let ghost fv = ast::nodes_view(first@);
    if fold_group_at_edge(s) != size {
        return false;
    }
    let a: usize = s.len() - size;
    let b: usize = first.len() - size;
    let ghost se = ending(sv, size as int);
    let ghost fe = ending(fv, size as int);
    for k in 0..size
        invariant
            sv == ast::nodes_view(s@),
            fv == ast::nodes_view(first@),
            se == ending(sv, size as int),
            fe == ending(fv, size as int),
            size <= s@.len(),
            size <= first@.len(),
            a == s@.len() - size,
            b == first@.len() - size,
            forall|j: int| 0 <= j < k ==> leaf(#[trigger] fe[j]) && se[j] == fe[j],
    {
        assert(se[k as int] == ast::node_view(s@[a + k]));
        assert(fe[k as int] == ast::node_view(first@[b + k]));
        assert(a + k < s.len() && b + k < first.len());
        if !node_eq(&s[a + k], &first[b + k]) {
            return false;
        }
    }
    assert(se =~= fe);
    true
}

fn all_alike(seqs: &Vec<Vec<Node>>, size: usize) -> (r: bool)
    requires
        seqs@.len() > 0,
        0 < size <= seqs@[0]@.len(),
    ensures
        r == all_end_alike(seqs_view(seqs@), size as int),
{
    let ghost v = seqs_view(seqs@);
    for i in 1..seqs.len()
        invariant
            seqs@.len() > 0,
            0 < size <= seqs@[0]@.len(),
            v == seqs_view(seqs@),
            forall|j: int| 1 <= j < i ==> same_ending(#[trigger] v[j], v[0], size as int),
    {
        assert(v[i as int] == ast::nodes_view(seqs@[i as int]@));
        assert(v[0] == ast::nodes_view(seqs@[0]@));
        if !ends_alike(&seqs[i], &seqs[0], size) {
            return false;
        }
    }
    true
}

proof fn lemma_sound_take(s: Seq<SpecNode>, n: int)
    requires
        ast::all_sound(s),
        0 <= n <= s.len(),
    ensures
        ast::all_sound(s.take(n)),
        ast::all_sound(s.skip(n)),
{
    assert forall|k: int| 0 <= k < n implies ast::sound(#[trigger] s.take(n)[k]) by {
        assert(s.take(n)[k] == s[k]);
    }
    assert forall|k: int| 0 <= k < s.len() - n implies ast::sound(#[trigger] s.skip(n)[k]) by {
        assert(s.skip(n)[k] == s[n + k]);
    }
}

proof fn lemma_sound_concat(a: Seq<SpecNode>, b: Seq<SpecNode>)
    requires
        ast::all_sound(a),
        ast::all_sound(b),
    ensures
        ast::all_sound(a + b),
{
    assert forall|k: int| 0 <= k < (a + b).len() implies ast::sound(#[trigger] (a + b)[k]) by {
        if k < a.len() {
            assert((a + b)[k] == a[k]);
        } else {
            assert((a + b)[k] == b[k - a.len()]);
        }
    }
}

/// Lifting keeps trees sound.
pub proof fn lemma_lifted_sound(seqs: Seq<Seq<SpecNode>>)
    requires
        seqs.len() > 0,
        all_sound_seqs(seqs),
    ensures
        all_sound_seqs(lifted(seqs).0),
        ast::all_sound(lifted(seqs).1),
        lifted(seqs).0.len() == seqs.len(),
    decreases seqs[0].len(),
{
    let n = edge(seqs[0]);
    assert(ast::all_sound(seqs[0]));
    if n > 0 && all_end_alike(seqs, n) {
        let short = shorten(seqs, n);
        assert forall|i: int| 0 <= i < short.len() implies ast::all_sound(#[trigger] short[i]) by {
            assert(ast::all_sound(seqs[i]));
            if i > 0 {
                assert(same_ending(seqs[i], seqs[0], n));
            }
            lemma_sound_take(seqs[i], seqs[i].len() - n);
        }
        lemma_lifted_sound(short);
        lemma_sound_take(seqs[0], seqs[0].len() - n);
        lemma_sound_concat(lifted(short).1, ending(seqs[0], n));
    } else if all_end_literal(seqs) && common_back(seqs, 0) > 0 {
        let n = common_back(seqs, 0);
        lemma_common_back(seqs, 0);
        let all = trim_all(seqs, n);
        assert forall|i: int| 0 <= i < all.len() implies ast::all_sound(#[trigger] all[i]) by {
            let s = seqs[i];
            assert(ends_literal(seqs[i]));
            assert(ast::all_sound(seqs[i]));
            lemma_sound_take(s, s.len() - 1);
            assert(s.drop_last() =~= s.take(s.len() - 1));
            let b = last_bytes(s);
            if b.len() != n {
                let node = SpecNode::Literal(b.take(b.len() - n));
                assert(ast::sound(node));
                lemma_sound_concat(s.drop_last(), seq![node]);
                assert(s.drop_last().push(node) =~= s.drop_last() + seq![node]);
            }
        }
    }
}

/// The common bytes are bytes of every literal, and no more are common.
pub proof fn lemma_common_back(seqs: Seq<Seq<SpecNode>>, n: int)
    requires
        seqs.len() > 0,
        0 <= n,
        n > 0 ==> forall|i: int| 0 <= i < seqs.len() ==> n <= last_bytes(#[trigger] seqs[i]).len(),
    ensures
        n <= common_back(seqs, n),
        common_back(seqs, n) > 0 ==> forall|i: int|
            0 <= i < seqs.len() ==> common_back(seqs, n) <= last_bytes(#[trigger] seqs[i]).len(),
        !all_bytes_back(seqs, common_back(seqs, n)),
        forall|k: int| n <= k < common_back(seqs, n) ==> #[trigger] all_bytes_back(seqs, k),
    decreases last_bytes(seqs[0]).len() - n,
{
    if all_bytes_back(seqs, n) {
        assert(same_byte_back(seqs[0], seqs[0], n));
        assert forall|i: int| 0 <= i < seqs.len() implies n + 1 <= last_bytes(
            #[trigger] seqs[i],
        ).len() by {
            assert(same_byte_back(seqs[i], seqs[0], n));
        }
        lemma_common_back(seqs, n + 1);
    }
}

/// Whether all last nodes are literals.
fn all_literal(seqs: &Vec<Vec<Node>>) -> (r: bool)
    ensures
        r == all_end_literal(seqs_view(seqs@)),
{
    let ghost v = seqs_view(seqs@);
    for i in 0..seqs.len()
        invariant
            v == seqs_view(seqs@),
            forall|j: int| 0 <= j < i ==> ends_literal(#[trigger] v[j]),
    {
        assert(v[i as int] == ast::nodes_view(seqs@[i as int]@));
        let n: usize = seqs[i].len();
        if n == 0 {
            assert(!ends_literal(v[i as int]));
            return false;
        }
        assert(v[i as int].last() == ast::node_view(seqs@[i as int]@[n - 1]));
        if !matches!(seqs[i][n - 1], Node::Literal(_)) {
            assert(!ends_literal(v[i as int]));
            return false;
        }
    }
    true
}

/// The byte with `n` bytes behind it in the last literal.
fn byte_back(s: &Vec<Node>, n: usize) -> (r: Option<u8>)
    requires
        ends_literal(ast::nodes_view(s@)),
    ensures
        ({
            let b = last_bytes(ast::nodes_view(s@));
            r == (if n < b.len() {
                Some(b[b.len() - 1 - n])
            } else {
                None::<u8>
            })
        }),
{
    let ghost v = ast::nodes_view(s@);
    assert(v.last() == ast::node_view(s@[s@.len() - 1]));
    match &s[s.len() - 1] {
        Node::Literal(b) => {
            if n < b.len() {
                Some(b[b.len() - 1 - n])
            } else {
                None
            }
        },
        _ => None,
    }
}

/// Whether the byte with `n` bytes behind it is the same in all last literals.
fn all_same_back(seqs: &Vec<Vec<Node>>, n: usize) -> (r: bool)
    requires
        seqs@.len() > 0,
        all_end_literal(seqs_view(seqs@)),
    ensures
        r == all_bytes_back(seqs_view(seqs@), n as int),
{
    let ghost v = seqs_view(seqs@);
    assert(v[0] == ast::nodes_view(seqs@[0]@));
    assert(ends_literal(v[0]));
    let first: Option<u8> = byte_back(&seqs[0], n);
    for i in 0..seqs.len()
        invariant
            seqs@.len() > 0,
            v == seqs_view(seqs@),
            all_end_literal(v),
            ends_literal(v[0]),
            first == (if n < last_bytes(v[0]).len() {
                Some(last_bytes(v[0])[last_bytes(v[0]).len() - 1 - n])
            } else {
                None::<u8>
            }),
            forall|j: int| 0 <= j < i ==> same_byte_back(#[trigger] v[j], v[0], n as int),
    {
        assert(v[i as int] == ast::nodes_view(seqs@[i as int]@));
        assert(ends_literal(v[i as int]));
        let same: bool = match (first, byte_back(&seqs[i], n)) {
            (Some(a), Some(b)) => a == b,
            _ => false,
        };
        if !same {
            assert(!same_byte_back(v[i as int], v[0], n as int));
            return false;
        }
    }
    true
}

/// How many bytes the last literals end with in common.
fn common_bytes(seqs: &Vec<Vec<Node>>) -> (r: usize)
    requires
        seqs@.len() > 0,
        all_end_literal(seqs_view(seqs@)),
    ensures
        r == common_back(seqs_view(seqs@), 0),
{
    let ghost v = seqs_view(seqs@);
    let mut n: usize = 0;
    assert(v[0] == ast::nodes_view(seqs@[0]@));
    assert(ends_literal(v[0]));
    assert(v[0].last() == ast::node_view(seqs@[0]@[seqs@[0]@.len() - 1]));
    let len: usize = match &seqs[0][seqs[0].len() - 1] {
        Node::Literal(b) => b.len(),
        _ => 0,
    };
    while all_same_back(seqs, n)
        invariant
            seqs@.len() > 0,
            v == seqs_view(seqs@),
            all_end_literal(v),
            len == last_bytes(v[0]).len(),
            n <= len,
            common_back(v, n as int) == common_back(v, 0),
        decreases len - n,
    {
        assert(same_byte_back(v[0], v[0], n as int));
        n = n + 1;
    }
    n
}

/// Cuts `n` bytes off the last literal.
fn trim_last(s: Vec<Node>, n: usize) -> (r: Vec<Node>)
    requires
        ends_literal(ast::nodes_view(s@)),
        n <= last_bytes(ast::nodes_view(s@)).len(),
    ensures
        ast::nodes_view(r@) == trimmed(ast::nodes_view(s@), n as int),
{
    let ghost v = ast::nodes_view(s@);
    let mut s = s;
    assert(v.last() == ast::node_view(s@[s@.len() - 1]));
    if let Some(Node::Literal(b)) = s.pop() {
        assert(ast::nodes_view(s@) =~= v.drop_last());
        let mut b: Vec<u8> = b;
        let ghost bytes = b@;
        let keep: usize = b.len() - n;
        b.truncate(keep);
        if b.len() > 0 {
            assert(b@ =~= bytes.take(bytes.len() - n));
            let ghost before = ast::nodes_view(s@);
            s.push(Node::Literal(b));
            assert(ast::nodes_view(s@) =~= before.push(SpecNode::Literal(b@)));
        }
    }
    s
}

fn trim_each(seqs: Vec<Vec<Node>>, n: usize) -> (r: Vec<Vec<Node>>)
    requires
        all_end_literal(seqs_view(seqs@)),
        forall|i: int|
            0 <= i < seqs@.len() ==> n <= last_bytes(#[trigger] seqs_view(seqs@)[i]).len(),
    ensures
        seqs_view(r@) == trim_all(seqs_view(seqs@), n as int),
{
    let ghost v = seqs_view(seqs@);
    let ghost all = seqs@;
    let mut stack: Vec<Vec<Node>> = reversed(seqs);
    let mut out: Vec<Vec<Node>> = Vec::new();
    while stack.len() > 0
        invariant
            all.len() == stack@.len() + out@.len(),
            v == seqs_view(all),
            all_end_literal(v),
            forall|i: int| 0 <= i < v.len() ==> n <= last_bytes(#[trigger] v[i]).len(),
            stack@ == all.reverse().take(stack@.len() as int),
            forall|i: int|
                0 <= i < out@.len() ==> ast::nodes_view((#[trigger] out@[i])@) == trimmed(
                    v[i],
                    n as int,
                ),
        decreases stack@.len(),
    {
        let ghost m = stack@.len() as int;
        if let Some(s) = stack.pop() {
            proof {
                assert(stack@ =~= all.reverse().take(m - 1));
                assert(s == all[out@.len() as int]);
                assert(v[out@.len() as int] == ast::nodes_view(s@));
                assert(ends_literal(v[out@.len() as int]));
            }
            out.push(trim_last(s, n));
        }
    }
    assert(seqs_view(out@) =~= trim_all(v, n as int));
    out
}

fn shorten_each(seqs: Vec<Vec<Node>>, size: usize) -> (r: Vec<Vec<Node>>)
    requires
        forall|i: int| 0 <= i < seqs@.len() ==> size <= (#[trigger] seqs@[i])@.len(),
    ensures
        seqs_view(r@) == shorten(seqs_view(seqs@), size as int),
{
    let ghost v = seqs_view(seqs@);
    let ghost all = seqs@;
    let mut stack: Vec<Vec<Node>> = reversed(seqs);
    let mut out: Vec<Vec<Node>> = Vec::new();
    while stack.len() > 0
        invariant
            all.len() == stack@.len() + out@.len(),
            v == seqs_view(all),
            forall|i: int| 0 <= i < all.len() ==> size <= (#[trigger] all[i])@.len(),
            stack@ == all.reverse().take(stack@.len() as int),
            forall|i: int|
                0 <= i < out@.len() ==> ast::nodes_view((#[trigger] out@[i])@) == v[i].take(
                    v[i].len() - size,
                ),
        decreases stack@.len(),
    {
        let ghost m = stack@.len() as int;
        if let Some(s) = stack.pop() {
            let ghost before = s@;
            proof {
                assert(stack@ =~= all.reverse().take(m - 1));
                assert(s == all[out@.len() as int]);
                assert(v[out@.len() as int] == ast::nodes_view(s@));
            }
            let mut s: Vec<Node> = s;
            let keep: usize = s.len() - size;
            s.truncate(keep);
            assert(ast::nodes_view(s@) =~= ast::nodes_view(before).take(before.len() - size));
            out.push(s);
        }
    }
    assert(seqs_view(out@) =~= shorten(v, size as int));
    out
}

proof fn lemma_push_reversed(t: Seq<SpecNode>, n: SpecNode)
    ensures
        t.push(n).reverse() == seq![n] + t.reverse(),
{
    assert(t.push(n).reverse() =~= seq![n] + t.reverse());
}

/// Notes the last `size` nodes of `s`, the last one first.
fn take_ending(s: &Vec<Node>, size: usize, taken: &mut Vec<Node>)
    requires
        size <= s@.len(),
    ensures
        ast::nodes_view(final(taken)@).reverse() == ending(ast::nodes_view(s@), size as int)
            + ast::nodes_view(old(taken)@).reverse(),
{
    let ghost v = ast::nodes_view(s@);
    let ghost t0 = ast::nodes_view(taken@).reverse();
    let n: usize = s.len();
    let mut k: usize = 0;
    assert(v.skip(n as int) + t0 =~= t0);
    while k < size
        invariant
            k <= size <= n,
            n == s@.len(),
            v == ast::nodes_view(s@),
            ast::nodes_view(taken@).reverse() == v.skip(n - k) + t0,
        decreases size - k,
    {
        let ghost t1 = ast::nodes_view(taken@);
        let node: Node = s[n - 1 - k].clone();
        taken.push(node);
        k = k + 1;
        proof {
            let x = ast::node_view(node);
            assert(v[n - k] == x);
            assert(ast::nodes_view(taken@) =~= t1.push(x));
            lemma_push_reversed(t1, x);
            assert(v.skip(n - k) =~= seq![x] + v.skip(n - k + 1));
            assert(seq![x] + (v.skip(n - k + 1) + t0) =~= v.skip(n - k) + t0);
        }
    }
}

/// Takes what all sequences end with off them.
fn lift_suffix(seqs: Vec<Vec<Node>>) -> (r: (Vec<Vec<Node>>, Vec<Node>))
    requires
        seqs@.len() > 0,
    ensures
        seqs_view(r.0@) == lifted(seqs_view(seqs@)).0,
        ast::nodes_view(r.1@) == lifted(seqs_view(seqs@)).1,
{
    let ghost start = seqs_view(seqs@);
    let mut seqs = seqs;
    let mut taken: Vec<Node> = Vec::new();
    assert(ast::nodes_view(taken@).reverse() =~= seq![]);
    assert(lifted(start).1 + Seq::<SpecNode>::empty() =~= lifted(start).1);
    let mut size: usize = fold_group_at_edge(&seqs[0]);
    assert(seqs_view(seqs@)[0] == ast::nodes_view(seqs@[0]@));
    while size > 0 && all_alike(&seqs, size)
        invariant
            seqs@.len() > 0,
            size == edge(seqs_view(seqs@)[0]),
            size <= seqs@[0]@.len(),
            lifted(start).0 == lifted(seqs_view(seqs@)).0,
            lifted(start).1 == lifted(seqs_view(seqs@)).1 + ast::nodes_view(taken@).reverse(),
        decreases seqs@[0]@.len(),
    {
        let ghost v = seqs_view(seqs@);
        let ghost t0 = ast::nodes_view(taken@);
        let ghost end = ending(v[0], size as int);
        assert(v[0] == ast::nodes_view(seqs@[0]@));
        take_ending(&seqs[0], size, &mut taken);
        proof {
            assert forall|i: int| 0 <= i < seqs@.len() implies size <= (
            #[trigger] seqs@[i])@.len() by {
                assert(v[i] == ast::nodes_view(seqs@[i]@));
                if i > 0 {
                    assert(same_ending(v[i], v[0], size as int));
                    assert(v[i].len() == seqs@[i]@.len());
                }
            }
        }
        seqs = shorten_each(seqs, size);
        proof {
            let w = seqs_view(seqs@);
            assert(w == shorten(v, size as int));
            let more = lifted(w).1;
            assert((more + end) + t0.reverse() =~= more + (end + t0.reverse()));
            assert(w[0] == ast::nodes_view(seqs@[0]@));
            assert(w[0].len() == seqs@[0]@.len());
        }
        size = fold_group_at_edge(&seqs[0]);
    }
    let ghost v = seqs_view(seqs@);
    if all_literal(&seqs) {
        let n: usize = common_bytes(&seqs);
        if n > 0 {
            proof {
                lemma_common_back(v, 0);
                assert(v[0] == ast::nodes_view(seqs@[0]@));
                assert(ends_literal(v[0]));
                assert(v[0].last() == ast::node_view(seqs@[0]@[seqs@[0]@.len() - 1]));
                assert(n <= last_bytes(v[0]).len());
            }
            let ghost b = last_bytes(v[0]);
            let tail: Vec<u8> = match &seqs[0][seqs[0].len() - 1] {
                Node::Literal(bytes) => slice_tail(bytes, n),
                _ => Vec::new(),
            };
            let ghost t0 = ast::nodes_view(taken@);
            taken.push(Node::Literal(tail));
            proof {
                assert(ast::nodes_view(taken@) =~= t0.push(SpecNode::Literal(tail@)));
                assert(ast::nodes_view(taken@).reverse() =~= seq![SpecNode::Literal(tail@)]
                    + t0.reverse());
            }
            seqs = trim_each(seqs, n);
            let ghost tv = ast::nodes_view(taken@);
            let end: Vec<Node> = reversed(taken);
            assert(ast::nodes_view(end@) =~= tv.reverse());
            return (seqs, end);
        }
    }
    let ghost tv = ast::nodes_view(taken@);
    let end: Vec<Node> = reversed(taken);
    proof {
        assert(ast::nodes_view(end@) =~= tv.reverse());
        assert(Seq::<SpecNode>::empty() + tv.reverse() =~= tv.reverse());
    }
    (seqs, end)
}

/// The last `n` bytes.
fn slice_tail(bytes: &Vec<u8>, n: usize) -> (r: Vec<u8>)
    requires
        n <= bytes@.len(),
    ensures
        r@ == bytes@.skip(bytes@.len() - n),
{
    let mut out: Vec<u8> = Vec::new();
    let from: usize = bytes.len() - n;
    for k in from..bytes.len()
        invariant
            from == bytes@.len() - n,
            n <= bytes@.len(),
            out@ == bytes@.subrange(from as int, k as int),
    {
        out.push(bytes[k]);
        assert(out@ =~= bytes@.subrange(from as int, k + 1));
    }
    assert(out@ =~= bytes@.skip(bytes@.len() - n));
    out
}

/// A sequence read from right to left.
fn mirror(s: Vec<Node>) -> (r: Vec<Node>)
    ensures
        ast::nodes_view(r@) == mirrored(ast::nodes_view(s@)),
{
    let ghost v = ast::nodes_view(s@);
    let mut s = s;
    let mut out: Vec<Node> = Vec::new();
    while s.len() > 0
        invariant
            v.len() == s@.len() + out@.len(),
            ast::nodes_view(s@) == v.take(s@.len() as int),
            forall|k: int|
                0 <= k < out@.len() ==> ast::node_view(#[trigger] out@[k]) == mirrored(v)[k],
        decreases s@.len(),
    {
        let ghost n = s@.len() as int;
        assert(v.take(n)[n - 1] == ast::node_view(s@[n - 1]));
        if let Some(node) = s.pop() {
            assert(ast::nodes_view(s@) =~= v.take(n - 1));
            match node {
                Node::Literal(b) => {
                    out.push(Node::Literal(reversed(b)));
                },
                other => {
                    out.push(other);
                },
            }
        }
    }
    assert(ast::nodes_view(out@) =~= mirrored(v));
    out
}

fn mirror_each(seqs: Vec<Vec<Node>>) -> (r: Vec<Vec<Node>>)
    ensures
        seqs_view(r@) == mirror_all(seqs_view(seqs@)),
{
    let ghost v = seqs_view(seqs@);
    let ghost all = seqs@;
    let mut stack: Vec<Vec<Node>> = reversed(seqs);
    let mut out: Vec<Vec<Node>> = Vec::new();
    while stack.len() > 0
        invariant
            all.len() == stack@.len() + out@.len(),
            v == seqs_view(all),
            stack@ == all.reverse().take(stack@.len() as int),
            forall|i: int|
                0 <= i < out@.len() ==> ast::nodes_view((#[trigger] out@[i])@) == mirrored(v[i]),
        decreases stack@.len(),
    {
        let ghost m = stack@.len() as int;
        if let Some(s) = stack.pop() {
            proof {
                assert(stack@ =~= all.reverse().take(m - 1));
                assert(s == all[out@.len() as int]);
                assert(v[out@.len() as int] == ast::nodes_view(s@));
            }
            out.push(mirror(s));
        }
    }
    assert(seqs_view(out@) =~= mirror_all(v));
    out
}

/// Takes what all sequences start with off them: what they end with, read from
/// right to left.
fn lift_prefix(seqs: Vec<Vec<Node>>) -> (r: (Vec<Vec<Node>>, Vec<Node>))
    requires
        seqs@.len() > 0,
    ensures
        seqs_view(r.0@) == mirror_all(lifted(mirror_all(seqs_view(seqs@))).0),
        ast::nodes_view(r.1@) == mirrored(lifted(mirror_all(seqs_view(seqs@))).1),
{
    let turned = mirror_each(seqs);
    assert(seqs_view(turned@).len() == turned@.len());
    let (rest, start) = lift_suffix(turned);
    (mirror_each(rest), mirror(start))
}

/// One node for the nodes of a branch.
fn join_branch(s: Vec<Node>) -> (r: Node)
    ensures
        r@ == joined(ast::nodes_view(s@)),
{
    let ghost v = ast::nodes_view(s@);
    let mut s = s;
    if s.len() == 1 {
        if let Some(only) = s.pop() {
            assert(v[0] == ast::node_view(only));
            return only;
        }
    }
    Node::Concat(s)
}

pub proof fn lemma_mirror_sound(seqs: Seq<Seq<SpecNode>>)
    requires
        all_sound_seqs(seqs),
    ensures
        all_sound_seqs(mirror_all(seqs)),
{
    let all = mirror_all(seqs);
    assert forall|i: int| 0 <= i < all.len() implies ast::all_sound(#[trigger] all[i]) by {
        assert(ast::all_sound(seqs[i]));
        lemma_mirrored_sound(seqs[i]);
    }
}

pub proof fn lemma_mirrored_sound(s: Seq<SpecNode>)
    requires
        ast::all_sound(s),
    ensures
        ast::all_sound(mirrored(s)),
{
    assert forall|k: int| 0 <= k < s.len() implies ast::sound(#[trigger] mirrored(s)[k]) by {
        assert(ast::sound(s[s.len() - 1 - k]));
    }
}

proof fn lemma_joined_sound(s: Seq<SpecNode>)
    requires
        ast::all_sound(s),
    ensures
        ast::sound(joined(s)),
{
    if s.len() == 1 {
        assert(ast::sound(s[0]));
    }
}

/// Factoring keeps trees sound.
pub proof fn lemma_factored_sound(bs: Seq<SpecNode>)
    requires
        bs.len() > 0,
        ast::all_sound(bs),
    ensures
        ast::sound(factored(bs)),
{
    let seqs = Seq::new(bs.len(), |i: int| spelled_out(bs[i]));
    assert forall|i: int| 0 <= i < seqs.len() implies ast::all_sound(#[trigger] seqs[i]) by {
        assert(ast::sound(bs[i]));
        if !(bs[i] is Concat) {
            assert(seqs[i] =~= seq![bs[i]]);
        }
    }
    lemma_mirror_sound(seqs);
    lemma_lifted_sound(mirror_all(seqs));
    let (rest, start) = lifted(mirror_all(seqs));
    lemma_mirror_sound(rest);
    lemma_lifted_sound(mirror_all(rest));
    let (mids, end) = lifted(mirror_all(rest));
    lemma_mirrored_sound(start);
    let inner = if mids.len() == 1 {
        spelled_out(joined(mids[0]))
    } else {
        seq![SpecNode::Brace(middle_of(mids))]
    };
    lemma_lifted_len(mirror_all(seqs));
    lemma_lifted_len(mirror_all(rest));
    assert(ast::sound(SpecNode::Brace(bs)));
    assert(ast::all_sound(inner)) by {
        if mids.len() == 1 {
            assert(ast::all_sound(mids[0]));
            lemma_joined_sound(mids[0]);
        } else {
            let bodies = middle_of(mids);
            assert forall|i: int| 0 <= i < bodies.len() implies ast::sound(
                #[trigger] bodies[i],
            ) by {
                assert(ast::all_sound(mids[i]));
                lemma_joined_sound(mids[i]);
            }
            assert(ast::all_sound(bodies));
            assert(ast::sound(SpecNode::Brace(bodies)));
        }
    }
    lemma_sound_concat(mirrored(start), inner);
    lemma_sound_concat(mirrored(start) + inner, end);
    lemma_joined_sound(mirrored(start) + inner + end);
}

/// The tree of a union: the branches as a brace, with what they have in common
/// at both ends before and behind it where that can be lifted.
pub fn factor_branches(branches: Vec<Node>) -> (r: Node)
    requires
        branches@.len() > 0,
    ensures
        r@ == factored(ast::nodes_view(branches@)),
        ast::all_sound(ast::nodes_view(branches@)) ==> ast::sound(r@),
{
    let ghost bs = ast::nodes_view(branches@);
    let ghost seqs0 = Seq::new(bs.len(), |i: int| spelled_out(bs[i]));
    proof {
        if ast::all_sound(bs) {
            lemma_factored_sound(bs);
        }
    }
    let whole: Vec<Node> = ast::clone_nodes(&branches);
    let mut stack: Vec<Node> = reversed(branches);
    let mut seqs: Vec<Vec<Node>> = Vec::new();
    while stack.len() > 0
        invariant
            bs == ast::nodes_view(branches@),
            branches@.len() == stack@.len() + seqs@.len(),
            stack@ == branches@.reverse().take(stack@.len() as int),
            forall|i: int|
                0 <= i < seqs@.len() ==> ast::nodes_view((#[trigger] seqs@[i])@) == spelled_out(
                    bs[i],
                ),
        decreases stack@.len(),
    {
        let ghost m = stack@.len() as int;
        if let Some(node) = stack.pop() {
            proof {
                assert(stack@ =~= branches@.reverse().take(m - 1));
                assert(node == branches@[seqs@.len() as int]);
                assert(bs[seqs@.len() as int] == ast::node_view(node));
            }
            match node {
                Node::Concat(xs) => {
                    seqs.push(xs);
                },
                other => {
                    let mut one: Vec<Node> = Vec::new();
                    one.push(other);
                    assert(ast::nodes_view(one@) =~= seq![ast::node_view(other)]);
                    seqs.push(one);
                },
            }
        }
    }
    assert(seqs_view(seqs@) =~= seqs0);
    let (rest, start) = lift_prefix(seqs);
    proof {
        lemma_lifted_len(mirror_all(seqs0));
        assert(seqs_view(rest@).len() == rest@.len());
    }
    let (mids, end) = lift_suffix(rest);
    let ghost mv = seqs_view(mids@);
    proof {
        lemma_lifted_len(seqs_view(rest@));
        assert(mv.len() == mids@.len());
    }
    let mut mids: Vec<Vec<Node>> = mids;
    let mut out: Vec<Node> = start;
    let ghost sv = ast::nodes_view(out@);
    let ghost ev = ast::nodes_view(end@);
    let mut end: Vec<Node> = end;
    if mids.len() == 1 {
        if let Some(only) = mids.pop() {
            assert(mv[0] == ast::nodes_view(only@));
            match join_branch(only) {
                Node::Concat(xs) => {
                    let mut xs: Vec<Node> = xs;
                    let ghost xv = ast::nodes_view(xs@);
                    out.append(&mut xs);
                    assert(ast::nodes_view(out@) =~= sv + xv);
                },
                other => {
                    out.push(other);
                    assert(ast::nodes_view(out@) =~= sv + seq![ast::node_view(other)]);
                },
            }
        }
    } else {
        let ghost mids0 = mids@;
        let mut stack: Vec<Vec<Node>> = reversed(mids);
        let mut bodies: Vec<Node> = Vec::new();
        while stack.len() > 0
            invariant
                mv == seqs_view(mids0),
                mids0.len() == stack@.len() + bodies@.len(),
                stack@ == mids0.reverse().take(stack@.len() as int),
                forall|i: int|
                    0 <= i < bodies@.len() ==> ast::node_view(#[trigger] bodies@[i]) == joined(
                        mv[i],
                    ),
            decreases stack@.len(),
        {
            let ghost m = stack@.len() as int;
            if let Some(s) = stack.pop() {
                proof {
                    assert(stack@ =~= mids0.reverse().take(m - 1));
                    assert(s == mids0[bodies@.len() as int]);
                    assert(mv[bodies@.len() as int] == ast::nodes_view(s@));
                }
                bodies.push(join_branch(s));
            }
        }
        assert(ast::nodes_view(bodies@) =~= middle_of(mv));
        if !may_lift(&out, &bodies, &end) {
            return Node::Brace(whole);
        }
        let brace = Node::Brace(bodies);
        out.push(brace);
        assert(ast::nodes_view(out@) =~= sv + seq![ast::node_view(brace)]);
    }
    let ghost ov = ast::nodes_view(out@);
    out.append(&mut end);
    assert(ast::nodes_view(out@) =~= ov + ev);
    join_branch(out)
}

/// Whether what the branches have in common can be lifted.
fn may_lift(start: &Vec<Node>, middle: &Vec<Node>, end: &Vec<Node>) -> (r: bool)
    ensures
        r == lifts(
            ast::nodes_view(start@),
            ast::nodes_view(middle@),
            ast::nodes_view(end@),
        ),
{
    if end.len() == 0 {
        return true;
    }
    if matches!(end[0], Node::Globstar) {
        return start.len() > 1 || (start.len() == 1 && !matches!(start[0], Node::Separator));
    }
    if end.len() > 1 && matches!(end[0], Node::Separator) && matches!(end[1], Node::Globstar) {
        return !any_trails(middle);
    }
    true
}

proof fn lemma_lifted_len(seqs: Seq<Seq<SpecNode>>)
    requires
        seqs.len() > 0,
    ensures
        lifted(seqs).0.len() == seqs.len(),
    decreases seqs[0].len(),
{
    let n = edge(seqs[0]);
    if n > 0 && all_end_alike(seqs, n) {
        lemma_lifted_len(shorten(seqs, n));
    }
}

} // verus!
