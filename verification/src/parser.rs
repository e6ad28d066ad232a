//! From pattern bytes to a syntax tree.
//!
//! The grammar is written down as functions on the bytes: each takes a
//! position, and gives what stands there and the position behind it, or the
//! error that it fails with.

use crate::ast::{self, Ast, CharClass, ClassItem, Node, SpecClass, SpecNode};
use crate::error::{GlobError, MAX_BRACE_NESTING, MAX_PATTERN_LEN};
use vstd::prelude::*;

verus! {

/// Where a sequence of nodes stands.
#[derive(Clone, Copy)]
pub enum SequenceContext {
    /// Top level: stops at the end of the pattern.
    Top,
    /// Inside `{...}`: stops at `,` or `}` at the matching depth.
    Brace {
        /// Before the `{` stands a separator or the pattern starts, seen
        /// through enclosing braces.
        prev_boundary: bool,
        /// Behind the matching `}` stands a separator or the pattern ends.
        next_boundary: bool,
    },
}

/// Every way through the node ends with a separator.
pub open spec fn trails_boundary(n: SpecNode) -> bool
    decreases n, 0int,
{
    match n {
        SpecNode::Separator => true,
        SpecNode::Concat(xs) => xs.len() > 0 && trails_boundary(xs[xs.len() - 1]),
        SpecNode::Brace(bs) => bs.len() > 0 && all_trail_boundary(bs),
        _ => false,
    }
}

pub open spec fn all_trail_boundary(bs: Seq<SpecNode>) -> bool
    decreases bs, 1int,
{
    forall|i: int| 0 <= i < bs.len() ==> trails_boundary(#[trigger] bs[i])
}

/// How many bytes are left from `p` on.
pub open spec fn left(s: Seq<u8>, p: int) -> nat {
    if p < s.len() {
        (s.len() - p) as nat
    } else {
        0
    }
}

impl SequenceContext {
    /// What follows `nodes` starts a segment.
    pub open spec fn starts_segment(self, nodes: Seq<SpecNode>) -> bool {
        if nodes.len() == 0 {
            match self {
                SequenceContext::Top => true,
                SequenceContext::Brace { prev_boundary, .. } => prev_boundary,
            }
        } else {
            match nodes.last() {
                SpecNode::Separator => true,
                SpecNode::Brace(_) => trails_boundary(nodes.last()),
                _ => false,
            }
        }
    }

    /// What stands before position `i` ends a segment.
    pub open spec fn ends_segment(self, s: Seq<u8>, i: int) -> bool {
        if i >= s.len() || s[i] == 0x2f {
            true
        } else if s[i] == 0x2c || s[i] == 0x7d {
            match self {
                SequenceContext::Top => false,
                SequenceContext::Brace { next_boundary, .. } => next_boundary,
            }
        } else {
            false
        }
    }
}

/// `nodes` with the literal bytes that were collected behind them.
pub open spec fn flushed(nodes: Seq<SpecNode>, lit: Seq<u8>) -> Seq<SpecNode> {
    if lit.len() == 0 {
        nodes
    } else {
        nodes.push(SpecNode::Literal(lit))
    }
}

/// One node for a whole sequence.
pub open spec fn gathered(nodes: Seq<SpecNode>) -> SpecNode {
    if nodes.len() == 1 {
        nodes[0]
    } else {
        SpecNode::Concat(nodes)
    }
}

/// Another `/**` of its own segments stands at `p`.
pub open spec fn repeats_globstar(s: Seq<u8>, p: int) -> bool {
    p + 3 <= s.len() && s[p] == 0x2f && s[p + 1] == 0x2a && s[p + 2] == 0x2a && (p + 3 == s.len()
        || s[p + 3] == 0x2f)
}

/// Behind all such repetitions from `p` on.
pub open spec fn past_globstars(s: Seq<u8>, p: int) -> int
    decreases left(s, p),
{
    if repeats_globstar(s, p) {
        past_globstars(s, p + 3)
    } else {
        p
    }
}

pub proof fn lemma_past_globstars(s: Seq<u8>, p: int)
    ensures
        p <= past_globstars(s, p),
        p <= s.len() ==> past_globstars(s, p) <= s.len(),
    decreases left(s, p),
{
    if repeats_globstar(s, p) {
        lemma_past_globstars(s, p + 3);
    }
}

/// The `**` at `p` owns its segment.
pub open spec fn owns_segment(s: Seq<u8>, p: int, ctx: SequenceContext, nodes: Seq<SpecNode>) -> bool {
    p + 1 < s.len() && s[p + 1] == 0x2a && ctx.starts_segment(nodes) && ctx.ends_segment(s, p + 2)
}

/// The byte at `p` of a class that starts at `start`: escaped or not, and
/// never a separator.
pub open spec fn class_byte(s: Seq<u8>, p: int, start: int) -> Result<(u8, int), GlobError> {
    if p >= s.len() {
        Err(GlobError::UnterminatedClass { at: start as usize })
    } else if s[p] == 0x5c {
        if p + 1 >= s.len() {
            Err(GlobError::TrailingBackslash)
        } else if s[p + 1] == 0x2f {
            Err(GlobError::UnterminatedClass { at: start as usize })
        } else {
            Ok((s[p + 1], p + 2))
        }
    } else if s[p] == 0x2f {
        Err(GlobError::UnterminatedClass { at: start as usize })
    } else {
        Ok((s[p], p + 1))
    }
}

/// A range goes on at `p`: a `-` that is not the last byte of the class.
pub open spec fn range_at(s: Seq<u8>, p: int) -> bool {
    p < s.len() && s[p] == 0x2d && !(p + 1 < s.len() && s[p + 1] == 0x5d)
}

/// The items from `p` up to the `]`, behind those that are done.
pub open spec fn class_items(s: Seq<u8>, p: int, start: int, done: Seq<ClassItem>) -> Result<
    (Seq<ClassItem>, int),
    GlobError,
>
    decreases left(s, p),
{
    if p >= s.len() {
        Err(GlobError::UnterminatedClass { at: start as usize })
    } else if s[p] == 0x5d {
        Ok((done, p + 1))
    } else {
        match class_byte(s, p, start) {
            Err(e) => Err(e),
            Ok((low, q)) => if range_at(s, q) {
                match class_byte(s, q + 1, start) {
                    Err(e) => Err(e),
                    Ok((high, t)) => if high < low {
                        Err(GlobError::InvalidRange { at: start as usize, low, high })
                    } else {
                        class_items(s, t, start, done.push(ClassItem::Range(low, high)))
                    },
                }
            } else {
                class_items(s, q, start, done.push(ClassItem::Byte(low)))
            },
        }
    }
}

/// A `!` or `^` stands at `p`.
pub open spec fn negates_at(s: Seq<u8>, p: int) -> bool {
    p < s.len() && (s[p] == 0x21 || s[p] == 0x5e)
}

/// Where the items of a class start whose `[` is at `p`, but for a first `]`.
pub open spec fn items_start(s: Seq<u8>, p: int) -> int {
    if negates_at(s, p + 1) {
        p + 2
    } else {
        p + 1
    }
}

/// The class whose `[` is at `p`. A `]` right at its start is a member.
pub open spec fn class_at(s: Seq<u8>, p: int) -> Result<(SpecClass, int), GlobError> {
    let q = items_start(s, p);
    let first = q < s.len() && s[q] == 0x5d;
    let items = class_items(
        s,
        if first {
            q + 1
        } else {
            q
        },
        p,
        if first {
            seq![ClassItem::Byte(0x5d)]
        } else {
            seq![]
        },
    );
    match items {
        Err(e) => Err(e),
        Ok((items, end)) => Ok((SpecClass { negated: negates_at(s, p + 1), items }, end)),
    }
}

proof fn lemma_push_ordered(items: Seq<ClassItem>, item: ClassItem)
    requires
        ast::ranges_ordered(items),
        item matches ClassItem::Range(lo, hi) ==> lo <= hi,
    ensures
        ast::ranges_ordered(items.push(item)),
{
    let all = items.push(item);
    assert forall|i: int| 0 <= i < all.len() implies (#[trigger] all[i] matches ClassItem::Range(
        lo,
        hi,
    ) ==> lo <= hi) by {
        if i < items.len() {
            assert(all[i] == items[i]);
        }
    }
}

/// The position only grows, and no range runs backwards.
pub proof fn lemma_class_items(s: Seq<u8>, p: int, start: int, done: Seq<ClassItem>)
    requires
        ast::ranges_ordered(done),
    ensures
        class_items(s, p, start, done) matches Ok((items, end)) ==> p < end <= s.len()
            && ast::ranges_ordered(items),
    decreases left(s, p),
{
    if p < s.len() && s[p] != 0x5d {
        match class_byte(s, p, start) {
            Err(e) => {},
            Ok((low, q)) => {
                if range_at(s, q) {
                    match class_byte(s, q + 1, start) {
                        Err(e) => {},
                        Ok((high, t)) => if low <= high {
                            lemma_push_ordered(done, ClassItem::Range(low, high));
                            lemma_class_items(
                                s,
                                t,
                                start,
                                done.push(ClassItem::Range(low, high)),
                            );
                        },
                    }
                } else {
                    lemma_push_ordered(done, ClassItem::Byte(low));
                    lemma_class_items(s, q, start, done.push(ClassItem::Byte(low)));
                }
            },
        }
    }
}

pub proof fn lemma_class_at(s: Seq<u8>, p: int)
    ensures
        class_at(s, p) matches Ok((c, end)) ==> p < end <= s.len() && ast::ranges_ordered(c.items),
{
    let q = items_start(s, p);
    if q < s.len() && s[q] == 0x5d {
        lemma_class_items(s, q + 1, p, seq![ClassItem::Byte(0x5d)]);
    } else {
        lemma_class_items(s, q, p, seq![]);
    }
}

/// Behind the members of a class that a scan is inside of.
pub open spec fn skim_members(s: Seq<u8>, i: int) -> int
    decreases left(s, i),
{
    if i < s.len() && s[i] != 0x5d && s[i] != 0x2f {
        skim_members(
            s,
            if s[i] == 0x5c {
                i + 2
            } else {
                i + 1
            },
        )
    } else {
        i
    }
}

pub proof fn lemma_skim_members(s: Seq<u8>, i: int)
    ensures
        i <= skim_members(s, i),
    decreases left(s, i),
{
    if i < s.len() && s[i] != 0x5d && s[i] != 0x2f {
        lemma_skim_members(
            s,
            if s[i] == 0x5c {
                i + 2
            } else {
                i + 1
            },
        );
    }
}

/// Behind a class whose `[` is at `i`, as a scan for the end of a brace skips
/// it.
pub open spec fn skim_class(s: Seq<u8>, i: int) -> int {
    let a = items_start(s, i);
    let b = if a < s.len() && s[a] == 0x5d {
        a + 1
    } else {
        a
    };
    skim_members(s, b) + 1
}

/// What a look ahead from `i` says of a brace with `depth` inner braces open:
/// whether it has had no `,` of its own, `single` so far, and whether its `}`
/// ends a segment.
pub open spec fn look_ahead(
    s: Seq<u8>,
    i: int,
    depth: int,
    single: bool,
    ctx: SequenceContext,
) -> (bool, bool)
    decreases left(s, i),
{
    if i >= s.len() {
        (single, true)
    } else if s[i] == 0x5c {
        look_ahead(s, i + 2, depth, single, ctx)
    } else if s[i] == 0x5b {
        proof {
            lemma_skim_members(s, items_start(s, i));
            lemma_skim_members(s, items_start(s, i) + 1);
        }
        look_ahead(s, skim_class(s, i), depth, single, ctx)
    } else if s[i] == 0x7b {
        look_ahead(s, i + 1, depth + 1, single, ctx)
    } else if s[i] == 0x2c && depth == 0 {
        look_ahead(s, i + 1, depth, false, ctx)
    } else if s[i] == 0x7d {
        if depth == 0 {
            (single, ctx.ends_segment(s, i + 1))
        } else {
            look_ahead(s, i + 1, depth - 1, single, ctx)
        }
    } else {
        look_ahead(s, i + 1, depth, single, ctx)
    }
}

/// The sequence from `p` on, `depth` braces deep, behind `nodes` and the
/// literal bytes `lit`.
///
/// A brace without a `,` stands for itself: its braces are literal bytes around
/// what is in it.
pub open spec fn sequence(
    s: Seq<u8>,
    p: int,
    depth: int,
    ctx: SequenceContext,
    nodes: Seq<SpecNode>,
    lit: Seq<u8>,
) -> Result<(SpecNode, int), GlobError>
    decreases left(s, p), 0int,
{
    let all = flushed(nodes, lit);
    if p >= s.len() || (ctx is Brace && (s[p] == 0x2c || s[p] == 0x7d)) {
        Ok((gathered(all), p))
    } else if s[p] == 0x5c {
        if p + 1 >= s.len() {
            Err(GlobError::TrailingBackslash)
        } else {
            sequence(s, p + 2, depth, ctx, nodes, lit.push(s[p + 1]))
        }
    } else if s[p] == 0x2f {
        sequence(s, p + 1, depth, ctx, all.push(SpecNode::Separator), seq![])
    } else if s[p] == 0x3f {
        sequence(s, p + 1, depth, ctx, all.push(SpecNode::AnyChar), seq![])
    } else if s[p] == 0x2a {
        if owns_segment(s, p, ctx, all) {
            proof {
                lemma_past_globstars(s, p + 2);
            }
            sequence(s, past_globstars(s, p + 2), depth, ctx, all.push(SpecNode::Globstar), seq![])
        } else {
            sequence(s, p + 1, depth, ctx, all.push(SpecNode::Star), seq![])
        }
    } else if s[p] == 0x5b {
        proof {
            lemma_class_at(s, p);
        }
        match class_at(s, p) {
            Err(e) => Err(e),
            Ok((c, q)) => sequence(s, q, depth, ctx, all.push(SpecNode::Class(c)), seq![]),
        }
    } else if s[p] == 0x7b {
        let (single, after) = look_ahead(s, p + 1, 0, true, ctx);
        let inner = SequenceContext::Brace {
            prev_boundary: !single && lit.len() == 0 && ctx.starts_segment(nodes),
            next_boundary: !single && after,
        };
        if depth + 1 > MAX_BRACE_NESTING {
            Err(GlobError::BraceNestingTooDeep { max: MAX_BRACE_NESTING })
        } else {
            match branches(s, p + 1, depth + 1, inner, p, seq![]) {
                Err(e) => Err(e),
                Ok((bs, q)) => if q <= p {
                    // A brace is never left at or before its start.
                    Err(GlobError::Empty)
                } else if bs.len() == 1 {
                    sequence(
                        s,
                        q,
                        depth,
                        ctx,
                        flushed(nodes, lit.push(0x7b)).push(bs[0]),
                        seq![0x7d],
                    )
                } else {
                    sequence(s, q, depth, ctx, all.push(SpecNode::Brace(bs)), seq![])
                },
            }
        }
    } else {
        sequence(s, p + 1, depth, ctx, nodes, lit.push(s[p]))
    }
}

/// The branches from `p` on of the brace at `start`, behind those that are
/// done.
pub open spec fn branches(
    s: Seq<u8>,
    p: int,
    depth: int,
    ctx: SequenceContext,
    start: int,
    done: Seq<SpecNode>,
) -> Result<(Seq<SpecNode>, int), GlobError>
    decreases left(s, p), 1int,
{
    match sequence(s, p, depth, ctx, seq![], seq![]) {
        Err(e) => Err(e),
        Ok((n, q)) => if q < p {
            // A branch is never left before its start.
            Err(GlobError::Empty)
        } else if q < s.len() && s[q] == 0x2c {
            branches(s, q + 1, depth, ctx, start, done.push(n))
        } else if q < s.len() && s[q] == 0x7d {
            Ok((done.push(n), q + 1))
        } else {
            Err(GlobError::UnterminatedBrace { at: start as usize })
        },
    }
}

/// How many `!` stand from `p` on.
pub open spec fn bangs(s: Seq<u8>, p: int) -> int
    decreases left(s, p),
{
    if p < s.len() && s[p] == 0x21 {
        1 + bangs(s, p + 1)
    } else {
        0
    }
}

/// The negations and the syntax tree of a pattern.
pub open spec fn parsed(s: Seq<u8>) -> Result<(int, SpecNode), GlobError> {
    if s.len() == 0 {
        Err(GlobError::Empty)
    } else if s.len() > MAX_PATTERN_LEN {
        Err(GlobError::TooLong { len: s.len() as usize, max: MAX_PATTERN_LEN })
    } else {
        match sequence(s, bangs(s, 0), 0, SequenceContext::Top, seq![], seq![]) {
            Err(e) => Err(e),
            Ok((n, end)) => Ok((bangs(s, 0), n)),
        }
    }
}

// The code.

fn node_trails_boundary(node: &Node) -> (r: bool)
    ensures
        r == trails_boundary(node@),
    decreases node,
{
    match node {
        Node::Separator => true,
        Node::Concat(xs) => {
            if xs.len() == 0 {
                false
            } else {
                assert(decreases_to!(node => xs@[xs@.len() - 1]));
                node_trails_boundary(&xs[xs.len() - 1])
            }
        },
        Node::Brace(bs) => bs.len() > 0 && nodes_trail_boundary(bs),
        _ => false,
    }
}

fn nodes_trail_boundary(bs: &Vec<Node>) -> (r: bool)
    ensures
        r == all_trail_boundary(ast::nodes_view(bs@)),
    decreases bs,
{
    for i in 0..bs.len()
        invariant
            forall|k: int| 0 <= k < i ==> trails_boundary(#[trigger] ast::nodes_view(bs@)[k]),
    {
        assert(decreases_to!(bs => bs@[i as int]));
        assert(ast::nodes_view(bs@)[i as int] == ast::node_view(bs@[i as int]));
        if !node_trails_boundary(&bs[i]) {
            return false;
        }
    }
    true
}

impl SequenceContext {
    fn boundary_before(self, nodes: &Vec<Node>) -> (r: bool)
        ensures
            r == self.starts_segment(ast::nodes_view(nodes@)),
    {
        let n: usize = nodes.len();
        if n == 0 {
            match self {
                SequenceContext::Top => true,
                SequenceContext::Brace { prev_boundary, .. } => prev_boundary,
            }
        } else {
            assert(ast::nodes_view(nodes@).last() == ast::node_view(nodes@[n - 1]));
            match &nodes[n - 1] {
                Node::Separator => true,
                Node::Brace(_) => node_trails_boundary(&nodes[n - 1]),
                _ => false,
            }
        }
    }

    fn boundary_after(self, input: &[u8], i: usize) -> (r: bool)
        ensures
            r == self.ends_segment(input@, i as int),
    {
        if i >= input.len() || input[i] == 0x2f {
            true
        } else if input[i] == 0x2c || input[i] == 0x7d {
            match self {
                SequenceContext::Top => false,
                SequenceContext::Brace { next_boundary, .. } => next_boundary,
            }
        } else {
            false
        }
    }
}

struct Parser<'a> {
    input: &'a [u8],
    pos: usize,
    brace_depth: usize,
}

/// Appends the collected literal bytes as a node.
fn flush_literal(buf: &mut Vec<u8>, nodes: &mut Vec<Node>)
    requires
        ast::all_sound(ast::nodes_view(old(nodes)@)),
    ensures
        final(buf)@ == Seq::<u8>::empty(),
        ast::nodes_view(final(nodes)@) == flushed(ast::nodes_view(old(nodes)@), old(buf)@),
        ast::all_sound(ast::nodes_view(final(nodes)@)),
{
    if buf.len() > 0 {
        let mut bytes: Vec<u8> = Vec::new();
        bytes.append(buf);
        assert(bytes@ =~= old(buf)@);
        push_node(nodes, Node::Literal(bytes));
    }
    assert(buf@ =~= Seq::<u8>::empty());
}

fn push_node(nodes: &mut Vec<Node>, node: Node)
    requires
        ast::all_sound(ast::nodes_view(old(nodes)@)),
        ast::sound(node@),
    ensures
        ast::nodes_view(final(nodes)@) == ast::nodes_view(old(nodes)@).push(node@),
        ast::all_sound(ast::nodes_view(final(nodes)@)),
{
    let ghost before = ast::nodes_view(nodes@);
    nodes.push(node);
    proof {
        let now = ast::nodes_view(nodes@);
        assert(now =~= before.push(ast::node_view(node)));
        assert forall|i: int| 0 <= i < now.len() implies ast::sound(#[trigger] now[i]) by {
            if i < before.len() {
                assert(now[i] == before[i]);
            }
        }
    }
}

impl<'a> Parser<'a> {
    spec fn wf(self) -> bool {
        self.pos <= self.input@.len() <= MAX_PATTERN_LEN && self.brace_depth <= MAX_BRACE_NESTING
    }

    /// The parser stands at `pos` of the same pattern, as deep as before.
    spec fn moved(self, from: Self, pos: int) -> bool {
        self.wf() && self.input@ == from.input@ && self.pos == pos && self.brace_depth
            == from.brace_depth
    }

    fn parse_sequence(&mut self, ctx: SequenceContext) -> (r: Result<Node, GlobError>)
        requires
            old(self).wf(),
        ensures
            ({
                let spec = sequence(
                    old(self).input@,
                    old(self).pos as int,
                    old(self).brace_depth as int,
                    ctx,
                    seq![],
                    seq![],
                );
                match r {
                    Ok(n) => spec == Ok::<(SpecNode, int), GlobError>((n@, final(self).pos as int))
                        && final(self).moved(*old(self), final(self).pos as int)
                        && final(self).pos >= old(self).pos && ast::sound(n@),
                    Err(e) => spec == Err::<(SpecNode, int), GlobError>(e),
                }
            }),
        decreases old(self).input@.len() - old(self).pos, 1int,
    {
        let ghost s = self.input@;
        let ghost start = *self;
        let ghost depth = self.brace_depth as int;
        let ghost whole = sequence(s, self.pos as int, depth, ctx, seq![], seq![]);
        let in_brace: bool = matches!(ctx, SequenceContext::Brace { .. });
        let mut nodes: Vec<Node> = Vec::new();
        let mut lit_buf: Vec<u8> = Vec::new();
        assert(ast::nodes_view(nodes@) =~= seq![]);
        assert(lit_buf@ =~= seq![]);
        while self.pos < self.input.len() && !(in_brace && (self.input[self.pos] == 0x2c
            || self.input[self.pos] == 0x7d))
            invariant
                start.wf(),
                self.moved(start, self.pos as int),
                self.pos >= start.pos,
                s == start.input@,
                depth == start.brace_depth,
                start == *old(self),
                whole == sequence(s, start.pos as int, depth, ctx, seq![], seq![]),
                in_brace == (ctx is Brace),
                ast::all_sound(ast::nodes_view(nodes@)),
                whole == sequence(
                    s,
                    self.pos as int,
                    depth,
                    ctx,
                    ast::nodes_view(nodes@),
                    lit_buf@,
                ),
            decreases s.len() - self.pos,
        {
            let ghost nv = ast::nodes_view(nodes@);
            let ghost lv = lit_buf@;
            let ghost p = self.pos as int;
            let b: u8 = self.input[self.pos];
            if b == 0x5c {
                self.pos = self.pos + 1;
                if self.pos >= self.input.len() {
                    return Err(GlobError::TrailingBackslash);
                }
                lit_buf.push(self.input[self.pos]);
                self.pos = self.pos + 1;
            } else if b == 0x2f {
                flush_literal(&mut lit_buf, &mut nodes);
                push_node(&mut nodes, Node::Separator);
                self.pos = self.pos + 1;
            } else if b == 0x3f {
                flush_literal(&mut lit_buf, &mut nodes);
                push_node(&mut nodes, Node::AnyChar);
                self.pos = self.pos + 1;
            } else if b == 0x2a {
                flush_literal(&mut lit_buf, &mut nodes);
                self.parse_star(&mut nodes, ctx);
            } else if b == 0x5b {
                flush_literal(&mut lit_buf, &mut nodes);
                proof {
                    lemma_class_at(self.input@, self.pos as int);
                }
                match self.parse_class() {
                    Ok(class) => {
                        push_node(&mut nodes, Node::Class(class));
                    },
                    Err(e) => {
                        return Err(e);
                    },
                }
            } else if b == 0x7b {
                let (single, next_after_brace) = self.scan_brace(ctx);
                let prev_boundary: bool = !single && lit_buf.len() == 0 && ctx.boundary_before(
                    &nodes,
                );
                let next_boundary: bool = !single && next_after_brace;
                match self.parse_brace(prev_boundary, next_boundary) {
                    Ok(branches) => {
                        let mut branches: Vec<Node> = branches;
                        let ghost bs = ast::nodes_view(branches@);
                        if branches.len() == 1 {
                            lit_buf.push(0x7b);
                            flush_literal(&mut lit_buf, &mut nodes);
                            if let Some(only) = branches.pop() {
                                assert(bs[0] == ast::node_view(only));
                                assert(ast::sound(bs[0]));
                                push_node(&mut nodes, only);
                            }
                            lit_buf.push(0x7d);
                            assert(lit_buf@ =~= seq![0x7du8]);
                        } else {
                            flush_literal(&mut lit_buf, &mut nodes);
                            push_node(&mut nodes, Node::Brace(branches));
                        }
                    },
                    Err(e) => {
                        return Err(e);
                    },
                }
            } else {
                lit_buf.push(b);
                self.pos = self.pos + 1;
            }
        }
        flush_literal(&mut lit_buf, &mut nodes);
        let ghost all = ast::nodes_view(nodes@);
        if nodes.len() == 1 {
            if let Some(only) = nodes.pop() {
                assert(all[0] == ast::node_view(only));
                assert(ast::sound(all[0]));
                return Ok(only);
            }
        }
        Ok(Node::Concat(nodes))
    }

    /// A `**` that owns its segment, with its repetitions, or else one `*`.
    fn parse_star(&mut self, nodes: &mut Vec<Node>, ctx: SequenceContext)
        requires
            old(self).wf(),
            old(self).pos < old(self).input@.len(),
            ast::all_sound(ast::nodes_view(old(nodes)@)),
        ensures
            ({
                let s = old(self).input@;
                let p = old(self).pos as int;
                let before = ast::nodes_view(old(nodes)@);
                let owns = owns_segment(s, p, ctx, before);
                &&& final(self).moved(
                    *old(self),
                    if owns {
                        past_globstars(s, p + 2)
                    } else {
                        p + 1
                    },
                )
                &&& ast::nodes_view(final(nodes)@) == before.push(
                    if owns {
                        SpecNode::Globstar
                    } else {
                        SpecNode::Star
                    },
                )
            }),
            final(self).pos > old(self).pos,
            ast::all_sound(ast::nodes_view(final(nodes)@)),
    {
        let ghost s = self.input@;
        let ghost p = self.pos as int;
        if self.pos + 1 < self.input.len() && self.input[self.pos + 1] == 0x2a
            && ctx.boundary_before(nodes) && ctx.boundary_after(self.input, self.pos + 2) {
            push_node(nodes, Node::Globstar);
            self.pos = self.pos + 2;
            while self.pos + 3 <= self.input.len() && self.input[self.pos] == 0x2f
                && self.input[self.pos + 1] == 0x2a && self.input[self.pos + 2] == 0x2a && (self.pos
                + 3 == self.input.len() || self.input[self.pos + 3] == 0x2f)
                invariant
                    s == self.input@,
                    s.len() <= MAX_PATTERN_LEN,
                    p + 2 <= self.pos <= s.len(),
                    self.brace_depth == old(self).brace_depth,
                    past_globstars(s, self.pos as int) == past_globstars(s, p + 2),
                decreases s.len() - self.pos,
            {
                self.pos = self.pos + 3;
            }
            return;
        }
        push_node(nodes, Node::Star);
        self.pos = self.pos + 1;
    }

    fn parse_class(&mut self) -> (r: Result<CharClass, GlobError>)
        requires
            old(self).wf(),
            old(self).pos < old(self).input@.len(),
        ensures
            ({
                let spec = class_at(old(self).input@, old(self).pos as int);
                match r {
                    Ok(c) => spec == Ok::<(SpecClass, int), GlobError>((c@, final(self).pos as int))
                        && final(self).moved(*old(self), final(self).pos as int)
                        && final(self).pos > old(self).pos,
                    Err(e) => spec == Err::<(SpecClass, int), GlobError>(e),
                }
            }),
    {
        let ghost s = self.input@;
        let start_pos: usize = self.pos;
        self.pos = self.pos + 1;
        let negated: bool = self.pos < self.input.len() && (self.input[self.pos] == 0x21
            || self.input[self.pos] == 0x5e);
        if negated {
            self.pos = self.pos + 1;
        }
        let mut items: Vec<ClassItem> = Vec::new();
        assert(items@ =~= seq![]);
        if self.pos < self.input.len() && self.input[self.pos] == 0x5d {
            items.push(ClassItem::Byte(0x5d));
            self.pos = self.pos + 1;
            assert(items@ =~= seq![ClassItem::Byte(0x5d)]);
        }
        let ghost whole = class_items(s, self.pos as int, start_pos as int, items@);
        loop
            invariant
                s == self.input@,
                s == old(self).input@,
                s.len() <= MAX_PATTERN_LEN,
                start_pos == old(self).pos,
                start_pos < self.pos <= s.len(),
                self.brace_depth == old(self).brace_depth,
                old(self).wf(),
                negated == negates_at(s, start_pos + 1),
                whole == class_items(s, self.pos as int, start_pos as int, items@),
                class_at(s, start_pos as int) == (match whole {
                    Err(e) => Err::<(SpecClass, int), GlobError>(e),
                    Ok((items, end)) => Ok((SpecClass { negated, items }, end)),
                }),
            decreases s.len() - self.pos,
        {
            if self.pos >= self.input.len() {
                return Err(GlobError::UnterminatedClass { at: start_pos });
            }
            if self.input[self.pos] == 0x5d {
                self.pos = self.pos + 1;
                let class = CharClass { negated, items };
                assert(class@ == (SpecClass { negated, items: items@ }));
                return Ok(class);
            }
            let low: u8 = match self.parse_class_byte(start_pos) {
                Ok(b) => b,
                Err(e) => {
                    return Err(e);
                },
            };
            if self.pos < self.input.len() && self.input[self.pos] == 0x2d && !(self.pos + 1
                < self.input.len() && self.input[self.pos + 1] == 0x5d) {
                self.pos = self.pos + 1;
                let high: u8 = match self.parse_class_byte(start_pos) {
                    Ok(b) => b,
                    Err(e) => {
                        return Err(e);
                    },
                };
                if high < low {
                    return Err(GlobError::InvalidRange { at: start_pos, low, high });
                }
                items.push(ClassItem::Range(low, high));
            } else {
                items.push(ClassItem::Byte(low));
            }
        }
    }

    fn parse_class_byte(&mut self, class_start: usize) -> (r: Result<u8, GlobError>)
        requires
            old(self).pos <= old(self).input@.len() <= MAX_PATTERN_LEN,
        ensures
            ({
                let spec = class_byte(
                    old(self).input@,
                    old(self).pos as int,
                    class_start as int,
                );
                match r {
                    Ok(b) => spec == Ok::<(u8, int), GlobError>((b, final(self).pos as int))
                        && old(self).pos < final(self).pos <= old(self).input@.len(),
                    Err(e) => spec == Err::<(u8, int), GlobError>(e),
                }
            }),
            final(self).input@ == old(self).input@,
            final(self).brace_depth == old(self).brace_depth,
    {
        if self.pos >= self.input.len() {
            return Err(GlobError::UnterminatedClass { at: class_start });
        }
        let b: u8 = self.input[self.pos];
        let mut resolved: u8 = b;
        self.pos = self.pos + 1;
        if b == 0x5c {
            if self.pos >= self.input.len() {
                return Err(GlobError::TrailingBackslash);
            }
            resolved = self.input[self.pos];
            self.pos = self.pos + 1;
        }
        if resolved == 0x2f {
            return Err(GlobError::UnterminatedClass { at: class_start });
        }
        Ok(resolved)
    }

    /// Looks ahead over the brace at the current position: whether it has one
    /// branch alone, and whether its end ends a segment.
    fn scan_brace(&self, ctx: SequenceContext) -> (r: (bool, bool))
        requires
            self.wf(),
            self.pos < self.input@.len(),
        ensures
            r == look_ahead(self.input@, self.pos + 1, 0, true, ctx),
    {
        let ghost s = self.input@;
        let ghost whole = look_ahead(s, self.pos + 1, 0, true, ctx);
        let input: &[u8] = self.input;
        let n: usize = input.len();
        let mut i: usize = self.pos + 1;
        let mut depth: usize = 0;
        let mut single: bool = true;
        while i < n
            invariant
                s == input@,
                s == self.input@,
                whole == look_ahead(s, self.pos + 1, 0, true, ctx),
                n == s.len(),
                n <= MAX_PATTERN_LEN,
                i <= n + 2,
                depth <= i,
                whole == look_ahead(s, i as int, depth as int, single, ctx),
            decreases n + 2 - i,
        {
            let b: u8 = input[i];
            if b == 0x5c {
                i = i + 2;
            } else if b == 0x5b {
                let ghost at = i as int;
                i = i + 1;
                if i < n && (input[i] == 0x21 || input[i] == 0x5e) {
                    i = i + 1;
                }
                assert(i == items_start(s, at));
                if i < n && input[i] == 0x5d {
                    i = i + 1;
                }
                let ghost from = i as int;
                while i < n && input[i] != 0x5d && input[i] != 0x2f
                    invariant
                        s == input@,
                        n == s.len(),
                        n <= MAX_PATTERN_LEN,
                        from <= i <= n + 1,
                        skim_members(s, i as int) == skim_members(s, from),
                    decreases n + 2 - i,
                {
                    if input[i] == 0x5c {
                        i = i + 1;
                    }
                    i = i + 1;
                }
                i = i + 1;
                assert(i == skim_class(s, at));
            } else if b == 0x7b {
                depth = depth + 1;
                i = i + 1;
            } else if b == 0x2c && depth == 0 {
                single = false;
                i = i + 1;
            } else if b == 0x7d {
                if depth == 0 {
                    return (single, ctx.boundary_after(input, i + 1));
                }
                depth = depth - 1;
                i = i + 1;
            } else {
                i = i + 1;
            }
        }
        (single, true)
    }

    fn parse_brace(&mut self, prev_boundary: bool, next_boundary: bool) -> (r: Result<
        Vec<Node>,
        GlobError,
    >)
        requires
            old(self).wf(),
            old(self).pos < old(self).input@.len(),
        ensures
            ({
                let depth = old(self).brace_depth + 1;
                let ctx = SequenceContext::Brace { prev_boundary, next_boundary };
                let spec = branches(
                    old(self).input@,
                    old(self).pos + 1,
                    depth,
                    ctx,
                    old(self).pos as int,
                    seq![],
                );
                if depth > MAX_BRACE_NESTING {
                    r == Err::<Vec<Node>, GlobError>(
                        GlobError::BraceNestingTooDeep { max: MAX_BRACE_NESTING },
                    )
                } else {
                    match r {
                        Ok(bs) => spec == Ok::<(Seq<SpecNode>, int), GlobError>(
                            (ast::nodes_view(bs@), final(self).pos as int),
                        ) && final(self).moved(*old(self), final(self).pos as int)
                            && final(self).pos > old(self).pos && bs@.len() > 0 && ast::all_sound(
                            ast::nodes_view(bs@),
                        ),
                        Err(e) => spec == Err::<(Seq<SpecNode>, int), GlobError>(e),
                    }
                }
            }),
        decreases old(self).input@.len() - old(self).pos, 0int,
    {
        let ghost s = self.input@;
        let start_pos: usize = self.pos;
        self.pos = self.pos + 1;
        if self.brace_depth + 1 > MAX_BRACE_NESTING {
            return Err(GlobError::BraceNestingTooDeep { max: MAX_BRACE_NESTING });
        }
        self.brace_depth = self.brace_depth + 1;
        let ghost depth = self.brace_depth as int;
        let ctx = SequenceContext::Brace { prev_boundary, next_boundary };
        let ghost whole = branches(s, self.pos as int, depth, ctx, start_pos as int, seq![]);
        let mut done: Vec<Node> = Vec::new();
        assert(ast::nodes_view(done@) =~= seq![]);
        loop
            invariant
                old(self).wf(),
                s == old(self).input@,
                start_pos == old(self).pos,
                depth == old(self).brace_depth + 1,
                self.wf(),
                self.input@ == s,
                self.pos > start_pos,
                self.brace_depth == depth,
                ast::all_sound(ast::nodes_view(done@)),
                ctx == (SequenceContext::Brace { prev_boundary, next_boundary }),
                whole == branches(s, start_pos + 1, depth, ctx, start_pos as int, seq![]),
                whole == branches(
                    s,
                    self.pos as int,
                    depth,
                    ctx,
                    start_pos as int,
                    ast::nodes_view(done@),
                ),
            decreases s.len() - self.pos,
        {
            let branch: Node = match self.parse_sequence(ctx) {
                Ok(n) => n,
                Err(e) => {
                    return Err(e);
                },
            };
            push_node(&mut done, branch);
            if self.pos < self.input.len() && self.input[self.pos] == 0x2c {
                self.pos = self.pos + 1;
            } else if self.pos < self.input.len() && self.input[self.pos] == 0x7d {
                self.pos = self.pos + 1;
                self.brace_depth = self.brace_depth - 1;
                assert(ast::nodes_view(done@).len() == done@.len());
                return Ok(done);
            } else {
                return Err(GlobError::UnterminatedBrace { at: start_pos });
            }
        }
    }
}

/// Parses a pattern.
pub fn parse(input: &[u8]) -> (r: Result<Ast, GlobError>)
    ensures
        match r {
            Ok(ast) => parsed(input@) == Ok::<(int, SpecNode), GlobError>(
                (ast.negation_count as int, ast.body@),
            ) && ast::sound(ast.body@),
            Err(e) => parsed(input@) == Err::<(int, SpecNode), GlobError>(e),
        },
{
    if input.len() == 0 {
        return Err(GlobError::Empty);
    }
    if input.len() > MAX_PATTERN_LEN {
        return Err(GlobError::TooLong { len: input.len(), max: MAX_PATTERN_LEN });
    }
    let mut p = Parser { input, pos: 0, brace_depth: 0 };
    let mut negation_count: u32 = 0;
    while p.pos < input.len() && input[p.pos] == 0x21
        invariant
            p.wf(),
            p.input@ == input@,
            p.brace_depth == 0,
            negation_count == p.pos,
            negation_count + bangs(input@, p.pos as int) == bangs(input@, 0),
        decreases input@.len() - p.pos,
    {
        negation_count = negation_count + 1;
        p.pos = p.pos + 1;
    }
    match p.parse_sequence(SequenceContext::Top) {
        Ok(body) => Ok(Ast { negation_count, body }),
        Err(e) => Err(e),
    }
}

} // verus!
