//! The instruction set that patterns are lowered to.

use crate::ast::{CharClass, SpecClass};
use crate::engine::facts::LiteralFacts;
use vstd::prelude::*;

verus! {

/// One instruction. A program is a sequence of them, matched left to right.
#[derive(Debug)]
pub enum Op {
    /// Match a literal byte sequence verbatim.
    Lit(Vec<u8>),
    /// Match a single non-separator byte.
    AnyChar,
    /// Match zero or more non-separator bytes.
    Star,
    /// Match one byte against the class.
    Class(CharClass),
    /// Match exactly one path separator.
    Sep,
    /// Match one or more path separators at a lenient globstar boundary.
    SepRun,
    /// Raw `**`; internal to lowering and normalized before publication.
    Globstar,
    /// `(?:[^/]+/+)*`, used for leading and middle `**/`. Every absorbed
    /// segment is nonempty, empty segments come from the boundary ops.
    OptSegmentsSlash,
    /// `/.*`, used for strict trailing `/**`.
    SlashAnything,
    /// `.*`, used for a bare `**`.
    GlobstarAny,
    /// Zero or more leading platform separators for pattern-head `**/`.
    LeadingSeps,
    /// Brace alternation. Branches remain nested rather than cartesian-expanded.
    Alternation(Vec<Vec<Op>>),
}

/// The mathematical value of an [`Op`].
#[verifier::ext_equal]
pub enum SpecOp {
    Lit(Seq<u8>),
    AnyChar,
    Star,
    Class(SpecClass),
    Sep,
    SepRun,
    Globstar,
    OptSegmentsSlash,
    SlashAnything,
    GlobstarAny,
    LeadingSeps,
    Alternation(Seq<Seq<SpecOp>>),
}

impl View for Op {
    type V = SpecOp;

    open spec fn view(&self) -> SpecOp {
        op_view(*self)
    }
}

pub open spec fn op_view(op: Op) -> SpecOp
    decreases op,
{
    match op {
        Op::Lit(b) => SpecOp::Lit(b@),
        Op::AnyChar => SpecOp::AnyChar,
        Op::Star => SpecOp::Star,
        Op::Class(c) => SpecOp::Class(c@),
        Op::Sep => SpecOp::Sep,
        Op::SepRun => SpecOp::SepRun,
        Op::Globstar => SpecOp::Globstar,
        Op::OptSegmentsSlash => SpecOp::OptSegmentsSlash,
        Op::SlashAnything => SpecOp::SlashAnything,
        Op::GlobstarAny => SpecOp::GlobstarAny,
        Op::LeadingSeps => SpecOp::LeadingSeps,
        Op::Alternation(bs) => SpecOp::Alternation(branches_view(bs@)),
    }
}

pub open spec fn ops_view(s: Seq<Op>) -> Seq<SpecOp>
    decreases s,
{
    Seq::new(s.len(), |i: int| if 0 <= i < s.len() { op_view(s[i]) } else { SpecOp::Sep })
}

pub open spec fn branches_view(s: Seq<Vec<Op>>) -> Seq<Seq<SpecOp>>
    decreases s,
{
    Seq::new(s.len(), |i: int| if 0 <= i < s.len() { ops_view(s[i]@) } else { seq![] })
}

impl Clone for Op {
    fn clone(&self) -> (r: Self)
        ensures
            r@ == self@,
        decreases self,
    {
        match self {
            Op::Lit(b) => {
                let bytes: Vec<u8> = b.clone();
                assert(bytes@ =~= b@);
                Op::Lit(bytes)
            },
            Op::AnyChar => Op::AnyChar,
            Op::Star => Op::Star,
            Op::Class(c) => Op::Class(c.clone()),
            Op::Sep => Op::Sep,
            Op::SepRun => Op::SepRun,
            Op::Globstar => Op::Globstar,
            Op::OptSegmentsSlash => Op::OptSegmentsSlash,
            Op::SlashAnything => Op::SlashAnything,
            Op::GlobstarAny => Op::GlobstarAny,
            Op::LeadingSeps => Op::LeadingSeps,
            Op::Alternation(bs) => Op::Alternation(clone_branches(bs)),
        }
    }
}

pub(crate) fn clone_ops(xs: &Vec<Op>) -> (r: Vec<Op>)
    ensures
        ops_view(r@) == ops_view(xs@),
    decreases xs,
{
    let mut out: Vec<Op> = Vec::new();
    for i in 0..xs.len()
        invariant
            out@.len() == i,
            forall|k: int| 0 <= k < i ==> op_view(#[trigger] out@[k]) == op_view(xs@[k]),
    {
        assert(decreases_to!(xs => xs@[i as int]));
        out.push(xs[i].clone());
    }
    assert(ops_view(out@) =~= ops_view(xs@));
    out
}

fn clone_branches(bs: &Vec<Vec<Op>>) -> (r: Vec<Vec<Op>>)
    ensures
        branches_view(r@) == branches_view(bs@),
    decreases bs,
{
    let mut out: Vec<Vec<Op>> = Vec::new();
    for i in 0..bs.len()
        invariant
            out@.len() == i,
            forall|k: int| 0 <= k < i ==> ops_view((#[trigger] out@[k])@) == ops_view(bs@[k]@),
    {
        assert(decreases_to!(bs => bs@[i as int]));
        out.push(clone_ops(&bs[i]));
    }
    assert(branches_view(out@) =~= branches_view(bs@));
    out
}

/// No empty literal and no empty alternation anywhere.
pub open spec fn full_op(op: SpecOp) -> bool
    decreases op, 0int,
{
    match op {
        SpecOp::Lit(b) => b.len() > 0,
        SpecOp::Alternation(bs) => bs.len() > 0 && full_branches(bs),
        _ => true,
    }
}

pub open spec fn full(ops: Seq<SpecOp>) -> bool
    decreases ops, 1int,
{
    forall|i: int| 0 <= i < ops.len() ==> full_op(#[trigger] ops[i])
}

pub open spec fn full_branches(bs: Seq<Seq<SpecOp>>) -> bool
    decreases bs, 2int,
{
    forall|i: int| 0 <= i < bs.len() ==> full(#[trigger] bs[i])
}

/// No empty literal, no empty alternation and no raw `**` anywhere: what
/// lowering a syntax tree of the parser gives.
pub open spec fn solid_op(op: SpecOp) -> bool
    decreases op, 0int,
{
    match op {
        SpecOp::Lit(b) => b.len() > 0,
        SpecOp::Globstar => false,
        SpecOp::Alternation(bs) => bs.len() > 0 && solid_branches(bs),
        _ => true,
    }
}

pub open spec fn solid(ops: Seq<SpecOp>) -> bool
    decreases ops, 1int,
{
    forall|i: int| 0 <= i < ops.len() ==> solid_op(#[trigger] ops[i])
}

pub open spec fn solid_branches(bs: Seq<Seq<SpecOp>>) -> bool
    decreases bs, 2int,
{
    forall|i: int| 0 <= i < bs.len() ==> solid(#[trigger] bs[i])
}

/// What holds no raw `**` besides is full.
pub proof fn lemma_solid_full(ops: Seq<SpecOp>)
    requires
        solid(ops),
    ensures
        full(ops),
    decreases ops, 1int,
{
    assert forall|i: int| 0 <= i < ops.len() implies full_op(#[trigger] ops[i]) by {
        assert(solid_op(ops[i]));
        if let SpecOp::Alternation(bs) = ops[i] {
            assert(solid_branches(bs));
            assert forall|b: int| 0 <= b < bs.len() implies full(#[trigger] bs[b]) by {
                assert(solid(bs[b]));
                assert(decreases_to!(ops => ops[i]));
                lemma_solid_full(bs[b]);
            }
        }
    }
}

/// A normalized program with what is known of its literal ends.
#[derive(Debug, Clone)]
pub struct OpProgram {
    pub ops: Vec<Op>,
    /// Literal ends for fast pre-filtering, extracted once.
    pub facts: LiteralFacts,
    /// ASCII case is ignored in literals. Classes are folded already.
    pub case_insensitive: bool,
}

impl View for OpProgram {
    type V = Seq<SpecOp>;

    open spec fn view(&self) -> Seq<SpecOp> {
        ops_view(self.ops@)
    }
}

impl OpProgram {
    /// The facts are those of the program.
    pub open spec fn wf(self) -> bool {
        self.facts.facts_of(self@, self.case_insensitive)
    }

    /// Makes a program of ops, extracting its literal ends.
    pub fn new(ops: Vec<Op>, case_insensitive: bool) -> (r: Self)
        ensures
            r.wf(),
            r.ops@ == ops@,
            r@ == ops_view(ops@),
            r.case_insensitive == case_insensitive,
    {
        let facts = LiteralFacts::extract(&ops, case_insensitive);
        OpProgram { ops, facts, case_insensitive }
    }

    pub fn ops(&self) -> (r: &[Op])
        ensures
            r@ == self.ops@,
            ops_view(r@) == self@,
    {
        self.ops.as_slice()
    }

    /// Number of ops in the program.
    pub fn len(&self) -> (r: usize)
        ensures
            r == self@.len(),
    {
        self.ops.len()
    }

    /// Whether the program has no ops and so matches the empty path alone.
    pub fn is_empty(&self) -> (r: bool)
        ensures
            r == (self@.len() == 0),
    {
        self.ops.len() == 0
    }
}

} // verus!
