//! Reads a program segment by segment.

use crate::engine::facts;
use crate::engine::ops::ir;
use crate::engine::ops::prefixes;
use crate::engine::ops::{Op, SpecOp};
use crate::engine::segment::elems::{self, Boundary, SpecElem};
use crate::engine::segment::forks;
use crate::engine::segment::states::{self, ElemSeq};
use crate::engine::segment::wild::{self, Wild};
use crate::seps::Seps;
use vstd::prelude::*;

verus! {

/// A fork has fewer states than this.
pub const MAX_SEQ_STATES: usize = 64;

/// One element of a compiled fork.
#[derive(Clone)]
pub enum Elem {
    /// Literal segment (possibly empty; never contains a separator).
    Lit(Vec<u8>),
    /// In-segment wildcard matcher.
    Wild(Wild),
    /// Globstar absorbing any number of segments, empty ones included.
    G0,
    /// `G0` whose absorbed run may not begin with an empty segment.
    G0Strict,
    /// Globstar absorbing one segment or more.
    G1,
}

/// The ops that a literal segment stands for.
pub open spec fn lit_ops(b: Seq<u8>) -> Seq<SpecOp> {
    if b.len() == 0 {
        seq![]
    } else {
        seq![SpecOp::Lit(b)]
    }
}

/// The ops are those of a literal segment.
pub open spec fn plain(ops: Seq<SpecOp>) -> bool {
    ops.len() == 0 || (ops.len() == 1 && ops[0] is Lit)
}

/// The element stands for `se`. A literal segment comes as its bytes.
pub open spec fn reads(e: Elem, se: SpecElem, seps: Seps, ci: bool, dot: bool) -> bool {
    match e {
        Elem::Lit(b) => se == SpecElem::Seg(lit_ops(b@)),
        Elem::Wild(w) => se == SpecElem::Seg(w.ops@) && w.wf(seps, ci, dot) && !plain(w.ops@),
        Elem::G0 => se == SpecElem::G0,
        Elem::G0Strict => se == SpecElem::G0Strict,
        Elem::G1 => se == SpecElem::G1,
    }
}

pub open spec fn all_read(
    es: Seq<Elem>,
    read: Seq<SpecElem>,
    seps: Seps,
    ci: bool,
    dot: bool,
) -> bool {
    es.len() == read.len() && forall|k: int|
        0 <= k < es.len() ==> reads(#[trigger] es[k], read[k], seps, ci, dot)
}

/// The element can be matched within the limits.
pub open spec fn elem_fits(e: SpecElem, ci: bool) -> bool {
    e matches SpecElem::Seg(ops) ==> wild::fits(ops, ci)
}

pub open spec fn all_fit(es: Seq<SpecElem>, ci: bool) -> bool {
    forall|k: int| 0 <= k < es.len() ==> elem_fits(#[trigger] es[k], ci)
}

/// How many states an element has.
pub open spec fn weight(e: SpecElem) -> int {
    if e is G0Strict || e is G1 {
        2
    } else {
        1
    }
}

/// How many states the first `k` elements have; element `k` is entered in the
/// next one.
pub open spec fn entry(es: Seq<SpecElem>, k: int) -> int
    decreases k,
{
    if k <= 0 || k > es.len() {
        0
    } else {
        entry(es, k - 1) + weight(es[k - 1])
    }
}

/// Every segment stays within itself.
pub open spec fn segs_in(es: Seq<SpecElem>, seps: Seps) -> bool {
    forall|k: int|
        0 <= k < es.len() ==> (#[trigger] es[k] matches SpecElem::Seg(ops) ==> elems::in_seg(
            ops,
            seps,
        ) && ir::solid(ops))
}

/// How a fork is read within the limits.
pub open spec fn fork_elems(fork: Seq<SpecOp>, seps: Seps, ci: bool) -> Option<Seq<SpecElem>> {
    match elems::elems_of(
        forks::collapse(seq![], fork),
        seps,
        seq![],
        Boundary::Fresh,
        false,
        true,
    ) {
        Some(es) => if all_fit(es, ci) && entry(es, es.len() as int) < MAX_SEQ_STATES {
            Some(es)
        } else {
            None
        },
        None => None,
    }
}

/// The program can be matched segment by segment.
pub open spec fn expressible(ops: Seq<SpecOp>, seps: Seps, ci: bool) -> bool {
    forks::forks(ops) is Some && forall|f: int|
        0 <= f < (forks::forks(ops)->0).len() ==> fork_elems(
            #[trigger] (forks::forks(ops)->0)[f],
            seps,
            ci,
        ) is Some
}

/// `done` and then what is read next.
pub open spec fn prepend(done: Seq<SpecElem>, more: Option<Seq<SpecElem>>) -> Option<
    Seq<SpecElem>,
> {
    match more {
        Some(m) => Some(done + m),
        None => None,
    }
}

fn lit_contains_sep(op: &Op, seps: Seps) -> (r: bool)
    ensures
        r == elems::spells_sep(op@, seps),
    decreases op,
{
    match op {
        Op::Lit(bytes) => {
            for k in 0..bytes.len()
                invariant
                    op@ == SpecOp::Lit(bytes@),
                    forall|m: int| 0 <= m < k ==> !seps.has(#[trigger] bytes@[m]),
            {
                if seps.is_sep(bytes[k]) {
                    assert(seps.has(bytes@[k as int]));
                    return true;
                }
            }
            false
        },
        Op::Alternation(branches) => any_branch_spells_sep(branches, seps),
        _ => false,
    }
}

fn any_branch_spells_sep(branches: &Vec<Vec<Op>>, seps: Seps) -> (r: bool)
    ensures
        r == elems::some_branch_spells_sep(ir::branches_view(branches@), seps),
    decreases branches,
{
    let ghost bs = ir::branches_view(branches@);
    for k in 0..branches.len()
        invariant
            bs == ir::branches_view(branches@),
            forall|m: int| 0 <= m < k ==> !elems::some_spells_sep(#[trigger] bs[m], seps),
    {
        assert(decreases_to!(branches => branches@[k as int]));
        assert(bs[k as int] == ir::ops_view(branches@[k as int]@));
        if any_op_spells_sep(&branches[k], seps) {
            return true;
        }
    }
    false
}

fn any_op_spells_sep(ops: &Vec<Op>, seps: Seps) -> (r: bool)
    ensures
        r == elems::some_spells_sep(ir::ops_view(ops@), seps),
    decreases ops,
{
    let ghost views = ir::ops_view(ops@);
    for k in 0..ops.len()
        invariant
            views == ir::ops_view(ops@),
            forall|m: int| 0 <= m < k ==> !elems::spells_sep(#[trigger] views[m], seps),
    {
        assert(decreases_to!(ops => ops@[k as int]));
        assert(views[k as int] == ir::op_view(ops@[k as int]));
        if lit_contains_sep(&ops[k], seps) {
            return true;
        }
    }
    false
}

fn push_in_seg(buf: &mut Vec<Op>, op: &Op)
    ensures
        ir::ops_view(final(buf)@) == elems::push_in_seg(ir::ops_view(old(buf)@), op@),
{
    let ghost before = ir::ops_view(buf@);
    let n: usize = buf.len();
    if n > 0 {
        assert(before.last() == ir::op_view(buf@[n - 1]));
        match op {
            Op::Lit(bytes) => {
                let last: Option<Vec<u8>> = match &buf[n - 1] {
                    Op::Lit(prev) => {
                        let mut joined: Vec<u8> = facts::clone_bytes(prev);
                        joined.extend_from_slice(bytes);
                        assert(joined@ =~= prev@ + bytes@);
                        Some(joined)
                    },
                    _ => None,
                };
                match last {
                    Some(joined) => {
                        let ghost jv = joined@;
                        buf[n - 1] = Op::Lit(joined);
                        assert(ir::ops_view(buf@) =~= before.drop_last().push(SpecOp::Lit(jv)));
                        return;
                    },
                    None => {},
                }
            },
            _ => {},
        }
    }
    buf.push(op.clone());
    assert(ir::ops_view(buf@) =~= before.push(op@));
}

/// One segment made of `buf`.
fn close_segment(buf: &Vec<Op>, seps: Seps, ci: bool, dot: bool) -> (r: Option<Elem>)
    requires
        ir::solid(ir::ops_view(buf@)),
    ensures
        r is Some <==> wild::fits(ir::ops_view(buf@), ci),
        r is Some ==> reads(r->0, SpecElem::Seg(ir::ops_view(buf@)), seps, ci, dot),
        r is Some ==> (r->0 is Lit <==> plain(ir::ops_view(buf@))),
{
    let ghost views = ir::ops_view(buf@);
    if buf.len() == 0 {
        proof {
            assert(wild::after_wilds(views) =~= seq![]);
            assert(views =~= seq![]);
        }
        return Some(Elem::Lit(Vec::new()));
    }
    if buf.len() == 1 {
        assert(views[0] == ir::op_view(buf@[0]));
        match &buf[0] {
            Op::Lit(bytes) => {
                proof {
                    assert(ir::solid_op(views[0]));
                    assert(wild::wild_end(views, 1) == 1);
                    assert(wild::after_wilds(views) =~= seq![]);
                    assert(views =~= seq![SpecOp::Lit(bytes@)]);
                }
                return Some(Elem::Lit(facts::clone_bytes(bytes)));
            },
            _ => {},
        }
    }
    match wild::compile_wild(buf, seps, ci, dot) {
        Some(w) => Some(Elem::Wild(w)),
        None => None,
    }
}

proof fn lemma_push_solid(buf: Seq<SpecOp>, op: SpecOp)
    requires
        ir::solid(buf),
        ir::solid_op(op),
    ensures
        ir::solid(elems::push_in_seg(buf, op)),
{
    let more = elems::push_in_seg(buf, op);
    assert forall|k: int| 0 <= k < more.len() implies ir::solid_op(#[trigger] more[k]) by {
        if k < more.len() - 1 {
            assert(more[k] == buf[k]);
        } else if buf.len() > 0 && buf.last() is Lit && op is Lit {
            assert(ir::solid_op(buf[buf.len() - 1]));
        }
    }
}

/// What is left to read after `k` ops, behind `done`.
spec fn reading(
    ops: Seq<SpecOp>,
    seps: Seps,
    k: int,
    done: Seq<SpecElem>,
    buf: Seq<SpecOp>,
    state: Boundary,
) -> Option<Seq<SpecElem>> {
    prepend(done, elems::elems_of(ops.skip(k), seps, buf, state, done.len() > 0, k == 0))
}

/// A reading that holds an element beyond the limits does not fit.
proof fn lemma_no_fit(
    done: Seq<SpecElem>,
    buf: Seq<SpecOp>,
    more: Option<Seq<SpecElem>>,
    ci: bool,
)
    requires
        !wild::fits(buf, ci),
    ensures
        match prepend(done, elems::cons(SpecElem::Seg(buf), more)) {
            Some(es) => !all_fit(es, ci),
            None => true,
        },
{
    match more {
        Some(m) => {
            let es = done + (seq![SpecElem::Seg(buf)] + m);
            assert(es[done.len() as int] == SpecElem::Seg(buf));
            assert(!elem_fits(es[done.len() as int], ci));
        },
        None => {},
    }
}

/// Reads the ops of a fork, or `None` where they cannot be read within the
/// limits of one segment.
fn segmentize(ops: &Vec<Op>, seps: Seps, ci: bool, dot: bool) -> (r: Option<Vec<Elem>>)
    requires
        ir::full(ir::ops_view(ops@)),
        forall|k: int|
            0 <= k < ops@.len() ==> !forks::forks_at(#[trigger] ir::ops_view(ops@)[k]),
    ensures
        ({
            let read = elems::elems_of(
                ir::ops_view(ops@),
                seps,
                seq![],
                Boundary::Fresh,
                false,
                true,
            );
            &&& r is Some <==> read is Some && all_fit(read->0, ci)
            &&& r is Some ==> all_read(r->0@, read->0, seps, ci, dot) && segs_in(read->0, seps)
        }),
{
    let ghost views = ir::ops_view(ops@);
    let ghost whole = elems::elems_of(views, seps, seq![], Boundary::Fresh, false, true);
    let mut out: Vec<Elem> = Vec::new();
    let mut buf: Vec<Op> = Vec::new();
    let mut state = Boundary::Fresh;
    let ghost mut done = Seq::<SpecElem>::empty();
    let mut i: usize = 0;
    proof {
        assert(views.skip(0) =~= views);
        assert(ir::ops_view(buf@) =~= seq![]);
        assert(whole is Some ==> done + whole->0 =~= whole->0);
    }
    while i < ops.len()
        invariant
            i <= ops@.len(),
            views == ir::ops_view(ops@),
            ir::full(views),
            forall|k: int| 0 <= k < ops@.len() ==> !forks::forks_at(#[trigger] views[k]),
            whole == elems::elems_of(views, seps, seq![], Boundary::Fresh, false, true),
            whole == reading(views, seps, i as int, done, ir::ops_view(buf@), state),
            all_read(out@, done, seps, ci, dot),
            all_fit(done, ci),
            segs_in(done, seps),
            ir::solid(ir::ops_view(buf@)),
            elems::in_seg(ir::ops_view(buf@), seps),
            state is Open ==> done.len() > 0,
        decreases ops@.len() - i,
    {
        let ghost rest = views.skip(i as int);
        let ghost next = views.skip(i + 1);
        let ghost bv = ir::ops_view(buf@);
        let ghost none = Seq::<SpecOp>::empty();
        proof {
            assert(rest[0] == views[i as int]);
            assert(rest.drop_first() =~= next);
            assert(views[i as int] == ir::op_view(ops@[i as int]));
            assert(ir::full_op(views[i as int]));
        }
        let op: &Op = &ops[i];
        if matches!(&state, Boundary::Open) {
            match op {
                Op::Sep => {},
                _ => {
                    return None;
                },
            }
            buf = Vec::new();
            state = Boundary::Strict;
            assert(ir::ops_view(buf@) =~= none);
            i = i + 1;
            continue;
        }
        match op {
            Op::Sep => {
                match close_segment(&buf, seps, ci, dot) {
                    Some(e) => {
                        out.push(e);
                    },
                    None => {
                        proof {
                            lemma_no_fit(
                                done,
                                bv,
                                elems::elems_of(next, seps, none, Boundary::Strict, true, false),
                                ci,
                            );
                        }
                        return None;
                    },
                }
                buf = Vec::new();
                state = Boundary::Strict;
                proof {
                    assert(ir::ops_view(buf@) =~= none);
                    lemma_prepend_one(
                        done,
                        SpecElem::Seg(bv),
                        elems::elems_of(next, seps, none, Boundary::Strict, true, false),
                    );
                    done = done.push(SpecElem::Seg(bv));
                }
            },
            Op::SepRun => {
                match close_segment(&buf, seps, ci, dot) {
                    Some(e) => {
                        out.push(e);
                    },
                    None => {
                        proof {
                            lemma_no_fit(
                                done,
                                bv,
                                elems::elems_of(next, seps, none, Boundary::Lenient, true, false),
                                ci,
                            );
                        }
                        return None;
                    },
                }
                buf = Vec::new();
                state = Boundary::Lenient;
                proof {
                    assert(ir::ops_view(buf@) =~= none);
                    lemma_prepend_one(
                        done,
                        SpecElem::Seg(bv),
                        elems::elems_of(next, seps, none, Boundary::Lenient, true, false),
                    );
                    done = done.push(SpecElem::Seg(bv));
                }
            },
            Op::LeadingSeps => {
                if i != 0 {
                    return None;
                }
            },
            Op::OptSegmentsSlash => {
                if buf.len() > 0 {
                    return None;
                }
                let strict: bool = match &state {
                    Boundary::Fresh => out.len() > 0,
                    Boundary::Strict => true,
                    _ => false,
                };
                if strict {
                    out.push(Elem::G0Strict);
                } else {
                    out.push(Elem::G0);
                }
                state = Boundary::Fresh;
                proof {
                    let e = if strict { SpecElem::G0Strict } else { SpecElem::G0 };
                    assert(bv =~= none);
                    lemma_prepend_one(
                        done,
                        e,
                        elems::elems_of(next, seps, none, Boundary::Fresh, true, false),
                    );
                    done = done.push(e);
                }
            },
            Op::SlashAnything => {
                match close_segment(&buf, seps, ci, dot) {
                    Some(e) => {
                        out.push(e);
                    },
                    None => {
                        proof {
                            lemma_no_fit(
                                done,
                                bv,
                                elems::cons(
                                    SpecElem::G1,
                                    elems::elems_of(
                                        next,
                                        seps,
                                        none,
                                        Boundary::Open,
                                        true,
                                        false,
                                    ),
                                ),
                                ci,
                            );
                        }
                        return None;
                    },
                }
                out.push(Elem::G1);
                buf = Vec::new();
                state = Boundary::Open;
                proof {
                    assert(ir::ops_view(buf@) =~= none);
                    let more = elems::elems_of(next, seps, none, Boundary::Open, true, false);
                    lemma_prepend_one(done, SpecElem::Seg(bv), elems::cons(SpecElem::G1, more));
                    let done2 = done.push(SpecElem::Seg(bv));
                    lemma_prepend_one(done2, SpecElem::G1, more);
                    done = done2.push(SpecElem::G1);
                }
            },
            Op::GlobstarAny => {
                if buf.len() > 0 {
                    return None;
                }
                let closed: bool = i + 1 < ops.len() && matches!(&ops[i + 1], Op::Sep);
                let strict: bool = matches!(&state, Boundary::Strict) || closed;
                proof {
                    if i + 1 < ops@.len() {
                        assert(next[0] == views[i + 1]);
                        assert(views[i + 1] == ir::op_view(ops@[i + 1]));
                    }
                }
                if strict {
                    out.push(Elem::G1);
                } else {
                    out.push(Elem::G0);
                }
                state = Boundary::Open;
                proof {
                    let e = if strict { SpecElem::G1 } else { SpecElem::G0 };
                    assert(bv =~= none);
                    lemma_prepend_one(
                        done,
                        e,
                        elems::elems_of(next, seps, none, Boundary::Open, true, false),
                    );
                    done = done.push(e);
                }
            },
            Op::Globstar => {
                return None;
            },
            _ => {
                if lit_contains_sep(op, seps) {
                    return None;
                }
                push_in_seg(&mut buf, op);
                proof {
                    assert(elems::in_seg_op(views[i as int], seps));
                    elems::lemma_full_in_seg(views[i as int]);
                    lemma_push_solid(bv, views[i as int]);
                    elems::lemma_push_stays(bv, views[i as int], seps);
                }
            },
        }
        i = i + 1;
    }
    let ghost bv = ir::ops_view(buf@);
    assert(views.skip(i as int) =~= seq![]);
    let open: bool = matches!(&state, Boundary::Open);
    if !open {
        match close_segment(&buf, seps, ci, dot) {
            Some(e) => {
                out.push(e);
            },
            None => {
                proof {
                    let es = done + seq![SpecElem::Seg(bv)];
                    assert(whole == Some(es));
                    assert(es[done.len() as int] == SpecElem::Seg(bv));
                    assert(!elem_fits(es[done.len() as int], ci));
                }
                return None;
            },
        }
        proof {
            assert(done + seq![SpecElem::Seg(bv)] =~= done.push(SpecElem::Seg(bv)));
            done = done.push(SpecElem::Seg(bv));
        }
    } else {
        assert(done + Seq::<SpecElem>::empty() =~= done);
    }
    Some(out)
}

proof fn lemma_prepend_one(done: Seq<SpecElem>, e: SpecElem, more: Option<Seq<SpecElem>>)
    ensures
        prepend(done, elems::cons(e, more)) == prepend(done.push(e), more),
{
    match more {
        Some(m) => {
            assert(done + (seq![e] + m) =~= done.push(e) + m);
        },
        None => {},
    }
}


/// Reading never ends without an element.
proof fn lemma_reads_some(
    ops: Seq<SpecOp>,
    seps: Seps,
    buf: Seq<SpecOp>,
    state: Boundary,
    any: bool,
    head: bool,
)
    requires
        !(state is Open),
        elems::elems_of(ops, seps, buf, state, any, head) is Some,
    ensures
        (elems::elems_of(ops, seps, buf, state, any, head)->0).len() > 0,
    decreases ops.len(),
{
    if ops.len() > 0 {
        let rest = ops.drop_first();
        match ops[0] {
            SpecOp::LeadingSeps => {
                lemma_reads_some(rest, seps, buf, state, any, false);
            },
            SpecOp::Sep
            | SpecOp::SepRun
            | SpecOp::OptSegmentsSlash
            | SpecOp::SlashAnything
            | SpecOp::GlobstarAny
            | SpecOp::Globstar => {},
            _ => {
                lemma_reads_some(rest, seps, elems::push_in_seg(buf, ops[0]), state, any, false);
            },
        }
    }
}

/// Compiles one fork.
fn segmentize_fork(ops: &Vec<Op>, seps: Seps, ci: bool, dot: bool) -> (r: Option<ElemSeq>)
    requires
        ir::full(ir::ops_view(ops@)),
        forks::flat(ir::ops_view(ops@)),
    ensures
        r is Some <==> fork_elems(ir::ops_view(ops@), seps, ci) is Some,
        r is Some ==> r->0.wf(seps, ci, dot) && r->0.spec_elems() == fork_elems(
            ir::ops_view(ops@),
            seps,
            ci,
        )->0,
{
    let ghost views = ir::ops_view(ops@);
    let mut flat_ops: Vec<Op> = ir::clone_ops(ops);
    forks::collapse_open_globstars(&mut flat_ops);
    let ghost read = elems::elems_of(
        ir::ops_view(flat_ops@),
        seps,
        seq![],
        Boundary::Fresh,
        false,
        true,
    );
    proof {
        forks::lemma_collapse_forks(views);
        forks::lemma_collapse_full(seq![], views);
        if read is Some {
            lemma_reads_some(
                ir::ops_view(flat_ops@),
                seps,
                seq![],
                Boundary::Fresh,
                false,
                true,
            );
        }
    }
    match segmentize(&flat_ops, seps, ci, dot) {
        Some(out) => states::finish(out, seps, ci, dot, Ghost(read->0)),
        None => None,
    }
}

/// Compiles every fork of a program, or `None` where one cannot be read
/// segment by segment within the limits.
pub fn compile_seqs(ops: &Vec<Op>, seps: Seps, ci: bool, dot: bool) -> (r: Option<Vec<ElemSeq>>)
    requires
        ir::full(ir::ops_view(ops@)),
        prefixes::tidy(ir::ops_view(ops@)),
    ensures
        r is Some <==> expressible(ir::ops_view(ops@), seps, ci),
        r is Some ==> {
            let fs = forks::forks(ir::ops_view(ops@))->0;
            &&& r->0@.len() == fs.len()
            &&& forall|f: int|
                0 <= f < fs.len() ==> (#[trigger] r->0@[f]).wf(seps, ci, dot)
                    && r->0@[f].spec_elems() == fork_elems(fs[f], seps, ci)->0
        },
{
    let ghost views = ir::ops_view(ops@);
    let op_seqs: Vec<Vec<Op>> = match forks::expand_forks(ops) {
        Some(op_seqs) => op_seqs,
        None => {
            return None;
        },
    };
    let ghost fs = forks::forks(views)->0;
    proof {
        forks::lemma_forks_flat(views);
        forks::lemma_forks_full(views);
    }
    let mut seqs: Vec<ElemSeq> = Vec::new();
    let mut k: usize = 0;
    while k < op_seqs.len()
        invariant
            k <= op_seqs@.len(),
            views == ir::ops_view(ops@),
            forks::forks(views) == Some(fs),
            fs == ir::branches_view(op_seqs@),
            forks::all_flat(fs),
            ir::full_branches(fs),
            seqs@.len() == k,
            forall|f: int|
                0 <= f < k ==> fork_elems(#[trigger] fs[f], seps, ci) is Some,
            forall|f: int|
                0 <= f < k ==> (#[trigger] seqs@[f]).wf(seps, ci, dot) && seqs@[f].spec_elems()
                    == fork_elems(fs[f], seps, ci)->0,
        decreases op_seqs@.len() - k,
    {
        proof {
            assert(fs[k as int] == ir::ops_view(op_seqs@[k as int]@));
            assert(forks::flat(fs[k as int]));
            assert(ir::full(fs[k as int]));
        }
        match segmentize_fork(&op_seqs[k], seps, ci, dot) {
            Some(one) => {
                seqs.push(one);
            },
            None => {
                assert(fork_elems((forks::forks(views)->0)[k as int], seps, ci) is None);
                return None;
            },
        }
        k = k + 1;
    }
    Some(seqs)
}

} // verus!
