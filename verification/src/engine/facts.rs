//! Literal bytes that every matching path ends with.
//!
//! Testing them first turns most paths down without running an engine.

use crate::ast;
use crate::engine::lang::{self, Cx};
use crate::engine::ops::ir;
use crate::engine::ops::{Op, SpecOp};
use crate::seps::Seps;
use vstd::prelude::*;

verus! {

/// The literal ends of a program.
#[derive(Debug)]
pub struct LiteralFacts {
    /// What every matching path ends with.
    pub suffix: Vec<u8>,
    /// Where `suffix` is empty: a matching path ends with one of these, unless
    /// there are none.
    pub suffix_set: Vec<Vec<u8>>,
    pub case_insensitive: bool,
}

/// A path byte `p` stands for the byte `b` of a suffix.
pub open spec fn suffix_byte(seps: Seps, ci: bool, b: u8, p: u8) -> bool {
    if b == 0x2f {
        seps.has(p)
    } else {
        ast::same_byte(ci, b, p)
    }
}

/// The bytes of `s` before `j` end with `suffix`.
pub open spec fn ends_at(seps: Seps, ci: bool, suffix: Seq<u8>, s: Seq<u8>, j: int) -> bool {
    suffix.len() <= j <= s.len() && forall|k: int|
        0 <= k < suffix.len() ==> suffix_byte(
            seps,
            ci,
            #[trigger] suffix[k],
            s[j - suffix.len() + k],
        )
}

/// `op` matches fixed bytes alone.
pub open spec fn plain(op: SpecOp) -> bool {
    op is Lit || op is Sep
}

pub open spec fn all_plain(ops: Seq<SpecOp>) -> bool {
    forall|i: int| 0 <= i < ops.len() ==> plain(#[trigger] ops[i])
}

/// The bytes of the literals and separators that `ops` end with.
pub open spec fn literal_tail(ops: Seq<SpecOp>) -> Seq<u8>
    decreases ops.len(),
{
    if ops.len() == 0 {
        seq![]
    } else {
        match ops.last() {
            SpecOp::Lit(b) => literal_tail(ops.drop_last()) + b,
            SpecOp::Sep => literal_tail(ops.drop_last()).push(0x2f),
            _ => seq![],
        }
    }
}

/// What a path ends with that takes `branch` behind `common`.
pub open spec fn branch_tail(common: Seq<u8>, branch: Seq<SpecOp>) -> Seq<u8> {
    if all_plain(branch) {
        common + literal_tail(branch)
    } else {
        literal_tail(branch)
    }
}

/// The branch has a literal end.
pub open spec fn branch_ends(common: Seq<u8>, branch: Seq<SpecOp>) -> bool {
    (literal_tail(branch).len() > 0 || branch.len() == 0) && branch_tail(common, branch).len() > 0
}

pub open spec fn branches_end(common: Seq<u8>, bs: Seq<Seq<SpecOp>>) -> bool {
    forall|i: int| 0 <= i < bs.len() ==> branch_ends(common, #[trigger] bs[i])
}

pub open spec fn branch_tails(common: Seq<u8>, bs: Seq<Seq<SpecOp>>) -> Seq<Seq<u8>> {
    Seq::new(bs.len(), |i: int| branch_tail(common, bs[i]))
}

/// The ends that the branches of a last alternation give, if all give one.
pub open spec fn tail_set(ops: Seq<SpecOp>) -> Seq<Seq<u8>> {
    if ops.len() == 0 {
        seq![]
    } else {
        match ops.last() {
            SpecOp::Alternation(bs) => {
                let common = literal_tail(ops.drop_last());
                if branches_end(common, bs) {
                    branch_tails(common, bs)
                } else {
                    seq![]
                }
            },
            _ => seq![],
        }
    }
}

/// `path` ends as the facts of `ops` demand.
pub open spec fn accepted(ops: Seq<SpecOp>, seps: Seps, ci: bool, path: Seq<u8>) -> bool {
    ends_well(literal_tail(ops), if literal_tail(ops).len() == 0 { tail_set(ops) } else { seq![] },
        seps, ci, path)
}

/// `path` ends with `suffix`, or else with a member of `set` where there is
/// one.
pub open spec fn ends_well(
    suffix: Seq<u8>,
    set: Seq<Seq<u8>>,
    seps: Seps,
    ci: bool,
    path: Seq<u8>,
) -> bool {
    if suffix.len() > 0 {
        ends_at(seps, ci, suffix, path, path.len() as int)
    } else {
        set.len() > 0 ==> ends_with_one(set, seps, ci, path)
    }
}

pub open spec fn ends_with_one(set: Seq<Seq<u8>>, seps: Seps, ci: bool, path: Seq<u8>) -> bool {
    exists|k: int|
        0 <= k < set.len() && ends_at(seps, ci, #[trigger] set[k], path, path.len() as int)
}

pub open spec fn bytes_views(s: Seq<Vec<u8>>) -> Seq<Seq<u8>> {
    Seq::new(s.len(), |i: int| s[i]@)
}

proof fn lemma_ends_concat(
    seps: Seps,
    ci: bool,
    a: Seq<u8>,
    b: Seq<u8>,
    s: Seq<u8>,
    j: int,
)
    requires
        ends_at(seps, ci, b, s, j),
        ends_at(seps, ci, a, s, j - b.len()),
    ensures
        ends_at(seps, ci, a + b, s, j),
{
    let ab = a + b;
    assert forall|k: int| 0 <= k < ab.len() implies suffix_byte(
        seps,
        ci,
        #[trigger] ab[k],
        s[j - ab.len() + k],
    ) by {
        if k < a.len() {
            assert(ab[k] == a[k]);
            assert(s[(j - b.len()) - a.len() + k] == s[j - ab.len() + k]);
        } else {
            assert(ab[k] == b[k - a.len()]);
            assert(s[j - b.len() + (k - a.len())] == s[j - ab.len() + k]);
        }
    }
}

/// The literal end of `ops` stands where a span of `ops` ends, and within it;
/// where `ops` are all plain it is the whole span.
proof fn lemma_tail_in_span(ops: Seq<SpecOp>, cx: Cx, s: Seq<u8>, i: int, j: int)
    requires
        lang::ops_span(ops, cx, s, i, j),
    ensures
        ends_at(cx.seps, cx.ci, literal_tail(ops), s, j),
        literal_tail(ops).len() <= j - i,
        all_plain(ops) ==> literal_tail(ops).len() == j - i,
    decreases ops.len(),
{
    lang::lemma_span_bounds(ops, cx, s, i, j);
    if ops.len() > 0 {
        let head = ops.drop_last();
        let last = ops.last();
        assert(ops =~= head + seq![last]);
        lang::lemma_span_concat(head, seq![last], cx, s, i, j);
        let k = choose|k: int| #[trigger]
            lang::cut(k) && lang::ops_span(head, cx, s, i, k) && lang::ops_span(
                seq![last],
                cx,
                s,
                k,
                j,
            );
        lang::lemma_span_single(last, cx, s, k, j);
        lemma_tail_in_span(head, cx, s, i, k);
        assert(all_plain(ops) ==> all_plain(head)) by {
            if all_plain(ops) {
                assert forall|m: int| 0 <= m < head.len() implies plain(#[trigger] head[m]) by {
                    assert(head[m] == ops[m]);
                }
            }
        }
        assert(all_plain(ops) ==> plain(ops[ops.len() - 1]));
        match last {
            SpecOp::Lit(b) => {
                assert(ends_at(cx.seps, cx.ci, b, s, j)) by {
                    assert forall|m: int| 0 <= m < b.len() implies suffix_byte(
                        cx.seps,
                        cx.ci,
                        #[trigger] b[m],
                        s[j - b.len() + m],
                    ) by {
                        assert(ast::same_byte(cx.ci, b[m], s[k + m]));
                    }
                }
                lemma_ends_concat(cx.seps, cx.ci, literal_tail(head), b, s, j);
            },
            SpecOp::Sep => {
                let one = seq![0x2fu8];
                assert(ends_at(cx.seps, cx.ci, one, s, j)) by {
                    assert(one[0] == 0x2f);
                }
                lemma_ends_concat(cx.seps, cx.ci, literal_tail(head), one, s, j);
                assert(literal_tail(head) + one =~= literal_tail(head).push(0x2f));
            },
            _ => {},
        }
    }
}

/// Every path that a program matches ends as its facts demand, also where the
/// program matches only from some position on.
pub proof fn lemma_facts_sound(ops: Seq<SpecOp>, cx: Cx, s: Seq<u8>, i: int)
    requires
        lang::ops_span(ops, cx, s, i, s.len() as int),
    ensures
        accepted(ops, cx.seps, cx.ci, s),
{
    let end = s.len() as int;
    lemma_tail_in_span(ops, cx, s, i, end);
    let set = tail_set(ops);
    if literal_tail(ops).len() == 0 && set.len() > 0 {
        let head = ops.drop_last();
        let last = ops.last();
        let bs = last->Alternation_0;
        let common = literal_tail(head);
        assert(ops =~= head + seq![last]);
        lang::lemma_span_concat(head, seq![last], cx, s, i, end);
        let k = choose|k: int| #[trigger]
            lang::cut(k) && lang::ops_span(head, cx, s, i, k) && lang::ops_span(
                seq![last],
                cx,
                s,
                k,
                end,
            );
        lang::lemma_span_single(last, cx, s, k, end);
        assert(lang::some_span(bs, cx, s, k, end));
        let b = choose|b: int| 0 <= b < bs.len() && lang::ops_span(#[trigger] bs[b], cx, s, k, end);
        lemma_tail_in_span(head, cx, s, i, k);
        lemma_tail_in_span(bs[b], cx, s, k, end);
        if all_plain(bs[b]) {
            lemma_ends_concat(cx.seps, cx.ci, common, literal_tail(bs[b]), s, end);
        }
        assert(set[b] == branch_tail(common, bs[b]));
        assert(ends_with_one(set, cx.seps, cx.ci, s));
    }
}

impl LiteralFacts {
    /// The facts are those of `ops`.
    pub open spec fn facts_of(self, ops: Seq<SpecOp>, ci: bool) -> bool {
        &&& self.suffix@ == literal_tail(ops)
        &&& bytes_views(self.suffix_set@) == (if literal_tail(ops).len() == 0 {
            tail_set(ops)
        } else {
            seq![]
        })
        &&& self.case_insensitive == ci
    }

    pub fn extract(ops: &Vec<Op>, case_insensitive: bool) -> (r: Self)
        ensures
            r.facts_of(ir::ops_view(ops@), case_insensitive),
    {
        let suffix: Vec<u8> = extract_suffix(ops, ops.len());
        assert(ir::ops_view(ops@).take(ops@.len() as int) =~= ir::ops_view(ops@));
        let suffix_set: Vec<Vec<u8>> = if suffix.len() == 0 {
            extract_suffix_set(ops)
        } else {
            let none: Vec<Vec<u8>> = Vec::new();
            assert(bytes_views(none@) =~= seq![]);
            none
        };
        LiteralFacts { suffix, suffix_set, case_insensitive }
    }

    /// Whether `path` ends as the facts demand, with `seps` as separators.
    pub fn accept_with(&self, seps: Seps, path: &[u8]) -> (r: bool)
        ensures
            r == ends_well(
                self.suffix@,
                bytes_views(self.suffix_set@),
                seps,
                self.case_insensitive,
                path@,
            ),
    {
        if self.suffix.len() > 0 {
            return self.ends_with(seps, path, &self.suffix);
        }
        if self.suffix_set.len() > 0 {
            let ghost set = bytes_views(self.suffix_set@);
            let mut k: usize = 0;
            while k < self.suffix_set.len()
                invariant
                    k <= self.suffix_set@.len(),
                    self.suffix@.len() == 0,
                    set == bytes_views(self.suffix_set@),
                    forall|m: int|
                        0 <= m < k ==> !ends_at(
                            seps,
                            self.case_insensitive,
                            #[trigger] set[m],
                            path@,
                            path@.len() as int,
                        ),
                decreases self.suffix_set@.len() - k,
            {
                assert(set[k as int] == self.suffix_set@[k as int]@);
                if self.ends_with(seps, path, &self.suffix_set[k]) {
                    return true;
                }
                k = k + 1;
            }
            return false;
        }
        true
    }

    /// Whether `path` ends as the facts demand on this platform. Platforms
    /// differ on `\` alone: wherever `/` as the only separator is enough, the
    /// answer is yes, and it is never yes where `\` as a second one would not
    /// help.
    pub fn accept(&self, path: &[u8]) -> (r: bool)
        ensures
            ends_well(
                self.suffix@,
                bytes_views(self.suffix_set@),
                Seps { backslash: false },
                self.case_insensitive,
                path@,
            ) ==> r,
            r ==> ends_well(
                self.suffix@,
                bytes_views(self.suffix_set@),
                Seps { backslash: true },
                self.case_insensitive,
                path@,
            ),
    {
        let seps = Seps::platform();
        proof {
            lemma_more_seps(
                self.suffix@,
                bytes_views(self.suffix_set@),
                Seps { backslash: false },
                seps,
                self.case_insensitive,
                path@,
            );
            lemma_more_seps(
                self.suffix@,
                bytes_views(self.suffix_set@),
                seps,
                Seps { backslash: true },
                self.case_insensitive,
                path@,
            );
        }
        self.accept_with(seps, path)
    }

    fn ends_with(&self, seps: Seps, path: &[u8], suffix: &Vec<u8>) -> (r: bool)
        ensures
            r == ends_at(
                seps,
                self.case_insensitive,
                suffix@,
                path@,
                path@.len() as int,
            ),
    {
        let mut suffix_i: usize = suffix.len();
        let mut path_i: usize = path.len();
        while suffix_i > 0
            invariant
                suffix_i <= suffix@.len(),
                path_i <= path@.len(),
                suffix@.len() - suffix_i == path@.len() - path_i,
                forall|k: int|
                    suffix_i <= k < suffix@.len() ==> suffix_byte(
                        seps,
                        self.case_insensitive,
                        #[trigger] suffix@[k],
                        path@[path@.len() - suffix@.len() + k],
                    ),
            decreases suffix_i,
        {
            if path_i == 0 {
                return false;
            }
            suffix_i = suffix_i - 1;
            path_i = path_i - 1;
            let sb: u8 = suffix[suffix_i];
            let pb: u8 = path[path_i];
            assert(path_i == path@.len() - suffix@.len() + suffix_i);
            let is_equal: bool = if sb == 0x2f {
                seps.is_sep(pb)
            } else {
                ast::eq_byte(self.case_insensitive, sb, pb)
            };
            if !is_equal {
                assert(!suffix_byte(
                    seps,
                    self.case_insensitive,
                    suffix@[suffix_i as int],
                    path@[path@.len() - suffix@.len() + suffix_i],
                ));
                return false;
            }
        }
        true
    }
}

impl Clone for LiteralFacts {
    fn clone(&self) -> (r: Self)
        ensures
            r.suffix@ == self.suffix@,
            bytes_views(r.suffix_set@) == bytes_views(self.suffix_set@),
            r.case_insensitive == self.case_insensitive,
    {
        let suffix: Vec<u8> = clone_bytes(&self.suffix);
        let mut suffix_set: Vec<Vec<u8>> = Vec::new();
        for k in 0..self.suffix_set.len()
            invariant
                suffix_set@.len() == k,
                forall|m: int| 0 <= m < k ==> (#[trigger] suffix_set@[m])@ == self.suffix_set@[m]@,
        {
            suffix_set.push(clone_bytes(&self.suffix_set[k]));
        }
        assert(bytes_views(suffix_set@) =~= bytes_views(self.suffix_set@));
        LiteralFacts { suffix, suffix_set, case_insensitive: self.case_insensitive }
    }
}

pub(crate) fn clone_bytes(b: &Vec<u8>) -> (r: Vec<u8>)
    ensures
        r@ == b@,
{
    let r: Vec<u8> = b.clone();
    assert(r@ =~= b@);
    r
}

proof fn lemma_more_seps(
    suffix: Seq<u8>,
    set: Seq<Seq<u8>>,
    few: Seps,
    more: Seps,
    ci: bool,
    path: Seq<u8>,
)
    requires
        few.backslash ==> more.backslash,
    ensures
        ends_well(suffix, set, few, ci, path) ==> ends_well(suffix, set, more, ci, path),
{
    if !ends_well(suffix, set, few, ci, path) {
    } else if suffix.len() > 0 {
        assert(ends_at(more, ci, suffix, path, path.len() as int));
    } else if set.len() > 0 {
        let k = choose|k: int|
            0 <= k < set.len() && ends_at(few, ci, #[trigger] set[k], path, path.len() as int);
        assert(ends_at(more, ci, set[k], path, path.len() as int));
    }
}

/// The literal end of the first `n` ops.
fn extract_suffix(ops: &Vec<Op>, n: usize) -> (r: Vec<u8>)
    requires
        n <= ops@.len(),
    ensures
        r@ == literal_tail(ir::ops_view(ops@).take(n as int)),
{
    let ghost views = ir::ops_view(ops@);
    let mut start: usize = n;
    while start > 0 && matches!(&ops[start - 1], Op::Lit(_) | Op::Sep)
        invariant
            start <= n <= ops@.len(),
            views == ir::ops_view(ops@),
            forall|k: int| start <= k < n ==> plain(#[trigger] views[k]),
        decreases start,
    {
        start = start - 1;
        assert(views[start as int] == ir::op_view(ops@[start as int]));
    }
    let mut acc: Vec<u8> = Vec::new();
    let mut k: usize = start;
    proof {
        let t = views.take(start as int);
        if start > 0 {
            assert(t.last() == ir::op_view(ops@[start - 1]));
        }
        assert(literal_tail(t) =~= seq![]);
    }
    while k < n
        invariant
            start <= k <= n <= ops@.len(),
            views == ir::ops_view(ops@),
            forall|m: int| start <= m < n ==> plain(#[trigger] views[m]),
            acc@ == literal_tail(views.take(k as int)),
        decreases n - k,
    {
        let ghost acc0 = acc@;
        assert(views[k as int] == ir::op_view(ops@[k as int]));
        match &ops[k] {
            Op::Lit(bytes) => {
                acc.extend_from_slice(bytes);
                assert(acc@ =~= acc0 + bytes@);
            },
            _ => {
                acc.push(0x2f);
            },
        }
        proof {
            let t = views.take(k + 1);
            assert(t.drop_last() =~= views.take(k as int));
            assert(t.last() == views[k as int]);
            assert(plain(views[k as int]));
        }
        k = k + 1;
    }
    acc
}

fn extract_suffix_set(ops: &Vec<Op>) -> (r: Vec<Vec<u8>>)
    ensures
        bytes_views(r@) == tail_set(ir::ops_view(ops@)),
{
    let ghost views = ir::ops_view(ops@);
    let none: Vec<Vec<u8>> = Vec::new();
    assert(bytes_views(none@) =~= seq![]);
    if ops.len() == 0 {
        return none;
    }
    let n: usize = ops.len() - 1;
    assert(views.last() == ir::op_view(ops@[n as int]));
    match &ops[n] {
        Op::Alternation(branches) => {
            let ghost bs = ir::branches_view(branches@);
            let common_tail: Vec<u8> = extract_suffix(ops, n);
            assert(views.drop_last() =~= views.take(n as int));
            let ghost common = common_tail@;
            let mut set: Vec<Vec<u8>> = Vec::new();
            let mut k: usize = 0;
            while k < branches.len()
                invariant
                    k <= branches@.len(),
                    bs == ir::branches_view(branches@),
                    common == common_tail@,
                    set@.len() == k,
                    forall|m: int| 0 <= m < k ==> branch_ends(common, #[trigger] bs[m]),
                    forall|m: int|
                        0 <= m < k ==> (#[trigger] set@[m])@ == branch_tail(common, bs[m]),
                    views.len() > 0,
                    views.last() == SpecOp::Alternation(bs),
                    common == literal_tail(views.drop_last()),
                    bytes_views(none@) == Seq::<Seq<u8>>::empty(),
                    views == ir::ops_view(ops@),
                decreases branches@.len() - k,
            {
                let branch: &Vec<Op> = &branches[k];
                let ghost bv = ir::ops_view(branch@);
                assert(bs[k as int] == bv);
                let branch_suffix: Vec<u8> = extract_suffix(branch, branch.len());
                assert(bv.take(branch@.len() as int) =~= bv);
                if branch_suffix.len() == 0 && branch.len() != 0 {
                    assert(!branch_ends(common, bs[k as int]));
                    return none;
                }
                let full: Vec<u8> = if all_literal(branch) {
                    let mut v: Vec<u8> = clone_bytes(&common_tail);
                    v.extend_from_slice(&branch_suffix);
                    assert(v@ =~= common + branch_suffix@);
                    v
                } else {
                    branch_suffix
                };
                if full.len() == 0 {
                    assert(!branch_ends(common, bs[k as int]));
                    return none;
                }
                set.push(full);
                k = k + 1;
            }
            assert(bytes_views(set@) =~= branch_tails(common, bs));
            set
        },
        _ => none,
    }
}

fn all_literal(ops: &Vec<Op>) -> (r: bool)
    ensures
        r == all_plain(ir::ops_view(ops@)),
{
    let ghost views = ir::ops_view(ops@);
    for k in 0..ops.len()
        invariant
            views == ir::ops_view(ops@),
            forall|m: int| 0 <= m < k ==> plain(#[trigger] views[m]),
    {
        assert(views[k as int] == ir::op_view(ops@[k as int]));
        let ok: bool = matches!(&ops[k], Op::Lit(_) | Op::Sep);
        if !ok {
            return false;
        }
    }
    true
}

} // verus!
