//! Where the matches of a pattern lie: its static prefix, told from its marks.

use crate::ast::{self, SpecNode};
use crate::choices;
use crate::engine::ops::folding;
use crate::engine::ops::lower;
use crate::engine::ops::prefixes;
use crate::engine::ops::SpecOp;
use crate::glob;
use crate::meaning;
use crate::notation::{self, Mark};
use crate::options::CompileOptions;
use crate::parser;
use crate::seps::Seps;
use crate::unions;
use vstd::prelude::*;

verus! {

/// The marks are bytes and slashes, and no byte is a `/`.
pub open spec fn worded(ms: Seq<Mark>) -> bool {
    forall|k: int|
        0 <= k < ms.len() ==> (#[trigger] ms[k] is Byte || ms[k] is Escaped || ms[k] is Slash)
            && ms[k] != Mark::Byte(0x2f) && ms[k] != Mark::Escaped(0x2f)
}

/// The byte that such a mark stands for.
pub open spec fn letter(m: Mark) -> u8 {
    match m {
        Mark::Byte(b) => b,
        Mark::Escaped(b) => b,
        _ => 0x2f,
    }
}

/// The bytes that such marks stand for.
pub open spec fn word(ms: Seq<Mark>) -> Seq<u8> {
    Seq::new(ms.len(), |i: int| letter(ms[i]))
}

/// `n` slashes.
pub open spec fn slashes(n: nat) -> Seq<u8> {
    Seq::new(n, |i: int| 0x2fu8)
}

/// `d` are the whole segments that `s` starts with, `y` is what follows them,
/// and `k` slashes stand between.
pub open spec fn parted(s: Seq<u8>, d: Seq<u8>, k: nat, y: Seq<u8>) -> bool {
    s == d + slashes(k) + y && !y.contains(0x2fu8) && (d.len() > 0 ==> d.last() != 0x2f && k > 0)
}

// Ops that spell bytes.

/// Ops that spell bytes, none of which is an escaped `/`.
pub open spec fn spelling(ops: Seq<SpecOp>) -> bool {
    forall|k: int| 0 <= k < ops.len() ==> spells(#[trigger] ops[k])
}

pub open spec fn spells(op: SpecOp) -> bool {
    match op {
        SpecOp::Lit(b) => !b.contains(0x2fu8),
        SpecOp::Sep => true,
        SpecOp::SepRun => true,
        _ => false,
    }
}

proof fn lemma_spelled_push(ops: Seq<SpecOp>, op: SpecOp)
    ensures
        prefixes::spelled(ops.push(op)) == prefixes::spelled(ops) + prefixes::spelled(seq![op]),
{
    assert(ops.push(op).drop_last() =~= ops);
    let one = seq![op];
    assert(one.drop_last() =~= seq![]);
    assert(prefixes::spelled(one.drop_last()) =~= seq![]);
    assert(prefixes::spelled(ops.push(op)) =~= prefixes::spelled(ops) + prefixes::spelled(one));
}

proof fn lemma_without(a: Seq<u8>, b: Seq<u8>)
    requires
        !a.contains(0x2fu8),
        !b.contains(0x2fu8),
    ensures
        !(a + b).contains(0x2fu8),
{
    let c = a + b;
    if c.contains(0x2fu8) {
        let k = choose|k: int| 0 <= k < c.len() && c[k] == 0x2fu8;
        if k < a.len() {
            assert(a[k] == 0x2fu8);
        } else {
            assert(b[k - a.len()] == 0x2fu8);
        }
    }
}

/// Merged, the marks spell the same bytes.
#[verifier::rlimit(40)]
proof fn lemma_worded_ops(ms: Seq<Mark>, ci: bool)
    requires
        worded(ms),
    ensures
        spelling(lower::append_all(seq![], meaning::ops_of(ms, ci))),
        prefixes::spelled(lower::append_all(seq![], meaning::ops_of(ms, ci))) == word(ms),
        forall|k: int|
            0 <= k < lower::append_all(seq![], meaning::ops_of(ms, ci)).len() ==> #[trigger] lower::append_all(
                seq![],
                meaning::ops_of(ms, ci),
            )[k] is Lit || lower::append_all(seq![], meaning::ops_of(ms, ci))[k] is Sep,
    decreases ms.len(),
{
    let ops = meaning::ops_of(ms, ci);
    if ms.len() == 0 {
        assert(ops =~= seq![]);
        assert(word(ms) =~= seq![]);
    } else {
        let head = ms.drop_last();
        let m = ms.last();
        assert(ms[ms.len() - 1] == m);
        assert(worded(head)) by {
            assert forall|k: int| 0 <= k < head.len() implies (#[trigger] head[k] is Byte
                || head[k] is Escaped || head[k] is Slash) && head[k] != Mark::Byte(0x2f) && head[k]
                != Mark::Escaped(0x2f) by {
                assert(head[k] == ms[k]);
            }
        }
        lemma_worded_ops(head, ci);
        assert(ops.drop_last() =~= meaning::ops_of(head, ci));
        let out = lower::append_all(seq![], ops.drop_last());
        let op = meaning::op_of(m, ci);
        assert(ops.last() == op);
        let now = lower::append(out, op);
        let one = seq![op];
        assert(one.drop_last() =~= seq![]);
        assert(prefixes::spelled(one.drop_last()) =~= seq![]);
        assert(op == SpecOp::Lit(seq![letter(m)]) || (op == SpecOp::Sep && m is Slash));
        assert(prefixes::spelled(one) =~= seq![letter(m)]);
        assert(word(ms) =~= word(head) + seq![letter(m)]);
        if op is Lit {
            assert(!seq![letter(m)].contains(0x2fu8));
        }
        assert(spells(op));
        if out.len() > 0 && out.last() is Lit && op is Lit {
            let a = out.last()->Lit_0;
            let b = op->Lit_0;
            let less = out.drop_last();
            assert(out =~= less.push(out.last()));
            assert(spells(out[out.len() - 1]));
            lemma_without(a, b);
            lemma_spelled_push(less, out.last());
            lemma_spelled_push(less, SpecOp::Lit(a + b));
            lemma_spelled_one(a);
            lemma_spelled_one(a + b);
            assert(prefixes::spelled(now) =~= word(ms));
            assert forall|k: int| 0 <= k < now.len() implies spells(#[trigger] now[k]) && (
            now[k] is Lit || now[k] is Sep) by {
                if k < less.len() {
                    assert(now[k] == out[k]);
                }
            }
        } else {
            lemma_spelled_push(out, op);
            assert forall|k: int| 0 <= k < now.len() implies spells(#[trigger] now[k]) && (
            now[k] is Lit || now[k] is Sep) by {
                if k < out.len() {
                    assert(now[k] == out[k]);
                }
            }
        }
    }
}

proof fn lemma_spelled_one(b: Seq<u8>)
    ensures
        prefixes::spelled(seq![SpecOp::Lit(b)]) == b,
{
    let one = seq![SpecOp::Lit(b)];
    assert(one.drop_last() =~= seq![]);
    assert(prefixes::spelled(one.drop_last()) =~= seq![]);
    assert(prefixes::spelled(one) =~= b);
}

// Merging behind a fixed part.

proof fn lemma_append_behind(a: Seq<SpecOp>, b: Seq<SpecOp>, ops: Seq<SpecOp>)
    requires
        b.len() > 0,
        !(b[0] is Lit) || b.len() > 1,
    ensures
        lower::append_all(a + b, ops) == a + lower::append_all(b, ops),
        lower::append_all(b, ops).len() > 0,
        lower::append_all(b, ops)[0] == b[0],
        lower::append_all(b, ops).len() == 1 ==> !(lower::append_all(b, ops)[0] is Lit),
    decreases ops.len(),
{
    if ops.len() > 0 {
        let head = ops.drop_last();
        let op = ops.last();
        lemma_append_behind(a, b, head);
        let c = lower::append_all(b, head);
        assert((a + c).last() == c.last());
        assert((a + c).drop_last() =~= a + c.drop_last());
        assert(lower::append(a + c, op) =~= a + lower::append(c, op));
    }
}

// The program.

/// A mark that is a wildcard.
pub open spec fn wild(m: Mark) -> bool {
    m is One || m is Many || m is Class
}

/// The program of words and then a wildcard.
#[verifier::rlimit(40)]
proof fn lemma_wild_program(l: Seq<Mark>, m: Mark, rest: Seq<Mark>, ci: bool) -> (r: (
    Seq<SpecOp>,
    SpecOp,
    Seq<SpecOp>,
))
    requires
        worded(l),
        wild(m),
    ensures
        lower::lead(lower::fold(lower::append_all(seq![], meaning::ops_of(l + seq![m] + rest, ci))))
            == r.0 + seq![r.1] + r.2,
        spelling(r.0),
        prefixes::spelled(r.0) == word(l),
        !prefixes::spells(r.1),
        !(r.1 is Alternation),
{
    let ms = l + seq![m] + rest;
    let a = lower::append_all(seq![], meaning::ops_of(l, ci));
    let op = meaning::op_of(m, ci);
    let ro = meaning::ops_of(rest, ci);
    lemma_worded_ops(l, ci);
    meaning::lemma_ops_unfolded(rest, ci);
    assert(meaning::ops_of(ms, ci) =~= meaning::ops_of(l, ci) + (seq![op] + ro));
    folding::lemma_append_split(seq![], meaning::ops_of(l, ci), seq![op] + ro);
    folding::lemma_append_split(a, seq![op], ro);
    assert(seq![op].drop_last() =~= seq![]);
    assert(lower::append_all(a, seq![op]) == lower::append(a, op)) by {
        reveal_with_fuel(lower::append_all, 2);
    }
    assert(lower::append(a, op) =~= a + seq![op]) by {
        if a.len() > 0 {
            assert(a[a.len() - 1] is Lit || a[a.len() - 1] is Sep);
        }
    }
    lemma_append_behind(a, seq![op], ro);
    let m0 = lower::append_all(seq![op], ro);
    let tail = m0.drop_first();
    assert(m0 =~= seq![op] + tail);
    assert(folding::unfolded(seq![op]));
    folding::lemma_merge_unfolded(seq![op], ro);
    assert(folding::unfolded(tail)) by {
        assert forall|k: int| 0 <= k < tail.len() implies !(#[trigger] tail[k] is OptSegmentsSlash) by {
            assert(tail[k] == m0[k + 1]);
        }
    }
    folding::lemma_fold_concat(a, m0);
    folding::lemma_fold_concat(seq![op], tail);
    meaning::lemma_fold_one(op);
    lemma_words_fold(a);
    let x = lower::fold(tail);
    let program = a + seq![op] + x;
    assert(a + (seq![op] + x) =~= program);
    assert(lower::lead(program) == program) by {
        if a.len() > 0 {
            assert(program[0] == a[0]);
            assert(a[0] is Lit || a[0] is Sep);
        } else {
            assert(program[0] == op);
        }
    }
    (a, op, x)
}

proof fn lemma_words_fold(a: Seq<SpecOp>)
    requires
        forall|k: int| 0 <= k < a.len() ==> #[trigger] a[k] is Lit || a[k] is Sep,
    ensures
        lower::fold(a) == a,
{
    folding::lemma_open_none(a);
    assert(lower::soften(a) =~= a);
    folding::lemma_close_none(a);
    assert(lower::bare_globstars(a) =~= a);
}

/// Words, `**/` and the rest, merged.
proof fn lemma_deep_merged(l: Seq<Mark>, rest: Seq<Mark>, ci: bool)
    requires
        worded(l),
        rest.len() > 0 ==> !(rest[0] is Deep),
    ensures
        ({
            let two = seq![SpecOp::Globstar, SpecOp::Sep];
            let ms = l + seq![Mark::Deep, Mark::Slash] + rest;
            let a = lower::append_all(seq![], meaning::ops_of(l, ci));
            let b = lower::append_all(seq![], meaning::ops_of(rest, ci));
            &&& lower::append_all(seq![], meaning::ops_of(ms, ci)) == a + (two + b)
            &&& folding::unfolded(b)
            &&& b.len() > 0 ==> !(b[0] is Globstar)
        }),
{
    let two = seq![SpecOp::Globstar, SpecOp::Sep];
    let ms = l + seq![Mark::Deep, Mark::Slash] + rest;
    let ro = meaning::ops_of(rest, ci);
    let lo = meaning::ops_of(l, ci);
    let a = lower::append_all(seq![], lo);
    meaning::lemma_ops_unfolded(rest, ci);
    assert(meaning::ops_of(ms, ci) =~= lo + (two + ro));
    folding::lemma_append_split(seq![], lo, two + ro);
    folding::lemma_append_split(a, two, ro);
    assert(lower::append_all(a, two) == a + two) by {
        let one = seq![SpecOp::Globstar];
        assert(two.drop_last() =~= one);
        assert(one.drop_last() =~= seq![]);
        assert(lower::append_all(a, one.drop_last()) == a);
        assert(lower::append_all(a, one) =~= a.push(SpecOp::Globstar));
        assert(lower::append_all(a, two) =~= a.push(SpecOp::Globstar).push(SpecOp::Sep));
        assert(a.push(SpecOp::Globstar).push(SpecOp::Sep) =~= a + two);
    }
    lemma_append_behind(a, two, ro);
    lemma_two_behind(ro);
    folding::lemma_merge_unfolded(seq![], ro);
    lemma_first_kept(ro);
    if rest.len() > 0 {
        assert(ro[0] is Globstar <==> rest[0] is Deep);
    }
}

/// Folding words, a separator, `**/` and the rest.
proof fn lemma_deep_folded(c: Seq<SpecOp>, b: Seq<SpecOp>)
    requires
        forall|k: int| 0 <= k < c.len() ==> #[trigger] c[k] is Lit || c[k] is Sep,
        folding::unfolded(b),
        b.len() > 0 ==> !(b[0] is Globstar),
    ensures
        lower::fold(c + (seq![SpecOp::Sep, SpecOp::Globstar, SpecOp::Sep] + b)) == c + (seq![
            SpecOp::SepRun,
            SpecOp::OptSegmentsSlash,
        ] + lower::fold(b)),
        lower::fold(seq![SpecOp::Globstar, SpecOp::Sep] + b) == seq![SpecOp::OptSegmentsSlash]
            + lower::fold(b),
{
    let three = seq![SpecOp::Sep, SpecOp::Globstar, SpecOp::Sep];
    let two = seq![SpecOp::Globstar, SpecOp::Sep];
    let tb = three + b;
    meaning::lemma_fold_deep();
    if c.len() > 0 {
        assert(c[c.len() - 1] is Lit || c[c.len() - 1] is Sep);
    }
    assert(folding::unfolded(tb)) by {
        assert forall|k: int| 0 <= k < tb.len() implies !(#[trigger] tb[k] is OptSegmentsSlash) by {
            if k >= 3 {
                assert(tb[k] == b[k - 3]);
            }
        }
    }
    assert(tb[0] == SpecOp::Sep);
    folding::lemma_fold_concat(c, tb);
    folding::lemma_fold_concat(three, b);
    folding::lemma_fold_concat(two, b);
    lemma_words_fold(c);
}

/// The program of words and then `**/`.
#[verifier::rlimit(40)]
proof fn lemma_deep_program(l: Seq<Mark>, rest: Seq<Mark>, ci: bool) -> (r: (
    Seq<SpecOp>,
    SpecOp,
    Seq<SpecOp>,
))
    requires
        worded(l),
        l.len() > 0 ==> l.last() is Slash,
        rest.len() > 0 ==> !(rest[0] is Deep),
    ensures
        lower::lead(
            lower::fold(
                lower::append_all(
                    seq![],
                    meaning::ops_of(l + seq![Mark::Deep, Mark::Slash] + rest, ci),
                ),
            ),
        ) == r.0 + seq![r.1] + r.2,
        spelling(r.0),
        prefixes::spelled(r.0) == word(l),
        !prefixes::spells(r.1),
        !(r.1 is Alternation),
{
    let two = seq![SpecOp::Globstar, SpecOp::Sep];
    let oss = SpecOp::OptSegmentsSlash;
    let a = lower::append_all(seq![], meaning::ops_of(l, ci));
    let b = lower::append_all(seq![], meaning::ops_of(rest, ci));
    let x = lower::fold(b);
    lemma_worded_ops(l, ci);
    lemma_deep_merged(l, rest, ci);
    if l.len() == 0 {
        assert(meaning::ops_of(l, ci) =~= seq![]);
        assert(a =~= seq![]);
        lemma_deep_folded(a, b);
        assert(a + (two + b) =~= two + b);
        let program = seq![oss] + x;
        let led = seq![SpecOp::LeadingSeps] + program;
        assert(lower::lead(program) == led);
        assert(led =~= a + seq![SpecOp::LeadingSeps] + program);
        (a, SpecOp::LeadingSeps, program)
    } else {
        let less = l.drop_last();
        let c = lower::append_all(seq![], meaning::ops_of(less, ci));
        lemma_less_worded(l);
        lemma_worded_ops(less, ci);
        assert(meaning::ops_of(l, ci).drop_last() =~= meaning::ops_of(less, ci));
        assert(meaning::ops_of(l, ci).last() == SpecOp::Sep);
        assert(a =~= c.push(SpecOp::Sep));
        let three = seq![SpecOp::Sep, SpecOp::Globstar, SpecOp::Sep];
        assert(a + (two + b) =~= c + (three + b));
        lemma_deep_folded(c, b);
        let f = c.push(SpecOp::SepRun);
        let program = f + seq![oss] + x;
        assert(c + (seq![SpecOp::SepRun, oss] + x) =~= program);
        assert(program[0] == f[0]);
        assert(lower::lead(program) == program) by {
            if c.len() > 0 {
                assert(f[0] == c[0]);
            }
        }
        lemma_spelled_push(c, SpecOp::SepRun);
        lemma_spelled_push(c, SpecOp::Sep);
        lemma_spelled_sep();
        assert forall|k: int| 0 <= k < f.len() implies spells(#[trigger] f[k]) by {
            if k < c.len() {
                assert(f[k] == c[k]);
            }
        }
        (f, oss, x)
    }
}

proof fn lemma_less_worded(l: Seq<Mark>)
    requires
        worded(l),
        l.len() > 0,
    ensures
        worded(l.drop_last()),
{
    let less = l.drop_last();
    assert forall|k: int| 0 <= k < less.len() implies (#[trigger] less[k] is Byte
        || less[k] is Escaped || less[k] is Slash) && less[k] != Mark::Byte(0x2f) && less[k]
        != Mark::Escaped(0x2f) by {
        assert(less[k] == l[k]);
    }
}

proof fn lemma_spelled_sep()
    ensures
        prefixes::spelled(seq![SpecOp::Sep]) == seq![0x2fu8],
        prefixes::spelled(seq![SpecOp::SepRun]) == seq![0x2fu8],
{
    let a = seq![SpecOp::Sep];
    let b = seq![SpecOp::SepRun];
    assert(a.drop_last() =~= seq![]);
    assert(b.drop_last() =~= seq![]);
    assert(prefixes::spelled(a.drop_last()) =~= seq![]);
    assert(prefixes::spelled(a) =~= seq![0x2fu8]);
    assert(prefixes::spelled(b) =~= seq![0x2fu8]);
}

/// Nothing merges into a separator.
proof fn lemma_two_behind(ops: Seq<SpecOp>)
    ensures
        lower::append_all(seq![SpecOp::Globstar, SpecOp::Sep], ops) == seq![
            SpecOp::Globstar,
            SpecOp::Sep,
        ] + lower::append_all(seq![], ops),
    decreases ops.len(),
{
    let two = seq![SpecOp::Globstar, SpecOp::Sep];
    if ops.len() > 0 {
        lemma_two_behind(ops.drop_last());
        let c = lower::append_all(seq![], ops.drop_last());
        let op = ops.last();
        if c.len() > 0 {
            assert((two + c).last() == c.last());
            assert((two + c).drop_last() =~= two + c.drop_last());
        } else {
            assert(c =~= seq![]);
            assert(two + c =~= two);
        }
        assert(lower::append(two + c, op) =~= two + lower::append(c, op));
    } else {
        assert(two + lower::append_all(seq![], ops) =~= two);
    }
}

/// Merging keeps whether the first op is a `**` or a separator.
proof fn lemma_first_kept(ops: Seq<SpecOp>)
    ensures
        lower::append_all(seq![], ops).len() > 0 ==> ops.len() > 0 && (lower::append_all(
            seq![],
            ops,
        )[0] is Globstar ==> ops[0] is Globstar),
    decreases ops.len(),
{
    if ops.len() > 0 {
        let head = ops.drop_last();
        lemma_first_kept(head);
        let c = lower::append_all(seq![], head);
        if c.len() == 0 && head.len() > 0 {
            lemma_some_left(head);
        }
        if head.len() > 0 {
            assert(head[0] == ops[0]);
        }
    }
}

proof fn lemma_some_left(ops: Seq<SpecOp>)
    requires
        ops.len() > 0,
    ensures
        lower::append_all(seq![], ops).len() > 0,
    decreases ops.len(),
{
    if ops.len() > 1 {
        lemma_some_left(ops.drop_last());
    }
}

// The prefix.

proof fn lemma_lead_count(b: Seq<SpecOp>, w: SpecOp, x: Seq<SpecOp>)
    requires
        spelling(b),
        !prefixes::spells(w),
    ensures
        prefixes::lead(b + seq![w] + x) == b.len(),
    decreases b.len(),
{
    let all = b + seq![w] + x;
    if b.len() > 0 {
        let less = b.drop_first();
        assert(all.drop_first() =~= less + seq![w] + x);
        assert(all[0] == b[0]);
        assert(spells(b[0]));
        assert(spelling(less)) by {
            assert forall|k: int| 0 <= k < less.len() implies spells(#[trigger] less[k]) by {
                assert(less[k] == b[k + 1]);
            }
        }
        lemma_lead_count(less, w, x);
    } else {
        assert(all[0] == w);
    }
}

/// The ops behind the last end of a segment spell no `/`, and those up to it end
/// with one.
proof fn lemma_boundary(ops: Seq<SpecOp>, n: int)
    requires
        0 <= n <= ops.len(),
        spelling(ops.take(n)),
    ensures
        0 <= prefixes::boundary(ops, n) <= n,
        ({
            let k = prefixes::boundary(ops, n);
            let front = prefixes::spelled(ops.take(k));
            let back = prefixes::spelled(ops.subrange(k, n));
            &&& prefixes::spelled(ops.take(n)) == front + back
            &&& !back.contains(0x2fu8)
            &&& front.len() > 0 ==> front.last() == 0x2f
        }),
    decreases n,
{
    let k = prefixes::boundary(ops, n);
    if n > 0 {
        let op = ops[n - 1];
        assert(ops.take(n)[n - 1] == op);
        assert(spells(op));
        let less = ops.take(n - 1);
        assert(ops.take(n) =~= less.push(op));
        lemma_spelled_push(less, op);
        if prefixes::ends_segment(op) {
            lemma_spelled_sep();
            assert(prefixes::spelled(seq![op]) == seq![0x2fu8]);
            assert(ops.subrange(n, n) =~= seq![]);
            assert(prefixes::spelled(ops.subrange(n, n)) =~= seq![]);
            let front = prefixes::spelled(ops.take(n));
            assert(front.last() == 0x2f);
            assert(front + prefixes::spelled(ops.subrange(n, n)) =~= front);
        } else {
            assert(spelling(less)) by {
                assert forall|j: int| 0 <= j < less.len() implies spells(#[trigger] less[j]) by {
                    assert(less[j] == ops.take(n)[j]);
                }
            }
            lemma_boundary(ops, n - 1);
            let mid = ops.subrange(k, n - 1);
            assert(ops.subrange(k, n) =~= mid.push(op));
            lemma_spelled_push(mid, op);
            let b = op->Lit_0;
            lemma_spelled_one(b);
            lemma_without(prefixes::spelled(mid), b);
            let front = prefixes::spelled(ops.take(k));
            assert(front + (prefixes::spelled(mid) + b) =~= (front + prefixes::spelled(mid)) + b);
        }
    } else {
        assert(ops.subrange(0, 0) =~= seq![]);
        assert(ops.take(0) =~= seq![]);
        assert(prefixes::spelled(ops.take(0)) =~= seq![]);
        assert(prefixes::spelled(ops.take(0)) + prefixes::spelled(ops.subrange(0, 0)) =~= seq![]);
    }
}

/// What ends with a `/` and what has none are told apart.
proof fn lemma_parted_once(a: Seq<u8>, y: Seq<u8>, c: Seq<u8>, z: Seq<u8>)
    requires
        a + y == c + z,
        !y.contains(0x2fu8),
        !z.contains(0x2fu8),
        a.len() > 0 ==> a.last() == 0x2f,
        c.len() > 0 ==> c.last() == 0x2f,
    ensures
        a == c,
        y == z,
{
    let s = a + y;
    let t = c + z;
    assert(s.len() == t.len());
    if a.len() < c.len() {
        let k = c.len() - 1;
        assert(t[k] == c[k]);
        assert(s[k] == y[k - a.len()]);
        assert(y.contains(y[k - a.len()]));
    }
    if c.len() < a.len() {
        let k = a.len() - 1;
        assert(s[k] == a[k]);
        assert(t[k] == z[k - c.len()]);
        assert(z.contains(z[k - c.len()]));
    }
    assert(a =~= c) by {
        assert forall|k: int| 0 <= k < a.len() implies a[k] == c[k] by {
            assert(s[k] == (c + z)[k]);
        }
    }
    assert(y =~= z) by {
        assert forall|k: int| 0 <= k < y.len() implies y[k] == z[k] by {
            assert(s[a.len() + k] == (c + z)[a.len() + k]);
        }
    }
}

proof fn lemma_strip(d: Seq<u8>, k: nat)
    requires
        d.len() > 0 ==> d.last() != 0x2f,
    ensures
        prefixes::strip_slashes(d + slashes(k)) == d,
    decreases k,
{
    let s = d + slashes(k);
    if k > 0 {
        let less = (k - 1) as nat;
        assert(s.drop_last() =~= d + slashes(less));
        assert(s.last() == 0x2f);
        lemma_strip(d, less);
    } else {
        assert(s =~= d);
    }
}

/// The static prefixes of a program that starts with words.
proof fn lemma_prefix(
    b: Seq<SpecOp>,
    w: SpecOp,
    x: Seq<SpecOp>,
    d: Seq<u8>,
    k: nat,
    y: Seq<u8>,
    out: Seq<Seq<u8>>,
)
    requires
        spelling(b),
        !prefixes::spells(w),
        !(w is Alternation),
        parted(prefixes::spelled(b), d, k, y),
    ensures
        prefixes::static_prefixes(b + seq![w] + x, out) <==> out == seq![d],
{
    let ops = b + seq![w] + x;
    let n = b.len() as int;
    lemma_lead_count(b, w, x);
    assert(ops.take(n) =~= b);
    lemma_boundary(ops, n);
    let e = prefixes::boundary(ops, n);
    let front = prefixes::spelled(ops.take(e));
    let back = prefixes::spelled(ops.subrange(e, n));
    let want = d + slashes(k);
    assert(want.len() > 0 ==> want.last() == 0x2f);
    lemma_parted_once(front, back, want, y);
    lemma_strip(d, k);
    assert(prefixes::prefix_of(ops) == d);
    assert(!(ops[0] is Alternation)) by {
        if n > 0 {
            assert(ops[0] == b[0]);
            assert(spells(b[0]));
        } else {
            assert(ops[0] == w);
        }
    }
    assert(prefixes::branch_prefixes(ops) =~= seq![d]);
    lemma_alone(d, out);
}

/// One prefix is left as it is.
proof fn lemma_alone(d: Seq<u8>, out: Seq<Seq<u8>>)
    ensures
        prefixes::deduped(seq![d], out) <==> out == seq![d],
{
    let all = seq![d];
    assert(all.contains(d)) by {
        assert(all[0] == d);
    }
    assert(!prefixes::covered(all, d));
    if prefixes::deduped(all, out) {
        assert(out.contains(d));
        let i = choose|i: int| 0 <= i < out.len() && out[i] == d;
        assert forall|j: int| 0 <= j < out.len() implies out[j] == d by {
            assert(out.contains(out[j]));
            assert(all.contains(out[j]));
        }
        if out.len() > 1 {
            assert(prefixes::before(out[0], out[1]));
            assert(prefixes::lex_less(d, d));
        }
        assert(out =~= all);
    }
    if out == all {
        assert forall|p: Seq<u8>| #[trigger] out.contains(p) <==> (all.contains(p)
            && !prefixes::covered(all, p)) by {
            if all.contains(p) {
                assert(p == d);
            }
        }
        assert(prefixes::sorted(out));
    }
}

proof fn lemma_flat_lowered(ms: Seq<Mark>, ci: bool)
    requires
        meaning::shallow(ms, true),
    ensures
        lower::lowered(notation::tree(ms), ci) == lower::lead(
            lower::fold(lower::append_all(seq![], meaning::ops_of(ms, ci))),
        ),
{
    meaning::lemma_tree_calm(ms, true);
    unions::lemma_calm_uncrowded(notation::tree(ms));
    meaning::lemma_merged_tree(ms, ci);
}

/// A pattern that holds a wildcard is no literal.
proof fn lemma_not_literal(ms: Seq<Mark>, nodes: Seq<SpecNode>, lit: Seq<u8>)
    requires
        exists|k: int| 0 <= k < ms.len() && (wild(#[trigger] ms[k]) || ms[k] is Deep),
    ensures
        exists|k: int|
            0 <= k < notation::nodes_of(ms, nodes, lit).len() && !ast::pure_literal(
                #[trigger] notation::nodes_of(ms, nodes, lit)[k],
            ),
    decreases ms.len(),
{
    let k = choose|k: int| 0 <= k < ms.len() && (wild(#[trigger] ms[k]) || ms[k] is Deep);
    let m = ms[0];
    let rest = ms.drop_first();
    if k > 0 {
        assert(rest[k - 1] == ms[k]);
        match m {
            Mark::Byte(b) => {
                lemma_not_literal(rest, nodes, lit.push(b));
                assert(notation::nodes_of(ms, nodes, lit) == notation::nodes_of(
                    rest,
                    nodes,
                    lit.push(b),
                ));
            },
            Mark::Escaped(b) => {
                lemma_not_literal(rest, nodes, lit.push(b));
                assert(notation::nodes_of(ms, nodes, lit) == notation::nodes_of(
                    rest,
                    nodes,
                    lit.push(b),
                ));
            },
            _ => {
                let pre = parser::flushed(nodes, lit).push(notation::node_of(m));
                lemma_not_literal(rest, pre, seq![]);
                assert(notation::nodes_of(ms, nodes, lit) == notation::nodes_of(
                    rest,
                    pre,
                    seq![],
                ));
            },
        }
    } else {
        let pre = parser::flushed(nodes, lit).push(notation::node_of(m));
        choices::lemma_nodes_behind(rest, pre, seq![]);
        let all = notation::nodes_of(ms, nodes, lit);
        assert(all == pre + notation::nodes_of(rest, seq![], seq![]));
        assert(all[pre.len() - 1] == notation::node_of(m));
        assert(!ast::pure_literal(all[pre.len() - 1]));
    }
}

proof fn lemma_tree_not_literal(ms: Seq<Mark>)
    requires
        exists|k: int| 0 <= k < ms.len() && (wild(#[trigger] ms[k]) || ms[k] is Deep),
    ensures
        !ast::pure_literal(notation::tree(ms)),
{
    lemma_not_literal(ms, seq![], seq![]);
    let xs = notation::nodes_of(ms, seq![], seq![]);
    let k = choose|k: int| 0 <= k < xs.len() && !ast::pure_literal(#[trigger] xs[k]);
    if xs.len() == 1 {
        assert(k == 0);
    } else {
        assert(!ast::all_pure(xs));
    }
}

/// The static prefix of a pattern that starts with no brace is made of the whole
/// segments before its first wildcard, without the slashes behind them.
pub proof fn law_prefix_ends_before_the_first_wildcard(
    l: Seq<Mark>,
    m: Mark,
    rest: Seq<Mark>,
    d: Seq<u8>,
    k: nat,
    y: Seq<u8>,
    text: Seq<char>,
    opts: CompileOptions,
    seps: Seps,
    out: Seq<Seq<u8>>,
)
    requires
        worded(l),
        wild(m),
        notation::whole(l + seq![m] + rest),
        meaning::shallow(l + seq![m] + rest, true),
        parted(word(l), d, k, y),
        notation::text(l + seq![m] + rest).len() <= 65536,
        glob::text_bytes(text) == notation::text(l + seq![m] + rest),
        text.len() > 0,
    ensures
        glob::compiled(text, opts, seps) matches Ok(g) && (g.prefixes(out) <==> out == seq![d]),
{
    let ms = l + seq![m] + rest;
    choices::lemma_unnegated(ms);
    choices::lemma_text_some(text);
    notation::lemma_reads(0, ms);
    assert(ms[l.len() as int] == m);
    lemma_tree_not_literal(ms);
    lemma_flat_lowered(ms, opts.case_insensitive);
    let (b, w, x) = lemma_wild_program(l, m, rest, opts.case_insensitive);
    lemma_prefix(b, w, x, d, k, y, out);
}

/// The same where the first wildcard is a `**` with a slash behind it.
pub proof fn law_prefix_ends_before_the_first_globstar(
    l: Seq<Mark>,
    rest: Seq<Mark>,
    d: Seq<u8>,
    k: nat,
    y: Seq<u8>,
    text: Seq<char>,
    opts: CompileOptions,
    seps: Seps,
    out: Seq<Seq<u8>>,
)
    requires
        worded(l),
        notation::whole(l + seq![Mark::Deep, Mark::Slash] + rest),
        meaning::shallow(l + seq![Mark::Deep, Mark::Slash] + rest, true),
        meaning::apart(l + seq![Mark::Deep, Mark::Slash] + rest),
        parted(word(l), d, k, y),
        notation::text(l + seq![Mark::Deep, Mark::Slash] + rest).len() <= 65536,
        glob::text_bytes(text) == notation::text(l + seq![Mark::Deep, Mark::Slash] + rest),
        text.len() > 0,
    ensures
        glob::compiled(text, opts, seps) matches Ok(g) && (g.prefixes(out) <==> out == seq![d]),
{
    let ms = l + seq![Mark::Deep, Mark::Slash] + rest;
    let n = l.len() as int;
    choices::lemma_unnegated(ms);
    choices::lemma_text_some(text);
    notation::lemma_reads(0, ms);
    assert(ms[n] is Deep);
    assert(meaning::apart_at(ms, n));
    if n > 0 {
        assert(ms[n - 1] == l.last());
    }
    if rest.len() > 0 {
        assert(ms[n + 2] == rest[0]);
    }
    lemma_tree_not_literal(ms);
    lemma_flat_lowered(ms, opts.case_insensitive);
    let (b, w, x) = lemma_deep_program(l, rest, opts.case_insensitive);
    lemma_prefix(b, w, x, d, k, y, out);
}

/// No static prefix is another one or lies below it, and they come shortest
/// first.
pub proof fn law_prefixes_are_apart(g: glob::SpecGlob, out: Seq<Seq<u8>>, i: int, j: int)
    requires
        g.prefixes(out),
        0 <= i < j < out.len(),
    ensures
        out[i] != out[j],
        out[i].len() <= out[j].len(),
        !(out[i].len() < out[j].len() && out[j][out[i].len() as int] == 0x2f && out[j].take(
            out[i].len() as int,
        ) == out[i]),
{
    let all = prefixes::branch_prefixes(g.program());
    assert(prefixes::before(out[i], out[j]));
    assert(out.contains(out[i]));
    assert(out.contains(out[j]));
    if out[i] == out[j] {
        assert(prefixes::lex_less(out[i], out[i]));
    }
    if prefixes::dir_above(out[i], out[j]) {
        let k = choose|k: int| 0 <= k < all.len() && all[k] == out[i];
        assert(prefixes::dir_above(all[k], out[j]));
        assert(prefixes::covered(all, out[j]));
    }
}

// Plain text.

#[verifier::rlimit(40)]
proof fn lemma_literal_word(ms: Seq<Mark>, nodes: Seq<SpecNode>, lit: Seq<u8>)
    requires
        worded(ms),
        ast::all_pure(nodes),
    ensures
        ast::all_pure(notation::nodes_of(ms, nodes, lit)),
        ast::literal_bytes_all(notation::nodes_of(ms, nodes, lit)) == ast::literal_bytes_all(nodes)
            + lit + word(ms),
    decreases ms.len(),
{
    let all = parser::flushed(nodes, lit);
    assert(ast::all_pure(all) && ast::literal_bytes_all(all) == ast::literal_bytes_all(nodes) + lit)
        by {
        if lit.len() == 0 {
            assert(ast::literal_bytes_all(nodes) + lit =~= ast::literal_bytes_all(nodes));
        } else {
            assert(all.drop_last() =~= nodes);
            assert forall|k: int| 0 <= k < all.len() implies ast::pure_literal(#[trigger] all[k]) by {
                if k < nodes.len() {
                    assert(all[k] == nodes[k]);
                }
            }
            assert(ast::literal_bytes(all.last()) == lit);
        }
    }
    if ms.len() == 0 {
        assert(ast::literal_bytes_all(all) + word(ms) =~= ast::literal_bytes_all(all));
    } else {
        let m = ms[0];
        let rest = ms.drop_first();
        assert(worded(rest)) by {
            assert forall|k: int| 0 <= k < rest.len() implies (#[trigger] rest[k] is Byte
                || rest[k] is Escaped || rest[k] is Slash) && rest[k] != Mark::Byte(0x2f) && rest[k]
                != Mark::Escaped(0x2f) by {
                assert(rest[k] == ms[k + 1]);
            }
        }
        assert(word(ms) =~= seq![letter(m)] + word(rest));
        let base = ast::literal_bytes_all(nodes);
        match m {
            Mark::Byte(b) => {
                lemma_literal_word(rest, nodes, lit.push(b));
                assert(base + lit.push(b) + word(rest) =~= base + lit + word(ms));
            },
            Mark::Escaped(b) => {
                lemma_literal_word(rest, nodes, lit.push(b));
                assert(base + lit.push(b) + word(rest) =~= base + lit + word(ms));
            },
            _ => {
                let now = all.push(SpecNode::Separator);
                assert(now.drop_last() =~= all);
                assert forall|k: int| 0 <= k < now.len() implies ast::pure_literal(
                    #[trigger] now[k],
                ) by {
                    if k < all.len() {
                        assert(now[k] == all[k]);
                    }
                }
                lemma_literal_word(rest, now, seq![]);
                assert(ast::literal_bytes(now.last()) =~= seq![0x2fu8]);
                assert(ast::literal_bytes_all(now) + Seq::<u8>::empty() + word(rest) =~= base + lit
                    + word(ms));
            },
        }
    }
}

/// The static prefix of plain text is the text without slashes at its end.
pub proof fn law_prefix_of_plain_text_is_the_text(
    ms: Seq<Mark>,
    d: Seq<u8>,
    k: nat,
    text: Seq<char>,
    opts: CompileOptions,
    seps: Seps,
    out: Seq<Seq<u8>>,
)
    requires
        worded(ms),
        notation::whole(ms),
        word(ms) == d + slashes(k),
        d.len() > 0 ==> d.last() != 0x2f,
        notation::text(ms).len() <= 65536,
        glob::text_bytes(text) == notation::text(ms),
        text.len() > 0,
    ensures
        glob::compiled(text, opts, seps) matches Ok(g) && (g.prefixes(out) <==> out == seq![d]),
{
    let xs = notation::nodes_of(ms, seq![], seq![]);
    choices::lemma_unnegated(ms);
    choices::lemma_text_some(text);
    notation::lemma_reads(0, ms);
    lemma_literal_word(ms, seq![], seq![]);
    let none = Seq::<SpecNode>::empty();
    assert(ast::literal_bytes_all(none) + Seq::<u8>::empty() + word(ms) =~= word(ms));
    if xs.len() == 1 {
        assert(ast::pure_literal(xs[0]));
        assert(xs.drop_last() =~= none);
        assert(ast::literal_bytes_all(xs) =~= ast::literal_bytes(xs[0]));
    }
    lemma_strip(d, k);
}

// Braces of words.

/// The prefixes of branches one after the other.
proof fn lemma_branch_prefixes(branches: Seq<Seq<SpecOp>>, ps: Seq<Seq<u8>>)
    requires
        branches.len() == ps.len(),
        forall|i: int|
            0 <= i < branches.len() ==> prefixes::branch_prefixes(#[trigger] branches[i]) == seq![
                ps[i],
            ],
    ensures
        prefixes::all_branch_prefixes(branches) == ps,
    decreases branches.len(),
{
    if branches.len() > 0 {
        let less = branches.drop_last();
        let qs = ps.drop_last();
        assert forall|i: int| 0 <= i < less.len() implies prefixes::branch_prefixes(
            #[trigger] less[i],
        ) == seq![qs[i]] by {
            assert(less[i] == branches[i]);
        }
        lemma_branch_prefixes(less, qs);
        assert(branches[branches.len() - 1] == branches.last());
        assert(qs + seq![ps.last()] =~= ps);
    } else {
        assert(ps =~= seq![]);
    }
}

proof fn lemma_word_branch(b: Seq<Mark>, ci: bool)
    requires
        worded(b),
    ensures
        lower::lead(meaning::branch_of(b, ci)) == meaning::branch_of(b, ci),
        prefixes::branch_prefixes(meaning::branch_of(b, ci)) == seq![
            prefixes::strip_slashes(word(b)),
        ],
{
    let a = lower::append_all(seq![], meaning::ops_of(b, ci));
    meaning::lemma_merged_tree(b, ci);
    lemma_worded_ops(b, ci);
    lemma_words_fold(a);
    lemma_all_lead(a);
    assert(a.take(a.len() as int) =~= a);
    if a.len() > 0 {
        assert(a[0] is Lit || a[0] is Sep);
    }
}

proof fn lemma_all_lead(b: Seq<SpecOp>)
    requires
        spelling(b),
    ensures
        prefixes::lead(b) == b.len(),
    decreases b.len(),
{
    if b.len() > 0 {
        let less = b.drop_first();
        assert(spells(b[0]));
        assert(spelling(less)) by {
            assert forall|k: int| 0 <= k < less.len() implies spells(#[trigger] less[k]) by {
                assert(less[k] == b[k + 1]);
            }
        }
        lemma_all_lead(less);
    }
}

/// `p` is one of the branches, without the slashes at its end.
pub open spec fn branch_stem(bs: Seq<Seq<Mark>>, p: Seq<u8>) -> bool {
    exists|i: int, k: nat|
        0 <= i < bs.len() && word(#[trigger] bs[i]) == p + #[trigger] slashes(k) && (p.len() > 0
            ==> p.last() != 0x2f)
}

/// A leading brace of words that fills whole segments has its branches for
/// static prefixes, without those that lie below another one. An empty branch
/// stands for all.
#[verifier::rlimit(40)]
pub proof fn law_prefixes_of_a_leading_brace_are_its_branches(
    bs: Seq<Seq<Mark>>,
    z: Seq<Mark>,
    text: Seq<char>,
    opts: CompileOptions,
    seps: Seps,
    out: Seq<Seq<u8>>,
    p: Seq<u8>,
)
    requires
        forall|i: int| 0 <= i < bs.len() ==> worded(#[trigger] bs[i]),
        z.len() > 0 ==> z[0] is Slash && !(z.len() > 1 && z[1] is Deep),
        notation::whole(choices::around(seq![], bs, z)),
        meaning::shallow(choices::around(seq![], bs, z), true),
        notation::text(choices::around(seq![], bs, z)).len() <= 65536,
        glob::text_bytes(text) == notation::text(choices::around(seq![], bs, z)),
        text.len() > 0,
        glob::compiled(text, opts, seps) is Ok ==> (glob::compiled(
            text,
            opts,
            seps,
        )->Ok_0).prefixes(out),
    ensures
        glob::compiled(text, opts, seps) is Ok,
        !branch_stem(bs, seq![]) ==> (out.contains(p) <==> branch_stem(bs, p) && !(exists|
            q: Seq<u8>,
        | #[trigger]
            branch_stem(bs, q) && q.len() < p.len() && p[q.len() as int] == 0x2f && p.take(
                q.len() as int,
            ) == q)),
        branch_stem(bs, seq![]) ==> out == seq![Seq::<u8>::empty()],
{
    let none = Seq::<Mark>::empty();
    let ci = opts.case_insensitive;
    let ms = choices::around(none, bs, z);
    let e = Mark::Either(bs);
    let op = meaning::op_of(e, ci);
    assert(ms[0] == e);
    assert(ms =~= seq![e] + z);
    choices::lemma_unnegated(ms);
    choices::lemma_text_some(text);
    notation::lemma_reads(0, ms);
    lemma_brace_body(ms);
    choices::lemma_brace_well(ms, true, true, false, 0);
    lemma_flat_lowered(ms, ci);
    meaning::lemma_either_op(bs, ci);
    let branches = meaning::branches_of(bs, ci);
    let zo = meaning::ops_of(z, ci);
    let x = lemma_brace_program(bs, z, ci);
    let program = lower::lowered(notation::tree(ms), ci);
    let ps = Seq::new(bs.len(), |i: int| prefixes::strip_slashes(word(bs[i])));
    assert forall|i: int| 0 <= i < branches.len() implies prefixes::branch_prefixes(
        #[trigger] branches[i],
    ) == seq![ps[i]] by {
        lemma_word_branch(bs[i], ci);
    }
    lemma_branch_prefixes(branches, ps);
    assert(prefixes::branch_prefixes(program) == ps);
    assert forall|q: Seq<u8>| #[trigger] branch_stem(bs, q) == ps.contains(q) by {
        if branch_stem(bs, q) {
            let (i, k) = choose|i: int, k: nat|
                0 <= i < bs.len() && word(#[trigger] bs[i]) == q + #[trigger] slashes(k) && (q.len()
                    > 0 ==> q.last() != 0x2f);
            lemma_strip(q, k);
            assert(ps[i] == q);
        }
        if ps.contains(q) {
            let i = choose|i: int| 0 <= i < ps.len() && ps[i] == q;
            let k = lemma_stripped(word(bs[i]));
            assert(word(bs[i]) == q + slashes(k));
        }
    }
    if branch_stem(bs, seq![]) {
        assert(ps.contains(seq![]));
    } else {
        assert(!ps.contains(seq![]));
        assert(prefixes::covered(ps, p) == exists|q: Seq<u8>| #[trigger]
            branch_stem(bs, q) && q.len() < p.len() && p[q.len() as int] == 0x2f && p.take(
                q.len() as int,
            ) == q) by {
            if prefixes::covered(ps, p) {
                let k = choose|k: int| 0 <= k < ps.len() && prefixes::dir_above(#[trigger] ps[k], p);
                assert(ps.contains(ps[k]));
                assert(branch_stem(bs, ps[k]));
            }
            if exists|q: Seq<u8>| #[trigger]
                branch_stem(bs, q) && q.len() < p.len() && p[q.len() as int] == 0x2f && p.take(
                    q.len() as int,
                ) == q {
                let q = choose|q: Seq<u8>| #[trigger]
                    branch_stem(bs, q) && q.len() < p.len() && p[q.len() as int] == 0x2f && p.take(
                        q.len() as int,
                    ) == q;
                let k = choose|k: int| 0 <= k < ps.len() && ps[k] == q;
                assert(prefixes::dir_above(ps[k], p));
            }
        }
    }
}

proof fn lemma_stripped(s: Seq<u8>) -> (k: nat)
    ensures
        s == prefixes::strip_slashes(s) + slashes(k),
        prefixes::strip_slashes(s).len() > 0 ==> prefixes::strip_slashes(s).last() != 0x2f,
    decreases s.len(),
{
    if s.len() > 0 && s.last() == 0x2f {
        let k = lemma_stripped(s.drop_last());
        let t = prefixes::strip_slashes(s);
        assert(s =~= s.drop_last().push(0x2f));
        assert((t + slashes(k)).push(0x2f) =~= t + slashes(k + 1));
        assert(s =~= prefixes::strip_slashes(s) + slashes(k + 1));
        k + 1
    } else {
        assert(s =~= prefixes::strip_slashes(s) + slashes(0));
        0
    }
}

/// A pattern that starts with a brace is no literal.
proof fn lemma_brace_body(ms: Seq<Mark>)
    requires
        ms.len() > 0,
        ms[0] is Either,
    ensures
        !ast::pure_literal(notation::tree(ms)),
{
    let rest = ms.drop_first();
    let n = notation::node_of(ms[0]);
    let none = Seq::<SpecNode>::empty();
    let pre = none.push(n);
    choices::lemma_nodes_behind(rest, pre, seq![]);
    let xs = notation::nodes_of(ms, none, seq![]);
    assert(xs == pre + notation::nodes_of(rest, none, seq![]));
    assert(xs[0] == n);
    assert(!ast::pure_literal(xs[0]));
    if xs.len() > 1 {
        assert(!ast::all_pure(xs));
    }
}

/// The program of a leading brace of words.
#[verifier::rlimit(40)]
proof fn lemma_brace_program(bs: Seq<Seq<Mark>>, z: Seq<Mark>, ci: bool) -> (x: Seq<SpecOp>)
    requires
        forall|i: int| 0 <= i < bs.len() ==> worded(#[trigger] bs[i]),
        z.len() > 0 ==> z[0] is Slash && !(z.len() > 1 && z[1] is Deep),
    ensures
        lower::lead(
            lower::fold(
                lower::append_all(
                    seq![],
                    meaning::ops_of(choices::around(seq![], bs, z), ci),
                ),
            ),
        ) == seq![SpecOp::Alternation(meaning::branches_of(bs, ci))] + x,
        x.len() > 0 ==> prefixes::ends_segment(x[0]),
{
    let ms = choices::around(seq![], bs, z);
    let op = meaning::op_of(Mark::Either(bs), ci);
    let zo = meaning::ops_of(z, ci);
    meaning::lemma_either_op(bs, ci);
    meaning::lemma_ops_unfolded(z, ci);
    assert(meaning::ops_of(ms, ci) =~= seq![op] + zo);
    folding::lemma_append_split(seq![], seq![op], zo);
    folding::lemma_append_single(op);
    let branches = meaning::branches_of(bs, ci);
    unions::lemma_lead_branches(branches);
    assert forall|i: int| 0 <= i < branches.len() implies #[trigger] lower::lead_branches(
        branches,
    )[i] == branches[i] by {
        lemma_word_branch(bs[i], ci);
    }
    assert(lower::lead_branches(branches) =~= branches);
    let one = seq![op];
    let m0 = lower::append_all(one, zo);
    lemma_append_behind(seq![], one, zo);
    let tail = m0.drop_first();
    assert(m0 =~= one + tail);
    assert(folding::unfolded(one));
    folding::lemma_merge_unfolded(one, zo);
    assert(folding::unfolded(tail)) by {
        assert forall|k: int| 0 <= k < tail.len() implies !(#[trigger] tail[k] is OptSegmentsSlash) by {
            assert(tail[k] == m0[k + 1]);
        }
    }
    folding::lemma_fold_concat(one, tail);
    meaning::lemma_fold_one(op);
    let x = lower::fold(tail);
    unions::lemma_lead_part(one, x);
    assert(lower::lead(one) =~= one);
    if z.len() > 0 {
        let rest = z.drop_first();
        let ro = meaning::ops_of(rest, ci);
        assert(zo =~= seq![SpecOp::Sep] + ro);
        folding::lemma_append_split(one, seq![SpecOp::Sep], ro);
        let two = seq![op, SpecOp::Sep];
        assert(lower::append_all(one, seq![SpecOp::Sep]) =~= two) by {
            assert(seq![SpecOp::Sep].drop_last() =~= seq![]);
            assert(lower::append_all(one, seq![SpecOp::Sep].drop_last()) == one);
        }
        let sep = seq![SpecOp::Sep];
        assert(two =~= one + sep);
        lemma_append_behind(one, sep, ro);
        let s0 = lower::append_all(sep, ro);
        assert(tail =~= s0);
        let back = s0.drop_first();
        assert(s0 =~= sep + back);
        lemma_sep_behind(ro);
        lemma_first_kept(ro);
        if back.len() > 0 {
            assert(back =~= lower::append_all(seq![], ro));
            assert(ro[0] == zo[1]);
            assert(zo[1] is Globstar <==> z[1] is Deep);
        }
        assert(folding::unfolded(back)) by {
            assert forall|k: int| 0 <= k < back.len() implies !(
            #[trigger] back[k] is OptSegmentsSlash) by {
                assert(back[k] == tail[k + 1]);
            }
        }
        folding::lemma_fold_concat(sep, back);
        meaning::lemma_fold_one(SpecOp::Sep);
        assert(x[0] == SpecOp::Sep);
    } else {
        assert(zo =~= seq![]);
        assert(m0 =~= one);
        assert(tail =~= seq![]);
        assert(x =~= seq![]);
    }
    x
}

proof fn lemma_sep_behind(ops: Seq<SpecOp>)
    ensures
        lower::append_all(seq![SpecOp::Sep], ops) == seq![SpecOp::Sep] + lower::append_all(
            seq![],
            ops,
        ),
    decreases ops.len(),
{
    let sep = seq![SpecOp::Sep];
    if ops.len() > 0 {
        lemma_sep_behind(ops.drop_last());
        let c = lower::append_all(seq![], ops.drop_last());
        let op = ops.last();
        if c.len() > 0 {
            assert((sep + c).last() == c.last());
            assert((sep + c).drop_last() =~= sep + c.drop_last());
        } else {
            assert(c =~= seq![]);
            assert(sep + c =~= sep);
        }
        assert(lower::append(sep + c, op) =~= sep + lower::append(c, op));
    } else {
        assert(sep + lower::append_all(seq![], ops) =~= sep);
    }
}

} // verus!
