//! What holds of every compiled pattern.

use crate::ast;
use crate::dir_match::DirMatch;
use crate::engine::facts;
use crate::engine::lang::{self, Cx};
use crate::engine::literal;
use crate::engine::ops::lower;
use crate::engine::ops::prefixes;
use crate::engine::ops::SpecOp;
use crate::engine::pikevm::PikeVm;
use crate::engine::segment::compile;
use crate::engine::segment::elems;
use crate::engine::segment::exec;
use crate::engine::segment::exec::SegmentMatcher;
use crate::engine::segment::forks;
use crate::engine::segment::starts;
use crate::engine::thompson_dfa::ThompsonDfa;
use crate::error::GlobError;
use crate::glob::{self, SpecGlob};
use crate::openings;
use crate::options::CompileOptions;
use crate::parser;
use crate::seps::Seps;
use crate::unions;
use vstd::prelude::*;

verus! {

/// The match flag of a directory's verdict says whether the directory matches.
pub proof fn law_verdict_says_match(g: SpecGlob, dir: Seq<u8>)
    ensures
        g.verdict(dir).exact() == g.matches(dir),
{
}

/// A program that matches under stricter dot rules matches under laxer ones.
proof fn lemma_program_relaxed(g: SpecGlob, n: int, m: int, path: Seq<u8>)
    requires
        n <= m,
        g.program_matches(m, path),
    ensures
        g.program_matches(n, path),
{
    let len = path.len() as int;
    if g.by_segment() {
        let fs = forks::forks(g.program())->0;
        let f = choose|f: int|
            0 <= f < fs.len() && lang::matches(
                elems::with_leading_seps(#[trigger] fs[f]),
                g.cx(m),
                path,
            );
        lang::lemma_relaxed(elems::with_leading_seps(fs[f]), g.cx(m), g.cx(n), path, 0, len);
        assert(lang::matches(elems::with_leading_seps(fs[f]), g.cx(n), path));
    } else {
        lang::lemma_relaxed(g.program(), g.cx(m), g.cx(n), path, 0, len);
    }
}

/// A walk that prunes never loses a match: a directory with a match anywhere
/// below it is descended into.
pub proof fn law_no_match_is_pruned(g: SpecGlob, dir: Seq<u8>, t: Seq<u8>)
    requires
        g.matches((dir + seq![0x2fu8]) + t),
    ensures
        g.verdict(dir).below(),
{
    let path = (dir + seq![0x2fu8]) + t;
    let n = dir.len() as int;
    if !g.negated && n > 0 {
        if ast::pure_literal(g.body) {
            assert(path[n] == 0x2f);
            assert(literal::literal_byte(
                g.seps,
                g.case_insensitive,
                g.literal()[n],
                path[n],
            ));
            assert forall|k: int| 0 <= k < n implies literal::literal_byte(
                g.seps,
                g.case_insensitive,
                #[trigger] g.literal()[k],
                dir[k],
            ) by {
                assert(path[k] == dir[k]);
            }
        } else {
            lemma_program_relaxed(g, n, path.len() as int, path);
        }
    }
    if !g.negated && n == 0 && ast::pure_literal(g.body) && g.body_matches(dir) {
        assert(path.len() > 0);
        assert(g.literal().len() == 0);
    }
}

/// A directory is descended into only if something below it matches, or would
/// if wildcards matched a leading dot.
pub proof fn law_descent_has_a_reason(g: SpecGlob, dir: Seq<u8>)
    requires
        !g.negated,
        dir.len() > 0,
        g.verdict(dir).below(),
    ensures
        exists|t: Seq<u8>| #[trigger]
            (SpecGlob { dot: true, ..g }).matches((dir + seq![0x2fu8]) + t),
{
    let n = dir.len() as int;
    let h = SpecGlob { dot: true, ..g };
    if ast::pure_literal(g.body) {
        let l = g.literal();
        let t = l.skip(n + 1);
        let path = (dir + seq![0x2fu8]) + t;
        assert forall|k: int| 0 <= k < path.len() implies literal::literal_byte(
            g.seps,
            g.case_insensitive,
            #[trigger] l[k],
            path[k],
        ) by {
            if k < n {
                assert(path[k] == dir[k]);
            } else if k > n {
                assert(path[k] == t[k - n - 1]);
            }
        }
        assert(h.matches((dir + seq![0x2fu8]) + t));
    } else {
        let t = choose|t: Seq<u8>| #[trigger]
            g.program_matches(n, (dir + seq![0x2fu8]) + t);
        let path = (dir + seq![0x2fu8]) + t;
        lemma_program_relaxed(g, 0, n, path);
        assert(h.cx(path.len() as int) == g.cx(0));
        assert(h.program_matches(path.len() as int, path) == g.program_matches(0, path));
        assert(h.matches((dir + seq![0x2fu8]) + t));
    }
}

/// What is pruned holds no match, neither itself nor below it.
pub proof fn law_pruned_is_empty(g: SpecGlob, dir: Seq<u8>, t: Seq<u8>)
    requires
        g.verdict(dir) == DirMatch::Pruned,
    ensures
        !g.matches(dir),
        !g.matches((dir + seq![0x2fu8]) + t),
{
    if g.matches((dir + seq![0x2fu8]) + t) {
        law_no_match_is_pruned(g, dir, t);
    }
}

/// Letting wildcards match leading dots only adds matches.
pub proof fn law_dot_only_adds(g: SpecGlob, path: Seq<u8>)
    requires
        g.body_matches(path),
    ensures
        (SpecGlob { dot: true, ..g }).body_matches(path),
{
    let wide = SpecGlob { dot: true, ..g };
    let n = path.len() as int;
    if ast::pure_literal(g.body) {
        assert(wide.agrees(path, n) == g.agrees(path, n));
    } else if g.by_segment() {
        let fs = forks::forks(g.program())->0;
        let f = choose|f: int|
            0 <= f < fs.len() && lang::matches(
                elems::with_leading_seps(#[trigger] fs[f]),
                g.cx(n),
                path,
            );
        lang::lemma_relaxed(elems::with_leading_seps(fs[f]), g.cx(n), wide.cx(n), path, 0, n);
        assert(lang::matches(elems::with_leading_seps(fs[f]), wide.cx(n), path));
    } else {
        lang::lemma_relaxed(g.program(), g.cx(n), wide.cx(n), path, 0, n);
    }
}

/// Matching segment by segment and matching byte by byte agree, on whole paths
/// and on what lies below a directory, wherever a pattern starts as every
/// pattern that is parsed does.
pub proof fn law_engines_agree(g: SpecGlob, n: int, path: Seq<u8>)
    requires
        !ast::pure_literal(g.body),
        openings::fair(g.body),
    ensures
        g.program_matches(n, path) == lang::matches(g.program(), g.cx(n), path),
{
    if g.by_segment() {
        openings::lemma_fair_sure(g.body, g.case_insensitive);
        starts::lemma_sure_not_bare(g.program());
        exec::law_forks_match_program(g.program(), g.cx(n), path);
    }
}

/// The verdicts of the two engines agree too.
pub proof fn law_verdicts_agree(g: SpecGlob, dir: Seq<u8>)
    requires
        !ast::pure_literal(g.body),
        !g.negated,
        openings::fair(g.body),
    ensures
        g.verdict(dir) == DirMatch::verdict(
            lang::matches(g.program(), g.cx(dir.len() as int), dir),
            dir.len() == 0 || program_below(g.program(), g.cx(dir.len() as int), dir),
        ),
{
    let n = dir.len() as int;
    let pre = dir + seq![0x2fu8];
    law_engines_agree(g, n, dir);
    if n > 0 && g.body_below(dir) {
        let t = choose|t: Seq<u8>| #[trigger] g.program_matches(n, pre + t);
        law_engines_agree(g, n, pre + t);
        assert(lang::matches(g.program(), g.cx(n), pre + t));
    }
    if program_below(g.program(), g.cx(n), dir) {
        let t = choose|t: Seq<u8>| #[trigger] lang::matches(g.program(), g.cx(n), pre + t);
        law_engines_agree(g, n, pre + t);
        assert(g.program_matches(n, pre + t));
    }
}

/// A program matches something below `dir`, byte by byte.
pub open spec fn program_below(ops: Seq<SpecOp>, cx: Cx, dir: Seq<u8>) -> bool {
    exists|t: Seq<u8>| #[trigger] lang::matches(ops, cx, (dir + seq![0x2fu8]) + t)
}

/// The table of states and the automaton match the same paths, and go on below
/// the same directories.
pub proof fn law_table_agrees_with_automaton(table: ThompsonDfa, vm: PikeVm, path: Seq<u8>)
    requires
        table.spec_ops() == vm.spec_ops(),
        table.spec_ci() == vm.spec_ci(),
        table.spec_dot() == vm.spec_dot(),
        table.spec_seps() == vm.spec_seps(),
    ensures
        table.matches(path) == vm.matches(path),
        table.below(path) == vm.below(path),
{
    let pre = path + seq![0x2fu8];
    let n = path.len() as int;
    assert(table.cx(n) == vm.cx(n));
    if table.below(path) {
        let t = choose|t: Seq<u8>| #[trigger]
            lang::matches(table.spec_ops(), table.cx(n), (path + seq![0x2fu8]) + t);
        assert(lang::matches(vm.spec_ops(), vm.cx(n), pre + t));
    }
    if vm.below(path) {
        let t = choose|t: Seq<u8>| #[trigger]
            lang::matches(vm.spec_ops(), vm.cx(n), (path + seq![0x2fu8]) + t);
        assert(lang::matches(table.spec_ops(), table.cx(n), pre + t));
    }
}

/// The automaton runs the program of the compiled pattern.
pub open spec fn runs(vm: PikeVm, g: SpecGlob) -> bool {
    &&& vm.spec_ops() == g.program()
    &&& vm.spec_ci() == g.case_insensitive
    &&& vm.spec_dot() == g.dot
    &&& vm.spec_seps() == g.seps
}

/// Whichever engine a compiled pattern is matched with, it matches what the
/// automaton matches.
pub proof fn law_compiled_agrees_with_automaton(
    text: Seq<char>,
    opts: CompileOptions,
    seps: Seps,
    g: SpecGlob,
    vm: PikeVm,
    path: Seq<u8>,
)
    requires
        glob::compiled(text, opts, seps) == Ok::<SpecGlob, GlobError>(g),
        runs(vm, g),
        unions::told_apart(g.body, g.seps, path),
    ensures
        g.matches(path) == (vm.matches(path) != g.negated),
{
    openings::lemma_parsed_fair(glob::text_bytes(text));
    let plain = SpecGlob { negated: false, ..g };
    law_negation_flips(plain, path);
    unions::lemma_glob_program(plain, path);
    assert(plain.cx(path.len() as int) == vm.cx(path.len() as int));
}

/// Its verdicts on directories agree too, literals included. Only a pattern
/// that is nothing but an even number of `!` is left out, on the empty path.
pub proof fn law_compiled_verdict_agrees_with_automaton(
    text: Seq<char>,
    opts: CompileOptions,
    seps: Seps,
    g: SpecGlob,
    vm: PikeVm,
    dir: Seq<u8>,
)
    requires
        glob::compiled(text, opts, seps) == Ok::<SpecGlob, GlobError>(g),
        runs(vm, g),
        unions::told_apart(g.body, g.seps, dir),
        dir.len() > 0 || g.negated || !ast::pure_literal(g.body) || g.literal().len() > 0,
    ensures
        g.verdict(dir) == DirMatch::verdict(
            vm.matches(dir) != g.negated,
            g.negated || dir.len() == 0 || vm.below(dir),
        ),
{
    let n = dir.len() as int;
    law_compiled_agrees_with_automaton(text, opts, seps, g, vm, dir);
    openings::lemma_parsed_fair(glob::text_bytes(text));
    if !g.negated && n > 0 {
        unions::lemma_below_program(g, dir);
        assert(g.cx(n) == vm.cx(n));
        let pre = dir + seq![0x2fu8];
        if unions::leads_below(g, dir) {
            let t = choose|t: Seq<u8>| #[trigger] lang::matches(g.program(), g.cx(n), pre + t);
            assert(lang::matches(vm.spec_ops(), vm.cx(n), pre + t));
        }
        if vm.below(dir) {
            let t = choose|t: Seq<u8>| #[trigger]
                lang::matches(vm.spec_ops(), vm.cx(n), (dir + seq![0x2fu8]) + t);
            assert(lang::matches(g.program(), g.cx(n), pre + t));
        }
    }
}

/// What matches the program of a parsed pattern segment by segment matches the
/// same paths as the automaton, and goes on below the same directories.
pub proof fn law_segments_agree_with_automaton(
    text: Seq<u8>,
    m: SegmentMatcher,
    vm: PikeVm,
    path: Seq<u8>,
)
    requires
        parser::parsed(text) is Ok,
        m.spec_ops() == lower::lowered((parser::parsed(text)->Ok_0).1, m.spec_ci()),
        compile::expressible(m.spec_ops(), m.spec_seps(), m.spec_ci()),
        vm.spec_ops() == m.spec_ops(),
        vm.spec_ci() == m.spec_ci(),
        vm.spec_dot() == m.spec_dot(),
        vm.spec_seps() == m.spec_seps(),
    ensures
        m.matches(path) == vm.matches(path),
        m.below(path) == vm.below(path),
{
    let ops = m.spec_ops();
    let n = path.len() as int;
    let pre = path + seq![0x2fu8];
    openings::lemma_parsed_fair(text);
    openings::lemma_fair_sure((parser::parsed(text)->Ok_0).1, m.spec_ci());
    starts::lemma_sure_not_bare(ops);
    assert(m.cx(n) == vm.cx(n));
    exec::law_forks_match_program(ops, m.cx(n), path);
    if m.below(path) {
        let t = choose|t: Seq<u8>| #[trigger]
            exec::fork_matches(m.spec_ops(), m.cx(n), (path + seq![0x2fu8]) + t);
        exec::law_forks_match_program(ops, m.cx(n), pre + t);
        assert(lang::matches(vm.spec_ops(), vm.cx(n), pre + t));
    }
    if vm.below(path) {
        let t = choose|t: Seq<u8>| #[trigger]
            lang::matches(vm.spec_ops(), vm.cx(n), (path + seq![0x2fu8]) + t);
        exec::law_forks_match_program(ops, m.cx(n), pre + t);
        assert(exec::fork_matches(m.spec_ops(), m.cx(n), pre + t));
    }
}

/// Two `!` in front of a pattern cancel out, and one turns every answer round.
pub proof fn law_negation_flips(g: SpecGlob, path: Seq<u8>)
    ensures
        (SpecGlob { negated: !g.negated, ..g }).matches(path) == !g.matches(path),
{
    let other = SpecGlob { negated: !g.negated, ..g };
    let n = path.len() as int;
    assert(other.agrees(path, n) == g.agrees(path, n));
    assert(other.program_matches(n, path) == g.program_matches(n, path));
}

/// Every matching path is one of the static prefixes or lies below one, up to
/// how separators and, where it is ignored, ASCII case are written. Where only
/// `/` stands between its segments and case counts, it starts with it byte for
/// byte.
pub proof fn law_matches_start_with_prefix(g: SpecGlob, out: Seq<Seq<u8>>, path: Seq<u8>)
    requires
        g.prefixes(out),
        g.matches(path),
    ensures
        prefixes::some_start(out, g.cx(0), path),
        !g.case_insensitive && prefixes::slashed(g.seps, path) ==> exists|m: int|
            0 <= m < out.len() && prefixes::at_or_below(#[trigger] out[m], path),
{
    let cx = g.cx(0);
    if g.negated {
        assert(prefixes::starts_like(cx, out[0], path));
    } else if ast::pure_literal(g.body) {
        lemma_literal_start(g, path);
        assert(prefixes::starts_like(cx, out[0], path));
    } else {
        lower::lemma_lowered(g.body, g.case_insensitive);
        lemma_program_start(g, out, path);
    }
    let x = choose|x: int| 0 <= x < out.len() && prefixes::starts_like(cx, #[trigger] out[x], path);
    if !g.case_insensitive && prefixes::slashed(g.seps, path) {
        prefixes::lemma_at_or_below(cx, out[x], path);
    }
}

proof fn lemma_literal_start(g: SpecGlob, path: Seq<u8>)
    requires
        ast::pure_literal(g.body),
        g.body_matches(path),
    ensures
        prefixes::starts_like(g.cx(0), prefixes::strip_slashes(g.literal()), path),
{
    let p = prefixes::strip_slashes(g.literal());
    prefixes::lemma_strip_prefix(g.literal());
    assert forall|k: int| 0 <= k < p.len() implies facts::suffix_byte(
        g.seps,
        g.case_insensitive,
        #[trigger] p[k],
        path[k],
    ) by {
        assert(g.literal().take(p.len() as int)[k] == g.literal()[k]);
        assert(literal::literal_byte(g.seps, g.case_insensitive, g.literal()[k], path[k]));
    }
    if p.len() < g.literal().len() {
        prefixes::lemma_strip_next(g.literal());
        let n = p.len() as int;
        assert(literal::literal_byte(g.seps, g.case_insensitive, g.literal()[n], path[n]));
    }
}

proof fn lemma_program_start(g: SpecGlob, out: Seq<Seq<u8>>, path: Seq<u8>)
    requires
        prefixes::tidy(g.program()),
        prefixes::static_prefixes(g.program(), out),
        g.program_matches(path.len() as int, path),
    ensures
        prefixes::some_start(out, g.cx(0), path),
{
    let ops = g.program();
    let n = path.len() as int;
    if !g.by_segment() || exec::no_bare_globstar(ops) {
        if g.by_segment() {
            exec::law_forks_match_program(ops, g.cx(n), path);
        }
        prefixes::law_matches_start_with_prefix(ops, out, g.cx(n), path);
        let m = choose|m: int|
            0 <= m < out.len() && prefixes::starts_like(g.cx(n), #[trigger] out[m], path);
        assert(prefixes::starts_like(g.cx(0), out[m], path));
    } else {
        let fs = forks::forks(ops)->0;
        let f = choose|f: int|
            0 <= f < fs.len() && (#[trigger] fs[f]).len() > 0 && fs[f][0] is OptSegmentsSlash;
        forks::lemma_bare_start(ops, f);
        let all = prefixes::branch_prefixes(ops);
        let m = choose|m: int| 0 <= m < all.len() && all[m] == Seq::<u8>::empty();
        assert(prefixes::starts_like(g.cx(0), all[m], path));
        prefixes::lemma_deduped_start(all, out, g.cx(0), path, m);
    }
}

} // verus!
