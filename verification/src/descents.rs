//! Which directories are descended into, told from the marks of a pattern.

use crate::choices;
use crate::engine::lang;
use crate::engine::ops::lower;
use crate::glob;
use crate::meaning;
use crate::notation::{self, Mark};
use crate::openings;
use crate::options::CompileOptions;
use crate::seps::Seps;
use crate::unions;
use vstd::prelude::*;

verus! {

/// A path below the directory.
pub open spec fn under(dir: Seq<u8>, t: Seq<u8>) -> Seq<u8> {
    (dir + seq![0x2fu8]) + t
}

/// The marks match some path below the directory, where a leading dot has to be
/// named in the directory, and behind it has not.
pub open spec fn reaches(
    ms: Seq<Mark>,
    opts: CompileOptions,
    seps: Seps,
    dir: Seq<u8>,
) -> bool {
    exists|t: Seq<u8>| #[trigger]
        meaning::meets(ms, meaning::manner(opts, dir.len() as int), seps, under(dir, t), 0)
}

/// The program matches some such path.
proof fn lemma_below(ms: Seq<Mark>, text: Seq<char>, opts: CompileOptions, seps: Seps, dir: Seq<u8>)
    requires
        notation::whole(ms),
        meaning::told(ms, seps),
        0 < notation::text(ms).len() <= 65536,
        glob::text_bytes(text) == notation::text(ms),
        dir.len() > 0,
    ensures
        glob::compiled(text, opts, seps) matches Ok(g) && g.verdict(dir).below() == exists|
            t: Seq<u8>,
        | #[trigger]
            lang::matches(
                lower::lowered(notation::tree(ms), opts.case_insensitive),
                meaning::sight(meaning::manner(opts, dir.len() as int), seps),
                under(dir, t),
            ),
{
    choices::lemma_unnegated(ms);
    notation::lemma_reads(0, ms);
    openings::lemma_parsed_fair(glob::text_bytes(text));
    meaning::lemma_told(ms, seps, dir);
    let g = glob::compiled(text, opts, seps)->Ok_0;
    unions::lemma_below_program(g, dir);
    let cx = meaning::sight(meaning::manner(opts, dir.len() as int), seps);
    assert(g.cx(dir.len() as int) == cx);
    assert(g.verdict(dir).below() == g.body_below(dir));
    if unions::leads_below(g, dir) {
        let t = choose|t: Seq<u8>| #[trigger]
            lang::matches(g.program(), cx, (dir + seq![0x2fu8]) + t);
        assert(lang::matches(g.program(), cx, under(dir, t)));
    }
    if exists|t: Seq<u8>| #[trigger] lang::matches(g.program(), cx, under(dir, t)) {
        let t = choose|t: Seq<u8>| #[trigger] lang::matches(g.program(), cx, under(dir, t));
        assert(lang::matches(g.program(), cx, (dir + seq![0x2fu8]) + t));
    }
}

/// A directory is descended into exactly when the pattern may match something
/// below it: its marks match some such path, with leading dots named in the
/// directory where they have to be.
///
/// No brace in the pattern holds a `**`.
pub proof fn law_directory_is_entered_where_marks_lead(
    ms: Seq<Mark>,
    text: Seq<char>,
    opts: CompileOptions,
    seps: Seps,
    dir: Seq<u8>,
)
    requires
        notation::whole(ms),
        meaning::shallow(ms, true),
        meaning::apart(ms),
        meaning::told(ms, seps),
        0 < notation::text(ms).len() <= 65536,
        glob::text_bytes(text) == notation::text(ms),
        dir.len() > 0,
    ensures
        glob::compiled(text, opts, seps) matches Ok(g) && g.verdict(dir).below() == reaches(
            ms,
            opts,
            seps,
            dir,
        ),
{
    let how = meaning::manner(opts, dir.len() as int);
    let cx = meaning::sight(how, seps);
    let program = lower::lowered(notation::tree(ms), opts.case_insensitive);
    lemma_below(ms, text, opts, seps, dir);
    assert forall|t: Seq<u8>|
        #![trigger lang::matches(program, cx, under(dir, t))]
        #![trigger meaning::meets(ms, how, seps, under(dir, t), 0)]
        lang::matches(program, cx, under(dir, t)) == meaning::meets(
        ms,
        how,
        seps,
        under(dir, t),
        0,
    ) by {
        meaning::lemma_program_meets(ms, how, seps, under(dir, t));
    }
    if reaches(ms, opts, seps, dir) {
        let t = choose|t: Seq<u8>| #[trigger] meaning::meets(ms, how, seps, under(dir, t), 0);
        assert(lang::matches(program, cx, under(dir, t)));
    }
    if exists|t: Seq<u8>| #[trigger] lang::matches(program, cx, under(dir, t)) {
        let t = choose|t: Seq<u8>| #[trigger] lang::matches(program, cx, under(dir, t));
        assert(meaning::meets(ms, how, seps, under(dir, t), 0));
    }
}

/// Some branch in place of the brace matches some path below the directory.
pub open spec fn some_reaches(
    a: Seq<Mark>,
    bs: Seq<Seq<Mark>>,
    z: Seq<Mark>,
    opts: CompileOptions,
    seps: Seps,
    dir: Seq<u8>,
) -> bool {
    exists|i: int|
        0 <= i < bs.len() && reaches(choices::through(a, #[trigger] bs[i], z), opts, seps, dir)
}

/// A directory is descended into for a brace exactly when it would be for one
/// of its branches in its place. The branches may start or end with `**` where
/// a segment does; other braces, before it, behind it and in its branches, hold
/// none.
pub proof fn law_directory_is_entered_where_a_branch_leads(
    a: Seq<Mark>,
    bs: Seq<Seq<Mark>>,
    z: Seq<Mark>,
    text: Seq<char>,
    opts: CompileOptions,
    seps: Seps,
    dir: Seq<u8>,
)
    requires
        choices::mild(a),
        choices::all_mild(bs),
        choices::mild(z),
        notation::whole(choices::around(a, bs, z)),
        choices::each_apart(a, bs, z),
        z.len() > 0 ==> !(z[0] is Deep),
        meaning::told(choices::around(a, bs, z), seps),
        0 < notation::text(choices::around(a, bs, z)).len() <= 65536,
        glob::text_bytes(text) == notation::text(choices::around(a, bs, z)),
        dir.len() > 0,
    ensures
        glob::compiled(text, opts, seps) matches Ok(g) && g.verdict(dir).below() == some_reaches(
            a,
            bs,
            z,
            opts,
            seps,
            dir,
        ),
{
    let ms = choices::around(a, bs, z);
    let how = meaning::manner(opts, dir.len() as int);
    let cx = meaning::sight(how, seps);
    let program = lower::lowered(notation::tree(ms), opts.case_insensitive);
    lemma_below(ms, text, opts, seps, dir);
    assert(ms[a.len() as int] == Mark::Either(bs));
    choices::lemma_brace_well(ms, true, true, false, a.len() as int);
    if a.len() > 0 && a.last() is Deep {
        assert(ms[a.len() - 1] is Deep);
        choices::lemma_deep_next(ms, true, true, false, a.len() - 1);
    }
    if exists|t: Seq<u8>| #[trigger] lang::matches(program, cx, under(dir, t)) {
        let t = choose|t: Seq<u8>| #[trigger] lang::matches(program, cx, under(dir, t));
        choices::lemma_choice(a, bs, z, how, seps, under(dir, t));
        let i = choose|i: int|
            0 <= i < bs.len() && meaning::meets(
                choices::through(a, #[trigger] bs[i], z),
                how,
                seps,
                under(dir, t),
                0,
            );
        assert(reaches(choices::through(a, bs[i], z), opts, seps, dir));
    }
    if some_reaches(a, bs, z, opts, seps, dir) {
        let i = choose|i: int|
            0 <= i < bs.len() && reaches(choices::through(a, #[trigger] bs[i], z), opts, seps, dir);
        let t = choose|t: Seq<u8>| #[trigger]
            meaning::meets(choices::through(a, bs[i], z), how, seps, under(dir, t), 0);
        choices::lemma_choice(a, bs, z, how, seps, under(dir, t));
        assert(lang::matches(program, cx, under(dir, t)));
    }
}

/// A pattern with an odd number of `!` may match anywhere: every directory is
/// descended into, and its static prefix is empty.
pub proof fn law_negated_pattern_leads_everywhere(
    n: nat,
    ms: Seq<Mark>,
    text: Seq<char>,
    opts: CompileOptions,
    seps: Seps,
    dir: Seq<u8>,
    out: Seq<Seq<u8>>,
)
    requires
        n % 2 == 1,
        notation::whole(ms),
        n + notation::text(ms).len() <= 65536,
        glob::text_bytes(text) == notation::exclamations(n) + notation::text(ms),
    ensures
        glob::compiled(text, opts, seps) matches Ok(g) && g.verdict(dir).below() && (g.prefixes(out)
            <==> out == seq![Seq::<u8>::empty()]),
{
    notation::lemma_reads(n, ms);
}

} // verus!
