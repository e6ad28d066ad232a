//! What simple texts match, byte by byte: escaped text, plain text, one class,
//! and a directory with all that is below it.

use crate::ast;
use crate::case_folding;
use crate::choices;
use crate::glob::{self, Glob};
use crate::meaning::{self, Manner};
use crate::notation::{self, Bracket, Mark};
use crate::options::CompileOptions;
use crate::seps::Seps;
use vstd::prelude::*;

verus! {

// Marks that stand for one byte.

/// The marks each stand for one byte.
pub open spec fn single(w: Seq<Mark>) -> bool {
    forall|k: int|
        0 <= k < w.len() ==> #[trigger] w[k] is Byte || w[k] is Escaped || w[k] is Slash
            || w[k] is One || w[k] is Class
}

/// They match the bytes from `i` on, one by one.
pub open spec fn each_takes(
    w: Seq<Mark>,
    how: Manner,
    seps: Seps,
    path: Seq<u8>,
    i: int,
) -> bool {
    i + w.len() <= path.len() && forall|k: int|
        0 <= k < w.len() ==> meaning::takes(#[trigger] w[k], how, seps, path, i + k, i + k + 1)
}

#[verifier::rlimit(40)]
proof fn lemma_fits_single(
    w: Seq<Mark>,
    rest: Seq<Mark>,
    how: Manner,
    seps: Seps,
    path: Seq<u8>,
    i: int,
)
    requires
        single(w),
        0 <= i,
    ensures
        meaning::fits(w + rest, how, seps, path, i) <==> each_takes(w, how, seps, path, i)
            && meaning::fits(rest, how, seps, path, i + w.len()) || (w.len() == 0
            && meaning::fits(rest, how, seps, path, i)),
    decreases w.len(),
{
    let all = w + rest;
    if w.len() == 0 {
        assert(all =~= rest);
    } else {
        let less = w.drop_first();
        assert(all.drop_first() =~= less + rest);
        assert(all[0] == w[0]);
        assert(single(less)) by {
            assert forall|k: int| 0 <= k < less.len() implies #[trigger] less[k] is Byte
                || less[k] is Escaped || less[k] is Slash || less[k] is One || less[k] is Class by {
                assert(less[k] == w[k + 1]);
            }
        }
        lemma_fits_single(less, rest, how, seps, path, i + 1);
        if meaning::fits(all, how, seps, path, i) {
            let j = choose|j: int| #[trigger]
                meaning::takes(all[0], how, seps, path, i, j) && meaning::fits(
                    all.drop_first(),
                    how,
                    seps,
                    path,
                    j,
                );
            assert(j == i + 1);
            assert forall|k: int| 0 <= k < w.len() implies meaning::takes(
                #[trigger] w[k],
                how,
                seps,
                path,
                i + k,
                i + k + 1,
            ) by {
                if k > 0 {
                    assert(w[k] == less[k - 1]);
                    assert(meaning::takes(
                        less[k - 1],
                        how,
                        seps,
                        path,
                        i + 1 + (k - 1),
                        i + 1 + (k - 1) + 1,
                    ));
                }
            }
        }
        if each_takes(w, how, seps, path, i) && meaning::fits(
            rest,
            how,
            seps,
            path,
            i + w.len(),
        ) {
            assert(meaning::takes(w[0], how, seps, path, i + 0, i + 0 + 1));
            assert forall|k: int| 0 <= k < less.len() implies meaning::takes(
                #[trigger] less[k],
                how,
                seps,
                path,
                i + 1 + k,
                i + 1 + k + 1,
            ) by {
                assert(less[k] == w[k + 1]);
                assert(meaning::takes(w[k + 1], how, seps, path, i + (k + 1), i + (k + 1) + 1));
            }
            assert(meaning::takes(all[0], how, seps, path, i, i + 1));
        }
    }
}

// Escaped text.

/// A backslash before each byte.
pub open spec fn escaped(s: Seq<u8>) -> Seq<u8> {
    Seq::new(
        2 * s.len(),
        |i: int|
            if i % 2 == 0 {
                0x5cu8
            } else {
                s[i / 2]
            },
    )
}

pub open spec fn escapes(s: Seq<u8>) -> Seq<Mark> {
    Seq::new(s.len(), |i: int| Mark::Escaped(s[i]))
}

/// The bytes are those of the path, up to case where it is ignored.
pub open spec fn spells(s: Seq<u8>, how: Manner, path: Seq<u8>) -> bool {
    path.len() == s.len() && forall|k: int|
        0 <= k < s.len() ==> meaning::same(how, #[trigger] s[k], path[k])
}

proof fn lemma_escaped_text(s: Seq<u8>)
    ensures
        notation::text(escapes(s)) == escaped(s),
    decreases s.len(),
{
    let ms = escapes(s);
    if s.len() > 0 {
        let rest = s.drop_first();
        lemma_escaped_text(rest);
        assert(ms.drop_first() =~= escapes(rest));
        assert(notation::mark_text(ms[0]) =~= seq![0x5cu8, s[0]]);
        let t = notation::mark_text(ms[0]) + escaped(rest);
        assert(t =~= escaped(s)) by {
            assert forall|i: int| 0 <= i < t.len() implies t[i] == #[trigger] escaped(s)[i] by {
                if i >= 2 {
                    assert(escaped(rest)[i - 2] == t[i]);
                    assert((i - 2) % 2 == i % 2);
                    assert((i - 2) / 2 == i / 2 - 1);
                }
            }
        }
    } else {
        assert(notation::text(ms) =~= escaped(s));
    }
}

proof fn lemma_escapes_well(s: Seq<u8>, fresh: bool)
    ensures
        notation::well(escapes(s), fresh, true, false),
    decreases s.len(),
{
    if s.len() > 0 {
        let rest = s.drop_first();
        assert(escapes(s).drop_first() =~= escapes(rest));
        lemma_escapes_well(rest, false);
        assert(notation::well_mark(
            escapes(s)[0],
            fresh,
            notation::ends(escapes(rest), true),
            false,
        ));
    }
}

/// Behind a backslash every byte stands for itself: text with a backslash
/// before each byte compiles, and matches exactly that text.
///
/// Where a backslash separates segments too, the text holds no `/`.
#[verifier::rlimit(40)]
pub proof fn law_escaped_text_matches_itself(
    s: Seq<u8>,
    text: Seq<char>,
    opts: CompileOptions,
    seps: Seps,
    path: Seq<u8>,
)
    requires
        0 < 2 * s.len() <= 65536,
        seps.backslash ==> !s.contains(0x2fu8),
        glob::text_bytes(text) == escaped(s),
    ensures
        glob::compiled(text, opts, seps) matches Ok(g) && g.matches(path) == spells(
            s,
            meaning::wholly(opts, path),
            path,
        ),
        !opts.case_insensitive ==> (spells(s, meaning::wholly(opts, path), path) <==> path == s),
{
    let ms = escapes(s);
    let none = Seq::<Mark>::empty();
    lemma_escaped_text(s);
    lemma_escapes_well(s, true);
    assert(notation::within(ms, 32)) by {
        assert forall|i: int| 0 <= i < ms.len() implies notation::mark_within(
            #[trigger] ms[i],
            32,
        ) by {}
    }
    assert(choices::flat(ms));
    assert(meaning::shallow(ms, true));
    assert(meaning::apart(ms)) by {
        assert forall|k: int| #[trigger] meaning::apart_at(ms, k) by {}
    }
    assert(meaning::told(ms, seps)) by {
        if seps.backslash {
            assert forall|k: int| 0 <= k < ms.len() implies #[trigger] ms[k] != Mark::Escaped(
                0x2f,
            ) && ms[k] != Mark::Byte(0x2f) by {
                assert(s.contains(s[k]));
            }
        }
    }
    choices::lemma_unnegated(ms);
    meaning::law_pattern_matches_what_its_marks_say(0, ms, text, opts, seps, path);
    choices::lemma_meets_flat(ms, meaning::wholly(opts, path), seps, path);
    lemma_fits_single(ms, none, meaning::wholly(opts, path), seps, path, 0);
    assert(ms + none =~= ms);
    if spells(s, meaning::wholly(opts, path), path) {
        assert forall|k: int| 0 <= k < ms.len() implies meaning::takes(
            #[trigger] ms[k],
            meaning::wholly(opts, path),
            seps,
            path,
            0 + k,
            0 + k + 1,
        ) by {
            assert(meaning::same(meaning::wholly(opts, path), s[k], path[k]));
        }
        if !opts.case_insensitive {
            assert forall|k: int| 0 <= k < s.len() implies s[k] == #[trigger] path[k] by {
                assert(meaning::same(meaning::wholly(opts, path), s[k], path[k]));
            }
            assert(path =~= s);
        }
    }
    if each_takes(ms, meaning::wholly(opts, path), seps, path, 0) && path.len() == s.len() {
        assert forall|k: int| 0 <= k < s.len() implies meaning::same(
            meaning::wholly(opts, path),
            #[trigger] s[k],
            path[k],
        ) by {
            assert(meaning::takes(
                ms[k],
                meaning::wholly(opts, path),
                seps,
                path,
                0 + k,
                0 + k + 1,
            ));
        }
    }
}

// One class.

/// A class accepts a byte that is no separator exactly when the byte is one of
/// its members or is spanned by one, and where the class is negated exactly when
/// it is neither. On its own it matches paths of one byte alone.
pub proof fn law_class_accepts_its_members(
    c: Bracket,
    text: Seq<char>,
    opts: CompileOptions,
    seps: Seps,
    path: Seq<u8>,
)
    requires
        notation::well_bracket(c),
        notation::bracket_text(c).len() <= 65536,
        glob::text_bytes(text) == notation::bracket_text(c),
    ensures
        glob::compiled(text, opts, seps) matches Ok(g) && g.matches(path) == (path.len() == 1
            && !meaning::divides(seps, path[0]) && (meaning::named(
            c,
            meaning::wholly(opts, path),
            path[0],
        ) != (c.negation.len() > 0)) && !(c.negation.len() > 0 && !opts.dot && path[0] == 0x2e)),
{
    let m = Mark::Class(c);
    let ms = seq![m];
    lemma_one_class(c);
    choices::lemma_unnegated(ms);
    meaning::law_pattern_matches_what_its_marks_say(0, ms, text, opts, seps, path);
    choices::lemma_meets_flat(ms, meaning::wholly(opts, path), seps, path);
    lemma_fits_one(m, meaning::wholly(opts, path), seps, path);
}

/// A class alone is a pattern.
proof fn lemma_one_class(c: Bracket)
    requires
        notation::well_bracket(c),
    ensures
        notation::text(seq![Mark::Class(c)]) == notation::bracket_text(c),
        notation::bracket_text(c).len() > 0,
        notation::whole(seq![Mark::Class(c)]),
        choices::flat(seq![Mark::Class(c)]),
        meaning::shallow(seq![Mark::Class(c)], true),
        meaning::apart(seq![Mark::Class(c)]),
        meaning::no_slash_byte(seq![Mark::Class(c)]),
{
    let m = Mark::Class(c);
    let ms = seq![m];
    let none = Seq::<Mark>::empty();
    assert(ms.drop_first() =~= none);
    assert(notation::text(none) =~= seq![]);
    assert(notation::mark_text(m) == notation::bracket_text(c));
    assert(notation::text(ms) =~= notation::bracket_text(c));
    assert(notation::inside_text(c).len() > 0);
    assert(notation::well_mark(m, true, true, false));
    assert(notation::well(none, false, true, false));
    assert(notation::well(ms, true, true, false));
    assert(notation::within(ms, 32)) by {
        assert(notation::mark_within(m, 32));
    }
    assert(meaning::shallow_mark(m, true));
    assert(meaning::apart(ms)) by {
        assert forall|k: int| #[trigger] meaning::apart_at(ms, k) by {}
    }
}

/// A mark that stands for one byte matches a path of that byte.
proof fn lemma_fits_one(m: Mark, how: Manner, seps: Seps, path: Seq<u8>)
    requires
        m is Class,
    ensures
        meaning::fits(seq![m], how, seps, path, 0) == (path.len() == 1 && meaning::takes(
            m,
            how,
            seps,
            path,
            0,
            1,
        )),
{
    let ms = seq![m];
    let none = Seq::<Mark>::empty();
    assert(ms.drop_first() =~= none);
    assert(meaning::fits(none, how, seps, path, 1) == (path.len() == 1));
    if meaning::fits(ms, how, seps, path, 0) {
        let j = choose|j: int| #[trigger]
            meaning::takes(ms[0], how, seps, path, 0, j) && meaning::fits(
                ms.drop_first(),
                how,
                seps,
                path,
                j,
            );
        assert(j == 1);
    }
    if path.len() == 1 && meaning::takes(m, how, seps, path, 0, 1) {
        assert(meaning::takes(ms[0], how, seps, path, 0, 1));
    }
}

// Letters.

/// The letters `A` to `Z` and `a` to `z` are the same up to case where one is
/// the other by the same distance. Every other byte is the same as itself
/// alone.
pub proof fn law_letters_pair_up(a: u8, b: u8)
    ensures
        ast::same_byte(true, a, b) <==> a == b || (0x41 <= a <= 0x5a && b == a + 0x20) || (0x41
            <= b <= 0x5a && a == b + 0x20),
        ast::same_byte(false, a, b) <==> a == b,
        0x41 <= a <= 0x5a ==> ast::case_alt(a) == a + 0x20,
        0x61 <= a <= 0x7a ==> ast::case_alt(a) == a - 0x20,
        !(0x41 <= a <= 0x5a) && !(0x61 <= a <= 0x7a) ==> ast::case_alt(a) == a,
{
    if 0x41 <= b <= 0x5a {
        assert(ast::case_alt(b) == b + 0x20);
    } else if 0x61 <= b <= 0x7a {
        assert(ast::case_alt(b) == b - 0x20);
    }
}

/// A pattern that ignores case gives two paths the same answer where they
/// differ in nothing but letters that are each other's other case.
pub proof fn law_other_case_makes_no_difference(g: Glob, s: Seq<u8>, t: Seq<u8>)
    requires
        g.wf(),
        g@.case_insensitive,
        s.len() == t.len(),
        forall|k: int|
            0 <= k < s.len() ==> #[trigger] s[k] == t[k] || meaning::other_case(s[k], t[k]),
    ensures
        g@.matches(s) == g@.matches(t),
        g@.verdict(s) == g@.verdict(t),
{
    assert forall|k: int|
        #![trigger s[k]]
        #![trigger t[k]]
        0 <= k < s.len() implies ast::same_byte(true, s[k], t[k]) by {
        law_letters_pair_up(s[k], t[k]);
    }
    case_folding::law_case_is_ignored(g, s, t);
}

// Plain text.

/// The marks of plain text: slashes, and bytes that stand for themselves.
pub open spec fn plain(s: Seq<u8>) -> Seq<Mark> {
    Seq::new(
        s.len(),
        |i: int|
            if s[i] == 0x2f {
                Mark::Slash
            } else {
                Mark::Byte(s[i])
            },
    )
}

/// No byte has a meaning of its own, but for slashes.
pub open spec fn unspecial(s: Seq<u8>, inside: bool) -> bool {
    forall|k: int| 0 <= k < s.len() ==> #[trigger] s[k] == 0x2f || !notation::special(s[k], inside)
}

/// The path goes on at `i` with the text.
pub open spec fn follows(
    s: Seq<u8>,
    how: Manner,
    seps: Seps,
    path: Seq<u8>,
    i: int,
) -> bool {
    i + s.len() <= path.len() && forall|k: int|
        0 <= k < s.len() ==> if #[trigger] s[k] == 0x2f {
            meaning::divides(seps, path[i + k])
        } else {
            meaning::same(how, s[k], path[i + k])
        }
}

proof fn lemma_plain_takes(
    s: Seq<u8>,
    how: Manner,
    seps: Seps,
    path: Seq<u8>,
    i: int,
)
    requires
        0 <= i,
    ensures
        each_takes(plain(s), how, seps, path, i) == follows(s, how, seps, path, i),
{
    let w = plain(s);
    if each_takes(w, how, seps, path, i) {
        assert forall|k: int| 0 <= k < s.len() implies if #[trigger] s[k] == 0x2f {
            meaning::divides(seps, path[i + k])
        } else {
            meaning::same(how, s[k], path[i + k])
        } by {
            assert(meaning::takes(w[k], how, seps, path, i + k, i + k + 1));
        }
    }
    if follows(s, how, seps, path, i) {
        assert forall|k: int| 0 <= k < w.len() implies meaning::takes(
            #[trigger] w[k],
            how,
            seps,
            path,
            i + k,
            i + k + 1,
        ) by {
            assert(s[k] == s[k]);
        }
    }
}

proof fn lemma_plain_text(s: Seq<u8>)
    ensures
        notation::text(plain(s)) == s,
    decreases s.len(),
{
    if s.len() > 0 {
        let rest = s.drop_first();
        lemma_plain_text(rest);
        assert(plain(s).drop_first() =~= plain(rest));
        assert(notation::mark_text(plain(s)[0]) =~= seq![s[0]]);
        assert(notation::text(plain(s)) =~= s);
    } else {
        assert(notation::text(plain(s)) =~= s);
    }
}

proof fn lemma_plain_well(s: Seq<u8>, tail: Seq<Mark>, fresh: bool, next: bool, inside: bool)
    requires
        unspecial(s, inside),
        notation::well(tail, true, next, inside),
        notation::well(tail, false, next, inside),
    ensures
        notation::well(plain(s) + tail, fresh, next, inside),
    decreases s.len(),
{
    let ms = plain(s) + tail;
    if s.len() == 0 {
        assert(ms =~= tail);
    } else {
        let rest = s.drop_first();
        assert(unspecial(rest, inside)) by {
            assert forall|k: int| 0 <= k < rest.len() implies #[trigger] rest[k] == 0x2f
                || !notation::special(rest[k], inside) by {
                assert(rest[k] == s[k + 1]);
            }
        }
        lemma_plain_well(rest, tail, notation::shut(ms[0]), next, inside);
        assert(ms.drop_first() =~= plain(rest) + tail);
        assert(s[0] == 0x2f || !notation::special(s[0], inside));
        assert(notation::well_mark(
            ms[0],
            fresh,
            notation::ends(ms.drop_first(), next),
            inside,
        ));
    }
}

/// The marks of a directory with all that is below it.
pub open spec fn below(d: Seq<u8>) -> Seq<Mark> {
    plain(d) + seq![Mark::Slash, Mark::Deep]
}

/// The path is in the directory `d`: a separator follows `d`, and behind it no
/// segment starts with a `.` that has to be named.
pub open spec fn is_below(d: Seq<u8>, how: Manner, seps: Seps, path: Seq<u8>) -> bool {
    follows(d, how, seps, path, 0) && d.len() < path.len() && meaning::divides(
        seps,
        path[d.len() as int],
    ) && meaning::undotted(how, seps, path, d.len() as int + 1, path.len() as int)
}

proof fn lemma_fits_below(d: Seq<u8>, how: Manner, seps: Seps, path: Seq<u8>)
    ensures
        meaning::fits(below(d), how, seps, path, 0) == is_below(d, how, seps, path),
{
    let tail = seq![Mark::Slash, Mark::Deep];
    let last = seq![Mark::Deep];
    let n = d.len() as int;
    lemma_fits_single(plain(d), tail, how, seps, path, 0);
    lemma_plain_takes(d, how, seps, path, 0);
    assert(tail.drop_first() =~= last);
    assert(meaning::fits(last, how, seps, path, n + 1) == meaning::undotted(
        how,
        seps,
        path,
        n + 1,
        path.len() as int,
    ));
    if meaning::fits(tail, how, seps, path, n) {
        let j = choose|j: int| #[trigger]
            meaning::takes(tail[0], how, seps, path, n, j) && meaning::fits(
                tail.drop_first(),
                how,
                seps,
                path,
                j,
            );
        assert(j == n + 1);
    }
    if n < path.len() && meaning::divides(seps, path[n]) && meaning::undotted(
        how,
        seps,
        path,
        n + 1,
        path.len() as int,
    ) {
        assert(meaning::takes(tail[0], how, seps, path, n, n + 1));
        assert(meaning::fits(tail, how, seps, path, n));
    }
}

proof fn lemma_below_text(d: Seq<u8>)
    ensures
        notation::text(below(d)) == d + seq![0x2fu8, 0x2au8, 0x2au8],
    decreases d.len(),
{
    let tail = seq![Mark::Slash, Mark::Deep];
    if d.len() == 0 {
        assert(below(d) =~= tail);
        assert(tail.drop_first() =~= seq![Mark::Deep]);
        assert(seq![Mark::Deep].drop_first() =~= seq![]);
        assert(notation::text(Seq::<Mark>::empty()) =~= seq![]);
        assert(notation::mark_text(Mark::Deep) =~= seq![0x2au8, 0x2au8]);
        assert(notation::mark_text(Mark::Slash) =~= seq![0x2fu8]);
        assert(notation::text(seq![Mark::Deep]) =~= seq![0x2au8, 0x2au8]);
        assert(notation::text(tail) =~= d + seq![0x2fu8, 0x2au8, 0x2au8]);
    } else {
        let rest = d.drop_first();
        lemma_below_text(rest);
        assert(below(d).drop_first() =~= below(rest));
        assert(below(d)[0] == plain(d)[0]);
        assert(notation::mark_text(plain(d)[0]) =~= seq![d[0]]);
        assert(notation::text(below(d)) =~= d + seq![0x2fu8, 0x2au8, 0x2au8]);
    }
}

/// A brace of two plain branches, the second one a directory with all that is
/// below it, matches the first branch and every path below the directory, and
/// nothing else.
#[verifier::rlimit(40)]
pub proof fn law_brace_reaches_below_a_directory(
    r: Seq<u8>,
    d: Seq<u8>,
    text: Seq<char>,
    opts: CompileOptions,
    seps: Seps,
    path: Seq<u8>,
)
    requires
        unspecial(r, true),
        unspecial(d, true),
        r.len() + d.len() + 6 <= 65536,
        glob::text_bytes(text) == seq![0x7bu8] + (r + seq![0x2cu8] + d + seq![
            0x2fu8,
            0x2au8,
            0x2au8,
            0x7du8,
        ]),
    ensures
        glob::compiled(text, opts, seps) matches Ok(g) && g.matches(path) == ((path.len() == r.len()
            && follows(r, meaning::wholly(opts, path), seps, path, 0)) || is_below(
            d,
            meaning::wholly(opts, path),
            seps,
            path,
        )),
{
    let none = Seq::<Mark>::empty();
    let x = plain(r);
    let y = below(d);
    let bs = seq![x, y];
    let ms = choices::around(none, bs, none);
    let e = Mark::Either(bs);
    let tail = seq![Mark::Slash, Mark::Deep];
    let last = seq![Mark::Deep];
    assert(ms =~= seq![e]);
    // The text.
    lemma_plain_text(r);
    lemma_below_text(d);
    assert(bs.drop_first() =~= seq![y]);
    assert(notation::branches_text(seq![y]) =~= d + seq![0x2fu8, 0x2au8, 0x2au8] + seq![0x7du8]);
    assert(notation::branches_text(bs) =~= r + (seq![0x2cu8] + (d + seq![
        0x2fu8,
        0x2au8,
        0x2au8,
    ] + seq![0x7du8])));
    assert(ms.drop_first() =~= none);
    assert(notation::text(none) =~= seq![]);
    assert(notation::mark_text(e) == seq![0x7bu8] + notation::branches_text(bs));
    assert(notation::text(ms) =~= glob::text_bytes(text));
    // What is well written.
    assert(tail.drop_first() =~= last);
    assert(last.drop_first() =~= none);
    assert(notation::well(none, false, true, true));
    assert(notation::well(none, true, true, true));
    assert(notation::well_mark(Mark::Deep, true, true, true));
    assert(notation::well(last, true, true, true));
    assert(notation::well_mark(Mark::Slash, true, false, true));
    assert(notation::well_mark(Mark::Slash, false, false, true));
    assert(notation::shut(Mark::Slash));
    assert(notation::well(tail, true, true, true));
    assert(notation::well(tail, false, true, true));
    lemma_plain_well(d, tail, true, true, true);
    lemma_plain_well(r, none, true, true, true);
    assert(x + none =~= x);
    assert(notation::all_well(bs, true, true));
    assert(notation::well_mark(e, true, true, false));
    assert(notation::well(none, notation::shut(e), true, false));
    assert(notation::well(ms, true, true, false));
    assert(choices::flat(x));
    assert(choices::flat(y)) by {
        assert forall|k: int| 0 <= k < y.len() implies !(#[trigger] y[k] is Either)
            && meaning::shallow_mark(y[k], true) by {
            if k < d.len() {
                assert(y[k] == plain(d)[k]);
            }
        }
    }
    assert(notation::within(ms, 32)) by {
        lemma_flat_within(x, 31);
        lemma_flat_within(y, 31);
        assert(notation::all_within(bs, 31));
        assert(notation::mark_within(e, 32));
    }
    assert(choices::each_apart(none, bs, none)) by {
        assert forall|i: int| 0 <= i < bs.len() implies meaning::apart(
            choices::through(none, #[trigger] bs[i], none),
        ) by {
            let w = choices::through(none, bs[i], none);
            assert(w =~= bs[i]);
            assert forall|k: int| #[trigger] meaning::apart_at(w, k) by {
                if i == 1 && 0 <= k < d.len() {
                    assert(w[k] == plain(d)[k]);
                } else if i == 1 && k == d.len() + 1 {
                    assert(w[k - 1] is Slash);
                }
            }
        }
    }
    assert(choices::all_mild(bs)) by {
        assert(choices::mild(x) && choices::mild(y));
    }
    choices::lemma_unnegated(ms);
    choices::law_brace_matches_what_its_branches_say(
        0,
        none,
        bs,
        none,
        text,
        opts,
        seps,
        path,
    );
    assert(choices::through(none, bs[0], none) =~= x);
    assert(choices::through(none, bs[1], none) =~= y);
    choices::lemma_meets_flat(x, meaning::wholly(opts, path), seps, path);
    choices::lemma_meets_flat(y, meaning::wholly(opts, path), seps, path);
    lemma_fits_below(d, meaning::wholly(opts, path), seps, path);
    lemma_fits_single(x, none, meaning::wholly(opts, path), seps, path, 0);
    lemma_plain_takes(r, meaning::wholly(opts, path), seps, path, 0);
}

proof fn lemma_flat_within(ms: Seq<Mark>, depth: int)
    requires
        choices::flat(ms),
    ensures
        notation::within(ms, depth),
{
    assert forall|i: int| 0 <= i < ms.len() implies notation::mark_within(
        #[trigger] ms[i],
        depth,
    ) by {
        assert(!(ms[i] is Either));
    }
}

} // verus!
