//! What the patterns of a walk match and ignore, pattern by pattern.
//!
//! A walk sorts its patterns by the `!` they start with, strips slashes, and
//! compiles each list into one matcher. The laws say of each pattern alone what
//! it does to a path, whatever else is in the lists.

use crate::cuts;
use crate::glob::{self, SpecGlob};
use crate::laws;
use crate::options::CompileOptions;
use crate::seps::Seps;
use crate::unions;
use crate::walk::options::WalkOptions;
use crate::walk::patterns;
use crate::walk::traversal::{self, Kind, Walk};
use vstd::prelude::*;

verus! {

/// `n` times the character `c`.
pub open spec fn repeated(c: char, n: nat) -> Seq<char> {
    Seq::new(n, |i: int| c)
}

/// `body`, compiled on its own as the patterns of a walk are, matches `path`.
pub open spec fn alone(body: Seq<char>, opts: WalkOptions, path: Seq<u8>) -> bool {
    glob::compiled(
        body,
        CompileOptions { dot: opts.dot, case_insensitive: opts.case_insensitive },
        Seps { backslash: true },
    ) matches Ok(g) && g.matches(path)
}

/// The text is slashes and a pattern that matches `path`.
pub open spec fn hits(text: Seq<char>, opts: WalkOptions, path: Seq<u8>) -> bool {
    exists|m: nat, body: Seq<char>|
        text == #[trigger] (repeated('/', m) + body) && (body.len() > 0 ==> body[0] != '/')
            && alone(body, opts, path)
}

/// The text is an odd number of `!`, or an even one, and behind it slashes and
/// a pattern that matches `path`.
pub open spec fn hits_behind(text: Seq<char>, odd: bool, opts: WalkOptions, path: Seq<u8>) -> bool {
    exists|n: nat, rest: Seq<char>|
        text == #[trigger] (repeated('!', n) + rest) && (rest.len() > 0 ==> rest[0] != '!') && (n
            % 2 == 1) == odd && hits(rest, opts, path)
}

/// Some pattern of the list does so.
pub open spec fn some_hits_behind(
    texts: Seq<Seq<char>>,
    odd: bool,
    opts: WalkOptions,
    path: Seq<u8>,
) -> bool {
    exists|i: int| 0 <= i < texts.len() && hits_behind(#[trigger] texts[i], odd, opts, path)
}

/// Some ignore pattern of the options matches `path`.
pub open spec fn some_ignore_hits(opts: WalkOptions, path: Seq<u8>) -> bool {
    exists|i: int| 0 <= i < opts.ignore@.len() && hits((#[trigger] opts.ignore@[i])@, opts, path)
}

proof fn lemma_leading_all(s: Seq<char>, c: char)
    ensures
        0 <= patterns::leading(s, c) <= s.len(),
        forall|k: int| 0 <= k < patterns::leading(s, c) ==> s[k] == c,
        patterns::leading(s, c) < s.len() ==> s[patterns::leading(s, c)] != c,
    decreases s.len(),
{
    if s.len() > 0 && s[0] == c {
        let less = s.skip(1);
        lemma_leading_all(less, c);
        assert forall|k: int| 0 <= k < patterns::leading(s, c) implies s[k] == c by {
            if k > 0 {
                assert(less[k - 1] == s[k]);
            }
        }
        let n = patterns::leading(less, c);
        if n < less.len() {
            assert(less[n] == s[n + 1]);
        }
    }
}

/// The characters `c` at the start of a text and what follows them.
proof fn lemma_split(s: Seq<char>, c: char, n: nat, rest: Seq<char>)
    ensures
        s == repeated(c, n) + rest && (rest.len() > 0 ==> rest[0] != c) <==> n
            == patterns::leading(s, c) && rest == patterns::trimmed(s, c),
{
    lemma_leading_all(s, c);
    let m = patterns::leading(s, c);
    if s == repeated(c, n) + rest && (rest.len() > 0 ==> rest[0] != c) {
        if m < n {
            assert(s[m] == repeated(c, n)[m]);
        }
        if n < m {
            assert(s[n as int] == rest[0]);
        }
        assert(rest =~= patterns::trimmed(s, c));
    }
    if n == m && rest == patterns::trimmed(s, c) {
        assert(s =~= repeated(c, n) + rest);
        if rest.len() > 0 {
            assert(rest[0] == s[m]);
        }
    }
}

proof fn lemma_hits(text: Seq<char>, opts: WalkOptions, path: Seq<u8>)
    ensures
        hits(text, opts, path) == alone(patterns::trimmed(text, '/'), opts, path),
{
    lemma_leading_all(text, '/');
    let m = patterns::leading(text, '/') as nat;
    let body = patterns::trimmed(text, '/');
    lemma_split(text, '/', m, body);
    assert(text == repeated('/', m) + body);
    if hits(text, opts, path) {
        let (n, b) = choose|n: nat, b: Seq<char>|
            text == #[trigger] (repeated('/', n) + b) && (b.len() > 0 ==> b[0] != '/') && alone(
                b,
                opts,
                path,
            );
        lemma_split(text, '/', n, b);
    }
}

proof fn lemma_hits_behind(text: Seq<char>, odd: bool, opts: WalkOptions, path: Seq<u8>)
    ensures
        hits_behind(text, odd, opts, path) == (patterns::excludes(text) == odd && hits(
            patterns::trimmed(text, '!'),
            opts,
            path,
        )),
{
    lemma_leading_all(text, '!');
    let m = patterns::leading(text, '!') as nat;
    let rest = patterns::trimmed(text, '!');
    lemma_split(text, '!', m, rest);
    assert(text == repeated('!', m) + rest);
    if hits_behind(text, odd, opts, path) {
        let (n, r) = choose|n: nat, r: Seq<char>|
            text == #[trigger] (repeated('!', n) + r) && (r.len() > 0 ==> r[0] != '!') && (n % 2
                == 1) == odd && hits(r, opts, path);
        lemma_split(text, '!', n, r);
    }
}

/// Some text of the list, behind its slashes, matches `path`.
pub open spec fn some_hits(texts: Seq<Seq<char>>, opts: WalkOptions, path: Seq<u8>) -> bool {
    exists|i: int| 0 <= i < texts.len() && hits(#[trigger] texts[i], opts, path)
}

proof fn lemma_bodies_hit(
    texts: Seq<Seq<char>>,
    odd: bool,
    opts: WalkOptions,
    path: Seq<u8>,
)
    ensures
        some_hits(patterns::bodies(texts, odd), opts, path) == some_hits_behind(
            texts,
            odd,
            opts,
            path,
        ),
    decreases texts.len(),
{
    let all = patterns::bodies(texts, odd);
    if texts.len() > 0 {
        let head = texts.drop_last();
        let last = texts.last();
        let less = patterns::bodies(head, odd);
        lemma_bodies_hit(head, odd, opts, path);
        lemma_hits_behind(last, odd, opts, path);
        if some_hits(all, opts, path) {
            let i = choose|i: int| 0 <= i < all.len() && hits(#[trigger] all[i], opts, path);
            if i < less.len() {
                assert(all[i] == less[i]);
                assert(some_hits(less, opts, path));
                let k = choose|k: int|
                    0 <= k < head.len() && hits_behind(#[trigger] head[k], odd, opts, path);
                assert(head[k] == texts[k]);
            } else {
                assert(hits_behind(texts[texts.len() - 1], odd, opts, path));
            }
        }
        if some_hits_behind(texts, odd, opts, path) {
            let i = choose|i: int|
                0 <= i < texts.len() && hits_behind(#[trigger] texts[i], odd, opts, path);
            if i < head.len() {
                assert(head[i] == texts[i]);
                assert(some_hits_behind(head, odd, opts, path));
                let k = choose|k: int| 0 <= k < less.len() && hits(#[trigger] less[k], opts, path);
                assert(all[k] == less[k]);
            } else {
                assert(all[all.len() - 1] == patterns::trimmed(last, '!'));
                assert(hits(all[all.len() - 1], opts, path));
            }
        }
    }
}

/// A matcher of patterns matches what one of them matches alone.
#[verifier::rlimit(40)]
proof fn lemma_united(
    texts: Seq<Seq<char>>,
    opts: WalkOptions,
    out: Option<SpecGlob>,
    path: Seq<u8>,
)
    requires
        patterns::united(texts, traversal::compile_options(opts), out),
        forall|k: int| 0 <= k < path.len() ==> #[trigger] path[k] != 0x5c,
    ensures
        (out is Some && out->0.matches(path)) == some_hits(texts, opts, path),
{
    let co = traversal::compile_options(opts);
    let seps = patterns::walk_seps();
    assert forall|i: int| 0 <= i < texts.len() implies hits(#[trigger] texts[i], opts, path)
        == alone(patterns::rooted(texts)[i], opts, path) by {
        lemma_hits(texts[i], opts, path);
    }
    if let Some(g) = out {
        let ts = patterns::rooted(texts);
        if ts.len() == 1 {
            assert(g.matches(path) == alone(ts[0], opts, path));
            if g.matches(path) {
                assert(hits(texts[0], opts, path));
            }
        } else {
            assert forall|i: int| 0 <= i < ts.len() implies unions::joins(
                #[trigger] ts[i],
                seps,
                path,
            ) by {
                assert(glob::admitted(ts[i]));
                unions::law_slashed_paths_are_told_apart(glob::member_body(ts[i]), seps, path);
            }
            cuts::law_union_is_or(ts, co, seps, path);
            assert forall|i: int| 0 <= i < ts.len() implies unions::member(
                #[trigger] ts[i],
                co,
                seps,
            ).matches(path) == alone(ts[i], opts, path) by {
                assert(glob::admitted(ts[i]));
            }
            if g.matches(path) {
                let i = choose|i: int|
                    0 <= i < ts.len() && unions::member(#[trigger] ts[i], co, seps).matches(path);
                assert(hits(texts[i], opts, path));
            }
            if some_hits(texts, opts, path) {
                let i = choose|i: int|
                    0 <= i < texts.len() && hits(#[trigger] texts[i], opts, path);
                assert(unions::member(ts[i], co, seps).matches(path));
            }
        }
    }
}

/// A walk ignores a path exactly when some ignore pattern of its options
/// matches it, or what follows the `!` of some pattern with an odd number of
/// them. Leading slashes do not count, and neither does what else is in the
/// lists.
///
/// The names in the path hold no backslash.
pub proof fn law_walk_ignores_what_some_pattern_matches<P, I>(
    walk: Walk<P, I>,
    texts: Seq<Seq<char>>,
    opts: WalkOptions,
    path: Seq<u8>,
)
    requires
        walk.made_of(texts, opts),
        forall|k: int| 0 <= k < path.len() ==> #[trigger] path[k] != 0x5c,
    ensures
        walk.rules().ignores(path) <==> some_ignore_hits(opts, path) || some_hits_behind(
            texts,
            true,
            opts,
            path,
        ),
{
    let own = patterns::strings(opts.ignore@);
    let neg = patterns::bodies(texts, true);
    let all = traversal::ignored_texts(texts, opts);
    lemma_united(all, opts, walk.spec_ignore(), path);
    lemma_bodies_hit(texts, true, opts, path);
    if some_hits(all, opts, path) {
        let i = choose|i: int| 0 <= i < all.len() && hits(#[trigger] all[i], opts, path);
        if i < own.len() {
            assert(hits(opts.ignore@[i]@, opts, path));
        } else {
            assert(hits(neg[i - own.len()], opts, path));
        }
    }
    if some_ignore_hits(opts, path) {
        let i = choose|i: int|
            0 <= i < opts.ignore@.len() && hits((#[trigger] opts.ignore@[i])@, opts, path);
        assert(all[i] == opts.ignore@[i]@);
        assert(hits(all[i], opts, path));
    }
    if some_hits(neg, opts, path) {
        let i = choose|i: int| 0 <= i < neg.len() && hits(#[trigger] neg[i], opts, path);
        assert(all[own.len() + i] == neg[i]);
        assert(hits(all[own.len() + i], opts, path));
    }
}

/// A walk matches a path exactly when some pattern with an even number of `!`
/// does, and without such a pattern it matches nothing.
///
/// The names in the path hold no backslash.
pub proof fn law_walk_matches_what_some_pattern_matches<P, I>(
    walk: Walk<P, I>,
    texts: Seq<Seq<char>>,
    opts: WalkOptions,
    path: Seq<u8>,
)
    requires
        walk.made_of(texts, opts),
        forall|k: int| 0 <= k < path.len() ==> #[trigger] path[k] != 0x5c,
    ensures
        (walk.spec_matcher() is Some && walk.spec_matcher()->0.matches(path)) <==> some_hits_behind(
            texts,
            false,
            opts,
            path,
        ),
{
    lemma_united(patterns::bodies(texts, false), opts, walk.spec_matcher(), path);
    lemma_bodies_hit(texts, false, opts, path);
}

/// A walk yields an entry exactly when some pattern matches its path, none
/// ignores it, and it is no link or links are followed.
///
/// The names in the path hold no backslash.
pub proof fn law_walk_yields_what_matches_and_is_not_ignored<P, I>(
    walk: Walk<P, I>,
    texts: Seq<Seq<char>>,
    opts: WalkOptions,
    path: Seq<u8>,
    kind: Kind,
)
    requires
        walk.made_of(texts, opts),
        walk.spec_matcher() is Some,
        forall|k: int| 0 <= k < path.len() ==> #[trigger] path[k] != 0x5c,
    ensures
        walk.rules().emits(path, kind) <==> some_hits_behind(texts, false, opts, path)
            && !some_hits_behind(texts, true, opts, path) && !some_ignore_hits(opts, path) && (
        opts.follow_links || !(kind is Link)),
{
    law_walk_ignores_what_some_pattern_matches(walk, texts, opts, path);
    law_walk_matches_what_some_pattern_matches(walk, texts, opts, path);
    laws::law_verdict_says_match(walk.rules().matcher, path);
}

/// More patterns and more ignore patterns never shrink what is ignored.
///
/// The names in the path hold no backslash.
pub proof fn law_more_patterns_ignore_more<P, I>(
    walk: Walk<P, I>,
    texts: Seq<Seq<char>>,
    opts: WalkOptions,
    wider: Walk<P, I>,
    more: Seq<Seq<char>>,
    other: WalkOptions,
    path: Seq<u8>,
)
    requires
        walk.made_of(texts, opts),
        wider.made_of(more, other),
        opts.dot == other.dot,
        opts.case_insensitive == other.case_insensitive,
        forall|i: int| 0 <= i < texts.len() ==> more.contains(#[trigger] texts[i]),
        forall|i: int|
            0 <= i < opts.ignore@.len() ==> patterns::strings(other.ignore@).contains(
                (#[trigger] opts.ignore@[i])@,
            ),
        forall|k: int| 0 <= k < path.len() ==> #[trigger] path[k] != 0x5c,
        walk.rules().ignores(path),
    ensures
        wider.rules().ignores(path),
{
    law_walk_ignores_what_some_pattern_matches(walk, texts, opts, path);
    law_walk_ignores_what_some_pattern_matches(wider, more, other, path);
    assert forall|t: Seq<char>| #[trigger] hits(t, opts, path) == hits(t, other, path) by {
        lemma_hits(t, opts, path);
        lemma_hits(t, other, path);
    }
    if some_ignore_hits(opts, path) {
        let i = choose|i: int|
            0 <= i < opts.ignore@.len() && hits((#[trigger] opts.ignore@[i])@, opts, path);
        let ts = patterns::strings(other.ignore@);
        let k = choose|k: int| 0 <= k < ts.len() && ts[k] == opts.ignore@[i]@;
        assert(other.ignore@[k]@ == opts.ignore@[i]@);
        assert(hits(other.ignore@[k]@, other, path));
    } else {
        let i = choose|i: int|
            0 <= i < texts.len() && hits_behind(#[trigger] texts[i], true, opts, path);
        let k = choose|k: int| 0 <= k < more.len() && more[k] == texts[i];
        lemma_hits_behind(texts[i], true, opts, path);
        lemma_hits_behind(more[k], true, other, path);
        assert(hits_behind(more[k], true, other, path));
    }
}

} // verus!
