//! From the patterns of a walk to its matchers.

use crate::error;
use crate::error::GlobError;
use crate::glob::{self, Glob, SpecGlob};
use crate::options::CompileOptions;
use crate::parser;
use crate::seps::Seps;
use crate::walk::error::WalkError;
use vstd::prelude::*;
use vstd::string::*;

verus! {

/// How many characters `c` the text starts with.
pub open spec fn leading(s: Seq<char>, c: char) -> int
    decreases s.len(),
{
    if s.len() > 0 && s[0] == c {
        1 + leading(s.skip(1), c)
    } else {
        0
    }
}

/// The text without the characters `c` at its start.
pub open spec fn trimmed(s: Seq<char>, c: char) -> Seq<char> {
    s.skip(leading(s, c))
}

/// An odd number of `!` at its start makes a pattern an ignore pattern.
pub open spec fn excludes(s: Seq<char>) -> bool {
    leading(s, '!') % 2 == 1
}

/// The bodies of the patterns that exclude, or of those that do not.
pub open spec fn bodies(texts: Seq<Seq<char>>, excluding: bool) -> Seq<Seq<char>>
    decreases texts.len(),
{
    if texts.len() == 0 {
        seq![]
    } else {
        let rest = bodies(texts.drop_last(), excluding);
        if excludes(texts.last()) == excluding {
            rest.push(trimmed(texts.last(), '!'))
        } else {
            rest
        }
    }
}

proof fn lemma_leading_bounds(s: Seq<char>, c: char)
    ensures
        0 <= leading(s, c) <= s.len(),
    decreases s.len(),
{
    if s.len() > 0 && s[0] == c {
        lemma_leading_bounds(s.skip(1), c);
    }
}

proof fn lemma_two_more(s: Seq<char>, c: char)
    ensures
        leading(seq![c, c] + s, c) == 2 + leading(s, c),
        trimmed(seq![c, c] + s, c) == trimmed(s, c),
{
    lemma_leading_bounds(s, c);
    let one = seq![c] + s;
    let two = seq![c, c] + s;
    assert(two.skip(1) =~= one);
    assert(one.skip(1) =~= s);
    assert(leading(one, c) == 1 + leading(s, c));
    assert(two.skip(2 + leading(s, c)) =~= s.skip(leading(s, c)));
}

proof fn lemma_one_more(s: Seq<char>, c: char)
    ensures
        leading(seq![c] + s, c) == 1 + leading(s, c),
        trimmed(seq![c] + s, c) == trimmed(s, c),
{
    lemma_leading_bounds(s, c);
    let one = seq![c] + s;
    assert(one.skip(1) =~= s);
    assert(one.skip(1 + leading(s, c)) =~= s.skip(leading(s, c)));
}

/// Two more `!` in front of a pattern change nothing of a walk: the same
/// patterns are matched, and the same ones are ignored.
pub proof fn law_bang_pairs_cancel(texts: Seq<Seq<char>>, i: int, excluding: bool)
    requires
        0 <= i < texts.len(),
    ensures
        bodies(texts.update(i, seq!['!', '!'] + texts[i]), excluding) == bodies(texts, excluding),
    decreases texts.len(),
{
    let more = texts.update(i, seq!['!', '!'] + texts[i]);
    let head = texts.drop_last();
    lemma_two_more(texts[i], '!');
    if i == texts.len() - 1 {
        assert(more.drop_last() =~= head);
    } else {
        law_bang_pairs_cancel(head, i, excluding);
        assert(more.drop_last() =~= head.update(i, seq!['!', '!'] + head[i]));
        assert(more.last() == texts.last());
    }
}

/// One more `!` in front of the only pattern turns what a walk matches into
/// what it ignores, and the reverse.
pub proof fn law_bang_swaps(text: Seq<char>, excluding: bool)
    ensures
        bodies(seq![seq!['!'] + text], excluding) == bodies(seq![text], !excluding),
{
    lemma_one_more(text, '!');
    let a = seq![seq!['!'] + text];
    let b = seq![text];
    assert(a.drop_last() =~= Seq::<Seq<char>>::empty());
    assert(b.drop_last() =~= Seq::<Seq<char>>::empty());
    assert(bodies(a.drop_last(), excluding) == bodies(b.drop_last(), !excluding));
}

/// What the strings hold.
pub open spec fn strings(v: Seq<String>) -> Seq<Seq<char>> {
    Seq::new(v.len(), |i: int| v[i]@)
}

/// The patterns without their leading slashes.
pub open spec fn rooted(texts: Seq<Seq<char>>) -> Seq<Seq<char>> {
    Seq::new(texts.len(), |i: int| trimmed(texts[i], '/'))
}

/// Pattern `k` is the first one that does not compile, alone or in a union, and
/// `e` says why.
pub open spec fn fails_at(texts: Seq<Seq<char>>, k: int, e: GlobError) -> bool {
    if texts.len() == 1 {
        k == 0 && parser::parsed(glob::text_bytes(texts[0])) is Err && parser::parsed(
            glob::text_bytes(texts[0]),
        )->Err_0 == e
    } else {
        glob::refused_at(texts, k, e)
    }
}

/// A walk takes `/` and `\` alike as separators, on every platform.
pub open spec fn walk_seps() -> Seps {
    Seps { backslash: true }
}

/// What compiling `texts` gives, where it succeeds.
pub open spec fn compiles_to(texts: Seq<Seq<char>>, opts: CompileOptions, g: SpecGlob) -> bool {
    if texts.len() == 1 {
        glob::compiled(texts[0], opts, walk_seps()) == Ok::<SpecGlob, GlobError>(g)
    } else {
        texts.len() > 0 && glob::all_admitted(texts, texts.len() as int) && g == glob::union_of(
            texts,
            opts,
            walk_seps(),
        )
    }
}

/// `out` is the matcher of the patterns: none where there are no patterns.
pub open spec fn united(
    texts: Seq<Seq<char>>,
    opts: CompileOptions,
    out: Option<SpecGlob>,
) -> bool {
    match out {
        None => texts.len() == 0,
        Some(g) => texts.len() > 0 && compiles_to(rooted(texts), opts, g),
    }
}

/// The patterns do not compile: `e` holds the one that fails, and says why.
pub open spec fn refused(texts: Seq<Seq<char>>, e: WalkError) -> bool {
    texts.len() > 0 && e is InvalidPattern && exists|k: int, g: GlobError|
        {
            &&& #[trigger] fails_at(rooted(texts), k, g)
            &&& e->pattern@ == rooted(texts)[k]
            &&& e->reason@ == error::error_text(g)
        }
}

/// The value of a matcher.
pub open spec fn value(g: Option<Glob>) -> Option<SpecGlob> {
    match g {
        None => None,
        Some(g) => Some(g@),
    }
}

proof fn lemma_leading(s: Seq<char>, c: char, n: int)
    requires
        0 <= n <= s.len(),
        forall|k: int| 0 <= k < n ==> s[k] == c,
        n == s.len() || s[n] != c,
    ensures
        leading(s, c) == n,
    decreases s.len(),
{
    if n > 0 {
        lemma_leading(s.skip(1), c, n - 1);
    }
}

fn count_leading(s: &str, c: char) -> (r: usize)
    ensures
        r == leading(s@, c),
        r <= s@.len(),
{
    let len: usize = s.unicode_len();
    let mut n: usize = 0;
    while n < len && s.get_char(n) == c
        invariant
            len == s@.len(),
            n <= len,
            forall|k: int| 0 <= k < n ==> s@[k] == c,
        decreases len - n,
    {
        n = n + 1;
    }
    proof {
        lemma_leading(s@, c, n as int);
    }
    n
}

fn trim(s: &str, c: char) -> (r: &str)
    ensures
        r@ == trimmed(s@, c),
{
    let n: usize = count_leading(s, c);
    let len: usize = s.unicode_len();
    proof {
        assert(s@.subrange(n as int, len as int) =~= s@.skip(n as int));
    }
    s.substring_char(n, len)
}

/// Sorts patterns by their leading `!`s, which are stripped: an odd number
/// excludes. The first list holds what is included, the second what is
/// excluded.
pub fn split_patterns(patterns: &[&str]) -> (r: (Vec<String>, Vec<String>))
    ensures
        strings(r.0@) == bodies(glob::texts_of(patterns@), false),
        strings(r.1@) == bodies(glob::texts_of(patterns@), true),
{
    let mut positives: Vec<String> = Vec::new();
    let mut negatives: Vec<String> = Vec::new();
    let ghost texts = glob::texts_of(patterns@);
    assert(strings(positives@) =~= bodies(texts.take(0), false));
    assert(strings(negatives@) =~= bodies(texts.take(0), true));
    for i in 0..patterns.len()
        invariant
            texts == glob::texts_of(patterns@),
            strings(positives@) == bodies(texts.take(i as int), false),
            strings(negatives@) == bodies(texts.take(i as int), true),
    {
        let s: &str = patterns[i];
        let bangs: usize = count_leading(s, '!');
        let body: String = trim(s, '!').to_owned();
        let ghost pos = positives@;
        let ghost neg = negatives@;
        proof {
            assert(texts.take(i + 1).drop_last() =~= texts.take(i as int));
            assert(texts.take(i + 1).last() == s@);
        }
        if bangs % 2 == 1 {
            negatives.push(body);
            assert(strings(negatives@) =~= strings(neg).push(body@));
        } else {
            positives.push(body);
            assert(strings(positives@) =~= strings(pos).push(body@));
        }
    }
    assert(texts.take(texts.len() as int) =~= texts);
    (positives, negatives)
}

/// The first pattern that a union does not take.
fn first_refused(texts: &Vec<&str>) -> (r: usize)
    requires
        exists|k: int, e: GlobError| #[trigger] glob::refused_at(glob::texts_of(texts@), k, e),
    ensures
        r < texts@.len(),
        forall|k: int, e: GlobError| #[trigger]
            glob::refused_at(glob::texts_of(texts@), k, e) ==> k == r,
{
    let ghost all = glob::texts_of(texts@);
    for i in 0..texts.len()
        invariant
            all == glob::texts_of(texts@),
            glob::all_admitted(all, i as int),
            exists|k: int, e: GlobError| #[trigger] glob::refused_at(all, k, e),
    {
        assert(all[i as int] == texts@[i as int]@);
        let taken: bool = match parser::parse(texts[i].as_bytes()) {
            Ok(tree) => !tree.is_negated(),
            Err(_) => false,
        };
        if !taken {
            assert forall|k: int, e: GlobError| #[trigger] glob::refused_at(all, k, e) implies k
                == i by {
                assert(!glob::admitted(all[k]));
                if k > i {
                    assert(glob::admitted(all[i as int]));
                }
            }
            return i;
        }
    }
    proof {
        let (k, e) = choose|k: int, e: GlobError| #[trigger] glob::refused_at(all, k, e);
        assert(!glob::admitted(all[k]));
    }
    0
}

/// Compiles patterns into one matcher, the union of them. Leading slashes are
/// stripped, so that static prefixes are relative. There is no matcher where
/// there are no patterns; where they do not compile, the error holds the one
/// that failed.
pub fn compile_union(patterns: &Vec<String>, opts: CompileOptions) -> (r: Result<
    Option<Glob>,
    WalkError,
>)
    ensures
        match r {
            Ok(g) => united(strings(patterns@), opts, value(g)) && (g is Some ==> g->0.wf()),
            Err(e) => refused(strings(patterns@), e),
        },
{
    let mut all: Vec<&str> = Vec::new();
    let ghost texts = rooted(strings(patterns@));
    for i in 0..patterns.len()
        invariant
            texts == rooted(strings(patterns@)),
            all@.len() == i,
            forall|k: int| 0 <= k < i ==> (#[trigger] all@[k])@ == texts[k],
    {
        all.push(trim(patterns[i].as_str(), '/'));
    }
    assert(glob::texts_of(all@) =~= texts);
    if all.len() == 0 {
        return Ok(None);
    }
    let seps = Seps { backslash: true };
    if all.len() == 1 {
        return match Glob::new_with_seps(all[0], opts, seps) {
            Ok(g) => Ok(Some(g)),
            Err(e) => {
                assert(fails_at(texts, 0, e));
                Err(WalkError::InvalidPattern { pattern: all[0].to_owned(), reason: e.message() })
            },
        };
    }
    match Glob::union_with_seps(all.as_slice(), opts, seps) {
        Ok(g) => Ok(Some(g)),
        Err(e) => {
            let k: usize = first_refused(&all);
            proof {
                let at = choose|k: int| #[trigger] glob::refused_at(texts, k, e);
                assert(fails_at(texts, at, e));
            }
            Err(WalkError::InvalidPattern { pattern: all[k].to_owned(), reason: e.message() })
        },
    }
}

} // verus!
