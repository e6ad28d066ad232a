//! Compiled patterns and unions of patterns.

use crate::ast::{self, Ast, Node, SpecNode};
use crate::dir_match::DirMatch;
use crate::engine::facts;
use crate::engine::lang::{self, Cx};
use crate::engine::literal;
use crate::engine::literal::LiteralMatcher;
use crate::engine::ops::ir;
use crate::engine::ops::lower;
use crate::engine::ops::lower::lower_owned;
use crate::engine::ops::prefixes;
use crate::engine::ops::SpecOp;
use crate::engine::pikevm::PikeVm;
use crate::engine::segment::compile;
use crate::engine::segment::exec;
use crate::engine::segment::exec::SegmentMatcher;
use crate::error::GlobError;
use crate::factor;
use crate::factor::factor_branches;
use crate::matcher::Matcher;
use crate::options::CompileOptions;
use crate::parser;
use crate::seps::Seps;
use vstd::prelude::*;

verus! {

/// Syntactic complexity class of a compiled pattern, for diagnostics. Not
/// consulted when matching.
#[derive(Debug, Clone, Copy, PartialEq, Eq, Structural)]
pub enum Tier {
    /// Pure literal (no metacharacter).
    Literal,
    /// Simple wildcards (`*`, `?`, `[]`) without `**` or brace.
    SimpleWildcard,
    /// Contains `**` or brace expansion.
    Globstar,
}

#[derive(Clone)]
enum Engine {
    /// Byte comparison.
    Literal(LiteralMatcher),
    /// Segment by segment.
    Segment(SegmentMatcher),
    /// What cannot be expressed segment by segment.
    PikeVm(PikeVm),
}

/// The mathematical value of a [`Glob`]: what was compiled, and how.
pub struct SpecGlob {
    /// The syntax tree without its negation.
    pub body: SpecNode,
    pub negated: bool,
    pub dot: bool,
    pub case_insensitive: bool,
    pub seps: Seps,
}

impl SpecGlob {
    /// The program of the pattern.
    pub open spec fn program(self) -> Seq<SpecOp> {
        lower::lowered(self.body, self.case_insensitive)
    }

    /// How the first `n` bytes of a path are matched.
    pub open spec fn cx(self, n: int) -> Cx {
        lang::cx(self.seps, self.case_insensitive, self.dot, n)
    }

    /// The pattern is matched segment by segment.
    pub open spec fn by_segment(self) -> bool {
        compile::expressible(self.program(), self.seps, self.case_insensitive)
    }

    /// The literal that the pattern is, where it is one.
    pub open spec fn literal(self) -> Seq<u8> {
        ast::literal_bytes(self.body)
    }

    /// The first `n` bytes of the literal stand for those of `path`.
    pub open spec fn agrees(self, path: Seq<u8>, n: int) -> bool {
        n <= self.literal().len() && n <= path.len() && forall|k: int|
            0 <= k < n ==> literal::literal_byte(
                self.seps,
                self.case_insensitive,
                #[trigger] self.literal()[k],
                path[k],
            )
    }

    /// The program matches `path`, as the first `n` bytes of a path are
    /// matched.
    pub open spec fn program_matches(self, n: int, path: Seq<u8>) -> bool {
        if self.by_segment() {
            exec::fork_matches(self.program(), self.cx(n), path)
        } else {
            lang::matches(self.program(), self.cx(n), path)
        }
    }

    /// The pattern without its negation matches `path`.
    pub open spec fn body_matches(self, path: Seq<u8>) -> bool {
        if ast::pure_literal(self.body) {
            path.len() == self.literal().len() && self.agrees(path, path.len() as int)
        } else {
            self.program_matches(path.len() as int, path)
        }
    }

    /// The pattern without its negation matches something below `dir`, where
    /// beyond `dir` no dot is hidden. All paths lie below the empty one.
    pub open spec fn body_below(self, dir: Seq<u8>) -> bool {
        dir.len() == 0 || if ast::pure_literal(self.body) {
            self.agrees(dir, dir.len() as int) && dir.len() < self.literal().len()
                && self.literal()[dir.len() as int] == 0x2f
        } else {
            exists|t: Seq<u8>| #[trigger]
                self.program_matches(dir.len() as int, (dir + seq![0x2fu8]) + t)
        }
    }

    /// The pattern matches `path`.
    pub open spec fn matches(self, path: Seq<u8>) -> bool {
        self.body_matches(path) != self.negated
    }

    /// The verdict on a directory. A negated pattern may match anywhere below
    /// it, and a literal that is matched has nothing below it.
    pub open spec fn verdict(self, dir: Seq<u8>) -> DirMatch {
        if self.negated {
            DirMatch::verdict(self.matches(dir), true)
        } else if ast::pure_literal(self.body) {
            DirMatch::verdict(
                self.body_matches(dir),
                self.body_below(dir) && !self.body_matches(dir),
            )
        } else {
            DirMatch::verdict(self.body_matches(dir), self.body_below(dir))
        }
    }

    /// These are the literal path prefixes.
    pub open spec fn prefixes(self, out: Seq<Seq<u8>>) -> bool {
        if self.negated {
            out == seq![Seq::<u8>::empty()]
        } else if ast::pure_literal(self.body) {
            out == seq![prefixes::strip_slashes(self.literal())]
        } else {
            prefixes::static_prefixes(self.program(), out)
        }
    }

    /// The pattern's class.
    pub open spec fn tier(self) -> Tier {
        if ast::pure_literal(self.body) {
            Tier::Literal
        } else if ast::mentions_globstar(self.body) || has_brace(self.body) {
            Tier::Globstar
        } else {
            Tier::SimpleWildcard
        }
    }

    /// The name of the engine.
    pub open spec fn engine_name(self) -> Seq<char> {
        if ast::pure_literal(self.body) {
            "Literal"@
        } else if self.by_segment() {
            "Segment"@
        } else {
            "PikeVm"@
        }
    }
}

/// A brace stands in the node, not counting those in braces.
pub open spec fn has_brace(n: SpecNode) -> bool
    decreases n, 0int,
{
    match n {
        SpecNode::Brace(_) => true,
        SpecNode::Concat(xs) => some_has_brace(xs),
        _ => false,
    }
}

pub open spec fn some_has_brace(xs: Seq<SpecNode>) -> bool
    decreases xs, 1int,
{
    exists|i: int| 0 <= i < xs.len() && has_brace(#[trigger] xs[i])
}

/// The bytes of a pattern.
pub open spec fn text_bytes(text: Seq<char>) -> Seq<u8> {
    vstd::utf8::encode_utf8(text)
}

/// What compiling a pattern gives.
pub open spec fn compiled(text: Seq<char>, opts: CompileOptions, seps: Seps) -> Result<
    SpecGlob,
    GlobError,
> {
    match parser::parsed(text_bytes(text)) {
        Ok((bangs, body)) => Ok(
            SpecGlob {
                body,
                negated: bangs % 2 == 1,
                dot: opts.dot,
                case_insensitive: opts.case_insensitive,
                seps,
            },
        ),
        Err(e) => Err(e),
    }
}

/// A pattern that a union takes: it parses and is not negated.
pub open spec fn admitted(text: Seq<char>) -> bool {
    parser::parsed(text_bytes(text)) matches Ok((bangs, body)) && bangs % 2 == 0
}

/// The syntax tree of an admitted pattern.
pub open spec fn member_body(text: Seq<char>) -> SpecNode {
    (parser::parsed(text_bytes(text))->Ok_0).1
}

/// What the strings hold.
pub open spec fn texts_of(patterns: Seq<&str>) -> Seq<Seq<char>> {
    Seq::new(patterns.len(), |i: int| patterns[i]@)
}

pub open spec fn all_admitted(texts: Seq<Seq<char>>, n: int) -> bool {
    forall|i: int| 0 <= i < n ==> admitted(#[trigger] texts[i])
}

/// The syntax tree of a union.
pub open spec fn union_body(texts: Seq<Seq<char>>) -> SpecNode {
    if texts.len() == 1 {
        member_body(texts[0])
    } else {
        factor::factored(Seq::new(texts.len(), |i: int| member_body(texts[i])))
    }
}

/// What compiling a union gives.
pub open spec fn union_of(texts: Seq<Seq<char>>, opts: CompileOptions, seps: Seps) -> SpecGlob {
    SpecGlob {
        body: union_body(texts),
        negated: false,
        dot: opts.dot,
        case_insensitive: opts.case_insensitive,
        seps,
    }
}

/// Pattern `k` is the first one that a union does not take, and `e` says why.
pub open spec fn refused_at(texts: Seq<Seq<char>>, k: int, e: GlobError) -> bool {
    0 <= k < texts.len() && all_admitted(texts, k) && !admitted(texts[k]) && match parser::parsed(
        text_bytes(texts[k]),
    ) {
        Err(p) => e == p,
        Ok(_) => e matches GlobError::NegatedInUnion { index, pattern } && index == k && pattern@
            == texts[k],
    }
}

/// A compiled pattern, or a union of patterns. Compile once and match many
/// paths.
#[derive(Clone)]
pub struct Glob {
    tier: Tier,
    engine: Engine,
    negated: bool,
    value: Ghost<SpecGlob>,
}

impl View for Glob {
    type V = SpecGlob;

    closed spec fn view(&self) -> SpecGlob {
        self.value@
    }
}

fn contains_brace(node: &Node) -> (r: bool)
    ensures
        r == has_brace(node@),
    decreases node,
{
    match node {
        Node::Brace(_) => true,
        Node::Concat(xs) => any_brace(xs),
        _ => false,
    }
}

fn any_brace(xs: &Vec<Node>) -> (r: bool)
    ensures
        r == some_has_brace(ast::nodes_view(xs@)),
    decreases xs,
{
    for i in 0..xs.len()
        invariant
            forall|k: int| 0 <= k < i ==> !has_brace(#[trigger] ast::nodes_view(xs@)[k]),
    {
        assert(decreases_to!(xs => xs@[i as int]));
        assert(ast::nodes_view(xs@)[i as int] == ast::node_view(xs@[i as int]));
        if contains_brace(&xs[i]) {
            return true;
        }
    }
    false
}

fn clone_prefixes(ps: &Vec<Vec<u8>>) -> (r: Vec<Vec<u8>>)
    ensures
        facts::bytes_views(r@) == facts::bytes_views(ps@),
{
    let mut out: Vec<Vec<u8>> = Vec::new();
    for i in 0..ps.len()
        invariant
            out@.len() == i,
            forall|k: int| 0 <= k < i ==> (#[trigger] out@[k])@ == ps@[k]@,
    {
        out.push(facts::clone_bytes(&ps[i]));
    }
    assert(facts::bytes_views(out@) =~= facts::bytes_views(ps@));
    out
}

impl Glob {
    /// The engine is that of the pattern.
    pub closed spec fn wf(self) -> bool {
        let v = self.value@;
        &&& ast::sound(v.body)
        &&& self.negated == v.negated
        &&& self.tier == v.tier()
        &&& match self.engine {
            Engine::Literal(m) => ast::pure_literal(v.body) && m.literal@ == v.literal()
                && m.case_insensitive == v.case_insensitive && m.seps == v.seps,
            Engine::Segment(m) => !ast::pure_literal(v.body) && v.by_segment() && m.wf()
                && m.spec_ops() == v.program() && m.spec_seps() == v.seps && m.spec_ci()
                == v.case_insensitive && m.spec_dot() == v.dot,
            Engine::PikeVm(m) => !ast::pure_literal(v.body) && !v.by_segment() && m.wf()
                && m.spec_ops() == v.program() && m.spec_seps() == v.seps && m.spec_ci()
                == v.case_insensitive && m.spec_dot() == v.dot,
        }
    }

    /// The pattern is one that the parser gives.
    pub proof fn lemma_sound(self)
        requires
            self.wf(),
        ensures
            ast::sound(self@.body),
    {
    }

    /// Compiles a pattern with default options (`dot: true`,
    /// `case_insensitive: false`) for the separators of this platform.
    pub fn new(pattern: &str) -> (r: Result<Self, GlobError>)
        ensures
            match r {
                Ok(g) => g.wf() && g@.dot && !g@.case_insensitive && compiled(
                    pattern@,
                    CompileOptions { dot: true, case_insensitive: false },
                    g@.seps,
                ) == Ok::<SpecGlob, GlobError>(g@),
                Err(e) => parser::parsed(text_bytes(pattern@)) == Err::<
                    (int, SpecNode),
                    GlobError,
                >(e),
            },
    {
        Glob::new_with(pattern, CompileOptions::default())
    }

    /// Compiles a pattern with explicit [`CompileOptions`] for the separators of
    /// this platform.
    pub fn new_with(pattern: &str, opts: CompileOptions) -> (r: Result<Self, GlobError>)
        ensures
            match r {
                Ok(g) => g.wf() && compiled(pattern@, opts, g@.seps) == Ok::<SpecGlob, GlobError>(
                    g@,
                ),
                Err(e) => parser::parsed(text_bytes(pattern@)) == Err::<
                    (int, SpecNode),
                    GlobError,
                >(e),
            },
    {
        Glob::new_with_seps(pattern, opts, Seps::platform())
    }

    /// Compiles a pattern for given separators.
    pub fn new_with_seps(pattern: &str, opts: CompileOptions, seps: Seps) -> (r: Result<
        Self,
        GlobError,
    >)
        ensures
            match r {
                Ok(g) => g.wf() && compiled(pattern@, opts, seps) == Ok::<SpecGlob, GlobError>(g@),
                Err(e) => compiled(pattern@, opts, seps) == Err::<SpecGlob, GlobError>(e),
            },
    {
        match parser::parse(pattern.as_bytes()) {
            Ok(tree) => Ok(Glob::from_ast(tree, opts, seps)),
            Err(e) => Err(e),
        }
    }

    /// Compiles the union of several patterns, the boolean OR of their
    /// matches, with default options. Negated members are refused, and so is
    /// the empty union.
    pub fn union(patterns: &[&str]) -> (r: Result<Self, GlobError>)
        ensures
            match r {
                Ok(g) => g.wf() && patterns@.len() > 0 && all_admitted(
                    texts_of(patterns@),
                    patterns@.len() as int,
                ) && g@ == union_of(
                    texts_of(patterns@),
                    CompileOptions { dot: true, case_insensitive: false },
                    g@.seps,
                ),
                Err(e) => (patterns@.len() == 0 && e is EmptyPatternSet) || exists|k: int| #[trigger]
                    refused_at(texts_of(patterns@), k, e),
            },
    {
        Glob::union_with(patterns, CompileOptions::default())
    }

    /// [`union`](Self::union) with explicit [`CompileOptions`].
    pub fn union_with(patterns: &[&str], opts: CompileOptions) -> (r: Result<Self, GlobError>)
        ensures
            match r {
                Ok(g) => g.wf() && patterns@.len() > 0 && all_admitted(
                    texts_of(patterns@),
                    patterns@.len() as int,
                ) && g@ == union_of(
                    texts_of(patterns@),
                    opts,
                    g@.seps,
                ),
                Err(e) => (patterns@.len() == 0 && e is EmptyPatternSet) || exists|k: int| #[trigger]
                    refused_at(texts_of(patterns@), k, e),
            },
    {
        Glob::union_with_seps(patterns, opts, Seps::platform())
    }

    /// [`union_with`](Self::union_with) for given separators.
    pub fn union_with_seps(patterns: &[&str], opts: CompileOptions, seps: Seps) -> (r: Result<
        Self,
        GlobError,
    >)
        ensures
            match r {
                Ok(g) => g.wf() && patterns@.len() > 0 && all_admitted(
                    texts_of(patterns@),
                    patterns@.len() as int,
                ) && g@ == union_of(texts_of(patterns@), opts, seps),
                Err(e) => (patterns@.len() == 0 && e is EmptyPatternSet) || exists|k: int| #[trigger]
                    refused_at(texts_of(patterns@), k, e),
            },
    {
        let mut branches: Vec<Node> = Vec::new();
        for i in 0..patterns.len()
            invariant
                all_admitted(texts_of(patterns@), i as int),
                branches@.len() == i,
                forall|k: int|
                    0 <= k < i ==> ast::node_view(#[trigger] branches@[k]) == member_body(
                        patterns@[k]@,
                    ) && ast::sound(ast::node_view(branches@[k])),
        {
            let pattern: &str = patterns[i];
            match parser::parse(pattern.as_bytes()) {
                Ok(tree) => {
                    if tree.is_negated() {
                        let e = GlobError::NegatedInUnion { index: i, pattern: pattern.to_owned() };
                        assert(refused_at(texts_of(patterns@), i as int, e));
                        return Err(e);
                    }
                    branches.push(tree.body);
                },
                Err(e) => {
                    assert(refused_at(texts_of(patterns@), i as int, e));
                    return Err(e);
                },
            }
        }
        let ghost texts = texts_of(patterns@);
        let ghost bodies = Seq::new(texts.len(), |i: int| member_body(texts[i]));
        assert(ast::nodes_view(branches@) =~= bodies);
        if branches.len() == 0 {
            return Err(GlobError::EmptyPatternSet);
        }
        assert(ast::all_sound(bodies)) by {
            assert forall|i: int| 0 <= i < bodies.len() implies ast::sound(
                #[trigger] bodies[i],
            ) by {
                assert(ast::sound(ast::node_view(branches@[i])));
            }
        }
        if branches.len() == 1 {
            if let Some(body) = branches.pop() {
                assert(ast::node_view(body) == bodies[0]);
                assert(ast::sound(bodies[0]));
                return Ok(Glob::from_ast(Ast { negation_count: 0, body }, opts, seps));
            }
        }
        let body = factor_branches(branches);
        Ok(Glob::from_ast(Ast { negation_count: 0, body }, opts, seps))
    }

    fn from_ast(tree: Ast, opts: CompileOptions, seps: Seps) -> (r: Self)
        requires
            ast::sound(tree.body@),
        ensures
            r.wf(),
            r@ == (SpecGlob {
                body: tree.body@,
                negated: tree.negated(),
                dot: opts.dot,
                case_insensitive: opts.case_insensitive,
                seps,
            }),
    {
        let negated: bool = tree.is_negated();
        let ghost value = SpecGlob {
            body: tree.body@,
            negated: tree.negated(),
            dot: opts.dot,
            case_insensitive: opts.case_insensitive,
            seps,
        };
        if let Some(bytes) = tree.body.to_literal_bytes() {
            let m = LiteralMatcher::new_with_seps(bytes, opts.case_insensitive, seps);
            return Glob {
                tier: Tier::Literal,
                engine: Engine::Literal(m),
                negated,
                value: Ghost(value),
            };
        }
        let tier: Tier = if tree.body.has_globstar() || contains_brace(&tree.body) {
            Tier::Globstar
        } else {
            Tier::SimpleWildcard
        };
        let program = lower_owned(tree.body, opts.case_insensitive);
        proof {
            ir::lemma_solid_full(program@);
        }
        let engine = match SegmentMatcher::build_with_seps(program, opts.dot, seps) {
            Ok(m) => Engine::Segment(m),
            Err(program) => Engine::PikeVm(PikeVm::new_with_seps(program, opts.dot, seps)),
        };
        Glob { tier, engine, negated, value: Ghost(value) }
    }

    /// The pattern's syntactic [`Tier`].
    pub fn tier(&self) -> (r: Tier)
        requires
            self.wf(),
        ensures
            r == self@.tier(),
    {
        self.tier
    }

    /// Which engine compilation chose: `"Literal"`, `"Segment"` or
    /// `"PikeVm"`. Diagnostic only.
    pub fn engine_name(&self) -> (r: &'static str)
        requires
            self.wf(),
        ensures
            r@ == self@.engine_name(),
    {
        match &self.engine {
            Engine::Literal(_) => "Literal",
            Engine::Segment(_) => "Segment",
            Engine::PikeVm(_) => "PikeVm",
        }
    }

    /// Whole-path match against raw path bytes.
    pub fn is_match(&self, path: &[u8]) -> (r: bool)
        requires
            self.wf(),
        ensures
            r == self@.matches(path@),
    {
        let raw: bool = match &self.engine {
            Engine::Literal(m) => {
                proof {
                    lemma_literal(*m, self@, path@);
                }
                m.is_match(path)
            },
            Engine::Segment(m) => m.is_match(path),
            Engine::PikeVm(m) => m.is_match(path),
        };
        raw != self.negated
    }

    /// Literal path prefixes a walk can be seeded from: every matching path
    /// starts with one of the returned byte strings.
    pub fn static_prefixes(&self) -> (r: Vec<Vec<u8>>)
        requires
            self.wf(),
        ensures
            self@.prefixes(facts::bytes_views(r@)),
    {
        if self.negated {
            let mut out: Vec<Vec<u8>> = Vec::new();
            let none: Vec<u8> = Vec::new();
            assert(none@ =~= Seq::<u8>::empty());
            out.push(none);
            assert(facts::bytes_views(out@) =~= seq![Seq::<u8>::empty()]);
            return out;
        }
        match &self.engine {
            Engine::Literal(m) => m.static_prefixes(),
            Engine::Segment(m) => clone_prefixes(m.static_prefixes()),
            Engine::PikeVm(m) => clone_prefixes(m.static_prefixes()),
        }
    }

    /// Directory-level verdict for pruning a walk (see [`DirMatch`]).
    pub fn match_dir(&self, dir_path: &[u8]) -> (r: DirMatch)
        requires
            self.wf(),
        ensures
            r == self@.verdict(dir_path@),
    {
        if self.negated {
            return DirMatch::from_exact_prefix(self.is_match(dir_path), true);
        }
        match &self.engine {
            Engine::Literal(m) => {
                proof {
                    lemma_literal(*m, self@, dir_path@);
                }
                m.match_dir(dir_path)
            },
            Engine::Segment(m) => {
                let r = m.match_dir(dir_path);
                proof {
                    lemma_segment_below(*m, self@, dir_path@);
                }
                r
            },
            Engine::PikeVm(m) => {
                let r = m.match_dir(dir_path);
                proof {
                    lemma_pikevm_below(*m, self@, dir_path@);
                }
                r
            },
        }
    }
}

proof fn lemma_literal(m: LiteralMatcher, v: SpecGlob, path: Seq<u8>)
    requires
        ast::pure_literal(v.body),
        m.literal@ == v.literal(),
        m.case_insensitive == v.case_insensitive,
        m.seps == v.seps,
    ensures
        m.matches(path) == v.body_matches(path),
        m.below(path) == v.body_below(path),
{
    let n = path.len() as int;
    assert(m.agrees(path, n) == v.agrees(path, n));
}

proof fn lemma_segment_below(m: SegmentMatcher, v: SpecGlob, dir: Seq<u8>)
    requires
        !ast::pure_literal(v.body),
        v.by_segment(),
        m.spec_ops() == v.program(),
        m.spec_seps() == v.seps,
        m.spec_ci() == v.case_insensitive,
        m.spec_dot() == v.dot,
    ensures
        (dir.len() == 0 || m.below(dir)) == v.body_below(dir),
        m.matches(dir) == v.body_matches(dir),
{
    let n = dir.len() as int;
    let pre = dir + seq![0x2fu8];
    assert(m.cx(n) == v.cx(n));
    if m.below(dir) {
        let t = choose|t: Seq<u8>| #[trigger]
            exec::fork_matches(m.spec_ops(), m.cx(n), pre + t);
        assert(v.program_matches(n, pre + t));
    }
    if dir.len() > 0 && v.body_below(dir) {
        let t = choose|t: Seq<u8>| #[trigger] v.program_matches(n, pre + t);
        assert(exec::fork_matches(m.spec_ops(), m.cx(n), pre + t));
    }
}

proof fn lemma_pikevm_below(m: PikeVm, v: SpecGlob, dir: Seq<u8>)
    requires
        !ast::pure_literal(v.body),
        !v.by_segment(),
        m.spec_ops() == v.program(),
        m.spec_seps() == v.seps,
        m.spec_ci() == v.case_insensitive,
        m.spec_dot() == v.dot,
    ensures
        (dir.len() == 0 || m.below(dir)) == v.body_below(dir),
        m.matches(dir) == v.body_matches(dir),
{
    let n = dir.len() as int;
    let pre = dir + seq![0x2fu8];
    assert(m.cx(n) == v.cx(n));
    if m.below(dir) {
        let t = choose|t: Seq<u8>| #[trigger] lang::matches(m.spec_ops(), m.cx(n), pre + t);
        assert(v.program_matches(n, pre + t));
    }
    if dir.len() > 0 && v.body_below(dir) {
        let t = choose|t: Seq<u8>| #[trigger] v.program_matches(n, pre + t);
        assert(lang::matches(m.spec_ops(), m.cx(n), pre + t));
    }
}

impl Matcher for Glob {
    open spec fn valid(&self) -> bool {
        self.wf()
    }

    open spec fn accepts(&self, path: Seq<u8>) -> bool {
        self@.matches(path)
    }

    open spec fn verdict(&self, dir: Seq<u8>) -> DirMatch {
        self@.verdict(dir)
    }

    open spec fn prefixes(&self, out: Seq<Seq<u8>>) -> bool {
        self@.prefixes(out)
    }

    fn is_match(&self, path: &[u8]) -> (r: bool) {
        Glob::is_match(self, path)
    }

    fn match_dir(&self, dir_path: &[u8]) -> (r: DirMatch) {
        Glob::match_dir(self, dir_path)
    }

    fn static_prefixes(&self) -> (r: Vec<Vec<u8>>) {
        Glob::static_prefixes(self)
    }
}

} // verus!
