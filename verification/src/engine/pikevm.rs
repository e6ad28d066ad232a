//! The engine that runs a program's automaton over the whole path.
//!
//! It is the fallback where a pattern cannot be matched segment by segment,
//! and a reference for the other engines.

use crate::dir_match::DirMatch;
use crate::engine::facts::{self, LiteralFacts};
use crate::engine::lang::{self, Cx};
use crate::engine::machine::Machine;
use crate::engine::ops::ir;
use crate::engine::ops::prefixes;
use crate::engine::ops::{compute_static_prefixes, OpProgram, SpecOp};
use crate::seps::Seps;
use vstd::prelude::*;

verus! {

/// A compiled program that is matched with an automaton.
#[derive(Clone)]
pub struct PikeVm {
    machine: Machine,
    facts: LiteralFacts,
    prefixes: Vec<Vec<u8>>,
    seps: Seps,
}

impl PikeVm {
    pub closed spec fn wf(self) -> bool {
        &&& self.machine.wf()
        &&& self.machine.spec_seps() == self.seps
        &&& self.facts.facts_of(self.machine.spec_ops(), self.machine.spec_ci())
        &&& prefixes::static_prefixes(
            self.machine.spec_ops(),
            facts::bytes_views(self.prefixes@),
        )
    }

    /// The program.
    pub closed spec fn spec_ops(self) -> Seq<SpecOp> {
        self.machine.spec_ops()
    }

    pub closed spec fn spec_seps(self) -> Seps {
        self.machine.spec_seps()
    }

    pub closed spec fn spec_dot(self) -> bool {
        self.machine.spec_dot()
    }

    pub closed spec fn spec_ci(self) -> bool {
        self.machine.spec_ci()
    }

    /// How the first `n` bytes of a path are matched.
    pub open spec fn cx(self, n: int) -> Cx {
        lang::cx(self.spec_seps(), self.spec_ci(), self.spec_dot(), n)
    }

    /// The program matches `path`.
    pub open spec fn matches(self, path: Seq<u8>) -> bool {
        lang::matches(self.spec_ops(), self.cx(path.len() as int), path)
    }

    /// The program matches something below `dir`, where beyond `dir` no dot is
    /// hidden.
    pub open spec fn below(self, dir: Seq<u8>) -> bool {
        exists|t: Seq<u8>| #[trigger]
            lang::matches(
                self.spec_ops(),
                self.cx(dir.len() as int),
                (dir + seq![0x2fu8]) + t,
            )
    }

    /// Compiles a program for the separators of this platform.
    pub fn new(program: OpProgram, dot: bool) -> (r: Self)
        requires
            program.wf(),
            ir::solid(program@),
        ensures
            r.wf(),
            r.spec_ops() == program@,
            r.spec_ci() == program.case_insensitive,
            r.spec_dot() == dot,
    {
        PikeVm::new_with_seps(program, dot, Seps::platform())
    }

    /// Compiles a program.
    pub fn new_with_seps(program: OpProgram, dot: bool, seps: Seps) -> (r: Self)
        requires
            program.wf(),
            ir::solid(program@),
        ensures
            r.wf(),
            r.spec_ops() == program@,
            r.spec_ci() == program.case_insensitive,
            r.spec_dot() == dot,
            r.spec_seps() == seps,
    {
        let machine = Machine::new(&program.ops, program.case_insensitive, !dot, dot, seps);
        let prefixes: Vec<Vec<u8>> = compute_static_prefixes(&program.ops);
        PikeVm { machine, facts: program.facts, prefixes, seps }
    }

    /// Cached static path prefixes.
    pub fn static_prefixes(&self) -> (r: &Vec<Vec<u8>>)
        requires
            self.wf(),
        ensures
            prefixes::static_prefixes(self.spec_ops(), facts::bytes_views(r@)),
    {
        &self.prefixes
    }

    /// Whether the whole `path` matches.
    pub fn is_match(&self, path: &[u8]) -> (r: bool)
        requires
            self.wf(),
        ensures
            r == self.matches(path@),
    {
        proof {
            if self.matches(path@) {
                facts::lemma_facts_sound(
                    self.spec_ops(),
                    self.cx(path@.len() as int),
                    path@,
                    0,
                );
            }
        }
        if !self.facts.accept_with(self.seps, path) {
            return false;
        }
        self.machine.accepts(path)
    }

    /// Whether `dir_path` matches, and whether anything below it can. The
    /// empty path stands for the directory that all paths lie under.
    pub fn match_dir(&self, dir_path: &[u8]) -> (r: DirMatch)
        requires
            self.wf(),
        ensures
            r.exact() == self.matches(dir_path@),
            r.below() == (dir_path@.len() == 0 || self.below(dir_path@)),
    {
        if dir_path.len() == 0 {
            return DirMatch::from_exact_prefix(self.is_match(dir_path), true);
        }
        let (exact, prefix) = self.machine.accepts_dir(dir_path);
        DirMatch::from_exact_prefix(exact, prefix)
    }
}

} // verus!
