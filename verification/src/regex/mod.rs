//! Patterns: what can be turned into an automaton, and the operators that
//! combine patterns.
use crate::fsa::nfa::{NfaModel, NFA};
use crate::regex::tokens::{Alternative, Closure, Concatenation, OneOrMore};
use vstd::prelude::*;

pub mod tokens;

verus! {

/// Why a pattern has no automaton.
#[derive(Clone, Copy, Debug, PartialEq, Eq)]
pub enum PatternError {
    /// A literal of the pattern is the empty string.
    EmptyLiteral,
}

/// A regular expression. Its language is given by `matches`; `as_nfa`
/// builds an automaton that accepts exactly that language.
pub trait Regex: Sized {
    /// No literal of the pattern is the empty string.
    spec fn valid(&self) -> bool;

    /// The word `w` belongs to the language of the pattern.
    spec fn matches(&self, w: Seq<char>) -> bool;

    /// `m` has the shape that Thompson's construction gives the pattern:
    /// the fragments of the parts of the pattern, wired as the shape of
    /// the pattern asks.
    spec fn fragment(&self, m: NfaModel) -> bool;

    /// The automaton of Thompson's construction. It fails exactly on a
    /// pattern that holds an empty literal.
    fn as_nfa(&self) -> (r: Result<NFA, PatternError>)
        ensures
            r is Ok <==> self.valid(),
            r matches Ok(nfa) ==> nfa.wf() && self.fragment(nfa@) && forall|w: Seq<char>| #[trigger]
                nfa@.accepts(w) <==> self.matches(w),
    ;

    /// This pattern, then `next`.
    fn and<R>(self, next: R) -> (r: Concatenation<Self, R>)
        ensures
            r.0 == self,
            r.1 == next,
    {
        Concatenation::new(self, next)
    }

    /// This pattern or `other`.
    fn or<R>(self, other: R) -> (r: Alternative<Self, R>)
        ensures
            r.0 == self,
            r.1 == other,
    {
        Alternative::new(self, other)
    }

    /// This pattern any number of times, also none.
    fn many(self) -> (r: Closure<Self>)
        ensures
            r.0 == self,
    {
        Closure::new(self)
    }

    /// This pattern once or more.
    fn some(self) -> (r: OneOrMore<Self>)
        ensures
            r.0 == self,
    {
        OneOrMore::new(self)
    }
}

} // verus!
