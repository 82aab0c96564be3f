//! Regular expressions compiled to minimal deterministic automata.
//!
//! A pattern is assembled from typed expression nodes, turned into a
//! nondeterministic automaton by Thompson's construction, made deterministic
//! by the subset construction and minimized by partition refinement. Every
//! step carries a contract which states that the language is preserved.
use crate::fsa::dfa::{DfaModel, DFA};
use crate::fsa::minimal::is_minimization_of;
use crate::fsa::nfa::NFA;
use crate::fsa::{symbols_of, Symbol};
use crate::regex::{PatternError, Regex};
use vstd::prelude::*;
use vstd::std_specs::iter::IteratorSpec;

pub mod fsa;
pub mod laws;
pub mod regex;

verus! {

/// The symbols that the characters of `s` stand for, in order.
pub fn symbols_in(s: &str) -> (r: Vec<Symbol>)
    ensures
        r@ == symbols_of(s@),
{
    broadcast use vstd::string::group_string_axioms;

    let mut symbols: Vec<Symbol> = Vec::new();
    let mut rest = s.chars();
    assert(s@.skip(0) =~= s@);
    loop
        invariant
            symbols@.len() <= s@.len(),
            rest.remaining() == s@.skip(symbols@.len() as int),
            forall|k: int| 0 <= k < symbols@.len() ==> #[trigger] symbols@[k] == symbols_of(s@)[k],
        ensures
            symbols@ == symbols_of(s@),
        decreases s@.len() - symbols@.len(),
    {
        let ghost before = rest.remaining();
        match rest.next() {
            Some(c) => {
                assert(before.len() > 0);
                assert(c == s@[symbols@.len() as int]);
                assert(before.drop_first() =~= s@.skip(symbols@.len() as int + 1));
                symbols.push(Symbol::from(c));
            },
            None => {
                assert(before.len() == 0);
                assert(symbols@ =~= symbols_of(s@));
                break ;
            },
        }
    }
    symbols
}

/// A compiled pattern: a minimal deterministic automaton that decides
/// whether a word belongs to the language of the pattern.
pub struct Matcher(DFA);

impl View for Matcher {
    type V = DfaModel;

    closed spec fn view(&self) -> DfaModel {
        self.0@
    }
}

impl Matcher {
    #[verifier::type_invariant]
    spec fn well_formed(self) -> bool {
        self.0.wf()
    }

    /// The matcher of the pattern `regex`. It matches the words of the
    /// pattern and no others; a pattern with an empty literal has none.
    pub fn from_regex<R: Regex>(regex: R) -> (r: Result<Matcher, PatternError>)
        ensures
            r is Ok <==> regex.valid(),
            r matches Ok(m) ==> m@.is_minimal() && forall|w: Seq<char>| #[trigger] m@.matches(w) <==> regex.matches(w),
    {
        match regex.as_nfa() {
            Ok(nfa) => Ok(Self::from_nfa(nfa)),
            Err(e) => Err(e),
        }
    }

    /// The matcher that is observed like `dfa`, with as few states as
    /// that allows.
    pub fn from_dfa(dfa: DFA) -> (r: Matcher)
        requires
            dfa.wf(),
        ensures
            is_minimization_of(r@, dfa@),
            forall|w: Seq<char>| #[trigger] r@.matches(w) == dfa@.matches(w),
            dfa@.is_minimal() ==> r@.states.len() == dfa@.states.len(),
    {
        Matcher(dfa.minimize())
    }

    /// The matcher that matches the words that `nfa` accepts.
    pub fn from_nfa(nfa: NFA) -> (r: Matcher)
        requires
            nfa.wf(),
        ensures
            r@.is_minimal(),
            forall|w: Seq<char>| #[trigger] r@.matches(w) <==> nfa@.accepts(w),
    {
        let dfa = nfa.as_dfa();
        let small = dfa.minimize();
        let r = Self::from_dfa(small);
        proof {
            assert forall|w: Seq<char>| #[trigger] r@.matches(w) <==> nfa@.accepts(w) by {
                assert(r@.matches(w) == small@.matches(w));
                assert(small@.matches(w) == dfa@.matches(w));
                assert(nfa@.accepts(w) == dfa@.matches(w));
            }
        }
        r
    }

    /// The number of states of the automaton.
    pub fn size(&self) -> (r: usize)
        ensures
            r == self@.states.len(),
    {
        self.0.size()
    }

    /// Whether the word `s` belongs to the language. The automaton reads
    /// `s` character by character from its start; it rejects as soon as a
    /// transition is missing, and else accepts if the state that it ends
    /// in is accepting.
    pub fn is_matched(&self, s: &str) -> (r: bool)
        ensures
            r == self@.matches(s@),
    {
        proof {
            use_type_invariant(self);
            self.0.lemma_wf();
        }
        let symbols = symbols_in(s);
        match self.0.end_of(symbols.as_slice()) {
            Some(q) => self.0.states()[q].acceptable(),
            None => false,
        }
    }
}

} // verus!
