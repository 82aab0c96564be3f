//! What holds of every pattern and every automaton, stated over the
//! models that the contracts of the library speak of.
use crate::fsa::dfa::DfaModel;
use crate::fsa::graph::unit;
use crate::fsa::minimal::{
    is_minimization_of, lemma_minimal_reachable, lemma_minimal_same_size, lemma_same_language, reachable_states,
};
use crate::fsa::nfa::{lemma_simulates_iff_accepts, NfaModel};
use crate::fsa::subset::{is_subset_automaton, lemma_subset_language};
use crate::fsa::thompson::{concat_all, is_single, lemma_single_language};
use crate::regex::tokens::{all_match, repeats, splits_at, Alternative, Closure, Concatenation};
use crate::regex::Regex;
use vstd::prelude::*;

verus! {

/// A matcher for the fragment of the character `c` matches the word that
/// consists of `c` and no other word.
pub proof fn law_character(c: char, nfa: NfaModel, m: DfaModel, w: Seq<char>)
    requires
        is_single(c, nfa),
        forall|v: Seq<char>| #[trigger] m.matches(v) <==> nfa.accepts(v),
    ensures
        m.matches(w) <==> w == unit(c),
{
    lemma_single_language(c, nfa, w);
    assert(m.matches(w) <==> nfa.accepts(w));
}

/// A matcher for `p` followed by `q` matches exactly the words that split
/// into a first part that `p` matches and a second part that `q` matches.
pub proof fn law_concatenation<P: Regex, Q: Regex>(p: P, q: Q, m: DfaModel, w: Seq<char>)
    requires
        forall|v: Seq<char>| #[trigger] m.matches(v) <==> Concatenation(p, q).matches(v),
    ensures
        m.matches(w) <==> exists|i: int| #[trigger] splits_at(&p, &q, w, i),
{
    let c = Concatenation(p, q);
    assert(m.matches(w) <==> c.matches(w));
    if c.matches(w) {
        let i = choose|i: int| #[trigger] splits_at(&c.0, &c.1, w, i);
        assert(splits_at(&p, &q, w, i));
    }
    if exists|i: int| #[trigger] splits_at(&p, &q, w, i) {
        let i = choose|i: int| #[trigger] splits_at(&p, &q, w, i);
        assert(splits_at(&c.0, &c.1, w, i));
    }
}

/// A matcher for `p` or `q` matches a word exactly if `p` or `q` does.
pub proof fn law_alternation<P: Regex, Q: Regex>(p: P, q: Q, m: DfaModel, w: Seq<char>)
    requires
        forall|v: Seq<char>| #[trigger] m.matches(v) <==> Alternative(p, q).matches(v),
    ensures
        m.matches(w) <==> p.matches(w) || q.matches(w),
{
    assert(m.matches(w) <==> Alternative(p, q).matches(w));
}

/// A matcher for the repetition of `p` matches the empty word, and it
/// matches any number of words in a row each of which `p` matches.
pub proof fn law_closure<P: Regex>(p: P, m: DfaModel, parts: Seq<Seq<char>>)
    requires
        forall|v: Seq<char>| #[trigger] m.matches(v) <==> Closure(p).matches(v),
        all_match(&p, parts),
    ensures
        m.matches(Seq::<char>::empty()),
        m.matches(concat_all(parts)),
{
    let none = Seq::<Seq<char>>::empty();
    assert(all_match(&p, none) && concat_all(none) == Seq::<char>::empty());
    assert(repeats(&p, Seq::<char>::empty()));
    assert(m.matches(Seq::<char>::empty()) <==> Closure(p).matches(Seq::<char>::empty()));
    assert(repeats(&p, concat_all(parts)));
    assert(m.matches(concat_all(parts)) <==> Closure(p).matches(concat_all(parts)));
}

/// Minimizing is idempotent: the minimization of a minimized automaton
/// has as many reachable states as the minimized automaton, and these
/// are all the states of either.
pub proof fn law_minimize_idempotent(d: DfaModel, once: DfaModel, twice: DfaModel)
    requires
        is_minimization_of(once, d),
        is_minimization_of(twice, once),
    ensures
        reachable_states(twice).len() == reachable_states(once).len(),
        reachable_states(once).len() == once.states.len(),
        reachable_states(twice).len() == twice.states.len(),
{
    assert forall|w: Seq<crate::fsa::Symbol>| #[trigger] twice.outcome(w) == once.outcome(w) by {}
    lemma_minimal_same_size(twice, once);
    lemma_minimal_reachable(once);
    lemma_minimal_reachable(twice);
}

/// Minimizing keeps the language: the minimized automaton matches the
/// words that the automaton matched before.
pub proof fn law_minimize_language(d: DfaModel, m: DfaModel, w: Seq<char>)
    requires
        is_minimization_of(m, d),
    ensures
        m.matches(w) == d.matches(w),
{
    lemma_same_language(d, m);
}

/// The subset construction keeps the language: its automaton matches a
/// word exactly if the simulation of `nfa` by epsilon closures and moves
/// accepts it, which is exactly if a path of `nfa` from start to end
/// spells it.
pub proof fn law_subset_construction(nfa: NfaModel, dfa: DfaModel, w: Seq<char>)
    requires
        is_subset_automaton(nfa, dfa),
    ensures
        dfa.matches(w) == nfa.simulates(w),
        dfa.matches(w) == nfa.accepts(w),
{
    lemma_subset_language(nfa, dfa, w);
    lemma_simulates_iff_accepts(nfa, w);
}

} // verus!
