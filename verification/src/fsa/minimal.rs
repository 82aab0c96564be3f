//! What it means for a deterministic automaton to be minimal, and why two
//! minimal automata that are observed alike have the same number of states.
use crate::fsa::count::lemma_injection_bound;
use crate::fsa::dfa::DfaModel;
use crate::fsa::{symbols_of, Symbol};
use vstd::prelude::*;

verus! {

/// Reading `u` and then `v` is reading `u + v`.
pub proof fn lemma_run_append(d: DfaModel, p: int, u: Seq<Symbol>, v: Seq<Symbol>)
    ensures
        d.run(p, u + v) == match d.run(p, u) {
            Some(q) => d.run(q, v),
            None => None,
        },
    decreases u.len(),
{
    if u.len() == 0 {
        assert(u + v =~= v);
    } else {
        assert((u + v)[0] == u[0]);
        assert((u + v).drop_first() =~= u.drop_first() + v);
        match d.next(p, u[0]) {
            Some(q) => {
                lemma_run_append(d, q, u.drop_first(), v);
            },
            None => {},
        }
    }
}

/// A run of a well-formed automaton from a state ends in a state.
pub proof fn lemma_run_bounded(d: DfaModel, p: int, w: Seq<Symbol>)
    requires
        d.wf(),
        0 <= p < d.states.len(),
    ensures
        d.run(p, w) matches Some(q) ==> 0 <= q < d.states.len(),
    decreases w.len(),
{
    if w.len() > 0 {
        match d.next(p, w[0]) {
            Some(q) => {
                lemma_run_bounded(d, q, w.drop_first());
            },
            None => {},
        }
    }
}

/// The run on one symbol is the transition on it.
pub proof fn lemma_run_one(d: DfaModel, p: int, s: Symbol)
    ensures
        d.run(p, Seq::<Symbol>::empty().push(s)) == d.next(p, s),
{
    let w = Seq::<Symbol>::empty().push(s);
    assert(w[0] == s);
    assert(w.drop_first() =~= Seq::<Symbol>::empty());
    match d.next(p, s) {
        Some(q) => {
            assert(d.run(q, w.drop_first()) == Some(q));
        },
        None => {},
    }
}

/// The run on `s` followed by `w` is the run on `w` from where `s` leads.
pub proof fn lemma_run_cons(d: DfaModel, p: int, s: Symbol, w: Seq<Symbol>)
    ensures
        d.run(p, Seq::<Symbol>::empty().push(s) + w) == match d.next(p, s) {
            Some(q) => d.run(q, w),
            None => None,
        },
{
    lemma_run_one(d, p, s);
    lemma_run_append(d, p, Seq::<Symbol>::empty().push(s), w);
}

/// A word that leads from the start to `p`.
pub open spec fn access(d: DfaModel, p: int) -> Seq<Symbol> {
    choose|w: Seq<Symbol>| #[trigger] d.run(d.start, w) == Some(p)
}

/// The state that a transition leads to is reachable where its source is.
pub proof fn lemma_reachable_step(d: DfaModel, p: int, s: Symbol)
    requires
        d.reachable(p),
        d.next(p, s) is Some,
    ensures
        d.reachable(d.next(p, s)->Some_0),
{
    let w = access(d, p);
    let one = Seq::<Symbol>::empty().push(s);
    lemma_run_one(d, p, s);
    lemma_run_append(d, d.start, w, one);
    assert(d.run(d.start, w + one) == Some(d.next(p, s)->Some_0));
}

/// The start is reachable.
pub proof fn lemma_start_reachable(d: DfaModel)
    ensures
        d.reachable(d.start),
{
    assert(d.run(d.start, Seq::<Symbol>::empty()) == Some(d.start));
}

/// `b` has the states and the transitions of `a`, and maybe more.
pub open spec fn grows(a: DfaModel, b: DfaModel) -> bool {
    &&& a.start == b.start
    &&& a.states.len() <= b.states.len()
    &&& forall|p: int, s: Symbol|
        0 <= p < a.states.len() && #[trigger] a.states[p].next.contains_key(s) ==> b.states[p].next.contains_key(s)
            && b.states[p].next[s] == a.states[p].next[s]
}

/// A run stays what it is when states and transitions are added.
pub proof fn lemma_run_grows(a: DfaModel, b: DfaModel, p: int, w: Seq<Symbol>)
    requires
        grows(a, b),
        a.wf(),
        0 <= p < a.states.len(),
        a.run(p, w) is Some,
    ensures
        b.run(p, w) == a.run(p, w),
    decreases w.len(),
{
    if w.len() > 0 {
        let q = a.next(p, w[0])->Some_0;
        assert(a.states[p].next.contains_key(w[0]));
        assert(b.next(p, w[0]) == Some(q));
        lemma_run_grows(a, b, q, w.drop_first());
    }
}

/// A reachable state stays reachable when states and transitions are
/// added.
pub proof fn lemma_reachable_grows(a: DfaModel, b: DfaModel, q: int)
    requires
        grows(a, b),
        a.wf(),
        a.reachable(q),
    ensures
        b.reachable(q),
{
    let w = access(a, q);
    lemma_run_grows(a, b, a.start, w);
    assert(b.run(b.start, w) == Some(q));
}

/// The state of `b` to which the word leads that reaches `p` in `a`.
pub open spec fn image(a: DfaModel, b: DfaModel, p: int) -> int {
    match b.run(b.start, access(a, p)) {
        Some(q) => q,
        None => -1,
    }
}

/// `m` is observed like `d` on every word.
pub open spec fn same_outcomes(d: DfaModel, m: DfaModel) -> bool {
    forall|w: Seq<Symbol>| #[trigger] m.outcome(w) == d.outcome(w)
}

/// `m` is a minimal automaton that is observed like `d`: on every word it
/// gets stuck where `d` does and accepts where `d` does.
pub open spec fn is_minimization_of(m: DfaModel, d: DfaModel) -> bool {
    m.is_minimal() && same_outcomes(d, m)
}

/// Automata that are observed alike accept the same words of characters.
pub proof fn lemma_same_language(d: DfaModel, m: DfaModel)
    requires
        same_outcomes(d, m),
    ensures
        forall|w: Seq<char>| #[trigger] m.matches(w) == d.matches(w),
{
    assert forall|w: Seq<char>| #[trigger] m.matches(w) == d.matches(w) by {
        assert(m.outcome(symbols_of(w)) == d.outcome(symbols_of(w)));
    }
}

/// A minimal automaton has no more states than any automaton that is
/// observed like it.
pub proof fn lemma_minimal_le(a: DfaModel, b: DfaModel)
    requires
        a.is_minimal(),
        b.wf(),
        forall|w: Seq<Symbol>| #[trigger] a.outcome(w) == b.outcome(w),
    ensures
        a.states.len() <= b.states.len(),
{
    let f = Seq::new(a.states.len(), |p: int| image(a, b, p));
    assert forall|p: int| 0 <= p < f.len() implies 0 <= #[trigger] f[p] < b.states.len() by {
        assert(a.reachable(p));
        let w = access(a, p);
        assert(a.run(a.start, w) == Some(p));
        assert(a.outcome(w) == b.outcome(w));
        lemma_run_bounded(b, b.start, w);
    }
    assert forall|p: int, q: int| 0 <= p < f.len() && 0 <= q < f.len() && p != q implies f[p] != f[q] by {
        if f[p] == f[q] {
            assert(a.reachable(p));
            assert(a.reachable(q));
            let u = access(a, p);
            let v = access(a, q);
            assert(a.run(a.start, u) == Some(p));
            assert(a.run(a.start, v) == Some(q));
            assert(a.outcome(u) == b.outcome(u));
            assert(a.outcome(v) == b.outcome(v));
            if p < q {
                assert(a.distinguishable(p, q));
            } else {
                assert(a.distinguishable(q, p));
            }
            let z = if p < q {
                choose|z: Seq<Symbol>| #[trigger] a.outcome_from(p, z) != a.outcome_from(q, z)
            } else {
                choose|z: Seq<Symbol>| #[trigger] a.outcome_from(q, z) != a.outcome_from(p, z)
            };
            assert(a.outcome_from(p, z) != a.outcome_from(q, z));
            lemma_run_append(a, a.start, u, z);
            lemma_run_append(a, a.start, v, z);
            lemma_run_append(b, b.start, u, z);
            lemma_run_append(b, b.start, v, z);
            assert(a.outcome(u + z) == b.outcome(u + z));
            assert(a.outcome(v + z) == b.outcome(v + z));
            assert(a.outcome(u + z) == a.outcome_from(p, z));
            assert(a.outcome(v + z) == a.outcome_from(q, z));
            assert(b.outcome(u + z) == b.outcome_from(f[p], z));
            assert(b.outcome(v + z) == b.outcome_from(f[q], z));
        }
    }
    lemma_injection_bound(f, b.states.len() as int);
}

/// Two minimal automata that are observed alike have the same number of
/// states.
pub proof fn lemma_minimal_same_size(a: DfaModel, b: DfaModel)
    requires
        a.is_minimal(),
        b.is_minimal(),
        forall|w: Seq<Symbol>| #[trigger] a.outcome(w) == b.outcome(w),
    ensures
        a.states.len() == b.states.len(),
{
    lemma_minimal_le(a, b);
    assert forall|w: Seq<Symbol>| #[trigger] b.outcome(w) == a.outcome(w) by {
        assert(a.outcome(w) == b.outcome(w));
    }
    lemma_minimal_le(b, a);
}

/// The states that some word reaches from the start.
pub open spec fn reachable_states(d: DfaModel) -> Set<int> {
    Set::new(|q: int| 0 <= q < d.states.len() && d.reachable(q))
}

/// In a minimal automaton every state is reachable.
pub proof fn lemma_minimal_reachable(d: DfaModel)
    requires
        d.is_minimal(),
    ensures
        reachable_states(d).finite(),
        reachable_states(d).len() == d.states.len(),
{
    let n = d.states.len() as int;
    vstd::set_lib::lemma_int_range(0, n);
    assert(reachable_states(d) =~= vstd::set_lib::set_int_range(0, n));
}

} // verus!
