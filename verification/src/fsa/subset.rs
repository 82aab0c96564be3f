//! The subset construction: from a nondeterministic automaton to a
//! deterministic one whose states stand for sets of states.
use crate::fsa::count::lemma_distinct_subsets;
use crate::fsa::dfa::{arena_wf, models, DfaModel, State, StateModel, DFA};
use crate::fsa::graph::{eclose, lemma_simulate_empty, moved, simulate, step, step_on, Edge};
use crate::fsa::minimal::{grows, lemma_reachable_grows, lemma_reachable_step, lemma_start_reachable};
use crate::fsa::nfa::{edges_of, lemma_simulates_iff_accepts, NfaModel, NFA};
use crate::fsa::{offered, offers, symbols_of, StateNode, StateSet, Symbol};
use vstd::arithmetic::power2::pow2;
use vstd::prelude::*;

verus! {

/// The sets of states that a list of canonical sets stands for.
pub open spec fn views(sets: Seq<StateSet>) -> Seq<Set<int>> {
    Seq::new(sets.len(), |i: int| sets[i]@)
}

/// State `i` does on `s` what the simulation does from the set behind it:
/// no transition on epsilon or where the simulation ends in the empty set,
/// else a transition to the state that stands for the set it ends in.
pub open spec fn edge_ok(g: Set<Edge>, sets: Seq<Set<int>>, d: Seq<StateModel>, i: int, s: Symbol) -> bool {
    let t = step_on(g, sets[i], s);
    if s == Symbol::Epsilon || t == Set::<int>::empty() {
        !d[i].next.contains_key(s)
    } else {
        d[i].next.contains_key(s) && 0 <= d[i].next[s] < sets.len() && sets[d[i].next[s]] == t
    }
}

/// Like `edge_ok` for the symbols in `seen`; no transition on the others.
pub open spec fn edge_partial(
    g: Set<Edge>,
    sets: Seq<Set<int>>,
    d: Seq<StateModel>,
    i: int,
    seen: Seq<Symbol>,
    s: Symbol,
) -> bool {
    if seen.contains(s) {
        edge_ok(g, sets, d, i, s)
    } else {
        !d[i].next.contains_key(s)
    }
}

/// State `i` has all its transitions.
pub open spec fn settled(g: Set<Edge>, sets: Seq<Set<int>>, d: Seq<StateModel>, i: int) -> bool {
    forall|s: Symbol| #[trigger] edge_ok(g, sets, d, i, s)
}

/// State `i` has its transitions on the symbols in `seen`, and no others.
pub open spec fn partly(g: Set<Edge>, sets: Seq<Set<int>>, d: Seq<StateModel>, i: int, seen: Seq<Symbol>) -> bool {
    forall|s: Symbol| #[trigger] edge_partial(g, sets, d, i, seen, s)
}

/// `b` begins with `a`.
pub open spec fn extends<A>(a: Seq<A>, b: Seq<A>) -> bool {
    a.len() <= b.len() && forall|k: int| 0 <= k < a.len() ==> a[k] == b[k]
}

/// A transition that is right stays right when sets are added behind
/// the list and the state keeps that transition.
pub proof fn lemma_edge_ok_stable(
    g: Set<Edge>,
    sets: Seq<Set<int>>,
    sets2: Seq<Set<int>>,
    d: Seq<StateModel>,
    d2: Seq<StateModel>,
    i: int,
    s: Symbol,
)
    requires
        0 <= i < sets.len(),
        extends(sets, sets2),
        d2[i].next.contains_key(s) == d[i].next.contains_key(s),
        d[i].next.contains_key(s) ==> d2[i].next[s] == d[i].next[s],
        edge_ok(g, sets, d, i, s),
    ensures
        edge_ok(g, sets2, d2, i, s),
{
    assert(sets2[i] == sets[i]);
    if d[i].next.contains_key(s) {
        let j = d[i].next[s];
        assert(sets2[j] == sets[j]);
    }
}

/// A state that has all its transitions keeps them when sets are added
/// behind the list.
pub proof fn lemma_settled_stable(
    g: Set<Edge>,
    sets: Seq<Set<int>>,
    sets2: Seq<Set<int>>,
    d: Seq<StateModel>,
    d2: Seq<StateModel>,
    i: int,
)
    requires
        0 <= i < sets.len(),
        extends(sets, sets2),
        d2[i] == d[i],
        settled(g, sets, d, i),
    ensures
        settled(g, sets2, d2, i),
{
    assert forall|s: Symbol| #[trigger] edge_ok(g, sets2, d2, i, s) by {
        assert(edge_ok(g, sets, d, i, s));
        lemma_edge_ok_stable(g, sets, sets2, d, d2, i, s);
    }
}

/// A set none of whose members has a transition on `sym` moves to the
/// empty set on `sym`, and so does the simulation.
pub proof fn lemma_not_offered(arena: Seq<crate::fsa::nfa::State>, s: Set<int>, sym: Symbol)
    requires
        sym != Symbol::Epsilon,
        !offered(arena, s, sym),
    ensures
        moved(edges_of(arena), s, sym) == Set::<int>::empty(),
        eclose(edges_of(arena), moved(edges_of(arena), s, sym)) == Set::<int>::empty(),
{
    let g = edges_of(arena);
    let m = moved(g, s, sym);
    assert forall|q: int| !m.contains(q) by {
        if m.contains(q) {
            let p = choose|p: int| s.contains(p) && #[trigger] g.contains(Edge { from: p, sym, to: q });
            let st = arena[p];
            assert(st.has(sym, q));
            let j = choose|j: int|
                0 <= j < st@.len() && j < st@.len() && (#[trigger] st@[j]).0 == sym && st@[j].1 == q;
            assert(crate::fsa::key_before(st@, st@.len() as int, sym));
            assert(offers(arena, p, sym));
        }
    }
    assert(m =~= Set::<int>::empty());
    assert(eclose(g, m) =~= Set::<int>::empty());
}

/// The run of the constructed automaton from state `i` follows the
/// simulation from the set behind `i`.
pub proof fn lemma_subset_run(g: Set<Edge>, sets: Seq<Set<int>>, d: DfaModel, i: int, w: Seq<char>)
    requires
        d.states.len() == sets.len(),
        forall|k: int| 0 <= k < sets.len() ==> #[trigger] settled(g, sets, d.states, k),
        0 <= i < sets.len(),
    ensures
        match d.run(i, symbols_of(w)) {
            Some(j) => 0 <= j < sets.len() && sets[j] == simulate(g, sets[i], w),
            None => simulate(g, sets[i], w) == Set::<int>::empty(),
        },
    decreases w.len(),
{
    let sw = symbols_of(w);
    if w.len() == 0 {
    } else {
        let c = w[0];
        assert(sw[0] == Symbol::Char(c));
        assert(sw.drop_first() =~= symbols_of(w.drop_first()));
        assert(settled(g, sets, d.states, i));
        assert(edge_ok(g, sets, d.states, i, Symbol::Char(c)));
        let t = step(g, sets[i], c);
        if t == Set::<int>::empty() {
            lemma_simulate_empty(g, w.drop_first());
        } else {
            let j = d.states[i].next[Symbol::Char(c)];
            lemma_subset_run(g, sets, d, j, w.drop_first());
        }
    }
}

/// The state `i` of `dfa` stands for the set `sets[i]` of states of
/// `nfa`: the start for the set with which the simulation starts, every
/// state has the transitions that the simulation makes from its set, a
/// state accepts where its set holds the end of `nfa`, no state stands
/// for the empty set, and no two states stand for the same set.
pub open spec fn stands_for(nfa: NfaModel, dfa: DfaModel, sets: Seq<Set<int>>) -> bool {
    &&& sets.len() == dfa.states.len()
    &&& sets.len() >= 1
    &&& dfa.start == 0
    &&& sets[0] == nfa.initial()
    &&& forall|i: int| 0 <= i < sets.len() ==> #[trigger] settled(nfa.edges, sets, dfa.states, i)
    &&& forall|i: int|
        0 <= i < sets.len() ==> (#[trigger] sets[i]) != Set::<int>::empty() && dfa.states[i].acceptable
            == sets[i].contains(nfa.end)
    &&& forall|i: int, j: int| 0 <= i < j < sets.len() ==> (#[trigger] sets[i]) != (#[trigger] sets[j])
}

/// `dfa` is the automaton of the subset construction on `nfa`, whatever
/// the numbers of its states.
pub open spec fn is_subset_automaton(nfa: NfaModel, dfa: DfaModel) -> bool {
    exists|sets: Seq<Set<int>>| #[trigger] stands_for(nfa, dfa, sets)
}

/// The automaton of the subset construction matches a word exactly if
/// the simulation by sets of states accepts it.
pub proof fn lemma_subset_language(nfa: NfaModel, dfa: DfaModel, w: Seq<char>)
    requires
        is_subset_automaton(nfa, dfa),
    ensures
        dfa.matches(w) == nfa.simulates(w),
{
    let sets = choose|sets: Seq<Set<int>>| #[trigger] stands_for(nfa, dfa, sets);
    lemma_subset_run(nfa.edges, sets, dfa, 0, w);
}

/// The invariant of the worklist: `sets[i]` is the set behind state `i`.
pub open spec fn seeded(nfa: NfaModel, sets: Seq<StateSet>, states: Seq<State>) -> bool {
    &&& sets.len() == states.len()
    &&& sets.len() >= 1
    &&& sets[0]@ == nfa.initial()
    &&& forall|i: int|
        0 <= i < sets.len() ==> (#[trigger] sets[i]).wf() && sets[i].within(nfa.size) && sets[i]@
            != Set::<int>::empty()
    &&& forall|i: int, j: int| 0 <= i < j < sets.len() ==> (#[trigger] sets[i])@ != (#[trigger] sets[j])@
    &&& forall|i: int|
        0 <= i < states.len() ==> (#[trigger] states[i]).wf() && states[i]@.acceptable == sets[i]@.contains(
            nfa.end,
        )
    &&& arena_wf(states)
}

/// The automaton over the arena `states` that starts in its first state.
pub open spec fn model_of(states: Seq<State>) -> DfaModel {
    DfaModel { states: models(states), start: 0 }
}

/// Every state of the arena is reached from the first.
pub open spec fn all_reachable(states: Seq<State>) -> bool {
    forall|i: int| 0 <= i < states.len() ==> #[trigger] model_of(states).reachable(i)
}

/// The position of the set equal to `target` in `sets`, if it is there.
pub fn find_set(sets: &Vec<StateSet>, target: &StateSet) -> (r: Option<usize>)
    requires
        target.wf(),
        forall|i: int| 0 <= i < sets@.len() ==> (#[trigger] sets@[i]).wf(),
    ensures
        r matches Some(j) ==> j < sets@.len() && sets@[j as int]@ == target@,
        r is None ==> forall|i: int| 0 <= i < sets@.len() ==> (#[trigger] sets@[i])@ != target@,
{
    let mut i: usize = 0;
    while i < sets.len()
        invariant
            i <= sets@.len(),
            target.wf(),
            forall|k: int| 0 <= k < sets@.len() ==> (#[trigger] sets@[k]).wf(),
            forall|k: int| 0 <= k < i ==> (#[trigger] sets@[k])@ != target@,
        decreases sets@.len() - i,
    {
        if sets[i].same(target) {
            return Some(i);
        }
        i += 1;
    }
    None
}

impl NFA {
    /// The deterministic automaton of the subset construction. Its states
    /// stand for the sets of states that the simulation can hold, so it
    /// accepts a word exactly if the simulation does, which is exactly if
    /// a path from start to end spells the word. Only sets that the
    /// simulation reaches get a state, and no set gets two.
    pub fn as_dfa(&self) -> (dfa: DFA)
        requires
            self.wf(),
        ensures
            dfa.wf(),
            is_subset_automaton(self@, dfa@),
            dfa@.epsilon_free(),
            dfa@.states.len() <= pow2(self@.size as nat),
            forall|q: int| 0 <= q < dfa@.states.len() ==> #[trigger] dfa@.reachable(q),
            forall|w: Seq<char>| #[trigger] dfa@.matches(w) == self@.simulates(w),
            forall|w: Seq<char>| #[trigger] self@.accepts(w) == dfa@.matches(w),
    {
        let ghost g = self@.edges;
        let n = self.size();
        proof {
            self.lemma_wf();
        }
        let first = StateSet::from_single(self.start()).e_closure(self);
        proof {
            crate::fsa::graph::lemma_eclose_closed(g, Set::<int>::empty().insert(self@.start));
            assert(first@.contains(self@.start));
        }
        let mut sets: Vec<StateSet> = Vec::new();
        let mut states: Vec<State> = Vec::new();
        states.push(State::new(first.contains(self.end())));
        sets.push(first);
        let mut done: usize = 0;
        proof {
            lemma_start_reachable(model_of(states@));
        }
        while done < sets.len()
            invariant
                self.wf(),
                n == self@.size,
                g == self@.edges,
                seeded(self@, sets@, states@),
                all_reachable(states@),
                done <= sets@.len(),
                forall|i: int| 0 <= i < done ==> #[trigger] settled(g, views(sets@), models(states@), i),
                forall|i: int|
                    done <= i < states@.len() ==> (#[trigger] states@[i])@.next == Map::<Symbol, int>::empty(),
            decreases pow2(n as nat) - done,
        {
            proof {
                self.lemma_wf();
                lemma_distinct_subsets(views(sets@), n as nat);
            }
            let syms = sets[done].alphabet(self.states());
            let ghost cur = sets@[done as int]@;
            let mut a: usize = 0;
            proof {
                let vs = views(sets@);
                let ms = models(states@);
                assert(syms@.take(0) =~= Seq::<Symbol>::empty());
                assert(states@[done as int]@.next == Map::<Symbol, int>::empty());
                assert(ms[done as int] == states@[done as int]@);
                assert forall|s: Symbol| #[trigger] edge_partial(g, vs, ms, done as int, syms@.take(0), s) by {
                    assert(!syms@.take(0).contains(s));
                    assert(!ms[done as int].next.contains_key(s));
                }
            }
            while a < syms.len()
                invariant
                    self.wf(),
                    n == self@.size,
                    g == self@.edges,
                    seeded(self@, sets@, states@),
                    all_reachable(states@),
                    done < sets@.len(),
                    a <= syms@.len(),
                    syms@.no_duplicates(),
                    sets@[done as int]@ == cur,
                    forall|s: Symbol| #[trigger] syms@.contains(s) <==> offered(self.arena(), cur, s),
                    forall|i: int| 0 <= i < done ==> #[trigger] settled(g, views(sets@), models(states@), i),
                    forall|i: int|
                        done < i < states@.len() ==> (#[trigger] states@[i])@.next == Map::<Symbol, int>::empty(),
                    partly(g, views(sets@), models(states@), done as int, syms@.take(a as int)),
                decreases syms@.len() - a,
            {
                let ghost sets0 = sets@;
                let ghost states0 = states@;
                let ghost seen = syms@.take(a as int);
                let symbol = syms[a];
                proof {
                    self.lemma_wf();
                    assert(syms@[a as int] == symbol);
                    assert(syms@.contains(symbol));
                    assert(symbol != Symbol::Epsilon);
                    if seen.contains(symbol) {
                        let k = choose|k: int| 0 <= k < seen.len() && seen[k] == symbol;
                        assert(syms@[k] == symbol);
                    }
                    crate::fsa::lemma_contains_push(seen, symbol);
                    assert(syms@.take(a as int + 1) =~= seen.push(symbol));
                }
                let new_set = sets[done].move_to(self, symbol).e_closure(self);
                let ghost t = new_set@;
                assert(t == step_on(g, sets0[done as int]@, symbol));
                if !new_set.is_empty() {
                    let target: StateNode = match find_set(&sets, &new_set) {
                        Some(j) => j,
                        None => {
                            let accept = new_set.contains(self.end());
                            sets.push(new_set);
                            State::new_node(&mut states, accept)
                        },
                    };
                    let ghost sets1 = sets@;
                    let ghost states1 = states@;
                    proof {
                        assert(extends(sets0, sets1));
                        assert(extends(states0, states1)) by {
                            if states1.len() > states0.len() {
                                assert(states1.take(states0.len() as int) == states0);
                                assert forall|k: int| 0 <= k < states0.len() implies states0[k] == states1[k] by {
                                    assert(states1.take(states0.len() as int)[k] == states1[k]);
                                }
                            }
                        }
                        assert(target < sets1.len() && sets1[target as int]@ == t);
                        assert(seeded(self@, sets1, states1)) by {
                            assert forall|i: int| 0 <= i < sets1.len() implies (#[trigger] sets1[i]).wf()
                                && sets1[i].within(self@.size) && sets1[i]@ != Set::<int>::empty() by {
                                if i < sets0.len() {
                                    assert(sets1[i] == sets0[i]);
                                }
                            }
                            assert forall|i: int, j: int| 0 <= i < j < sets1.len() implies (#[trigger] sets1[i])@
                                != (#[trigger] sets1[j])@ by {
                                if j < sets0.len() {
                                    assert(sets1[i] == sets0[i] && sets1[j] == sets0[j]);
                                } else {
                                    assert(sets1[i] == sets0[i]);
                                }
                            }
                            assert forall|i: int| 0 <= i < states1.len() implies (#[trigger] states1[i]).wf()
                                && states1[i]@.acceptable == sets1[i]@.contains(self@.end) by {
                                if i < states0.len() {
                                    assert(states1[i] == states0[i] && sets1[i] == sets0[i]);
                                }
                            }
                            assert forall|i: int| 0 <= i < states1.len() implies (#[trigger] states1[i]).wf()
                                && forall|s: Symbol| #[trigger]
                                states1[i]@.next.contains_key(s) ==> 0 <= states1[i]@.next[s] < states1.len() by {
                                if i < states0.len() {
                                    assert(states1[i] == states0[i]);
                                }
                            }
                        }
                    }
                    states[done].transition(symbol, target);
                    proof {
                        let states2 = states@;
                        let vs0 = views(sets0);
                        let vs1 = views(sets1);
                        let ms0 = models(states0);
                        let ms2 = models(states2);
                        assert(extends(vs0, vs1));
                        assert forall|i: int| 0 <= i < states2.len() && i != done implies states2[i]
                            == states1[i] by {}
                        assert(seeded(self@, sets1, states2)) by {
                            assert forall|i: int| 0 <= i < states2.len() implies (#[trigger] states2[i]).wf()
                                && states2[i]@.acceptable == sets1[i]@.contains(self@.end) by {
                                if i != done {
                                    assert(states2[i] == states1[i]);
                                } else {
                                    assert(states1[i].wf());
                                }
                            }
                            assert forall|i: int| 0 <= i < states2.len() implies (#[trigger] states2[i]).wf()
                                && forall|s: Symbol| #[trigger]
                                states2[i]@.next.contains_key(s) ==> 0 <= states2[i]@.next[s] < states2.len() by {
                                if i != done {
                                    assert(states2[i] == states1[i]);
                                } else {
                                    assert(states1[i].wf());
                                }
                            }
                        }
                        assert forall|i: int| 0 <= i < done implies #[trigger] settled(g, vs1, ms2, i) by {
                            assert(settled(g, vs0, ms0, i));
                            assert(states2[i] == states0[i]);
                            lemma_settled_stable(g, vs0, vs1, ms0, ms2, i);
                        }
                        assert forall|i: int| done < i < states2.len() implies (#[trigger] states2[i])@.next
                            == Map::<Symbol, int>::empty() by {
                            assert(states2[i] == states1[i]);
                            if i < states0.len() {
                                assert(states1[i] == states0[i]);
                            }
                        }
                        let d = done as int;
                        assert(ms2[d].next == ms0[d].next.insert(symbol, target as int)) by {
                            assert(states1[d] == states0[d]);
                        }
                        assert(all_reachable(states2)) by {
                            let m0 = model_of(states0);
                            let m1 = model_of(states1);
                            let m2 = model_of(states2);
                            assert(edge_partial(g, vs0, ms0, d, seen, symbol));
                            assert(!ms0[d].next.contains_key(symbol));
                            assert(grows(m0, m1)) by {
                                assert forall|p: int, s: Symbol|
                                    0 <= p < m0.states.len() && #[trigger] m0.states[p].next.contains_key(
                                        s,
                                    ) implies m1.states[p].next.contains_key(s) && m1.states[p].next[s]
                                    == m0.states[p].next[s] by {
                                    assert(states1[p] == states0[p]);
                                }
                            }
                            assert(grows(m1, m2)) by {
                                assert forall|p: int, s: Symbol|
                                    0 <= p < m1.states.len() && #[trigger] m1.states[p].next.contains_key(
                                        s,
                                    ) implies m2.states[p].next.contains_key(s) && m2.states[p].next[s]
                                    == m1.states[p].next[s] by {
                                    if p != d {
                                        assert(states2[p] == states1[p]);
                                    } else {
                                        assert(states1[d] == states0[d]);
                                    }
                                }
                            }
                            assert(m0.wf());
                            assert(m1.wf());
                            assert forall|i: int| 0 <= i < states2.len() implies #[trigger] m2.reachable(i) by {
                                assert(m0.reachable(d));
                                lemma_reachable_grows(m0, m1, d);
                                lemma_reachable_grows(m1, m2, d);
                                if i < states0.len() {
                                    assert(m0.reachable(i));
                                    lemma_reachable_grows(m0, m1, i);
                                    lemma_reachable_grows(m1, m2, i);
                                } else {
                                    assert(i == target);
                                    assert(m2.next(d, symbol) == Some(target as int));
                                    lemma_reachable_step(m2, d, symbol);
                                }
                            }
                        }
                        assert forall|sc: Symbol| #[trigger]
                            edge_partial(g, vs1, ms2, d, syms@.take(a as int + 1), sc) by {
                            assert(edge_partial(g, vs0, ms0, d, seen, sc));
                            let now = syms@.take(a as int + 1);
                            assert(now.contains(sc) <==> seen.contains(sc) || sc == symbol) by {
                                assert(seen.push(symbol).contains(sc) <==> seen.contains(sc) || sc == symbol);
                            }
                            if sc == symbol {
                                assert(now.contains(sc));
                                assert(vs1[d] == vs0[d]);
                                assert(vs0[d] == sets0[d]@);
                                assert(step_on(g, vs1[d], sc) == t);
                                assert(vs1[target as int] == t);
                                assert(ms2[d].next.contains_key(sc));
                                assert(ms2[d].next[sc] == target);
                                assert(edge_ok(g, vs1, ms2, d, sc));
                            } else {
                                assert(sc != symbol);
                                assert(ms2[d].next.contains_key(sc) == ms0[d].next.contains_key(sc));
                                if seen.contains(sc) {
                                    assert(ms0[d].next.contains_key(sc) ==> ms2[d].next[sc] == ms0[d].next[sc]);
                                    lemma_edge_ok_stable(g, vs0, vs1, ms0, ms2, d, sc);
                                }
                            }
                        }
                    }
                } else {
                    proof {
                        let vs0 = views(sets0);
                        let ms0 = models(states0);
                        let d = done as int;
                        assert forall|sc: Symbol| #[trigger]
                            edge_partial(g, vs0, ms0, d, syms@.take(a as int + 1), sc) by {
                            assert(edge_partial(g, vs0, ms0, d, seen, sc));
                            assert(syms@.take(a as int + 1).contains(sc) <==> seen.contains(sc) || sc == symbol) by {
                                assert(seen.push(symbol).contains(sc) <==> seen.contains(sc) || sc == symbol);
                            }
                            if sc == symbol {
                                assert(vs0[d] == sets0[d]@);
                                assert(step_on(g, vs0[d], sc) == Set::<int>::empty());
                            }
                        }
                    }
                }
                a += 1;
            }
            proof {
                self.lemma_wf();
                let vs = views(sets@);
                let ms = models(states@);
                let d = done as int;
                assert(syms@.take(syms@.len() as int) =~= syms@);
                assert forall|sc: Symbol| #[trigger] edge_ok(g, vs, ms, d, sc) by {
                    assert(edge_partial(g, vs, ms, d, syms@, sc));
                    if !syms@.contains(sc) && sc != Symbol::Epsilon {
                        assert(vs[d] == cur);
                        assert(!offered(self.arena(), cur, sc));
                        lemma_not_offered(self.arena(), vs[d], sc);
                    }
                }
                assert(settled(g, vs, ms, d));
            }
            done += 1;
        }
        let ghost vs = views(sets@);
        proof {
            self.lemma_wf();
            lemma_distinct_subsets(vs, n as nat);
        }
        let ghost arena = states@;
        let dfa = DFA::new(states, 0);
        proof {
            assert(dfa@ == model_of(arena));
            assert forall|q: int| 0 <= q < dfa@.states.len() implies #[trigger] dfa@.reachable(q) by {
                assert(model_of(arena).reachable(q));
            }
            assert forall|p: int| 0 <= p < dfa@.states.len() implies !(#[trigger] dfa@.states[p]).next.contains_key(
                Symbol::Epsilon,
            ) by {
                assert(settled(g, vs, dfa@.states, p));
                assert(edge_ok(g, vs, dfa@.states, p, Symbol::Epsilon));
            }
            assert(stands_for(self@, dfa@, vs)) by {
                assert forall|i: int| 0 <= i < vs.len() implies (#[trigger] vs[i]) != Set::<int>::empty()
                    && dfa@.states[i].acceptable == vs[i].contains(self@.end) by {
                    assert(arena[i].wf());
                }
            }
            assert forall|w: Seq<char>| #[trigger] dfa@.matches(w) == self@.simulates(w) by {
                lemma_subset_language(self@, dfa@, w);
            }
            assert forall|w: Seq<char>| #[trigger] self@.accepts(w) == dfa@.matches(w) by {
                lemma_simulates_iff_accepts(self@, w);
            }
        }
        dfa
    }
}

} // verus!
