//! Deterministic automata: at most one transition per state and symbol,
//! and an acceptance flag on every state.
use crate::fsa::{key_before, StateNode, Symbol};
use vstd::prelude::*;

verus! {

/// No symbol occurs twice among the transitions.
pub open spec fn unique_keys(t: Seq<(Symbol, StateNode)>) -> bool {
    forall|i: int, j: int| 0 <= i < j < t.len() ==> (#[trigger] t[i]).0 != (#[trigger] t[j]).0
}

/// A position at which `t` holds a transition on `s`.
pub open spec fn position(t: Seq<(Symbol, StateNode)>, s: Symbol) -> int {
    choose|k: int| 0 <= k < t.len() && (#[trigger] t[k]).0 == s
}

/// The transition function that the list `t` stands for.
pub open spec fn table(t: Seq<(Symbol, StateNode)>) -> Map<Symbol, int> {
    Map::new(|s: Symbol| key_before(t, t.len() as int, s), |s: Symbol| t[position(t, s)].1 as int)
}

/// The table holds every transition of a list without repeated symbols.
pub proof fn lemma_table_entry(t: Seq<(Symbol, StateNode)>, k: int)
    requires
        unique_keys(t),
        0 <= k < t.len(),
    ensures
        table(t).contains_key(t[k].0),
        table(t)[t[k].0] == t[k].1,
{
    let s = t[k].0;
    assert(key_before(t, t.len() as int, s));
    let j = position(t, s);
    assert(0 <= j < t.len() && t[j].0 == s);
    if j < k {
        assert(t[j].0 != t[k].0);
    } else if k < j {
        assert(t[k].0 != t[j].0);
    }
}

/// A transition on a new symbol, put at the end of the list, is one
/// more entry of the table.
pub proof fn lemma_table_push(t: Seq<(Symbol, StateNode)>, s: Symbol, x: StateNode)
    requires
        unique_keys(t),
        !key_before(t, t.len() as int, s),
    ensures
        unique_keys(t.push((s, x))),
        table(t.push((s, x))) == table(t).insert(s, x as int),
{
    let u = t.push((s, x));
    assert forall|i: int, j: int| 0 <= i < j < u.len() implies (#[trigger] u[i]).0 != (#[trigger] u[j]).0 by {
        if j < t.len() {
            assert(t[i].0 != t[j].0);
        } else {
            if t[i].0 == s {
                assert(key_before(t, t.len() as int, s));
            }
        }
    }
    assert forall|y: Symbol| table(u).contains_key(y) <==> table(t).insert(s, x as int).contains_key(y) by {
        if key_before(u, u.len() as int, y) {
            let j = choose|j: int| 0 <= j < u.len() && j < u.len() && (#[trigger] u[j]).0 == y;
            if j < t.len() {
                assert(t[j].0 == y);
                assert(key_before(t, t.len() as int, y));
            }
        }
        if key_before(t, t.len() as int, y) {
            let j = choose|j: int| 0 <= j < t.len() && j < t.len() && (#[trigger] t[j]).0 == y;
            assert(u[j].0 == y);
        }
        if y == s {
            assert(u[t.len() as int].0 == y);
        }
    }
    assert forall|y: Symbol| table(u).contains_key(y) implies table(u)[y] == table(t).insert(s, x as int)[y] by {
        let j = choose|j: int| 0 <= j < u.len() && j < u.len() && (#[trigger] u[j]).0 == y;
        lemma_table_entry(u, j);
        if j < t.len() {
            assert(t[j] == u[j]);
            lemma_table_entry(t, j);
        }
    }
    assert(table(u) =~= table(t).insert(s, x as int));
}

/// A new target at position `k` of the list is a new value of the
/// table on the symbol at `k`.
pub proof fn lemma_table_update(t: Seq<(Symbol, StateNode)>, k: int, x: StateNode)
    requires
        unique_keys(t),
        0 <= k < t.len(),
    ensures
        unique_keys(t.update(k, (t[k].0, x))),
        table(t.update(k, (t[k].0, x))) == table(t).insert(t[k].0, x as int),
{
    let s = t[k].0;
    let u = t.update(k, (s, x));
    assert forall|i: int| 0 <= i < t.len() implies (#[trigger] u[i]).0 == t[i].0 by {}
    assert forall|i: int, j: int| 0 <= i < j < u.len() implies (#[trigger] u[i]).0 != (#[trigger] u[j]).0 by {
        assert(t[i].0 != t[j].0);
    }
    assert forall|y: Symbol| table(u).contains_key(y) <==> table(t).insert(s, x as int).contains_key(y) by {
        if key_before(u, u.len() as int, y) {
            let j = choose|j: int| 0 <= j < u.len() && j < u.len() && (#[trigger] u[j]).0 == y;
            assert(t[j].0 == y);
            assert(key_before(t, t.len() as int, y));
        }
        if key_before(t, t.len() as int, y) {
            let j = choose|j: int| 0 <= j < t.len() && j < t.len() && (#[trigger] t[j]).0 == y;
            assert(u[j].0 == y);
        }
        if y == s {
            assert(u[k].0 == y);
        }
    }
    assert forall|y: Symbol| table(u).contains_key(y) implies table(u)[y] == table(t).insert(s, x as int)[y] by {
        let j = choose|j: int| 0 <= j < u.len() && j < u.len() && (#[trigger] u[j]).0 == y;
        lemma_table_entry(u, j);
        if j != k {
            assert(t[j] == u[j]);
            lemma_table_entry(t, j);
        }
    }
    assert(table(u) =~= table(t).insert(s, x as int));
}

/// The mathematical model of a deterministic state.
pub ghost struct StateModel {
    pub acceptable: bool,
    pub next: Map<Symbol, int>,
}

/// A state of a deterministic automaton.
#[derive(Debug)]
pub struct State {
    transitions: Vec<(Symbol, StateNode)>,
    acceptable: bool,
}

impl View for State {
    type V = StateModel;

    closed spec fn view(&self) -> StateModel {
        StateModel { acceptable: self.acceptable, next: table(self.transitions@) }
    }
}

impl State {
    /// The transitions in the order in which their symbols were first
    /// given.
    pub closed spec fn entries(&self) -> Seq<(Symbol, StateNode)> {
        self.transitions@
    }

    /// No symbol has two transitions, and the view is the table of the
    /// entries.
    pub closed spec fn wf(&self) -> bool {
        unique_keys(self.transitions@)
    }

    /// How the entries and the view belong together.
    pub proof fn lemma_entries(&self)
        requires
            self.wf(),
        ensures
            unique_keys(self.entries()),
            self@.next == table(self.entries()),
            forall|k: int|
                0 <= k < self.entries().len() ==> self@.next.contains_key((#[trigger] self.entries()[k]).0)
                    && self@.next[self.entries()[k].0] == self.entries()[k].1,
            forall|s: Symbol| #[trigger]
                self@.next.contains_key(s) ==> key_before(self.entries(), self.entries().len() as int, s),
    {
        assert forall|k: int| 0 <= k < self.entries().len() implies self@.next.contains_key(
            (#[trigger] self.entries()[k]).0,
        ) && self@.next[self.entries()[k].0] == self.entries()[k].1 by {
            lemma_table_entry(self.transitions@, k);
        }
    }

    /// A state without transitions.
    pub fn new(acceptable: bool) -> (r: State)
        ensures
            r.wf(),
            r@.acceptable == acceptable,
            r@.next == Map::<Symbol, int>::empty(),
            r.entries().len() == 0,
    {
        let r = State { transitions: Vec::new(), acceptable };
        assert(r@.next =~= Map::<Symbol, int>::empty());
        r
    }

    /// Whether a run that ends in this state accepts.
    pub fn acceptable(&self) -> (r: bool)
        ensures
            r == self@.acceptable,
    {
        self.acceptable
    }

    /// Adds a fresh state without transitions to `arena` and returns its
    /// handle.
    pub fn new_node(arena: &mut Vec<State>, acceptable: bool) -> (r: StateNode)
        ensures
            r == old(arena)@.len(),
            final(arena)@.len() == old(arena)@.len() + 1,
            final(arena)@.take(r as int) == old(arena)@,
            final(arena)@[r as int].wf(),
            final(arena)@[r as int]@.acceptable == acceptable,
            final(arena)@[r as int]@.next == Map::<Symbol, int>::empty(),
    {
        let r = arena.len();
        arena.push(State::new(acceptable));
        assert(arena@.take(r as int) =~= old(arena)@);
        r
    }

    /// Sets the transition on `symbol`; one that was there is replaced.
    pub fn transition(&mut self, symbol: Symbol, target: StateNode)
        requires
            old(self).wf(),
        ensures
            final(self).wf(),
            final(self)@.acceptable == old(self)@.acceptable,
            final(self)@.next == old(self)@.next.insert(symbol, target as int),
    {
        let mut k: usize = 0;
        while k < self.transitions.len()
            invariant
                k <= self.transitions.len(),
                self.transitions@ == old(self).transitions@,
                self.acceptable == old(self).acceptable,
                unique_keys(self.transitions@),
                !key_before(self.transitions@, k as int, symbol),
            decreases self.transitions.len() - k,
        {
            let (s, t) = self.transitions[k];
            if s == symbol {
                proof {
                    lemma_table_update(self.transitions@, k as int, target);
                }
                self.transitions[k] = (symbol, target);
                return ;
            }
            proof {
                if key_before(self.transitions@, k as int + 1, symbol) {
                    let j = choose|j: int|
                        0 <= j < k + 1 && j < self.transitions@.len() && (#[trigger] self.transitions@[j]).0
                            == symbol;
                    if j < k {
                        assert(key_before(self.transitions@, k as int, symbol));
                    }
                }
            }
            k += 1;
        }
        proof {
            lemma_table_push(self.transitions@, symbol, target);
        }
        self.transitions.push((symbol, target));
    }

    /// The state that the transition on `symbol` leads to, if there is
    /// one.
    pub fn next_state(&self, symbol: Symbol) -> (r: Option<StateNode>)
        requires
            self.wf(),
        ensures
            r is Some <==> self@.next.contains_key(symbol),
            r matches Some(t) ==> self@.next[symbol] == t,
    {
        let mut k: usize = 0;
        while k < self.transitions.len()
            invariant
                k <= self.transitions.len(),
                self.wf(),
                !key_before(self.transitions@, k as int, symbol),
            decreases self.transitions.len() - k,
        {
            let (s, t) = self.transitions[k];
            if s == symbol {
                proof {
                    lemma_table_entry(self.transitions@, k as int);
                }
                return Some(t);
            }
            proof {
                if key_before(self.transitions@, k as int + 1, symbol) {
                    let j = choose|j: int|
                        0 <= j < k + 1 && j < self.transitions@.len() && (#[trigger] self.transitions@[j]).0
                            == symbol;
                    if j < k {
                        assert(key_before(self.transitions@, k as int, symbol));
                    }
                }
            }
            k += 1;
        }
        None
    }

    /// The number of transitions.
    pub fn degree(&self) -> (r: usize)
        ensures
            r == self.entries().len(),
    {
        self.transitions.len()
    }

    /// The transition at position `k`.
    pub fn edge(&self, k: usize) -> (r: (Symbol, StateNode))
        requires
            k < self.entries().len(),
        ensures
            r == self.entries()[k as int],
    {
        self.transitions[k]
    }
}

impl crate::fsa::State for State {
    open spec fn symbols(&self) -> Set<Symbol> {
        Set::new(|s: Symbol| key_before(self.entries(), self.entries().len() as int, s))
    }

    fn alphabet(&self) -> (r: Vec<Symbol>) {
        let mut out: Vec<Symbol> = Vec::new();
        let mut k: usize = 0;
        while k < self.transitions.len()
            invariant
                k <= self.transitions.len(),
                out@.no_duplicates(),
                forall|s: Symbol| #[trigger] out@.contains(s) <==> key_before(self.entries(), k as int, s),
            decreases self.transitions.len() - k,
        {
            let (s, t) = self.transitions[k];
            let ghost prev = out@;
            let fresh = !crate::fsa::symbol_in(&out, s);
            if fresh {
                out.push(s);
            }
            proof {
                crate::fsa::lemma_contains_push(prev, s);
                assert(self.entries()[k as int] == (s, t));
                assert forall|y: Symbol| #[trigger]
                    out@.contains(y) <==> key_before(self.entries(), k as int + 1, y) by {
                    if fresh {
                        assert(prev.push(s).contains(y) <==> prev.contains(y) || y == s);
                    }
                    if key_before(self.entries(), k as int + 1, y) {
                        let j = choose|j: int|
                            0 <= j < k + 1 && j < self.entries().len() && (#[trigger] self.entries()[j]).0 == y;
                        if j < k {
                            assert(key_before(self.entries(), k as int, y));
                        }
                    }
                    if key_before(self.entries(), k as int, y) {
                        let j = choose|j: int|
                            0 <= j < k && j < self.entries().len() && (#[trigger] self.entries()[j]).0 == y;
                        assert(self.entries()[j].0 == y);
                    }
                }
            }
            k += 1;
        }
        out
    }
}

/// The mathematical model of a deterministic automaton on the states
/// `0..states.len()`.
pub ghost struct DfaModel {
    pub states: Seq<StateModel>,
    pub start: int,
}

impl DfaModel {
    /// The start and the target of every transition are states.
    pub open spec fn wf(self) -> bool {
        &&& 0 <= self.start < self.states.len()
        &&& forall|p: int, s: Symbol|
            0 <= p < self.states.len() && #[trigger] self.states[p].next.contains_key(s) ==> 0
                <= self.states[p].next[s] < self.states.len()
    }

    /// The state that `s` leads to from `p`, if any.
    pub open spec fn next(self, p: int, s: Symbol) -> Option<int> {
        if 0 <= p < self.states.len() && self.states[p].next.contains_key(s) {
            Some(self.states[p].next[s])
        } else {
            None
        }
    }

    /// The state in which reading `w` from `p` ends; `None` where a
    /// transition is missing on the way.
    pub open spec fn run(self, p: int, w: Seq<Symbol>) -> Option<int>
        decreases w.len(),
    {
        if w.len() == 0 {
            Some(p)
        } else {
            match self.next(p, w[0]) {
                Some(q) => self.run(q, w.drop_first()),
                None => None,
            }
        }
    }

    /// What can be observed of reading `w` from `p`: that the automaton
    /// got stuck, or whether it ended in an accepting state.
    pub open spec fn outcome_from(self, p: int, w: Seq<Symbol>) -> Option<bool> {
        match self.run(p, w) {
            Some(q) => Some(self.states[q].acceptable),
            None => None,
        }
    }

    /// What can be observed of reading `w` from the start.
    pub open spec fn outcome(self, w: Seq<Symbol>) -> Option<bool> {
        self.outcome_from(self.start, w)
    }

    /// Reading `w` from the start ends in an accepting state.
    pub open spec fn accepts(self, w: Seq<Symbol>) -> bool {
        self.outcome(w) == Some(true)
    }

    /// The automaton accepts the word of characters `w`.
    pub open spec fn matches(self, w: Seq<char>) -> bool {
        self.accepts(crate::fsa::symbols_of(w))
    }

    /// Some word leads from the start to `q`.
    pub open spec fn reachable(self, q: int) -> bool {
        exists|w: Seq<Symbol>| #[trigger] self.run(self.start, w) == Some(q)
    }

    /// Some word is observed differently from `p` and from `q`.
    pub open spec fn distinguishable(self, p: int, q: int) -> bool {
        exists|w: Seq<Symbol>| #[trigger] self.outcome_from(p, w) != self.outcome_from(q, w)
    }

    /// Every state is reachable and any two states are distinguishable:
    /// no automaton with fewer states is observed in the same way.
    pub open spec fn is_minimal(self) -> bool {
        &&& self.wf()
        &&& forall|q: int| 0 <= q < self.states.len() ==> #[trigger] self.reachable(q)
        &&& forall|p: int, q: int| 0 <= p < q < self.states.len() ==> #[trigger] self.distinguishable(p, q)
    }

    /// No transition is on epsilon.
    pub open spec fn epsilon_free(self) -> bool {
        forall|p: int| 0 <= p < self.states.len() ==> !(#[trigger] self.states[p]).next.contains_key(Symbol::Epsilon)
    }
}

/// The models of the states of an arena.
pub open spec fn models(states: Seq<State>) -> Seq<StateModel> {
    Seq::new(states.len(), |i: int| states[i]@)
}

/// Every state of the arena is well-formed and every transition leads to
/// a state of the arena.
pub open spec fn arena_wf(states: Seq<State>) -> bool {
    forall|i: int|
        0 <= i < states.len() ==> (#[trigger] states[i]).wf() && forall|s: Symbol| #[trigger]
            states[i]@.next.contains_key(s) ==> 0 <= states[i]@.next[s] < states.len()
}

/// A deterministic automaton: an arena of states and a start state. Its
/// states are those that can be reached from the start.
#[derive(Debug)]
pub struct DFA {
    states: Vec<State>,
    start: StateNode,
}

impl View for DFA {
    type V = DfaModel;

    closed spec fn view(&self) -> DfaModel {
        DfaModel { states: models(self.states@), start: self.start as int }
    }
}

impl DFA {
    /// The arena of states.
    pub closed spec fn arena(&self) -> Seq<State> {
        self.states@
    }

    /// The arena is well-formed and holds the start.
    pub closed spec fn wf(&self) -> bool {
        &&& arena_wf(self.states@)
        &&& self.start < self.states@.len()
    }

    /// A well-formed automaton has a well-formed model, over its arena.
    pub proof fn lemma_wf(&self)
        requires
            self.wf(),
        ensures
            self@.wf(),
            self@.states == models(self.arena()),
            self@.states.len() == self.arena().len(),
            arena_wf(self.arena()),
    {
    }

    /// The automaton over the arena `states`.
    pub fn new(states: Vec<State>, start: StateNode) -> (r: DFA)
        requires
            arena_wf(states@),
            start < states@.len(),
        ensures
            r.wf(),
            r@.wf(),
            r.arena() == states@,
            r@ == (DfaModel { states: models(states@), start: start as int }),
    {
        DFA { states, start }
    }

    /// The handle of the start state.
    pub fn start(&self) -> (r: StateNode)
        ensures
            r == self@.start,
    {
        self.start
    }

    /// The number of states in the arena.
    pub fn size(&self) -> (r: usize)
        ensures
            r == self@.states.len(),
    {
        self.states.len()
    }

    /// The states, for read access by handle.
    pub fn states(&self) -> (r: &Vec<State>)
        ensures
            r@ == self.arena(),
    {
        &self.states
    }

    /// The state in which reading `symbols` from the start ends; `None`
    /// where a transition is missing on the way.
    pub fn end_of(&self, symbols: &[Symbol]) -> (r: Option<StateNode>)
        requires
            self.wf(),
        ensures
            r is Some <==> self@.run(self@.start, symbols@) is Some,
            r matches Some(q) ==> self@.run(self@.start, symbols@) == Some(q as int) && q < self@.states.len(),
    {
        let mut state = self.start;
        let mut i: usize = 0;
        assert(symbols@.skip(0) =~= symbols@);
        while i < symbols.len()
            invariant
                i <= symbols@.len(),
                self.wf(),
                state < self.states@.len(),
                self@.run(self@.start, symbols@) == self@.run(state as int, symbols@.skip(i as int)),
            decreases symbols@.len() - i,
        {
            let ghost rest = symbols@.skip(i as int);
            assert(rest[0] == symbols@[i as int]);
            assert(rest.drop_first() =~= symbols@.skip(i as int + 1));
            match self.states[state].next_state(symbols[i]) {
                Some(next) => {
                    state = next;
                },
                None => {
                    return None;
                },
            }
            i += 1;
        }
        Some(state)
    }
}

} // verus!
