//! Nondeterministic automata with epsilon moves, and the set operations of
//! the subset construction.
use crate::fsa::graph::{eclose, eps_edge_closed, lemma_eclose_closed, lemma_eclose_edge, lemma_eclose_least, moved, reach, Edge};
use crate::fsa::{key_before, lemma_contains_push, lemma_members_empty, lemma_members_push, members, symbol_in, StateNode, StateSet, Symbol};
use vstd::prelude::*;

verus! {

/// The targets of those of the first `k` transitions of `t` that are on
/// `sym`, in the order of the transitions.
pub open spec fn targets_before(t: Seq<(Symbol, StateNode)>, k: int, sym: Symbol) -> Seq<StateNode>
    decreases k,
{
    if k <= 0 {
        Seq::empty()
    } else if t[k - 1].0 == sym {
        targets_before(t, k - 1, sym).push(t[k - 1].1)
    } else {
        targets_before(t, k - 1, sym)
    }
}

/// A state of a nondeterministic automaton: its outgoing transitions in the
/// order in which they were added. Several may carry the same symbol.
#[derive(Debug)]
pub struct State {
    transitions: Vec<(Symbol, StateNode)>,
}

impl View for State {
    type V = Seq<(Symbol, StateNode)>;

    closed spec fn view(&self) -> Seq<(Symbol, StateNode)> {
        self.transitions@
    }
}

impl State {
    /// One of the first `k` transitions leads to `to` on `sym`.
    pub open spec fn has_before(&self, k: int, sym: Symbol, to: int) -> bool {
        exists|j: int| 0 <= j < k && j < self@.len() && (#[trigger] self@[j]).0 == sym && self@[j].1 == to
    }

    /// A transition leads to `to` on `sym`.
    pub open spec fn has(&self, sym: Symbol, to: int) -> bool {
        self.has_before(self@.len() as int, sym, to)
    }

    /// Every transition leads to a handle below `n`.
    pub open spec fn bounded(&self, n: int) -> bool {
        forall|k: int| 0 <= k < self@.len() ==> (#[trigger] self@[k]).1 < n
    }

    /// A state without transitions.
    pub fn new() -> (r: State)
        ensures
            r@.len() == 0,
    {
        State { transitions: Vec::new() }
    }

    /// Adds a fresh state without transitions to `arena` and returns its
    /// handle.
    pub fn new_node(arena: &mut Vec<State>) -> (r: StateNode)
        ensures
            r == old(arena)@.len(),
            final(arena)@.len() == old(arena)@.len() + 1,
            final(arena)@.take(r as int) == old(arena)@,
            final(arena)@[r as int]@.len() == 0,
    {
        let r = arena.len();
        arena.push(State::new());
        assert(arena@.take(r as int) =~= old(arena)@);
        r
    }

    /// Adds a transition that reads no input.
    pub fn e_transition(&mut self, target: StateNode)
        ensures
            final(self)@ == old(self)@.push((Symbol::Epsilon, target)),
    {
        self.transition(Symbol::Epsilon, target)
    }

    /// Adds a transition on `symbol`, behind those that are there.
    pub fn transition(&mut self, symbol: Symbol, target: StateNode)
        ensures
            final(self)@ == old(self)@.push((symbol, target)),
    {
        self.transitions.push((symbol, target));
    }

    /// The number of transitions.
    pub fn degree(&self) -> (r: usize)
        ensures
            r == self@.len(),
    {
        self.transitions.len()
    }

    /// The transition at position `k`.
    pub fn edge(&self, k: usize) -> (r: (Symbol, StateNode))
        requires
            k < self@.len(),
        ensures
            r == self@[k as int],
    {
        self.transitions[k]
    }

    /// The targets of the transitions on `symbol`, in the order of the
    /// transitions; `None` where there is no such transition.
    pub fn next_states(&self, symbol: Symbol) -> (r: Option<Vec<StateNode>>)
        ensures
            r is Some <==> key_before(self@, self@.len() as int, symbol),
            r matches Some(v) ==> v@ == targets_before(self@, self@.len() as int, symbol),
            r matches Some(v) ==> forall|q: int| #[trigger] members(v@).contains(q) <==> self.has(symbol, q),
            r is None ==> forall|q: int| !self.has(symbol, q),
    {
        let mut out: Vec<StateNode> = Vec::new();
        let mut k: usize = 0;
        proof {
            lemma_members_empty(out@);
        }
        while k < self.transitions.len()
            invariant
                k <= self.transitions.len(),
                forall|q: int| #[trigger] members(out@).contains(q) <==> self.has_before(k as int, symbol, q),
                out@.len() > 0 <==> key_before(self@, k as int, symbol),
                out@ == targets_before(self@, k as int, symbol),
            decreases self.transitions.len() - k,
        {
            let (s, t) = self.transitions[k];
            let ghost prev = out@;
            if s == symbol {
                out.push(t);
                proof {
                    lemma_members_push(prev, t);
                }
            }
            proof {
                assert(self@[k as int] == (s, t));
                assert forall|q: int| #[trigger]
                    members(out@).contains(q) <==> self.has_before(k as int + 1, symbol, q) by {
                    if self.has_before(k as int + 1, symbol, q) {
                        let j = choose|j: int|
                            0 <= j < k + 1 && j < self@.len() && (#[trigger] self@[j]).0 == symbol && self@[j].1
                                == q;
                        if j < k {
                            assert(self.has_before(k as int, symbol, q));
                        }
                    }
                    if self.has_before(k as int, symbol, q) {
                        let j = choose|j: int|
                            0 <= j < k && j < self@.len() && (#[trigger] self@[j]).0 == symbol && self@[j].1 == q;
                        assert(self@[j].0 == symbol);
                    }
                }
                if key_before(self@, k as int + 1, symbol) {
                    let j = choose|j: int| 0 <= j < k + 1 && j < self@.len() && (#[trigger] self@[j]).0 == symbol;
                    if j < k {
                        assert(key_before(self@, k as int, symbol));
                    }
                }
                if key_before(self@, k as int, symbol) {
                    let j = choose|j: int| 0 <= j < k && j < self@.len() && (#[trigger] self@[j]).0 == symbol;
                    assert(self@[j].0 == symbol);
                }
            }
            k += 1;
        }
        if out.len() == 0 {
            proof {
                assert forall|q: int| !self.has(symbol, q) by {
                    if self.has(symbol, q) {
                        let j = choose|j: int|
                            0 <= j < self@.len() && j < self@.len() && (#[trigger] self@[j]).0 == symbol
                                && self@[j].1 == q;
                        assert(key_before(self@, self@.len() as int, symbol));
                    }
                }
            }
            None
        } else {
            Some(out)
        }
    }

    /// A copy of the state whose targets are moved up by `off`.
    pub fn shifted(&self, off: usize) -> (r: State)
        requires
            forall|k: int| 0 <= k < self@.len() ==> (#[trigger] self@[k]).1 + off <= usize::MAX,
        ensures
            r@.len() == self@.len(),
            forall|k: int| 0 <= k < self@.len() ==> (#[trigger] r@[k]).0 == self@[k].0 && r@[k].1 == self@[k].1 + off,
    {
        let mut out: Vec<(Symbol, StateNode)> = Vec::new();
        let mut k: usize = 0;
        while k < self.transitions.len()
            invariant
                k <= self.transitions.len(),
                out@.len() == k,
                forall|j: int| 0 <= j < self@.len() ==> (#[trigger] self@[j]).1 + off <= usize::MAX,
                forall|j: int| 0 <= j < k ==> (#[trigger] out@[j]).0 == self@[j].0 && out@[j].1 == self@[j].1 + off,
            decreases self.transitions.len() - k,
        {
            let (s, t) = self.transitions[k];
            assert(self@[k as int] == (s, t));
            out.push((s, t + off));
            k += 1;
        }
        State { transitions: out }
    }
}

impl crate::fsa::State for State {
    open spec fn symbols(&self) -> Set<Symbol> {
        Set::new(|s: Symbol| key_before(self@, self@.len() as int, s))
    }

    fn alphabet(&self) -> (r: Vec<Symbol>) {
        let mut out: Vec<Symbol> = Vec::new();
        let mut k: usize = 0;
        while k < self.transitions.len()
            invariant
                k <= self.transitions.len(),
                out@.no_duplicates(),
                forall|s: Symbol| #[trigger] out@.contains(s) <==> key_before(self@, k as int, s),
            decreases self.transitions.len() - k,
        {
            let (s, t) = self.transitions[k];
            let ghost prev = out@;
            let fresh = !symbol_in(&out, s);
            if fresh {
                out.push(s);
            }
            proof {
                lemma_contains_push(prev, s);
                assert(self@[k as int] == (s, t));
                assert forall|y: Symbol| #[trigger] out@.contains(y) <==> key_before(self@, k as int + 1, y) by {
                    if fresh {
                        assert(prev.push(s).contains(y) <==> prev.contains(y) || y == s);
                    }
                    if key_before(self@, k as int + 1, y) {
                        let j = choose|j: int| 0 <= j < k + 1 && j < self@.len() && (#[trigger] self@[j]).0 == y;
                        if j < k {
                            assert(key_before(self@, k as int, y));
                        }
                    }
                    if key_before(self@, k as int, y) {
                        let j = choose|j: int| 0 <= j < k && j < self@.len() && (#[trigger] self@[j]).0 == y;
                        assert(self@[j].0 == y);
                    }
                }
            }
            k += 1;
        }
        out
    }
}

/// The mathematical model of a nondeterministic automaton: a graph on the
/// states `0..size` with a start and an end state.
pub ghost struct NfaModel {
    pub size: int,
    pub edges: Set<Edge>,
    pub start: int,
    pub end: int,
}

impl NfaModel {
    /// Start, end and both ends of every edge are states of the automaton.
    pub open spec fn wf(self) -> bool {
        &&& 0 <= self.start < self.size
        &&& 0 <= self.end < self.size
        &&& forall|e: Edge| #[trigger] self.edges.contains(e) ==> 0 <= e.from < self.size && 0 <= e.to < self.size
    }

    /// Some path from the start to the end state spells `w`.
    pub open spec fn accepts(self, w: Seq<char>) -> bool {
        reach(self.edges, self.start, w, self.end)
    }

    /// The set of states with which the simulation starts.
    pub open spec fn initial(self) -> Set<int> {
        eclose(self.edges, Set::<int>::empty().insert(self.start))
    }

    /// The simulation by sets of states, run on `w`, ends in a set that
    /// holds the end state.
    pub open spec fn simulates(self, w: Seq<char>) -> bool {
        crate::fsa::graph::simulate(self.edges, self.initial(), w).contains(self.end)
    }
}

/// The two ways of saying what an automaton accepts agree.
pub proof fn lemma_simulates_iff_accepts(m: NfaModel, w: Seq<char>)
    ensures
        m.simulates(w) == m.accepts(w),
{
    crate::fsa::graph::lemma_simulate_reach(m.edges, m.start, w, m.end);
}

/// The transitions of an arena of states, as a graph.
pub open spec fn edges_of(states: Seq<State>) -> Set<Edge> {
    Set::new(|e: Edge| 0 <= e.from < states.len() && states[e.from].has(e.sym, e.to))
}

/// Every transition of the arena leads to a state of the arena.
pub open spec fn arena_wf(states: Seq<State>) -> bool {
    forall|i: int| 0 <= i < states.len() ==> (#[trigger] states[i]).bounded(states.len() as int)
}

/// In a well-formed arena both ends of every edge are states.
pub proof fn lemma_edges_bounded(states: Seq<State>)
    requires
        arena_wf(states),
    ensures
        forall|e: Edge| #[trigger]
            edges_of(states).contains(e) ==> 0 <= e.from < states.len() && 0 <= e.to < states.len(),
{
    assert forall|e: Edge| #[trigger] edges_of(states).contains(e) implies 0 <= e.from < states.len() && 0
        <= e.to < states.len() by {
        let st = states[e.from];
        let j = choose|j: int|
            0 <= j < st@.len() && j < st@.len() && (#[trigger] st@[j]).0 == e.sym && st@[j].1 == e.to;
        assert(st.bounded(states.len() as int));
    }
}

/// A nondeterministic automaton: an arena of states with one start and one
/// end state. It accepts a word if a path from start to end spells it.
#[derive(Debug)]
pub struct NFA {
    states: Vec<State>,
    start: StateNode,
    end: StateNode,
}

impl View for NFA {
    type V = NfaModel;

    closed spec fn view(&self) -> NfaModel {
        NfaModel {
            size: self.states@.len() as int,
            edges: edges_of(self.states@),
            start: self.start as int,
            end: self.end as int,
        }
    }
}

impl NFA {
    /// The arena of states.
    pub closed spec fn arena(&self) -> Seq<State> {
        self.states@
    }

    /// The arena is well-formed and holds start and end.
    pub closed spec fn wf(&self) -> bool {
        &&& arena_wf(self.states@)
        &&& self.start < self.states@.len()
        &&& self.end < self.states@.len()
    }

    /// A well-formed automaton has a well-formed model, over its arena.
    pub proof fn lemma_wf(&self)
        requires
            self.wf(),
        ensures
            self@.wf(),
            self@.size == self.arena().len(),
            self@.edges == edges_of(self.arena()),
            arena_wf(self.arena()),
    {
        lemma_edges_bounded(self.states@);
    }

    /// The automaton over the arena `states`.
    pub fn new(states: Vec<State>, start: StateNode, end: StateNode) -> (r: NFA)
        requires
            arena_wf(states@),
            start < states@.len(),
            end < states@.len(),
        ensures
            r.wf(),
            r@.wf(),
            r.arena() == states@,
            r@ == (NfaModel {
                size: states@.len() as int,
                edges: edges_of(states@),
                start: start as int,
                end: end as int,
            }),
    {
        proof {
            lemma_edges_bounded(states@);
        }
        NFA { states, start, end }
    }

    /// The handle of the start state.
    pub fn start(&self) -> (r: StateNode)
        ensures
            r == self@.start,
    {
        self.start
    }

    /// The handle of the end state.
    pub fn end(&self) -> (r: StateNode)
        ensures
            r == self@.end,
    {
        self.end
    }

    /// The number of states.
    pub fn size(&self) -> (r: usize)
        ensures
            r == self@.size,
    {
        self.states.len()
    }

    /// The states, for read access by handle.
    pub fn states(&self) -> (r: &Vec<State>)
        ensures
            r@ == self.arena(),
    {
        &self.states
    }

    /// Takes the automaton apart into its arena, start and end.
    pub fn into_parts(self) -> (r: (Vec<State>, StateNode, StateNode))
        ensures
            r.0@ == self.arena(),
            r.1 == self@.start,
            r.2 == self@.end,
    {
        (self.states, self.start, self.end)
    }
}

/// The handle `q` waits in `queue` at or behind position `head`.
pub open spec fn pending(queue: Seq<StateNode>, head: int, q: int) -> bool {
    exists|k: int| head <= k < queue.len() && #[trigger] queue[k] == q
}

/// The targets of the edges on `sym` that leave `p`.
pub open spec fn targets(g: Set<Edge>, p: int, sym: Symbol) -> Set<int> {
    Set::new(|q: int| g.contains(Edge { from: p, sym, to: q }))
}

/// Moving from a set with one more state reaches what was reached, and
/// the targets of that state.
pub proof fn lemma_moved_insert(g: Set<Edge>, s: Set<int>, p: int, sym: Symbol)
    ensures
        moved(g, s.insert(p), sym) == moved(g, s, sym).union(targets(g, p, sym)),
{
    let a = moved(g, s.insert(p), sym);
    let b = moved(g, s, sym).union(targets(g, p, sym));
    assert forall|q: int| a.contains(q) <==> b.contains(q) by {
        if a.contains(q) {
            let via = choose|via: int| s.insert(p).contains(via) && #[trigger] g.contains(Edge { from: via, sym, to: q });
            if via != p {
                assert(s.contains(via));
                assert(moved(g, s, sym).contains(q));
            }
        }
        if moved(g, s, sym).contains(q) {
            let via = choose|via: int| s.contains(via) && #[trigger] g.contains(Edge { from: via, sym, to: q });
            assert(s.insert(p).contains(via));
        }
        if targets(g, p, sym).contains(q) {
            assert(s.insert(p).contains(p) && g.contains(Edge { from: p, sym, to: q }));
        }
    }
    assert(a =~= b);
}

impl StateSet {
    /// The states that one transition on `symbol` reaches from a member.
    pub fn move_to(&self, nfa: &NFA, symbol: Symbol) -> (r: StateSet)
        requires
            self.wf(),
            nfa.wf(),
            self.within(nfa@.size),
        ensures
            r.wf(),
            r.within(nfa@.size),
            r@ == moved(nfa@.edges, self@, symbol),
    {
        let ghost g = nfa@.edges;
        let mut set = StateSet::new();
        let mut i: usize = 0;
        proof {
            nfa.lemma_wf();
            lemma_members_empty(self.key_view().take(0));
            assert(moved(g, Set::<int>::empty(), symbol) =~= Set::<int>::empty());
        }
        while i < self.len()
            invariant
                i <= self.key_view().len(),
                self.wf(),
                nfa.wf(),
                self.within(nfa@.size),
                g == nfa@.edges,
                set.wf(),
                set@ == moved(g, members(self.key_view().take(i as int)), symbol),
            decreases self.key_view().len() - i,
        {
            let p = self.get(i);
            let ghost done = members(self.key_view().take(i as int));
            proof {
                nfa.lemma_wf();
                lemma_members_push(self.key_view().take(i as int), p);
                assert(self.key_view().take(i as int + 1) =~= self.key_view().take(i as int).push(p));
                lemma_moved_insert(g, done, p as int, symbol);
            }
            match nfa.states[p].next_states(symbol) {
                Some(next) => {
                    set.extend(&next);
                    assert(members(next@) =~= targets(g, p as int, symbol));
                },
                None => {
                    assert(targets(g, p as int, symbol) =~= Set::<int>::empty());
                    assert(set@.union(Set::<int>::empty()) =~= set@);
                },
            }
            i += 1;
        }
        proof {
            nfa.lemma_wf();
            assert(self.key_view().take(self.key_view().len() as int) =~= self.key_view());
            assert forall|q: int| set@.contains(q) implies 0 <= q < nfa@.size by {
                let p = choose|p: int| self@.contains(p) && #[trigger] g.contains(Edge { from: p, sym: symbol, to: q });
            }
        }
        set
    }

    /// The states that are reached from a member without reading input,
    /// the members among them.
    pub fn e_closure(&self, nfa: &NFA) -> (r: StateSet)
        requires
            self.wf(),
            nfa.wf(),
            self.within(nfa@.size),
        ensures
            r.wf(),
            r.within(nfa@.size),
            r@ == eclose(nfa@.edges, self@),
    {
        let ghost g = nfa@.edges;
        let ghost goal = eclose(g, self@);
        let n = nfa.states.len();
        let mut set = StateSet::new();
        let mut queue: Vec<StateNode> = self.states();
        let mut head: usize = 0;
        proof {
            nfa.lemma_wf();
            lemma_eclose_closed(g, self@);
            assert forall|q: int| self@.contains(q) implies pending(queue@, 0, q) by {
                let k = choose|k: int| 0 <= k < self.key_view().len() && #[trigger] self.key_view()[k] == q;
                assert(queue@[k] == q);
            }
            assert forall|k: int| 0 <= k < queue@.len() implies goal.contains(#[trigger] queue@[k] as int) by {
                assert(self@.contains(queue@[k] as int));
            }
        }
        while head < queue.len()
            invariant
                head <= queue@.len(),
                n == nfa@.size,
                nfa.wf(),
                g == nfa@.edges,
                goal == eclose(g, self@),
                self.within(n as int),
                set.wf(),
                set.within(n as int),
                forall|k: int| 0 <= k < queue@.len() ==> goal.contains(#[trigger] queue@[k] as int),
                set@.subset_of(goal),
                forall|q: int| self@.contains(q) ==> set@.contains(q) || pending(queue@, head as int, q),
                forall|e: Edge| #[trigger]
                    g.contains(e) && e.sym == Symbol::Epsilon && set@.contains(e.from) ==> set@.contains(e.to)
                        || pending(queue@, head as int, e.to),
            decreases n - set.key_view().len(), queue@.len() - head,
        {
            let state = queue[head];
            let ghost old_queue = queue@;
            let ghost old_set = set@;
            proof {
                nfa.lemma_wf();
                set.lemma_len_bound(n as int);
                assert forall|q: int| pending(old_queue, head as int, q) implies q == state || pending(
                    old_queue,
                    head as int + 1,
                    q,
                ) by {
                    let k = choose|k: int| head <= k < old_queue.len() && #[trigger] old_queue[k] == q;
                    if k != head {
                        assert(pending(old_queue, head as int + 1, q));
                    }
                }
            }
            head += 1;
            if set.contains(state) {
                continue ;
            }
            assert(goal.contains(state as int));
            assert(0 <= state < n) by {
                lemma_eclose_bounded(nfa@, self@, state as int);
            }
            match nfa.states[state].next_states(Symbol::Epsilon) {
                Some(next) => {
                    let mut next = next;
                    let ghost added = next@;
                    queue.append(&mut next);
                    proof {
                        assert forall|k: int| 0 <= k < queue@.len() implies goal.contains(
                            #[trigger] queue@[k] as int,
                        ) by {
                            if k >= old_queue.len() {
                                let t = added[k - old_queue.len()];
                                assert(members(added).contains(t as int));
                                let e = Edge { from: state as int, sym: Symbol::Epsilon, to: t as int };
                                assert(g.contains(e));
                                lemma_eclose_edge(g, self@, e);
                            } else {
                                assert(queue@[k] == old_queue[k]);
                            }
                        }
                        assert forall|q: int| pending(old_queue, head as int, q) implies pending(
                            queue@,
                            head as int,
                            q,
                        ) by {
                            let k = choose|k: int| head <= k < old_queue.len() && #[trigger] old_queue[k] == q;
                            assert(queue@[k] == q);
                        }
                        assert forall|e: Edge| #[trigger]
                            g.contains(e) && e.sym == Symbol::Epsilon && e.from == state implies pending(
                            queue@,
                            head as int,
                            e.to,
                        ) by {
                            assert(members(added).contains(e.to));
                            let j = choose|j: int| 0 <= j < added.len() && #[trigger] added[j] == e.to;
                            assert(queue@[old_queue.len() + j] == e.to);
                        }
                    }
                },
                None => {
                    proof {
                        assert forall|e: Edge| #[trigger]
                            g.contains(e) && e.sym == Symbol::Epsilon && e.from == state implies pending(
                            queue@,
                            head as int,
                            e.to,
                        ) by {
                            assert(nfa.arena()[state as int].has(Symbol::Epsilon, e.to));
                        }
                    }
                },
            }
            set.insert(state);
            proof {
                set.lemma_len_bound(n as int);
            }
        }
        proof {
            assert forall|q: int| !pending(queue@, head as int, q) by {}
            assert(self@.subset_of(set@));
            assert(eps_edge_closed(g, set@));
            lemma_eclose_least(g, self@, set@);
        }
        set
    }
}

/// The closure of a set of states of a well-formed automaton holds states
/// of the automaton only.
pub proof fn lemma_eclose_bounded(m: NfaModel, s: Set<int>, q: int)
    requires
        m.wf(),
        forall|p: int| s.contains(p) ==> 0 <= p < m.size,
        eclose(m.edges, s).contains(q),
    ensures
        0 <= q < m.size,
{
    let inside = Set::new(|x: int| 0 <= x < m.size);
    let p = choose|p: int| s.contains(p) && #[trigger] reach(m.edges, p, Seq::empty(), q);
    let a = choose|a: Seq<Edge>| #[trigger]
        crate::fsa::graph::is_path(m.edges, a, p, q) && crate::fsa::graph::label(a) == Seq::<char>::empty();
    assert(eps_edge_closed(m.edges, inside));
    crate::fsa::graph::lemma_eps_path_stays(m.edges, inside, a, p, q);
}

} // verus!
