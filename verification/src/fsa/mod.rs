//! Building blocks shared by both kinds of automaton: input symbols and
//! canonical sets of states.
use vstd::prelude::*;

pub mod count;
pub mod dfa;
pub mod graph;
pub mod minimal;
pub mod minimize;
pub mod nfa;
pub mod partition;
pub mod subset;
pub mod thompson;

verus! {

/// One element of the input alphabet, or the marker of a move that reads no
/// input.
#[derive(Clone, Copy, PartialEq, Eq, Structural, Debug, Hash)]
pub enum Symbol {
    /// No input is read.
    Epsilon,
    /// The character is read.
    Char(char),
}

impl Symbol {
    /// Whether this is the marker of a move that reads no input.
    pub fn is_epsilon(&self) -> (r: bool)
        ensures
            r == (*self == Symbol::Epsilon),
    {
        *self == Symbol::Epsilon
    }
}

impl From<char> for Symbol {
    fn from(c: char) -> (r: Symbol) {
        Symbol::Char(c)
    }
}

impl vstd::std_specs::convert::FromSpecImpl<char> for Symbol {
    open spec fn obeys_from_spec() -> bool {
        true
    }

    open spec fn from_spec(c: char) -> Symbol {
        Symbol::Char(c)
    }
}

/// The symbol that the character at position `i` of `w` stands for.
pub open spec fn symbol_at(w: Seq<char>, i: int) -> Symbol {
    Symbol::Char(w[i])
}

/// The word of symbols that a word of characters stands for.
pub open spec fn symbols_of(w: Seq<char>) -> Seq<Symbol> {
    Seq::new(w.len(), |i: int| symbol_at(w, i))
}

/// Handle of a state: its position in the arena of the automaton that owns it.
pub type StateNode = usize;

/// What every kind of state offers to the set operations.
pub trait State {
    /// The symbols on which the state has at least one transition.
    spec fn symbols(&self) -> Set<Symbol>;

    /// The symbols of `symbols`, each listed once.
    fn alphabet(&self) -> (r: Vec<Symbol>)
        ensures
            r@.no_duplicates(),
            forall|s: Symbol| #[trigger] r@.contains(s) <==> self.symbols().contains(s),
    ;
}

/// One of the first `k` transitions of `t` is on the symbol `s`.
pub open spec fn key_before(t: Seq<(Symbol, StateNode)>, k: int, s: Symbol) -> bool {
    exists|j: int| 0 <= j < k && j < t.len() && (#[trigger] t[j]).0 == s
}

/// Every element is smaller than the elements after it.
pub open spec fn increasing(s: Seq<usize>) -> bool {
    forall|i: int, j: int| 0 <= i < j < s.len() ==> s[i] < s[j]
}

/// The set of values that occur in `s`.
pub open spec fn members(s: Seq<usize>) -> Set<int> {
    Set::new(|q: int| exists|k: int| 0 <= k < s.len() && #[trigger] s[k] == q)
}

/// The empty sequence has no members.
pub proof fn lemma_members_empty(s: Seq<usize>)
    requires
        s.len() == 0,
    ensures
        members(s) == Set::<int>::empty(),
{
    assert(members(s) =~= Set::<int>::empty());
}

/// One more element at the end is one more member.
pub proof fn lemma_members_push(s: Seq<usize>, x: usize)
    ensures
        members(s.push(x)) == members(s).insert(x as int),
{
    let t = s.push(x);
    assert forall|q: int| members(t).contains(q) <==> members(s).insert(x as int).contains(q) by {
        if members(t).contains(q) {
            let k = choose|k: int| 0 <= k < t.len() && #[trigger] t[k] == q;
            if k < s.len() {
                assert(s[k] == q);
            }
        }
        if members(s).contains(q) {
            let k = choose|k: int| 0 <= k < s.len() && #[trigger] s[k] == q;
            assert(t[k] == q);
        }
        if q == x {
            assert(t[s.len() as int] == q);
        }
    }
    assert(members(t) =~= members(s).insert(x as int));
}

/// In an increasing sequence the element at position `k` is at least `k`.
pub proof fn lemma_increasing_lower(s: Seq<usize>, k: int)
    requires
        increasing(s),
        0 <= k < s.len(),
    ensures
        s[k] >= k,
    decreases k,
{
    if k > 0 {
        lemma_increasing_lower(s, k - 1);
    }
}

/// An increasing sequence of values below `n` has at most `n` elements.
pub proof fn lemma_increasing_bound(s: Seq<usize>, n: int)
    requires
        increasing(s),
        forall|k: int| 0 <= k < s.len() ==> s[k] < n,
        0 <= n,
    ensures
        s.len() <= n,
{
    if s.len() > 0 {
        lemma_increasing_lower(s, s.len() - 1);
    }
}

/// The canonical key decides equality: two increasing sequences with the same
/// members are the same sequence.
pub proof fn lemma_increasing_unique(a: Seq<usize>, b: Seq<usize>)
    requires
        increasing(a),
        increasing(b),
        members(a) == members(b),
    ensures
        a == b,
    decreases a.len(),
{
    if a.len() == 0 {
        if b.len() > 0 {
            assert(members(b).contains(b[0] as int));
            let k = choose|k: int| 0 <= k < a.len() && #[trigger] a[k] == b[0];
        }
        assert(a =~= b);
    } else {
        let x = a.last();
        assert(a[a.len() - 1] == x);
        assert(members(a).contains(x as int));
        let kb = choose|k: int| 0 <= k < b.len() && #[trigger] b[k] == x;
        let y = b.last();
        assert(b[b.len() - 1] == y);
        assert(members(b).contains(y as int));
        let ka = choose|k: int| 0 <= k < a.len() && #[trigger] a[k] == y;
        assert(x == y);
        let a1 = a.drop_last();
        let b1 = b.drop_last();
        assert forall|q: int| members(a1).contains(q) <==> members(b1).contains(q) by {
            if members(a1).contains(q) {
                let k = choose|k: int| 0 <= k < a1.len() && #[trigger] a1[k] == q;
                assert(a[k] == q);
                assert(members(a).contains(q));
                let j = choose|j: int| 0 <= j < b.len() && #[trigger] b[j] == q;
                assert(j < b.len() - 1);
                assert(b1[j] == q);
            }
            if members(b1).contains(q) {
                let k = choose|k: int| 0 <= k < b1.len() && #[trigger] b1[k] == q;
                assert(b[k] == q);
                assert(members(b).contains(q));
                let j = choose|j: int| 0 <= j < a.len() && #[trigger] a[j] == q;
                assert(j < a.len() - 1);
                assert(a1[j] == q);
            }
        }
        assert(members(a1) =~= members(b1));
        lemma_increasing_unique(a1, b1);
        assert(a =~= a1.push(x));
        assert(b =~= b1.push(y));
    }
}

/// Putting `x` at its place in an increasing sequence keeps it increasing
/// and adds `x` to the members.
pub proof fn lemma_insert_increasing(s: Seq<usize>, i: int, x: usize)
    requires
        increasing(s),
        0 <= i <= s.len(),
        forall|k: int| 0 <= k < i ==> s[k] < x,
        i < s.len() ==> x < s[i],
    ensures
        increasing(s.insert(i, x)),
        members(s.insert(i, x)) == members(s).insert(x as int),
{
    let t = s.insert(i, x);
    assert(t.len() == s.len() + 1);
    assert(forall|k: int| 0 <= k < i ==> t[k] == s[k]);
    assert(t[i] == x);
    assert(forall|k: int| i < k < t.len() ==> t[k] == s[k - 1]);
    assert forall|a: int, b: int| 0 <= a < b < t.len() implies t[a] < t[b] by {
        if b < i {
        } else if b == i {
        } else {
            if a < i {
                assert(s[a] < x);
                if i < b - 1 {
                    assert(s[i] < s[b - 1]);
                }
            } else if a == i {
                if i < b - 1 {
                    assert(s[i] < s[b - 1]);
                }
            } else {
                assert(s[a - 1] < s[b - 1]);
            }
        }
    }
    assert forall|q: int| members(t).contains(q) <==> members(s).insert(x as int).contains(q) by {
        if members(t).contains(q) {
            let k = choose|k: int| 0 <= k < t.len() && #[trigger] t[k] == q;
            if k < i {
                assert(s[k] == q);
            } else if k > i {
                assert(s[k - 1] == q);
            }
        }
        if members(s).contains(q) {
            let k = choose|k: int| 0 <= k < s.len() && #[trigger] s[k] == q;
            if k < i {
                assert(t[k] == q);
            } else {
                assert(t[k + 1] == q);
            }
        }
        if q == x {
            assert(t[i] == q);
        }
    }
    assert(members(t) =~= members(s).insert(x as int));
}

/// A set of states, kept as the increasing sequence of its members'
/// handles. That sequence is the canonical key of the set: it depends
/// neither on the order in which the members came nor on how often.
#[derive(Debug, Hash)]
pub struct StateSet {
    ids: Vec<StateNode>,
}

impl View for StateSet {
    type V = Set<int>;

    open spec fn view(&self) -> Set<int> {
        members(self.key_view())
    }
}

impl PartialEq for StateSet {
    /// Two sets are equal if their keys are.
    fn eq(&self, other: &Self) -> (r: bool) {
        if self.ids.len() != other.ids.len() {
            return false;
        }
        let mut i: usize = 0;
        while i < self.ids.len()
            invariant
                i <= self.ids.len(),
                self.ids.len() == other.ids.len(),
                forall|k: int| 0 <= k < i ==> self.ids@[k] == other.ids@[k],
            decreases self.ids.len() - i,
        {
            if self.ids[i] != other.ids[i] {
                return false;
            }
            i += 1;
        }
        assert(self.ids@ =~= other.ids@);
        true
    }
}

impl Eq for StateSet {

}

impl vstd::std_specs::cmp::PartialEqSpecImpl for StateSet {
    open spec fn obeys_eq_spec() -> bool {
        true
    }

    open spec fn eq_spec(&self, other: &Self) -> bool {
        self.key_view() == other.key_view()
    }
}

impl Clone for StateSet {
    fn clone(&self) -> (r: Self)
        ensures
            r.key_view() == self.key_view(),
    {
        StateSet { ids: self.ids.clone() }
    }
}

impl StateSet {
    /// The canonical key: the members in increasing order.
    pub closed spec fn key_view(&self) -> Seq<usize> {
        self.ids@
    }

    /// The key is increasing, so that no member occurs twice.
    pub open spec fn wf(&self) -> bool {
        increasing(self.key_view())
    }

    /// All members are handles below `n`.
    pub open spec fn within(&self, n: int) -> bool {
        forall|q: int| self@.contains(q) ==> 0 <= q < n
    }

    /// A set of handles below `n` has at most `n` members.
    pub proof fn lemma_len_bound(&self, n: int)
        requires
            self.wf(),
            self.within(n),
            0 <= n,
        ensures
            self.key_view().len() <= n,
    {
        assert forall|k: int| 0 <= k < self.ids@.len() implies self.ids@[k] < n by {
            assert(self@.contains(self.ids@[k] as int));
        }
        lemma_increasing_bound(self.ids@, n);
    }

    /// The empty set.
    pub fn new() -> (r: Self)
        ensures
            r.wf(),
            r@ == Set::<int>::empty(),
            r.key_view().len() == 0,
    {
        let r = StateSet { ids: Vec::new() };
        proof {
            lemma_members_empty(r.ids@);
        }
        r
    }

    /// The set that holds `state` and nothing else.
    pub fn from_single(state: StateNode) -> (r: Self)
        ensures
            r.wf(),
            r@ == Set::<int>::empty().insert(state as int),
            r.key_view().len() == 1,
    {
        let mut set = Self::new();
        set.insert(state);
        set
    }

    /// The set of the handles in `states`, in whatever order and however
    /// often they occur there.
    pub fn from_states(states: &Vec<StateNode>) -> (r: Self)
        ensures
            r.wf(),
            r@ == members(states@),
    {
        let mut set = Self::new();
        set.extend(states);
        assert(set@ =~= members(states@));
        set
    }

    /// Adds `state`, at its place in the key; a member is not added again.
    pub fn insert(&mut self, state: StateNode)
        requires
            old(self).wf(),
        ensures
            final(self).wf(),
            final(self)@ == old(self)@.insert(state as int),
            final(self).key_view().len() == old(self).key_view().len() + if old(self)@.contains(state as int) {
                0int
            } else {
                1int
            },
    {
        let mut i: usize = 0;
        while i < self.ids.len() && self.ids[i] < state
            invariant
                i <= self.ids.len(),
                self.ids@ == old(self).ids@,
                forall|k: int| 0 <= k < i ==> self.ids@[k] < state,
            decreases self.ids.len() - i,
        {
            i += 1;
        }
        if i < self.ids.len() && self.ids[i] == state {
            assert(self.ids@[i as int] == state);
            assert(self@ =~= old(self)@.insert(state as int));
        } else {
            proof {
                lemma_insert_increasing(self.ids@, i as int, state);
                if old(self)@.contains(state as int) {
                    let k = choose|k: int| 0 <= k < self.ids@.len() && #[trigger] self.ids@[k] == state;
                    if k < i {
                    } else {
                        assert(self.ids@[i as int] <= self.ids@[k]);
                    }
                }
            }
            self.ids.insert(i, state);
        }
    }

    /// Adds every handle in `states`.
    pub fn extend(&mut self, states: &Vec<StateNode>)
        requires
            old(self).wf(),
        ensures
            final(self).wf(),
            final(self)@ == old(self)@.union(members(states@)),
    {
        let mut i: usize = 0;
        proof {
            lemma_members_empty(states@.take(0));
            assert(self@ =~= old(self)@.union(members(states@.take(0))));
        }
        while i < states.len()
            invariant
                i <= states.len(),
                self.wf(),
                self@ == old(self)@.union(members(states@.take(i as int))),
            decreases states.len() - i,
        {
            proof {
                lemma_members_push(states@.take(i as int), states@[i as int]);
                assert(states@.take(i as int + 1) =~= states@.take(i as int).push(states@[i as int]));
            }
            self.insert(states[i]);
            i += 1;
            assert(self@ =~= old(self)@.union(members(states@.take(i as int))));
        }
        assert(states@.take(states.len() as int) =~= states@);
    }

    /// Whether the set has no member.
    pub fn is_empty(&self) -> (r: bool)
        ensures
            r == (self@ == Set::<int>::empty()),
            r == (self.key_view().len() == 0),
    {
        proof {
            if self.ids@.len() == 0 {
                lemma_members_empty(self.ids@);
            } else {
                assert(self@.contains(self.ids@[0] as int));
            }
        }
        self.ids.len() == 0
    }

    /// The number of members.
    pub fn len(&self) -> (r: usize)
        ensures
            r == self.key_view().len(),
    {
        self.ids.len()
    }

    /// The member at position `i` of the key.
    pub fn get(&self, i: usize) -> (r: StateNode)
        requires
            i < self.key_view().len(),
        ensures
            r == self.key_view()[i as int],
            self@.contains(r as int),
    {
        self.ids[i]
    }

    /// Whether `state` is a member.
    pub fn contains(&self, state: StateNode) -> (r: bool)
        ensures
            r == self@.contains(state as int),
    {
        let mut i: usize = 0;
        while i < self.ids.len()
            invariant
                i <= self.ids.len(),
                forall|k: int| 0 <= k < i ==> self.ids@[k] != state,
            decreases self.ids.len() - i,
        {
            if self.ids[i] == state {
                return true;
            }
            i += 1;
        }
        false
    }

    /// The members, in increasing order.
    pub fn states(&self) -> (r: Vec<StateNode>)
        ensures
            r@ == self.key_view(),
    {
        self.ids.clone()
    }

    /// The canonical key, by which sets are compared.
    pub fn key(&self) -> (r: &Vec<StateNode>)
        ensures
            r@ == self.key_view(),
    {
        &self.ids
    }

    /// Whether both sets have the same members, decided on the keys.
    pub fn same(&self, other: &StateSet) -> (r: bool)
        requires
            self.wf(),
            other.wf(),
        ensures
            r == (self@ == other@),
            r == (self.key_view() == other.key_view()),
    {
        proof {
            if self@ == other@ {
                lemma_increasing_unique(self.ids@, other.ids@);
            }
        }
        *self == *other
    }

    /// The symbols other than epsilon on which a member has a transition,
    /// each listed once. `arena` holds the states that the handles refer to.
    pub fn alphabet<T: State>(&self, arena: &Vec<T>) -> (r: Vec<Symbol>)
        requires
            self.within(arena@.len() as int),
        ensures
            r@.no_duplicates(),
            forall|s: Symbol| #[trigger] r@.contains(s) <==> offered(arena@, self@, s),
    {
        let mut out: Vec<Symbol> = Vec::new();
        let mut i: usize = 0;
        while i < self.ids.len()
            invariant
                i <= self.ids.len(),
                self.within(arena@.len() as int),
                out@.no_duplicates(),
                forall|s: Symbol|
                    #[trigger] out@.contains(s) <==> offered(arena@, members(self.ids@.take(i as int)), s),
            decreases self.ids.len() - i,
        {
            let p = self.ids[i];
            assert(self@.contains(p as int));
            let syms = arena[p].alphabet();
            let ghost before = out@;
            let mut j: usize = 0;
            while j < syms.len()
                invariant
                    j <= syms.len(),
                    out@.no_duplicates(),
                    forall|s: Symbol|
                        #[trigger] out@.contains(s) <==> before.contains(s) || (s != Symbol::Epsilon
                            && syms@.take(j as int).contains(s)),
                decreases syms.len() - j,
            {
                let s = syms[j];
                let ghost prev = out@;
                let fresh = !s.is_epsilon() && !symbol_in(&out, s);
                if fresh {
                    out.push(s);
                }
                proof {
                    lemma_contains_push(prev, s);
                    lemma_contains_push(syms@.take(j as int), s);
                    assert(syms@.take(j as int + 1) =~= syms@.take(j as int).push(s));
                    assert forall|y: Symbol|
                        out@.contains(y) <==> before.contains(y) || (y != Symbol::Epsilon && syms@.take(
                            j as int + 1,
                        ).contains(y)) by {
                        assert(syms@.take(j as int).push(s).contains(y) <==> syms@.take(j as int).contains(y) || y
                            == s);
                        if fresh {
                            assert(out@ == prev.push(s));
                            assert(prev.push(s).contains(y) <==> prev.contains(y) || y == s);
                        } else {
                            assert(out@ == prev);
                        }
                    }
                }
                j += 1;
            }
            proof {
                assert(syms@.take(syms.len() as int) =~= syms@);
                lemma_members_push(self.ids@.take(i as int), p);
                assert(self.ids@.take(i as int + 1) =~= self.ids@.take(i as int).push(p));
                let done = members(self.ids@.take(i as int));
                assert forall|s: Symbol| out@.contains(s) <==> offered(arena@, done.insert(p as int), s) by {
                    assert(out@.contains(s) <==> before.contains(s) || (s != Symbol::Epsilon && syms@.contains(s)));
                    assert(before.contains(s) <==> offered(arena@, done, s));
                    assert(syms@.contains(s) <==> arena@[p as int].symbols().contains(s));
                    assert(offers(arena@, p as int, s) <==> arena@[p as int].symbols().contains(s));
                    if offered(arena@, done.insert(p as int), s) {
                        let q = choose|q: int| done.insert(p as int).contains(q) && offers(arena@, q, s);
                        if q != p {
                            assert(done.contains(q) && offers(arena@, q, s));
                        }
                        assert(out@.contains(s));
                    }
                    if offered(arena@, done, s) {
                        let q = choose|q: int| done.contains(q) && offers(arena@, q, s);
                        assert(done.insert(p as int).contains(q) && offers(arena@, q, s));
                    }
                    if s != Symbol::Epsilon && syms@.contains(s) {
                        assert(done.insert(p as int).contains(p as int) && offers(arena@, p as int, s));
                    }
                }
            }
            i += 1;
        }
        assert(self.ids@.take(self.ids.len() as int) =~= self.ids@);
        out
    }
}

/// State `q` of `arena` has a transition on `s`.
pub open spec fn offers<T: State>(arena: Seq<T>, q: int, s: Symbol) -> bool {
    0 <= q < arena.len() && arena[q].symbols().contains(s)
}

/// `s` is a symbol other than epsilon on which a state of `set` has a
/// transition.
pub open spec fn offered<T: State>(arena: Seq<T>, set: Set<int>, s: Symbol) -> bool {
    s != Symbol::Epsilon && exists|q: int| set.contains(q) && #[trigger] offers(arena, q, s)
}

/// A sequence with one more element holds what it held, and that
/// element.
pub proof fn lemma_contains_push<A>(s: Seq<A>, x: A)
    ensures
        forall|y: A| #[trigger] s.push(x).contains(y) <==> s.contains(y) || y == x,
{
    let t = s.push(x);
    assert forall|y: A| #[trigger] t.contains(y) <==> s.contains(y) || y == x by {
        if t.contains(y) {
            let k = choose|k: int| 0 <= k < t.len() && t[k] == y;
            if k < s.len() {
                assert(s[k] == y);
            }
        }
        if s.contains(y) {
            let k = choose|k: int| 0 <= k < s.len() && s[k] == y;
            assert(t[k] == y);
        }
        if y == x {
            assert(t[s.len() as int] == y);
        }
    }
}

/// Whether `s` occurs in `list`.
pub fn symbol_in(list: &Vec<Symbol>, s: Symbol) -> (r: bool)
    ensures
        r == list@.contains(s),
{
    let mut i: usize = 0;
    while i < list.len()
        invariant
            i <= list.len(),
            forall|k: int| 0 <= k < i ==> list@[k] != s,
        decreases list.len() - i,
    {
        if list[i] == s {
            return true;
        }
        i += 1;
    }
    false
}

} // verus!
