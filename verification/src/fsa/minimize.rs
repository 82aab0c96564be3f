//! Minimization of deterministic automata by partition refinement.
use crate::fsa::dfa::{arena_wf, DfaModel, State, DFA};
use crate::fsa::minimal::{
    access, is_minimization_of, lemma_minimal_same_size, lemma_reachable_step, lemma_same_language,
    lemma_start_reachable,
};
use crate::fsa::nfa::pending;
use crate::fsa::partition::{
    agree, agree_all, block_ok, closed, covered, covers, is_partition, lemma_block_ok,
    lemma_disagree_distinguishable, lemma_partition_count, lemma_quotient_minimal, quotient, reach_set, same_block,
    separated, sound, stable, uniform,
};
use crate::fsa::{offered, offers};
use crate::fsa::{key_before, lemma_members_empty, lemma_members_push, members, StateNode, StateSet, Symbol};
use vstd::prelude::*;

verus! {

/// A partition of states into blocks.
pub type StateSetGroup = Vec<StateSet>;

/// The states that the blocks hold.
pub open spec fn union_of(blocks: Seq<StateSet>) -> Set<int> {
    Set::new(|q: int| covered(blocks, q))
}

/// A partition is a partition of the states that its blocks hold.
pub proof fn lemma_partition_universe(blocks: Seq<StateSet>, universe: Set<int>)
    requires
        is_partition(blocks, universe),
    ensures
        universe == union_of(blocks),
{
    assert forall|q: int| universe.contains(q) <==> union_of(blocks).contains(q) by {
        if covered(blocks, q) {
            let i = choose|i: int| 0 <= i < blocks.len() && #[trigger] blocks[i]@.contains(q);
        }
    }
    assert(universe =~= union_of(blocks));
}

/// A run from a state of a closed set ends in the set.
pub proof fn lemma_closed_run(d: DfaModel, r: Set<int>, p: int, w: Seq<Symbol>)
    requires
        closed(d, r),
        r.contains(p),
    ensures
        d.run(p, w) matches Some(q) ==> r.contains(q),
    decreases w.len(),
{
    if w.len() > 0 {
        match d.next(p, w[0]) {
            Some(q) => {
                lemma_closed_run(d, r, q, w.drop_first());
            },
            None => {},
        }
    }
}

/// Some state of `s` is accepting.
pub open spec fn any_accepting(d: DfaModel, s: Set<int>) -> bool {
    exists|q: int| s.contains(q) && #[trigger] d.states[q].acceptable
}

/// The entry `e` of a signature says into which block `s` leads from `p`.
pub open spec fn sig_entry(d: DfaModel, blocks: Seq<StateSet>, p: int, s: Symbol, e: Option<usize>) -> bool {
    match e {
        Some(b) => b < blocks.len() && d.next(p, s) is Some && blocks[b as int]@.contains(d.next(p, s)->Some_0),
        None => d.next(p, s) is None,
    }
}

/// `sig` is the signature of `p`: for every symbol of `symbols`, in
/// order, the block into which it leads from `p`, or that it leads
/// nowhere.
pub open spec fn is_signature(
    d: DfaModel,
    blocks: Seq<StateSet>,
    symbols: Seq<Symbol>,
    p: int,
    sig: Seq<Option<usize>>,
) -> bool {
    sig.len() == symbols.len() && forall|k: int|
        0 <= k < symbols.len() ==> sig_entry(d, blocks, p, symbols[k], #[trigger] sig[k])
}

/// Two states have the same signature exactly if they agree on every
/// symbol of the list.
pub proof fn lemma_signature_agree(
    d: DfaModel,
    blocks: Seq<StateSet>,
    universe: Set<int>,
    symbols: Seq<Symbol>,
    p: int,
    q: int,
    sp: Seq<Option<usize>>,
    sq: Seq<Option<usize>>,
)
    requires
        is_partition(blocks, universe),
        is_signature(d, blocks, symbols, p, sp),
        is_signature(d, blocks, symbols, q, sq),
    ensures
        (sp == sq) <==> agree_all(d, blocks, symbols, p, q),
{
    if sp == sq {
        assert forall|k: int| 0 <= k < symbols.len() implies agree(d, blocks, p, q, #[trigger] symbols[k]) by {
            assert(sig_entry(d, blocks, p, symbols[k], sp[k]));
            assert(sig_entry(d, blocks, q, symbols[k], sq[k]));
            match sp[k] {
                Some(b) => {
                    let x = d.next(p, symbols[k])->Some_0;
                    let y = d.next(q, symbols[k])->Some_0;
                    assert(blocks[b as int]@.contains(x) && blocks[b as int]@.contains(y));
                    assert(same_block(blocks, x, y));
                },
                None => {},
            }
        }
    }
    if agree_all(d, blocks, symbols, p, q) {
        assert forall|k: int| 0 <= k < sp.len() implies sp[k] == sq[k] by {
            assert(sig_entry(d, blocks, p, symbols[k], sp[k]));
            assert(sig_entry(d, blocks, q, symbols[k], sq[k]));
            assert(agree(d, blocks, p, q, symbols[k]));
            match (sp[k], sq[k]) {
                (Some(a), Some(b)) => {
                    let x = d.next(p, symbols[k])->Some_0;
                    let y = d.next(q, symbols[k])->Some_0;
                    let i = choose|i: int|
                        0 <= i < blocks.len() && #[trigger] blocks[i]@.contains(x) && blocks[i]@.contains(y);
                    assert(blocks[a as int]@.contains(x));
                    assert(blocks[b as int]@.contains(y));
                    assert(i == a && i == b);
                },
                _ => {},
            }
        }
        assert(sp =~= sq);
    }
}

/// Adding `p` to the block `j` of a partition that does not hold `p`.
pub proof fn lemma_partition_insert(
    blocks: Seq<StateSet>,
    after: Seq<StateSet>,
    universe: Set<int>,
    j: int,
    p: int,
)
    requires
        is_partition(blocks, universe),
        !universe.contains(p),
        0 <= j < blocks.len(),
        after.len() == blocks.len(),
        forall|k: int| 0 <= k < blocks.len() && k != j ==> after[k] == blocks[k],
        after[j].wf(),
        after[j].key_view().len() > 0,
        after[j]@ == blocks[j]@.insert(p),
    ensures
        is_partition(after, universe.insert(p)),
{
    let u2 = universe.insert(p);
    assert forall|i: int| 0 <= i < after.len() implies (#[trigger] after[i]).wf() && after[i].key_view().len()
        > 0 by {
        if i != j {
            assert(after[i] == blocks[i]);
        }
    }
    assert forall|i: int, q: int| 0 <= i < after.len() && #[trigger] after[i]@.contains(q) implies u2.contains(
        q,
    ) by {
        if i != j {
            assert(after[i] == blocks[i]);
            assert(blocks[i]@.contains(q));
        } else if q != p {
            assert(blocks[j]@.contains(q));
        }
    }
    assert forall|q: int| u2.contains(q) implies #[trigger] covered(after, q) by {
        if q == p {
            assert(after[j]@.contains(q));
        } else {
            assert(covered(blocks, q));
            let i = choose|i: int| 0 <= i < blocks.len() && #[trigger] blocks[i]@.contains(q);
            if i != j {
                assert(after[i] == blocks[i]);
            }
            assert(after[i]@.contains(q));
        }
    }
    assert forall|a: int, b: int, q: int|
        0 <= a < after.len() && 0 <= b < after.len() && #[trigger] after[a]@.contains(q)
            && #[trigger] after[b]@.contains(q) implies a == b by {
        if a != j {
            assert(after[a] == blocks[a]);
            assert(blocks[a]@.contains(q));
        }
        if b != j {
            assert(after[b] == blocks[b]);
            assert(blocks[b]@.contains(q));
        }
        if q != p {
            assert(blocks[a]@.contains(q));
            assert(blocks[b]@.contains(q));
        }
    }
}

/// Adding the block `{p}` to a partition that does not hold `p`.
pub proof fn lemma_partition_push(blocks: Seq<StateSet>, block: StateSet, universe: Set<int>, p: int)
    requires
        is_partition(blocks, universe),
        !universe.contains(p),
        block.wf(),
        block.key_view().len() > 0,
        block@ == Set::<int>::empty().insert(p),
    ensures
        is_partition(blocks.push(block), universe.insert(p)),
{
    let after = blocks.push(block);
    let u2 = universe.insert(p);
    let j = blocks.len() as int;
    assert forall|i: int| 0 <= i < after.len() implies (#[trigger] after[i]).wf() && after[i].key_view().len()
        > 0 by {
        if i != j {
            assert(after[i] == blocks[i]);
        }
    }
    assert forall|i: int, q: int| 0 <= i < after.len() && #[trigger] after[i]@.contains(q) implies u2.contains(
        q,
    ) by {
        if i != j {
            assert(after[i] == blocks[i]);
            assert(blocks[i]@.contains(q));
        }
    }
    assert forall|q: int| u2.contains(q) implies #[trigger] covered(after, q) by {
        if q == p {
            assert(after[j]@.contains(q));
        } else {
            assert(covered(blocks, q));
            let i = choose|i: int| 0 <= i < blocks.len() && #[trigger] blocks[i]@.contains(q);
            assert(after[i] == blocks[i]);
            assert(after[i]@.contains(q));
        }
    }
    assert forall|a: int, b: int, q: int|
        0 <= a < after.len() && 0 <= b < after.len() && #[trigger] after[a]@.contains(q)
            && #[trigger] after[b]@.contains(q) implies a == b by {
        if a != j {
            assert(after[a] == blocks[a]);
            assert(blocks[a]@.contains(q));
        }
        if b != j {
            assert(after[b] == blocks[b]);
            assert(blocks[b]@.contains(q));
        }
    }
}

/// The position of a block that holds `state`, if there is one.
pub fn find_block(group: &Vec<StateSet>, state: StateNode) -> (r: Option<usize>)
    ensures
        r matches Some(i) ==> i < group@.len() && group@[i as int]@.contains(state as int),
        r is None ==> !covered(group@, state as int),
{
    let mut i: usize = 0;
    while i < group.len()
        invariant
            i <= group@.len(),
            forall|k: int| 0 <= k < i ==> !(#[trigger] group@[k]@.contains(state as int)),
        decreases group@.len() - i,
    {
        if group[i].contains(state) {
            return Some(i);
        }
        i += 1;
    }
    None
}

/// Whether both signatures are the same.
pub fn same_signature(a: &Vec<Option<usize>>, b: &Vec<Option<usize>>) -> (r: bool)
    ensures
        r == (a@ == b@),
{
    if a.len() != b.len() {
        return false;
    }
    let mut k: usize = 0;
    while k < a.len()
        invariant
            k <= a@.len(),
            a@.len() == b@.len(),
            forall|j: int| 0 <= j < k ==> a@[j] == b@[j],
        decreases a@.len() - k,
    {
        let same = match (a[k], b[k]) {
            (Some(x), Some(y)) => x == y,
            (None, None) => true,
            _ => false,
        };
        if !same {
            assert(a@[k as int] != b@[k as int]);
            return false;
        }
        k += 1;
    }
    assert(a@ =~= b@);
    true
}

/// The position of the signature equal to `sig` in `sigs`, if it is
/// there.
pub fn find_signature(sigs: &Vec<Vec<Option<usize>>>, sig: &Vec<Option<usize>>) -> (r: Option<usize>)
    ensures
        r matches Some(j) ==> j < sigs@.len() && sigs@[j as int]@ == sig@,
        r is None ==> forall|j: int| 0 <= j < sigs@.len() ==> (#[trigger] sigs@[j])@ != sig@,
{
    let mut j: usize = 0;
    while j < sigs.len()
        invariant
            j <= sigs@.len(),
            forall|k: int| 0 <= k < j ==> (#[trigger] sigs@[k])@ != sig@,
        decreases sigs@.len() - j,
    {
        if same_signature(&sigs[j], sig) {
            return Some(j);
        }
        j += 1;
    }
    None
}

impl DFA {
    /// The states that can be reached from the start, the start among
    /// them.
    pub fn all_states(&self) -> (r: StateSet)
        requires
            self.wf(),
        ensures
            r.wf(),
            r.within(self@.states.len() as int),
            r@.contains(self@.start),
            reach_set(self@, r@),
            closed(self@, r@),
    {
        let ghost d = self@;
        let n = self.size();
        let mut set = StateSet::new();
        let mut queue: Vec<StateNode> = Vec::new();
        queue.push(self.start());
        let mut head: usize = 0;
        proof {
            self.lemma_wf();
            lemma_start_reachable(d);
            assert(queue@[0] == d.start);
            assert(pending(queue@, 0, d.start));
        }
        while head < queue.len()
            invariant
                self.wf(),
                d == self@,
                n == d.states.len(),
                head <= queue@.len(),
                set.wf(),
                set.within(n as int),
                forall|k: int| 0 <= k < queue@.len() ==> (#[trigger] queue@[k]) < n && d.reachable(queue@[k] as int),
                forall|q: int| set@.contains(q) ==> d.reachable(q),
                set@.contains(d.start) || pending(queue@, head as int, d.start),
                forall|p: int, s: Symbol|
                    set@.contains(p) && (#[trigger] d.next(p, s)) is Some ==> set@.contains(d.next(p, s)->Some_0)
                        || pending(queue@, head as int, d.next(p, s)->Some_0),
            decreases n - set.key_view().len(), queue@.len() - head,
        {
            let state = queue[head];
            let ghost old_queue = queue@;
            proof {
                self.lemma_wf();
                set.lemma_len_bound(n as int);
                assert forall|q: int| pending(old_queue, head as int, q) implies q == state || pending(
                    old_queue,
                    head as int + 1,
                    q,
                ) by {
                    let k = choose|k: int| head <= k < old_queue.len() && #[trigger] old_queue[k] == q;
                    if k != head {
                        assert(pending(old_queue, head as int + 1, q));
                    }
                }
            }
            head += 1;
            if set.contains(state) {
                continue ;
            }
            let st = &self.states()[state];
            let deg = st.degree();
            let mut e: usize = 0;
            proof {
                st.lemma_entries();
                assert(d.states[state as int] == st@);
            }
            while e < deg
                invariant
                    self.wf(),
                    d == self@,
                    n == d.states.len(),
                    state < n,
                    d.reachable(state as int),
                    st.wf(),
                    d.states[state as int] == st@,
                    deg == st.entries().len(),
                    e <= deg,
                    queue@.len() == old_queue.len() + e,
                    head <= old_queue.len(),
                    forall|k: int| 0 <= k < old_queue.len() ==> queue@[k] == old_queue[k],
                    forall|j: int| 0 <= j < e ==> queue@[old_queue.len() + j] == (#[trigger] st.entries()[j]).1,
                    forall|k: int|
                        0 <= k < queue@.len() ==> (#[trigger] queue@[k]) < n && d.reachable(queue@[k] as int),
                decreases deg - e,
            {
                let (sym, t) = st.edge(e);
                proof {
                    st.lemma_entries();
                    self.lemma_wf();
                    assert(st.entries()[e as int] == (sym, t));
                    assert(st@.next.contains_key(sym) && st@.next[sym] == t);
                    assert(d.next(state as int, sym) == Some(t as int));
                    lemma_reachable_step(d, state as int, sym);
                }
                queue.push(t);
                e += 1;
            }
            let ghost mid_set = set@;
            set.insert(state);
            proof {
                set.lemma_len_bound(n as int);
                st.lemma_entries();
                assert forall|q: int| pending(old_queue, head as int, q) implies pending(queue@, head as int, q) by {
                    let k = choose|k: int| head <= k < old_queue.len() && #[trigger] old_queue[k] == q;
                    assert(queue@[k] == q);
                }
                assert forall|p: int, s: Symbol|
                    set@.contains(p) && (#[trigger] d.next(p, s)) is Some implies set@.contains(
                    d.next(p, s)->Some_0,
                ) || pending(queue@, head as int, d.next(p, s)->Some_0) by {
                    let t = d.next(p, s)->Some_0;
                    if p == state {
                        assert(st@.next.contains_key(s));
                        assert(key_before(st.entries(), st.entries().len() as int, s));
                        let j = choose|j: int|
                            0 <= j < st.entries().len() && j < st.entries().len() && (#[trigger] st.entries()[j]).0
                                == s;
                        assert(st.entries()[j].1 == t);
                        assert(queue@[old_queue.len() + j] == t);
                    } else {
                        assert(mid_set.contains(p));
                        if !mid_set.contains(t) {
                            assert(pending(old_queue, head as int - 1, t));
                        }
                    }
                }
            }
        }
        proof {
            assert forall|q: int| !pending(queue@, head as int, q) by {}
            assert(closed(d, set@));
            assert forall|q: int| 0 <= q < d.states.len() && d.reachable(q) implies set@.contains(q) by {
                let w = access(d, q);
                lemma_closed_run(d, set@, d.start, w);
            }
        }
        set
    }

    /// The position of the block that holds `state`: the handle of the
    /// state that stands for the block in the minimized automaton.
    pub fn typical_state_of_state(state: StateNode, group: &Vec<StateSet>) -> (r: StateNode)
        requires
            covered(group@, state as int),
        ensures
            r < group@.len(),
            group@[r as int]@.contains(state as int),
    {
        match find_block(group, state) {
            Some(i) => i,
            // the precondition leaves this case out
            None => 0,
        }
    }

    /// The state that stands for the block `set`: without transitions
    /// yet, and accepting if a member of the block is.
    pub fn typical_state_of_set(&self, set: &StateSet) -> (r: State)
        requires
            self.wf(),
            set.within(self@.states.len() as int),
        ensures
            r.wf(),
            r@.next == Map::<Symbol, int>::empty(),
            r@.acceptable == any_accepting(self@, set@),
    {
        let ghost d = self@;
        let mut any = false;
        let mut i: usize = 0;
        proof {
            lemma_members_empty(set.key_view().take(0));
        }
        while i < set.len()
            invariant
                self.wf(),
                d == self@,
                set.within(d.states.len() as int),
                i <= set.key_view().len(),
                any == any_accepting(d, members(set.key_view().take(i as int))),
            decreases set.key_view().len() - i,
        {
            let p = set.get(i);
            let ghost before = members(set.key_view().take(i as int));
            proof {
                self.lemma_wf();
                lemma_members_push(set.key_view().take(i as int), p);
                assert(set.key_view().take(i as int + 1) =~= set.key_view().take(i as int).push(p));
            }
            let acc = self.states()[p].acceptable();
            proof {
                let after = before.insert(p as int);
                assert(d.states[p as int].acceptable == acc);
                if any_accepting(d, after) {
                    let q = choose|q: int| after.contains(q) && #[trigger] d.states[q].acceptable;
                    if q != p {
                        assert(before.contains(q));
                    }
                }
                if any_accepting(d, before) {
                    let q = choose|q: int| before.contains(q) && #[trigger] d.states[q].acceptable;
                    assert(after.contains(q));
                }
                if acc {
                    assert(after.contains(p as int));
                }
            }
            any = any || acc;
            i += 1;
        }
        proof {
            assert(set.key_view().take(set.key_view().len() as int) =~= set.key_view());
        }
        State::new(any)
    }

    /// The signature of `state`: for every symbol of `symbols`, in order,
    /// the block of `groups` into which it leads, if it leads anywhere.
    pub fn signature(&self, groups: &Vec<StateSet>, symbols: &Vec<Symbol>, state: StateNode) -> (r: Vec<
        Option<usize>,
    >)
        requires
            self.wf(),
            state < self@.states.len(),
            forall|s: Symbol| (#[trigger] self@.next(state as int, s)) is Some ==> covered(
                groups@,
                self@.next(state as int, s)->Some_0,
            ),
        ensures
            is_signature(self@, groups@, symbols@, state as int, r@),
    {
        let ghost d = self@;
        let mut out: Vec<Option<usize>> = Vec::new();
        let mut k: usize = 0;
        while k < symbols.len()
            invariant
                self.wf(),
                d == self@,
                state < d.states.len(),
                forall|s: Symbol| (#[trigger] d.next(state as int, s)) is Some ==> covered(
                    groups@,
                    d.next(state as int, s)->Some_0,
                ),
                k <= symbols@.len(),
                out@.len() == k,
                forall|j: int| 0 <= j < k ==> sig_entry(d, groups@, state as int, symbols@[j], #[trigger] out@[j]),
            decreases symbols@.len() - k,
        {
            proof {
                self.lemma_wf();
            }
            let entry = match self.states()[state].next_state(symbols[k]) {
                Some(t) => {
                    assert(d.next(state as int, symbols@[k as int]) == Some(t as int));
                    Some(Self::typical_state_of_state(t, groups))
                },
                None => None,
            };
            out.push(entry);
            k += 1;
        }
        out
    }
}

impl StateSet {
    /// The accepting members and the others, as the blocks of a
    /// partition. There is no empty block: where all members are alike,
    /// the partition has one block.
    pub fn divide_by_acceptable(&self, dfa: &DFA) -> (r: Vec<StateSet>)
        requires
            self.wf(),
            dfa.wf(),
            self.within(dfa@.states.len() as int),
        ensures
            is_partition(r@, self@),
            forall|p: int, q: int|
                self@.contains(p) && self@.contains(q) ==> (#[trigger] same_block(r@, p, q)
                    <==> dfa@.states[p].acceptable == dfa@.states[q].acceptable),
    {
        let ghost d = dfa@;
        let mut unacceptable = StateSet::new();
        let mut acceptable = StateSet::new();
        let mut i: usize = 0;
        proof {
            lemma_members_empty(self.key_view().take(0));
        }
        while i < self.len()
            invariant
                self.wf(),
                dfa.wf(),
                d == dfa@,
                self.within(d.states.len() as int),
                i <= self.key_view().len(),
                unacceptable.wf(),
                acceptable.wf(),
                forall|q: int|
                    acceptable@.contains(q) <==> members(self.key_view().take(i as int)).contains(q)
                        && d.states[q].acceptable,
                forall|q: int|
                    unacceptable@.contains(q) <==> members(self.key_view().take(i as int)).contains(q)
                        && !d.states[q].acceptable,
            decreases self.key_view().len() - i,
        {
            let p = self.get(i);
            proof {
                dfa.lemma_wf();
                lemma_members_push(self.key_view().take(i as int), p);
                assert(self.key_view().take(i as int + 1) =~= self.key_view().take(i as int).push(p));
            }
            if dfa.states()[p].acceptable() {
                acceptable.insert(p);
            } else {
                unacceptable.insert(p);
            }
            i += 1;
        }
        proof {
            assert(self.key_view().take(self.key_view().len() as int) =~= self.key_view());
        }
        let mut group: Vec<StateSet> = Vec::new();
        let no_empty = unacceptable.is_empty();
        let yes_empty = acceptable.is_empty();
        let ghost no = unacceptable;
        let ghost yes = acceptable;
        if !no_empty {
            group.push(unacceptable);
        }
        if !yes_empty {
            group.push(acceptable);
        }
        proof {
            let g = group@;
            assert forall|q: int| self@.contains(q) implies #[trigger] covered(g, q) by {
                if d.states[q].acceptable {
                    assert(yes@.contains(q));
                    assert(g[g.len() - 1]@.contains(q));
                } else {
                    assert(no@.contains(q));
                    assert(g[0]@.contains(q));
                }
            }
            assert forall|a: int, b: int, q: int|
                0 <= a < g.len() && 0 <= b < g.len() && #[trigger] g[a]@.contains(q) && #[trigger] g[b]@.contains(
                    q,
                ) implies a == b by {
                if a != b {
                    assert(no@.contains(q) && yes@.contains(q));
                }
            }
            assert(is_partition(g, self@));
            assert forall|p: int, q: int| self@.contains(p) && self@.contains(q) implies (#[trigger] same_block(
                g,
                p,
                q,
            ) <==> d.states[p].acceptable == d.states[q].acceptable) by {
                if same_block(g, p, q) {
                    let k = choose|k: int| 0 <= k < g.len() && #[trigger] g[k]@.contains(p) && g[k]@.contains(q);
                }
                if d.states[p].acceptable == d.states[q].acceptable {
                    if d.states[p].acceptable {
                        assert(yes@.contains(p) && yes@.contains(q));
                        assert(g[g.len() - 1]@.contains(p) && g[g.len() - 1]@.contains(q));
                    } else {
                        assert(no@.contains(p) && no@.contains(q));
                        assert(g[0]@.contains(p) && g[0]@.contains(q));
                    }
                }
            }
        }
        group
    }

    /// Splits the set into the blocks of members with the same
    /// signature against `groups`: two members share a block exactly
    /// if they agree on every symbol of `symbols`.
    pub fn divide(&self, dfa: &DFA, groups: &Vec<StateSet>, symbols: &Vec<Symbol>) -> (r: Vec<StateSet>)
        requires
            self.wf(),
            dfa.wf(),
            self.within(dfa@.states.len() as int),
            is_partition(groups@, union_of(groups@)),
            forall|p: int, s: Symbol|
                self@.contains(p) && (#[trigger] dfa@.next(p, s)) is Some ==> covered(
                    groups@,
                    dfa@.next(p, s)->Some_0,
                ),
        ensures
            is_partition(r@, self@),
            forall|p: int, q: int|
                self@.contains(p) && self@.contains(q) ==> (#[trigger] same_block(r@, p, q) <==> agree_all(
                    dfa@,
                    groups@,
                    symbols@,
                    p,
                    q,
                )),
    {
        let ghost d = dfa@;
        let ghost u = union_of(groups@);
        let mut sigs: Vec<Vec<Option<usize>>> = Vec::new();
        let mut parts: Vec<StateSet> = Vec::new();
        let mut idx: usize = 0;
        proof {
            lemma_members_empty(self.key_view().take(0));
            assert(is_partition(parts@, members(self.key_view().take(0))));
        }
        while idx < self.len()
            invariant
                self.wf(),
                dfa.wf(),
                d == dfa@,
                u == union_of(groups@),
                self.within(d.states.len() as int),
                is_partition(groups@, u),
                forall|p: int, s: Symbol|
                    self@.contains(p) && (#[trigger] d.next(p, s)) is Some ==> covered(
                        groups@,
                        d.next(p, s)->Some_0,
                    ),
                idx <= self.key_view().len(),
                sigs@.len() == parts@.len(),
                is_partition(parts@, members(self.key_view().take(idx as int))),
                forall|j: int, p: int|
                    0 <= j < parts@.len() && #[trigger] parts@[j]@.contains(p) ==> is_signature(
                        d,
                        groups@,
                        symbols@,
                        p,
                        sigs@[j]@,
                    ),
                forall|i: int, j: int| 0 <= i < j < sigs@.len() ==> (#[trigger] sigs@[i])@ != (#[trigger] sigs@[j])@,
            decreases self.key_view().len() - idx,
        {
            let p = self.get(idx);
            let ghost done = members(self.key_view().take(idx as int));
            let ghost parts0 = parts@;
            let ghost sigs0 = sigs@;
            proof {
                lemma_members_push(self.key_view().take(idx as int), p);
                assert(self.key_view().take(idx as int + 1) =~= self.key_view().take(idx as int).push(p));
                if done.contains(p as int) {
                    let k = choose|k: int|
                        0 <= k < self.key_view().take(idx as int).len() && #[trigger] self.key_view().take(
                            idx as int,
                        )[k] == p;
                    assert(self.key_view()[k] < self.key_view()[idx as int]);
                }
                assert forall|s: Symbol| (#[trigger] d.next(p as int, s)) is Some implies covered(
                    groups@,
                    d.next(p as int, s)->Some_0,
                ) by {}
            }
            let sig = dfa.signature(groups, symbols, p);
            match find_signature(&sigs, &sig) {
                Some(j) => {
                    parts[j].insert(p);
                    proof {
                        lemma_partition_insert(parts0, parts@, done, j as int, p as int);
                        assert forall|i: int, q: int|
                            0 <= i < parts@.len() && #[trigger] parts@[i]@.contains(q) implies is_signature(
                            d,
                            groups@,
                            symbols@,
                            q,
                            sigs@[i]@,
                        ) by {
                            if i != j {
                                assert(parts@[i] == parts0[i]);
                                assert(parts0[i]@.contains(q));
                            } else if q != p {
                                assert(parts0[i]@.contains(q));
                            }
                        }
                    }
                },
                None => {
                    let block = StateSet::from_single(p);
                    proof {
                        lemma_partition_push(parts0, block, done, p as int);
                    }
                    sigs.push(sig);
                    parts.push(block);
                    proof {
                        assert forall|i: int, q: int|
                            0 <= i < parts@.len() && #[trigger] parts@[i]@.contains(q) implies is_signature(
                            d,
                            groups@,
                            symbols@,
                            q,
                            sigs@[i]@,
                        ) by {
                            if i < parts0.len() {
                                assert(parts@[i] == parts0[i]);
                                assert(parts0[i]@.contains(q));
                                assert(sigs@[i] == sigs0[i]);
                            }
                        }
                        assert forall|i: int, j: int| 0 <= i < j < sigs@.len() implies (#[trigger] sigs@[i])@ != (
                        #[trigger] sigs@[j])@ by {
                            assert(sigs@[i] == sigs0[i]);
                            if j < sigs0.len() {
                                assert(sigs@[j] == sigs0[j]);
                            }
                        }
                    }
                },
            }
            idx += 1;
        }
        proof {
            assert(self.key_view().take(self.key_view().len() as int) =~= self.key_view());
            let g = parts@;
            assert forall|p: int, q: int| self@.contains(p) && self@.contains(q) implies (#[trigger] same_block(
                g,
                p,
                q,
            ) <==> agree_all(d, groups@, symbols@, p, q)) by {
                assert(covered(g, p));
                assert(covered(g, q));
                let i = choose|i: int| 0 <= i < g.len() && #[trigger] g[i]@.contains(p);
                let j = choose|j: int| 0 <= j < g.len() && #[trigger] g[j]@.contains(q);
                lemma_signature_agree(d, groups@, u, symbols@, p, q, sigs@[i]@, sigs@[j]@);
                if same_block(g, p, q) {
                    let k = choose|k: int| 0 <= k < g.len() && #[trigger] g[k]@.contains(p) && g[k]@.contains(q);
                    assert(k == i && k == j);
                }
                if agree_all(d, groups@, symbols@, p, q) {
                    if i < j {
                        assert(sigs@[i]@ != sigs@[j]@);
                    } else if j < i {
                        assert(sigs@[j]@ != sigs@[i]@);
                    }
                    assert(i == j);
                }
            }
        }
        parts
    }
}

/// The states that the first `i` blocks hold.
pub open spec fn upto(group: Seq<StateSet>, i: int) -> Set<int> {
    Set::new(|q: int| exists|j: int| 0 <= j < i && j < group.len() && #[trigger] group[j]@.contains(q))
}

/// On the states of `v`, the blocks of `next` are the blocks of `group`
/// split by signature: two states share a block of `next` exactly if
/// they share a block of `group` and agree on every symbol.
pub open spec fn refines(
    d: DfaModel,
    group: Seq<StateSet>,
    symbols: Seq<Symbol>,
    next: Seq<StateSet>,
    v: Set<int>,
) -> bool {
    &&& is_partition(next, v)
    &&& forall|p: int, q: int|
        v.contains(p) && v.contains(q) ==> (#[trigger] same_block(next, p, q) <==> same_block(group, p, q)
            && agree_all(d, group, symbols, p, q))
}

/// No two states of `v` that share a block of `group` disagree on a
/// symbol: splitting by signature leaves the blocks as they are.
pub open spec fn unsplit(d: DfaModel, group: Seq<StateSet>, symbols: Seq<Symbol>, v: Set<int>) -> bool {
    forall|p: int, q: int|
        v.contains(p) && v.contains(q) && same_block(group, p, q) ==> #[trigger] agree_all(d, group, symbols, p, q)
}

/// Every symbol on which a state of `v` has a transition is in the list.
pub open spec fn lists_all(d: DfaModel, v: Set<int>, symbols: Seq<Symbol>) -> bool {
    forall|p: int, s: Symbol| v.contains(p) && (#[trigger] d.next(p, s)) is Some ==> symbols.contains(s)
}

/// One more block of `group` split: the splits of the blocks before it,
/// followed by its own.
pub proof fn lemma_refine_step(
    d: DfaModel,
    group: Seq<StateSet>,
    u: Set<int>,
    symbols: Seq<Symbol>,
    next: Seq<StateSet>,
    parts: Seq<StateSet>,
    i: int,
)
    requires
        is_partition(group, u),
        0 <= i < group.len(),
        refines(d, group, symbols, next, upto(group, i)),
        is_partition(parts, group[i]@),
        forall|p: int, q: int|
            group[i]@.contains(p) && group[i]@.contains(q) ==> (#[trigger] same_block(parts, p, q) <==> agree_all(
                d,
                group,
                symbols,
                p,
                q,
            )),
    ensures
        refines(d, group, symbols, next + parts, upto(group, i + 1)),
        parts.len() >= 1,
        parts.len() == 1 && unsplit(d, group, symbols, upto(group, i)) ==> unsplit(
            d,
            group,
            symbols,
            upto(group, i + 1),
        ),
{
    let v = upto(group, i);
    let b = group[i]@;
    let v2 = upto(group, i + 1);
    let all = next + parts;
    let n = next.len() as int;
    assert forall|q: int| v2.contains(q) <==> v.contains(q) || b.contains(q) by {
        if v2.contains(q) {
            let j = choose|j: int| 0 <= j < i + 1 && j < group.len() && #[trigger] group[j]@.contains(q);
            if j < i {
                assert(v.contains(q));
            }
        }
        if v.contains(q) {
            let j = choose|j: int| 0 <= j < i && j < group.len() && #[trigger] group[j]@.contains(q);
            assert(group[j]@.contains(q));
        }
        if b.contains(q) {
            assert(group[i]@.contains(q));
        }
    }
    assert forall|q: int| !(v.contains(q) && b.contains(q)) by {
        if v.contains(q) && b.contains(q) {
            let j = choose|j: int| 0 <= j < i && j < group.len() && #[trigger] group[j]@.contains(q);
            assert(group[i]@.contains(q));
        }
    }
    assert(group[i].key_view().len() > 0);
    let m0 = group[i].key_view()[0] as int;
    assert(b.contains(m0));
    assert(covered(parts, m0));
    assert forall|k: int| 0 <= k < all.len() implies (#[trigger] all[k]).wf() && all[k].key_view().len() > 0 by {
        if k < n {
            assert(all[k] == next[k]);
        } else {
            assert(all[k] == parts[k - n]);
        }
    }
    assert forall|k: int, q: int| 0 <= k < all.len() && #[trigger] all[k]@.contains(q) implies v2.contains(q) by {
        if k < n {
            assert(next[k]@.contains(q));
        } else {
            assert(parts[k - n]@.contains(q));
        }
    }
    assert forall|q: int| v2.contains(q) implies #[trigger] covered(all, q) by {
        if v.contains(q) {
            assert(covered(next, q));
            let k = choose|k: int| 0 <= k < next.len() && #[trigger] next[k]@.contains(q);
            assert(all[k]@.contains(q));
        } else {
            assert(covered(parts, q));
            let k = choose|k: int| 0 <= k < parts.len() && #[trigger] parts[k]@.contains(q);
            assert(all[n + k]@.contains(q));
        }
    }
    assert forall|x: int, y: int, q: int|
        0 <= x < all.len() && 0 <= y < all.len() && #[trigger] all[x]@.contains(q) && #[trigger] all[y]@.contains(
            q,
        ) implies x == y by {
        if x < n {
            assert(next[x]@.contains(q));
        } else {
            assert(parts[x - n]@.contains(q));
        }
        if y < n {
            assert(next[y]@.contains(q));
        } else {
            assert(parts[y - n]@.contains(q));
        }
    }
    assert(is_partition(all, v2));
    assert forall|p: int, q: int| v2.contains(p) && v2.contains(q) implies (#[trigger] same_block(all, p, q)
        <==> same_block(group, p, q) && agree_all(d, group, symbols, p, q)) by {
        if same_block(all, p, q) {
            let k = choose|k: int| 0 <= k < all.len() && #[trigger] all[k]@.contains(p) && all[k]@.contains(q);
            if k < n {
                assert(next[k]@.contains(p) && next[k]@.contains(q));
                assert(same_block(next, p, q));
            } else {
                assert(parts[k - n]@.contains(p) && parts[k - n]@.contains(q));
                assert(same_block(parts, p, q));
                assert(group[i]@.contains(p) && group[i]@.contains(q));
                assert(same_block(group, p, q));
            }
        }
        if same_block(group, p, q) && agree_all(d, group, symbols, p, q) {
            let j = choose|j: int| 0 <= j < group.len() && #[trigger] group[j]@.contains(p) && group[j]@.contains(q);
            if v.contains(p) {
                let jp = choose|jp: int| 0 <= jp < i && jp < group.len() && #[trigger] group[jp]@.contains(p);
                assert(jp == j);
                assert(v.contains(q));
                assert(same_block(next, p, q));
                let k = choose|k: int| 0 <= k < next.len() && #[trigger] next[k]@.contains(p) && next[k]@.contains(q);
                assert(all[k]@.contains(p) && all[k]@.contains(q));
            } else {
                assert(b.contains(p));
                assert(group[i]@.contains(p));
                assert(j == i);
                assert(same_block(parts, p, q));
                let k = choose|k: int|
                    0 <= k < parts.len() && #[trigger] parts[k]@.contains(p) && parts[k]@.contains(q);
                assert(all[n + k]@.contains(p) && all[n + k]@.contains(q));
            }
        }
    }
    if parts.len() == 1 && unsplit(d, group, symbols, v) {
        assert forall|p: int, q: int| v2.contains(p) && v2.contains(q) && same_block(group, p, q) implies #[trigger] agree_all(
            d,
            group,
            symbols,
            p,
            q,
        ) by {
            let j = choose|j: int| 0 <= j < group.len() && #[trigger] group[j]@.contains(p) && group[j]@.contains(q);
            if v.contains(p) {
                let jp = choose|jp: int| 0 <= jp < i && jp < group.len() && #[trigger] group[jp]@.contains(p);
                assert(jp == j);
                assert(v.contains(q));
            } else {
                assert(group[i]@.contains(p));
                assert(j == i);
                assert(covered(parts, p));
                assert(covered(parts, q));
                let kp = choose|k: int| 0 <= k < parts.len() && #[trigger] parts[k]@.contains(p);
                let kq = choose|k: int| 0 <= k < parts.len() && #[trigger] parts[k]@.contains(q);
                assert(parts[0]@.contains(p) && parts[0]@.contains(q));
                assert(same_block(parts, p, q));
            }
        }
    }
}

/// Splitting by signature keeps what the refinement relies on: states
/// of different blocks stay distinguishable, states of one block stay
/// alike in acceptance.
pub proof fn lemma_refine_keeps(d: DfaModel, group: Seq<StateSet>, u: Set<int>, symbols: Seq<Symbol>, next: Seq<StateSet>)
    requires
        is_partition(group, u),
        refines(d, group, symbols, next, u),
        separated(d, group),
        uniform(d, group),
        closed(d, u),
    ensures
        separated(d, next),
        uniform(d, next),
{
    assert forall|p: int, q: int|
        covered(next, p) && covered(next, q) && !same_block(next, p, q) implies #[trigger] d.distinguishable(
        p,
        q,
    ) by {
        let i = choose|i: int| 0 <= i < next.len() && #[trigger] next[i]@.contains(p);
        let j = choose|j: int| 0 <= j < next.len() && #[trigger] next[j]@.contains(q);
        assert(u.contains(p) && u.contains(q));
        assert(covered(group, p) && covered(group, q));
        if same_block(group, p, q) {
            assert(!agree_all(d, group, symbols, p, q));
            let k = choose|k: int| 0 <= k < symbols.len() && !agree(d, group, p, q, #[trigger] symbols[k]);
            let s = symbols[k];
            if d.next(p, s) is Some {
                assert(u.contains(d.next(p, s)->Some_0));
            }
            if d.next(q, s) is Some {
                assert(u.contains(d.next(q, s)->Some_0));
            }
            lemma_disagree_distinguishable(d, group, p, q, s);
        }
    }
    assert forall|p: int, q: int| #[trigger] same_block(next, p, q) implies d.states[p].acceptable
        == d.states[q].acceptable by {
        let i = choose|i: int| 0 <= i < next.len() && #[trigger] next[i]@.contains(p) && next[i]@.contains(q);
        assert(u.contains(p) && u.contains(q));
        assert(same_block(group, p, q));
    }
}

/// Blocks that no signature splits are stable.
pub proof fn lemma_unsplit_stable(d: DfaModel, group: Seq<StateSet>, u: Set<int>, symbols: Seq<Symbol>)
    requires
        is_partition(group, u),
        unsplit(d, group, symbols, u),
        lists_all(d, u, symbols),
    ensures
        stable(d, group),
{
    assert forall|p: int, q: int, s: Symbol| same_block(group, p, q) implies #[trigger] agree(d, group, p, q, s) by {
        let i = choose|i: int| 0 <= i < group.len() && #[trigger] group[i]@.contains(p) && group[i]@.contains(q);
        assert(u.contains(p) && u.contains(q));
        assert(agree_all(d, group, symbols, p, q));
        if symbols.contains(s) {
            let k = choose|k: int| 0 <= k < symbols.len() && symbols[k] == s;
            assert(agree(d, group, p, q, symbols[k]));
        } else {
            assert(d.next(p, s) is None);
            assert(d.next(q, s) is None);
        }
    }
}

/// States that differ in acceptance are distinguishable, so the
/// partition by acceptance separates only distinguishable states.
pub proof fn lemma_first_partition(d: DfaModel, group: Seq<StateSet>, u: Set<int>)
    requires
        is_partition(group, u),
        forall|p: int, q: int|
            u.contains(p) && u.contains(q) ==> (#[trigger] same_block(group, p, q) <==> d.states[p].acceptable
                == d.states[q].acceptable),
    ensures
        separated(d, group),
        uniform(d, group),
{
    assert forall|p: int, q: int|
        covered(group, p) && covered(group, q) && !same_block(group, p, q) implies #[trigger] d.distinguishable(
        p,
        q,
    ) by {
        let i = choose|i: int| 0 <= i < group.len() && #[trigger] group[i]@.contains(p);
        let j = choose|j: int| 0 <= j < group.len() && #[trigger] group[j]@.contains(q);
        assert(u.contains(p) && u.contains(q));
        let w = Seq::<Symbol>::empty();
        assert(d.run(p, w) == Some(p));
        assert(d.run(q, w) == Some(q));
        assert(d.outcome_from(p, w) != d.outcome_from(q, w));
    }
    assert forall|p: int, q: int| #[trigger] same_block(group, p, q) implies d.states[p].acceptable
        == d.states[q].acceptable by {
        let i = choose|i: int| 0 <= i < group.len() && #[trigger] group[i]@.contains(p) && group[i]@.contains(q);
        assert(u.contains(p) && u.contains(q));
    }
}

impl DFA {
    /// One round of refinement: every block of `group` split by
    /// signature, the splits in the order of the blocks.
    pub fn refine(&self, group: &Vec<StateSet>, symbols: &Vec<Symbol>) -> (r: Vec<StateSet>)
        requires
            self.wf(),
            is_partition(group@, union_of(group@)),
            closed(self@, union_of(group@)),
            forall|q: int| union_of(group@).contains(q) ==> 0 <= q < self@.states.len(),
        ensures
            refines(self@, group@, symbols@, r@, union_of(group@)),
            r@.len() >= group@.len(),
            r@.len() == group@.len() ==> unsplit(self@, group@, symbols@, union_of(group@)),
    {
        let ghost d = self@;
        let ghost u = union_of(group@);
        let mut next: Vec<StateSet> = Vec::new();
        let mut i: usize = 0;
        proof {
            assert(upto(group@, 0) =~= Set::<int>::empty());
            assert(is_partition(next@, upto(group@, 0)));
        }
        while i < group.len()
            invariant
                self.wf(),
                d == self@,
                u == union_of(group@),
                is_partition(group@, u),
                closed(d, u),
                forall|q: int| u.contains(q) ==> 0 <= q < d.states.len(),
                i <= group@.len(),
                refines(d, group@, symbols@, next@, upto(group@, i as int)),
                next@.len() >= i,
                next@.len() == i ==> unsplit(d, group@, symbols@, upto(group@, i as int)),
            decreases group@.len() - i,
        {
            let ghost before = next@;
            proof {
                assert forall|p: int| group@[i as int]@.contains(p) implies u.contains(p) by {}
                assert forall|p: int, s: Symbol|
                    group@[i as int]@.contains(p) && (#[trigger] d.next(p, s)) is Some implies covered(
                    group@,
                    d.next(p, s)->Some_0,
                ) by {
                    assert(u.contains(p));
                    assert(u.contains(d.next(p, s)->Some_0));
                }
            }
            let mut parts = group[i].divide(self, group, symbols);
            let ghost split = parts@;
            proof {
                lemma_refine_step(d, group@, u, symbols@, before, split, i as int);
            }
            next.append(&mut parts);
            i += 1;
        }
        proof {
            assert(upto(group@, group@.len() as int) =~= u) by {
                assert forall|q: int| upto(group@, group@.len() as int).contains(q) <==> u.contains(q) by {
                    if u.contains(q) {
                        let j = choose|j: int| 0 <= j < group@.len() && #[trigger] group@[j]@.contains(q);
                        assert(group@[j]@.contains(q));
                    }
                    if upto(group@, group@.len() as int).contains(q) {
                        let j = choose|j: int|
                            0 <= j < group@.len() && j < group@.len() && #[trigger] group@[j]@.contains(q);
                        assert(covered(group@, q));
                    }
                }
            }
        }
        next
    }

    /// Gives the state that stands for block `i` the transitions of the
    /// member `p`, each redirected to the state that stands for the
    /// block of its target.
    pub fn redirect(&self, group: &Vec<StateSet>, states: &mut Vec<State>, i: usize, p: StateNode)
        requires
            self.wf(),
            is_partition(group@, union_of(group@)),
            closed(self@, union_of(group@)),
            stable(self@, group@),
            i < group@.len(),
            group@[i as int]@.contains(p as int),
            p < self@.states.len(),
            old(states)@.len() == group@.len(),
            arena_wf(old(states)@),
            sound(self@, group@, old(states)@[i as int]@, group@[i as int].key_view()[0] as int),
        ensures
            final(states)@.len() == old(states)@.len(),
            forall|j: int| 0 <= j < old(states)@.len() && j != i ==> final(states)@[j] == old(states)@[j],
            arena_wf(final(states)@),
            final(states)@[i as int]@.acceptable == old(states)@[i as int]@.acceptable,
            sound(self@, group@, final(states)@[i as int]@, group@[i as int].key_view()[0] as int),
            covers(self@, final(states)@[i as int]@, p as int),
            forall|s: Symbol|
                old(states)@[i as int]@.next.contains_key(s) ==> final(states)@[i as int]@.next.contains_key(s),
    {
        let ghost d = self@;
        let ghost u = union_of(group@);
        let ghost lead = group@[i as int].key_view()[0] as int;
        proof {
            self.lemma_wf();
        }
        let st = &self.states()[p];
        let deg = st.degree();
        let mut e: usize = 0;
        proof {
            st.lemma_entries();
            assert(group@[i as int].key_view().len() > 0);
            assert(group@[i as int]@.contains(lead));
        }
        while e < deg
            invariant
                self.wf(),
                d == self@,
                u == union_of(group@),
                is_partition(group@, u),
                closed(d, u),
                stable(d, group@),
                i < group@.len(),
                group@[i as int]@.contains(p as int),
                group@[i as int]@.contains(lead),
                lead == group@[i as int].key_view()[0],
                p < d.states.len(),
                st.wf(),
                d.states[p as int] == st@,
                deg == st.entries().len(),
                e <= deg,
                states@.len() == group@.len(),
                states@.len() == old(states)@.len(),
                forall|j: int| 0 <= j < states@.len() && j != i ==> states@[j] == old(states)@[j],
                arena_wf(states@),
                states@[i as int]@.acceptable == old(states)@[i as int]@.acceptable,
                sound(d, group@, states@[i as int]@, lead),
                forall|s: Symbol|
                    old(states)@[i as int]@.next.contains_key(s) ==> states@[i as int]@.next.contains_key(s),
                forall|j: int| 0 <= j < e ==> states@[i as int]@.next.contains_key((#[trigger] st.entries()[j]).0),
            decreases deg - e,
        {
            let (sym, t) = st.edge(e);
            let ghost before = states@;
            proof {
                st.lemma_entries();
                assert(st.entries()[e as int] == (sym, t));
                assert(st@.next.contains_key(sym) && st@.next[sym] == t);
                assert(d.next(p as int, sym) == Some(t as int));
                assert(u.contains(p as int));
                assert(u.contains(t as int));
            }
            let target = Self::typical_state_of_state(t, group);
            states[i].transition(sym, target);
            proof {
                let sm = states@[i as int]@;
                assert(same_block(group@, lead, p as int));
                assert(agree(d, group@, lead, p as int, sym));
                let t0 = d.next(lead, sym)->Some_0;
                let k = choose|k: int|
                    0 <= k < group@.len() && #[trigger] group@[k]@.contains(t0) && group@[k]@.contains(t as int);
                assert(k == target);
                assert forall|s: Symbol| #[trigger] sm.next.contains_key(s) implies d.next(lead, s) is Some && 0
                    <= sm.next[s] < group@.len() && group@[sm.next[s]]@.contains(d.next(lead, s)->Some_0) by {
                    if s != sym {
                        assert(before[i as int]@.next.contains_key(s));
                    }
                }
                assert forall|j: int| 0 <= j < states@.len() implies (#[trigger] states@[j]).wf() && forall|
                    s: Symbol,
                | #[trigger]
                    states@[j]@.next.contains_key(s) ==> 0 <= states@[j]@.next[s] < states@.len() by {
                    if j != i {
                        assert(states@[j] == before[j]);
                    } else {
                        assert(before[j].wf());
                        assert forall|s: Symbol| #[trigger] states@[j]@.next.contains_key(s) implies 0
                            <= states@[j]@.next[s] < states@.len() by {
                            if s != sym {
                                assert(before[j]@.next.contains_key(s));
                            }
                        }
                    }
                }
            }
            e += 1;
        }
        proof {
            st.lemma_entries();
            let sm = states@[i as int]@;
            assert forall|s: Symbol| (#[trigger] d.next(p as int, s)) is Some implies sm.next.contains_key(s) by {
                assert(st@.next.contains_key(s));
                assert(key_before(st.entries(), st.entries().len() as int, s));
                let j = choose|j: int|
                    0 <= j < st.entries().len() && j < st.entries().len() && (#[trigger] st.entries()[j]).0 == s;
                assert(sm.next.contains_key(st.entries()[j].0));
            }
        }
    }

    /// The automaton of the blocks: one state for each block, with the
    /// transitions of the members redirected to the blocks of their
    /// targets; it starts in the block of the start.
    pub fn merge(&self, group: &Vec<StateSet>) -> (m: DFA)
        requires
            self.wf(),
            is_partition(group@, union_of(group@)),
            closed(self@, union_of(group@)),
            union_of(group@).contains(self@.start),
            forall|q: int| union_of(group@).contains(q) ==> 0 <= q < self@.states.len(),
            stable(self@, group@),
            uniform(self@, group@),
        ensures
            m.wf(),
            quotient(self@, group@, m@),
    {
        let ghost d = self@;
        let ghost u = union_of(group@);
        let mut states: Vec<State> = Vec::new();
        let mut i: usize = 0;
        while i < group.len()
            invariant
                self.wf(),
                d == self@,
                u == union_of(group@),
                is_partition(group@, u),
                forall|q: int| u.contains(q) ==> 0 <= q < d.states.len(),
                i <= group@.len(),
                states@.len() == i,
                forall|j: int|
                    0 <= j < i ==> (#[trigger] states@[j]).wf() && states@[j]@.next == Map::<Symbol, int>::empty()
                        && states@[j]@.acceptable == any_accepting(d, group@[j]@),
            decreases group@.len() - i,
        {
            proof {
                assert forall|q: int| group@[i as int]@.contains(q) implies 0 <= q < d.states.len() by {
                    assert(u.contains(q));
                }
            }
            let typical = self.typical_state_of_set(&group[i]);
            states.push(typical);
            i += 1;
        }
        i = 0;
        while i < group.len()
            invariant
                self.wf(),
                d == self@,
                u == union_of(group@),
                is_partition(group@, u),
                closed(d, u),
                forall|q: int| u.contains(q) ==> 0 <= q < d.states.len(),
                stable(d, group@),
                uniform(d, group@),
                i <= group@.len(),
                states@.len() == group@.len(),
                arena_wf(states@),
                forall|j: int|
                    0 <= j < states@.len() ==> (#[trigger] states@[j])@.acceptable == any_accepting(d, group@[j]@),
                forall|j: int| 0 <= j < i ==> #[trigger] block_ok(d, group@, states@[j]@, j),
                forall|j: int|
                    i <= j < states@.len() ==> (#[trigger] states@[j])@.next == Map::<Symbol, int>::empty(),
            decreases group@.len() - i,
        {
            let set = &group[i];
            let ghost lead = set.key_view()[0] as int;
            let mut m: usize = 0;
            proof {
                assert(set.key_view().len() > 0);
                assert(set@.contains(lead));
                assert(states@[i as int]@.next == Map::<Symbol, int>::empty());
            }
            while m < set.len()
                invariant
                    self.wf(),
                    d == self@,
                    u == union_of(group@),
                    is_partition(group@, u),
                    closed(d, u),
                    forall|q: int| u.contains(q) ==> 0 <= q < d.states.len(),
                    stable(d, group@),
                    uniform(d, group@),
                    i < group@.len(),
                    set == group@[i as int],
                    lead == set.key_view()[0],
                    set.key_view().len() > 0,
                    m <= set.key_view().len(),
                    states@.len() == group@.len(),
                    arena_wf(states@),
                    forall|j: int|
                        0 <= j < states@.len() ==> (#[trigger] states@[j])@.acceptable == any_accepting(
                            d,
                            group@[j]@,
                        ),
                    forall|j: int| 0 <= j < i ==> #[trigger] block_ok(d, group@, states@[j]@, j),
                    forall|j: int|
                        i < j < states@.len() ==> (#[trigger] states@[j])@.next == Map::<Symbol, int>::empty(),
                    sound(d, group@, states@[i as int]@, lead),
                    m > 0 ==> covers(d, states@[i as int]@, lead),
                decreases set.key_view().len() - m,
            {
                let p = set.get(m);
                let ghost before = states@;
                proof {
                    assert(u.contains(p as int));
                }
                self.redirect(group, &mut states, i, p);
                proof {
                    assert forall|j: int| 0 <= j < states@.len() implies (#[trigger] states@[j])@.acceptable
                        == any_accepting(d, group@[j]@) by {
                        if j != i {
                            assert(states@[j] == before[j]);
                        }
                    }
                    assert forall|j: int| 0 <= j < i implies #[trigger] block_ok(d, group@, states@[j]@, j) by {
                        assert(states@[j] == before[j]);
                        assert(block_ok(d, group@, before[j]@, j));
                    }
                    assert forall|j: int| i < j < states@.len() implies (#[trigger] states@[j])@.next
                        == Map::<Symbol, int>::empty() by {
                        assert(states@[j] == before[j]);
                    }
                    if m > 0 {
                        assert(covers(d, before[i as int]@, lead));
                        assert forall|s: Symbol| (#[trigger] d.next(lead, s)) is Some implies states@[i as int]@.next.contains_key(
                            s,
                        ) by {
                            assert(before[i as int]@.next.contains_key(s));
                        }
                    }
                }
                m += 1;
            }
            proof {
                let sm = states@[i as int]@;
                assert(any_accepting(d, set@) == d.states[lead].acceptable) by {
                    if any_accepting(d, set@) {
                        let q = choose|q: int| set@.contains(q) && #[trigger] d.states[q].acceptable;
                        assert(group@[i as int]@.contains(lead) && group@[i as int]@.contains(q));
                        assert(same_block(group@, lead, q));
                    }
                }
                lemma_block_ok(d, group@, u, sm, i as int, lead);
            }
            i += 1;
        }
        proof {
            assert(covered(group@, d.start));
        }
        let start = Self::typical_state_of_state(self.start(), group);
        let m = DFA::new(states, start);
        proof {
            assert forall|j: int| 0 <= j < group@.len() implies #[trigger] block_ok(d, group@, m@.states[j], j) by {}
        }
        m
    }

    /// The minimal automaton that is observed like this one: it gets
    /// stuck on the words on which this one gets stuck and accepts the
    /// words that this one accepts, all its states are reachable, and no
    /// two of them behave alike. An automaton that is minimal already
    /// keeps its number of states.
    pub fn minimize(&self) -> (m: DFA)
        requires
            self.wf(),
        ensures
            m.wf(),
            is_minimization_of(m@, self@),
            forall|w: Seq<char>| #[trigger] m@.matches(w) == self@.matches(w),
            self@.epsilon_free() ==> m@.epsilon_free(),
            self@.is_minimal() ==> m@.states.len() == self@.states.len(),
    {
        let ghost d = self@;
        let n = self.size();
        let all = self.all_states();
        let ghost u = all@;
        proof {
            self.lemma_wf();
        }
        let mut symbols = all.alphabet(self.states());
        let ghost listed = symbols@;
        symbols.push(Symbol::Epsilon);
        let mut group = all.divide_by_acceptable(self);
        proof {
            self.lemma_wf();
            crate::fsa::lemma_contains_push(listed, Symbol::Epsilon);
            lemma_first_partition(d, group@, u);
            assert forall|p: int, s: Symbol| u.contains(p) && (#[trigger] d.next(p, s)) is Some implies symbols@.contains(
                s,
            ) by {
                let st = self.arena()[p];
                st.lemma_entries();
                assert(d.states[p] == st@);
                assert(st@.next.contains_key(s));
                if s != Symbol::Epsilon {
                    assert(offers(self.arena(), p, s));
                    assert(offered(self.arena(), u, s));
                    assert(listed.contains(s));
                }
                assert(listed.push(Symbol::Epsilon).contains(s));
            }
        }
        loop
            invariant
                self.wf(),
                d == self@,
                n == d.states.len(),
                all.wf(),
                u == all@,
                reach_set(d, u),
                closed(d, u),
                u.contains(d.start),
                lists_all(d, u, symbols@),
                is_partition(group@, u),
                separated(d, group@),
                uniform(d, group@),
            ensures
                stable(d, group@),
            decreases n - group@.len(),
        {
            proof {
                lemma_partition_universe(group@, u);
                lemma_partition_count(group@, u, n as int);
            }
            let next = self.refine(&group, &symbols);
            proof {
                lemma_refine_keeps(d, group@, u, symbols@, next@);
                lemma_partition_count(next@, u, n as int);
            }
            if next.len() == group.len() {
                proof {
                    lemma_unsplit_stable(d, group@, u, symbols@);
                }
                break ;
            }
            group = next;
        }
        proof {
            lemma_partition_universe(group@, u);
        }
        let m = self.merge(&group);
        proof {
            m.lemma_wf();
            lemma_quotient_minimal(d, group@, u, m@);
            lemma_same_language(d, m@);
            if d.epsilon_free() {
                assert forall|j: int| 0 <= j < m@.states.len() implies !(#[trigger] m@.states[j]).next.contains_key(
                    Symbol::Epsilon,
                ) by {
                    let p = group@[j].key_view()[0] as int;
                    assert(group@[j].key_view().len() > 0);
                    assert(group@[j]@.contains(p));
                    assert(block_ok(d, group@, m@.states[j], j));
                    assert(u.contains(p));
                    assert(d.next(p, Symbol::Epsilon) is None);
                }
            }
            if d.is_minimal() {
                lemma_minimal_same_size(m@, d);
            }
        }
        m
    }
}

} // verus!
