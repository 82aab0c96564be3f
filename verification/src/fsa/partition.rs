//! Partitions of the states of a deterministic automaton, their
//! refinement by signatures, and the automaton of the blocks.
use crate::fsa::count::lemma_injection_bound;
use crate::fsa::dfa::{DfaModel, StateModel};
use crate::fsa::minimal::{is_minimization_of, lemma_run_cons, lemma_run_one};
use crate::fsa::{StateSet, Symbol};
use vstd::prelude::*;

verus! {

/// Some block holds `q`.
pub open spec fn covered(blocks: Seq<StateSet>, q: int) -> bool {
    exists|i: int| 0 <= i < blocks.len() && #[trigger] blocks[i]@.contains(q)
}

/// Some block holds both `p` and `q`.
pub open spec fn same_block(blocks: Seq<StateSet>, p: int, q: int) -> bool {
    exists|i: int| 0 <= i < blocks.len() && #[trigger] blocks[i]@.contains(p) && blocks[i]@.contains(q)
}

/// The blocks are non-empty, disjoint, and together they hold exactly the
/// states of `universe`.
pub open spec fn is_partition(blocks: Seq<StateSet>, universe: Set<int>) -> bool {
    &&& forall|i: int| 0 <= i < blocks.len() ==> (#[trigger] blocks[i]).wf() && blocks[i].key_view().len() > 0
    &&& forall|i: int, q: int| 0 <= i < blocks.len() && #[trigger] blocks[i]@.contains(q) ==> universe.contains(q)
    &&& forall|q: int| universe.contains(q) ==> #[trigger] covered(blocks, q)
    &&& forall|i: int, j: int, q: int|
        0 <= i < blocks.len() && 0 <= j < blocks.len() && #[trigger] blocks[i]@.contains(q)
            && #[trigger] blocks[j]@.contains(q) ==> i == j
}

/// From `p` and from `q` the symbol `s` leads into the same block, or it
/// leads nowhere from both.
pub open spec fn agree(d: DfaModel, blocks: Seq<StateSet>, p: int, q: int, s: Symbol) -> bool {
    match (d.next(p, s), d.next(q, s)) {
        (Some(a), Some(b)) => same_block(blocks, a, b),
        (None, None) => true,
        _ => false,
    }
}

/// `p` and `q` agree on every symbol of `symbols`.
pub open spec fn agree_all(d: DfaModel, blocks: Seq<StateSet>, symbols: Seq<Symbol>, p: int, q: int) -> bool {
    forall|k: int| 0 <= k < symbols.len() ==> agree(d, blocks, p, q, #[trigger] symbols[k])
}

/// States of different blocks are distinguishable.
pub open spec fn separated(d: DfaModel, blocks: Seq<StateSet>) -> bool {
    forall|p: int, q: int|
        covered(blocks, p) && covered(blocks, q) && !same_block(blocks, p, q) ==> #[trigger] d.distinguishable(
            p,
            q,
        )
}

/// States of one block are both accepting or both not.
pub open spec fn uniform(d: DfaModel, blocks: Seq<StateSet>) -> bool {
    forall|p: int, q: int| #[trigger] same_block(blocks, p, q) ==> d.states[p].acceptable == d.states[q].acceptable
}

/// States of one block agree on every symbol: no further split is due.
pub open spec fn stable(d: DfaModel, blocks: Seq<StateSet>) -> bool {
    forall|p: int, q: int, s: Symbol| same_block(blocks, p, q) ==> #[trigger] agree(d, blocks, p, q, s)
}

/// Every transition from a state of `r` leads to a state of `r`.
pub open spec fn closed(d: DfaModel, r: Set<int>) -> bool {
    forall|p: int, s: Symbol|
        r.contains(p) && (#[trigger] d.next(p, s)) is Some ==> r.contains(d.next(p, s)->Some_0)
}

/// Every transition of the state `sm` is one of `lead`, redirected to the
/// block of its target.
pub open spec fn sound(d: DfaModel, blocks: Seq<StateSet>, sm: StateModel, lead: int) -> bool {
    forall|s: Symbol| #[trigger]
        sm.next.contains_key(s) ==> d.next(lead, s) is Some && 0 <= sm.next[s] < blocks.len()
            && blocks[sm.next[s]]@.contains(d.next(lead, s)->Some_0)
}

/// The state `sm` has a transition on every symbol on which `p` has one.
pub open spec fn covers(d: DfaModel, sm: StateModel, p: int) -> bool {
    forall|s: Symbol| (#[trigger] d.next(p, s)) is Some ==> sm.next.contains_key(s)
}

/// The state `sm` does for the block `i` what each of its members does:
/// it accepts where they do, and on every symbol it leads to the block of
/// their target.
pub open spec fn block_ok(d: DfaModel, blocks: Seq<StateSet>, sm: StateModel, i: int) -> bool {
    forall|p: int, s: Symbol| #[trigger]
        blocks[i]@.contains(p) ==> sm.acceptable == d.states[p].acceptable && (match #[trigger] d.next(p, s) {
            Some(t) => sm.next.contains_key(s) && 0 <= sm.next[s] < blocks.len() && blocks[sm.next[s]]@.contains(t),
            None => !sm.next.contains_key(s),
        })
}

/// `m` has one state for each block, which does what the members of the
/// block do, and starts in the block of the start of `d`.
pub open spec fn quotient(d: DfaModel, blocks: Seq<StateSet>, m: DfaModel) -> bool {
    &&& m.states.len() == blocks.len()
    &&& 0 <= m.start < blocks.len()
    &&& blocks[m.start]@.contains(d.start)
    &&& forall|i: int| 0 <= i < blocks.len() ==> #[trigger] block_ok(d, blocks, m.states[i], i)
}

/// A partition of states below `n` has at most `n` blocks.
pub proof fn lemma_partition_count(blocks: Seq<StateSet>, universe: Set<int>, n: int)
    requires
        is_partition(blocks, universe),
        forall|q: int| universe.contains(q) ==> 0 <= q < n,
        0 <= n,
    ensures
        blocks.len() <= n,
{
    let f = Seq::new(blocks.len(), |i: int| blocks[i].key_view()[0] as int);
    assert forall|i: int| 0 <= i < f.len() implies 0 <= #[trigger] f[i] < n && blocks[i]@.contains(f[i]) by {
        assert(blocks[i].key_view().len() > 0);
        assert(blocks[i]@.contains(blocks[i].key_view()[0] as int));
    }
    assert forall|i: int, j: int| 0 <= i < f.len() && 0 <= j < f.len() && i != j implies f[i] != f[j] by {
        assert(blocks[i]@.contains(f[i]));
        assert(blocks[j]@.contains(f[j]));
    }
    lemma_injection_bound(f, n);
}

/// States that disagree on a symbol are distinguishable, where the
/// blocks separate distinguishable states.
pub proof fn lemma_disagree_distinguishable(d: DfaModel, blocks: Seq<StateSet>, p: int, q: int, s: Symbol)
    requires
        separated(d, blocks),
        !agree(d, blocks, p, q, s),
        d.next(p, s) matches Some(a) ==> covered(blocks, a),
        d.next(q, s) matches Some(b) ==> covered(blocks, b),
    ensures
        d.distinguishable(p, q),
{
    let one = Seq::<Symbol>::empty().push(s);
    match (d.next(p, s), d.next(q, s)) {
        (Some(a), Some(b)) => {
            assert(d.distinguishable(a, b));
            let w = choose|w: Seq<Symbol>| #[trigger] d.outcome_from(a, w) != d.outcome_from(b, w);
            lemma_run_cons(d, p, s, w);
            lemma_run_cons(d, q, s, w);
            assert(d.outcome_from(p, one + w) != d.outcome_from(q, one + w));
        },
        (Some(a), None) => {
            lemma_run_one(d, p, s);
            lemma_run_one(d, q, s);
            assert(d.outcome_from(p, one) != d.outcome_from(q, one));
        },
        (None, Some(b)) => {
            lemma_run_one(d, p, s);
            lemma_run_one(d, q, s);
            assert(d.outcome_from(p, one) != d.outcome_from(q, one));
        },
        (None, None) => {},
    }
}

/// What the first member of a block does, every member does, where the
/// partition is stable.
pub proof fn lemma_block_ok(d: DfaModel, blocks: Seq<StateSet>, universe: Set<int>, sm: StateModel, i: int, lead: int)
    requires
        is_partition(blocks, universe),
        stable(d, blocks),
        uniform(d, blocks),
        0 <= i < blocks.len(),
        blocks[i]@.contains(lead),
        sm.acceptable == d.states[lead].acceptable,
        sound(d, blocks, sm, lead),
        covers(d, sm, lead),
    ensures
        block_ok(d, blocks, sm, i),
{
    assert forall|p: int, s: Symbol| #[trigger] blocks[i]@.contains(p) implies sm.acceptable
        == d.states[p].acceptable && (match #[trigger] d.next(p, s) {
        Some(t) => sm.next.contains_key(s) && 0 <= sm.next[s] < blocks.len() && blocks[sm.next[s]]@.contains(t),
        None => !sm.next.contains_key(s),
    }) by {
        assert(same_block(blocks, lead, p));
        assert(agree(d, blocks, lead, p, s));
        match d.next(p, s) {
            Some(t) => {
                let t0 = d.next(lead, s)->Some_0;
                assert(sm.next.contains_key(s));
                let j = sm.next[s];
                assert(blocks[j]@.contains(t0));
                let k = choose|k: int| 0 <= k < blocks.len() && #[trigger] blocks[k]@.contains(t0) && blocks[k]@.contains(t);
                assert(k == j);
            },
            None => {
                if sm.next.contains_key(s) {
                    assert(d.next(lead, s) is Some);
                }
            },
        }
    }
}

/// The automaton of the blocks runs from the block of `p` as `d` runs
/// from `p`: it ends in the block of the state in which `d` ends, and it
/// gets stuck where `d` does.
pub proof fn lemma_quotient_run(
    d: DfaModel,
    blocks: Seq<StateSet>,
    m: DfaModel,
    p: int,
    i: int,
    w: Seq<Symbol>,
)
    requires
        quotient(d, blocks, m),
        0 <= i < blocks.len(),
        blocks[i]@.contains(p),
    ensures
        match d.run(p, w) {
            Some(q) => m.run(i, w) is Some && 0 <= m.run(i, w)->Some_0 < blocks.len() && blocks[m.run(
                i,
                w,
            )->Some_0]@.contains(q),
            None => m.run(i, w) is None,
        },
        m.outcome_from(i, w) == d.outcome_from(p, w),
    decreases w.len(),
{
    assert(block_ok(d, blocks, m.states[i], i));
    if w.len() == 0 {
    } else {
        let s = w[0];
        match d.next(p, s) {
            Some(t) => {
                let j = m.states[i].next[s];
                assert(m.next(i, s) == Some(j));
                lemma_quotient_run(d, blocks, m, t, j, w.drop_first());
            },
            None => {
                assert(m.next(i, s) is None);
            },
        }
    }
    match d.run(p, w) {
        Some(q) => {
            let j = m.run(i, w)->Some_0;
            assert(block_ok(d, blocks, m.states[j], j));
        },
        None => {},
    }
}

/// The states that `d` reaches from its start.
pub open spec fn reach_set(d: DfaModel, r: Set<int>) -> bool {
    forall|q: int| r.contains(q) <==> 0 <= q < d.states.len() && d.reachable(q)
}

/// The automaton of the blocks of a stable partition that separates
/// distinguishable states is a minimization.
pub proof fn lemma_quotient_minimal(d: DfaModel, blocks: Seq<StateSet>, universe: Set<int>, m: DfaModel)
    requires
        d.wf(),
        m.wf(),
        reach_set(d, universe),
        is_partition(blocks, universe),
        separated(d, blocks),
        quotient(d, blocks, m),
    ensures
        is_minimization_of(m, d),
{
    assert forall|w: Seq<Symbol>| #[trigger] m.outcome(w) == d.outcome(w) by {
        lemma_quotient_run(d, blocks, m, d.start, m.start, w);
    }
    assert forall|j: int| 0 <= j < m.states.len() implies #[trigger] m.reachable(j) by {
        let q = blocks[j].key_view()[0] as int;
        assert(blocks[j].key_view().len() > 0);
        assert(blocks[j]@.contains(q));
        assert(universe.contains(q));
        assert(d.reachable(q));
        let w = choose|w: Seq<Symbol>| #[trigger] d.run(d.start, w) == Some(q);
        lemma_quotient_run(d, blocks, m, d.start, m.start, w);
        assert(m.run(m.start, w) == Some(j));
    }
    assert forall|i: int, j: int| 0 <= i < j < m.states.len() implies #[trigger] m.distinguishable(i, j) by {
        let p = blocks[i].key_view()[0] as int;
        let q = blocks[j].key_view()[0] as int;
        assert(blocks[i].key_view().len() > 0);
        assert(blocks[j].key_view().len() > 0);
        assert(blocks[i]@.contains(p));
        assert(blocks[j]@.contains(q));
        assert(covered(blocks, p));
        assert(covered(blocks, q));
        if same_block(blocks, p, q) {
            let k = choose|k: int| 0 <= k < blocks.len() && #[trigger] blocks[k]@.contains(p) && blocks[k]@.contains(q);
            assert(k == i && k == j);
        }
        assert(d.distinguishable(p, q));
        let w = choose|w: Seq<Symbol>| #[trigger] d.outcome_from(p, w) != d.outcome_from(q, w);
        lemma_quotient_run(d, blocks, m, p, i, w);
        lemma_quotient_run(d, blocks, m, q, j, w);
        assert(m.outcome_from(i, w) != m.outcome_from(j, w));
    }
}

} // verus!
