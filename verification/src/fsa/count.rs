//! Counting arguments: how many distinct values fit into a finite range.
use vstd::arithmetic::power2::{lemma_pow2_pos, lemma_pow2_unfold, pow2};
use vstd::prelude::*;
use vstd::set_lib::{lemma_int_range, lemma_len_subset, set_int_range};

verus! {

/// A sequence of distinct integers from `0..m` has at most `m` elements.
pub proof fn lemma_injection_bound(f: Seq<int>, m: int)
    requires
        0 <= m,
        f.no_duplicates(),
        forall|i: int| 0 <= i < f.len() ==> 0 <= #[trigger] f[i] < m,
    ensures
        f.len() <= m,
{
    f.unique_seq_to_set();
    lemma_int_range(0, m);
    assert forall|x: int| f.to_set().contains(x) implies set_int_range(0, m).contains(x) by {
        let i = choose|i: int| 0 <= i < f.len() && f[i] == x;
        assert(0 <= f[i] < m);
    }
    lemma_len_subset(f.to_set(), set_int_range(0, m));
}

/// The number whose binary digits say which of `0..n` are members of `s`.
pub open spec fn code(s: Set<int>, n: nat) -> nat
    decreases n,
{
    if n == 0 {
        0
    } else {
        code(s, (n - 1) as nat) + if s.contains(n - 1) {
            pow2((n - 1) as nat)
        } else {
            0
        }
    }
}

/// The code of a set is below `2^n`.
pub proof fn lemma_code_bound(s: Set<int>, n: nat)
    ensures
        code(s, n) < pow2(n),
    decreases n,
{
    lemma_pow2_pos(n);
    if n > 0 {
        lemma_code_bound(s, (n - 1) as nat);
        lemma_pow2_unfold(n);
    }
}

/// Sets with the same code have the same members below `n`.
pub proof fn lemma_code_injective(s: Set<int>, t: Set<int>, n: nat)
    requires
        code(s, n) == code(t, n),
    ensures
        forall|i: int| 0 <= i < n ==> s.contains(i) == t.contains(i),
    decreases n,
{
    if n > 0 {
        let m = (n - 1) as nat;
        lemma_code_bound(s, m);
        lemma_code_bound(t, m);
        lemma_pow2_pos(m);
        assert(s.contains(n - 1) == t.contains(n - 1));
        lemma_code_injective(s, t, m);
    }
}

/// There are at most `2^n` distinct sets of numbers below `n`.
pub proof fn lemma_distinct_subsets(sets: Seq<Set<int>>, n: nat)
    requires
        forall|i: int, q: int| 0 <= i < sets.len() && (#[trigger] sets[i].contains(q)) ==> 0 <= q < n,
        forall|i: int, j: int| 0 <= i < j < sets.len() ==> sets[i] != sets[j],
    ensures
        sets.len() <= pow2(n),
{
    let codes = Seq::new(sets.len(), |i: int| code(sets[i], n) as int);
    assert forall|i: int, j: int| 0 <= i < codes.len() && 0 <= j < codes.len() && i != j implies codes[i]
        != codes[j] by {
        if codes[i] == codes[j] {
            lemma_code_injective(sets[i], sets[j], n);
            assert forall|q: int| sets[i].contains(q) <==> sets[j].contains(q) by {
                if sets[i].contains(q) {
                    assert(0 <= q < n);
                }
                if sets[j].contains(q) {
                    assert(0 <= q < n);
                }
            }
            assert(sets[i] =~= sets[j]);
            if i < j {
                assert(sets[i] != sets[j]);
            } else {
                assert(sets[j] != sets[i]);
            }
        }
    }
    assert forall|i: int| 0 <= i < codes.len() implies 0 <= #[trigger] codes[i] < pow2(n) by {
        lemma_code_bound(sets[i], n);
    }
    lemma_injection_bound(codes, pow2(n) as int);
}

} // verus!
