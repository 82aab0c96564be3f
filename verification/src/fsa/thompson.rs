//! Thompson's construction: the automata for a character, for two
//! automata in a row, for a choice between two, and for repetition, each
//! with the language it accepts.
use crate::fsa::graph::{
    confined, is_path, label, lemma_first_exit, lemma_path_append, lemma_path_mono, lemma_path_single,
    lemma_path_stuck, lemma_shift_path, shift_edge, shift_path, single, unit, Edge,
};
use crate::fsa::nfa::{arena_wf, edges_of, NfaModel, State, NFA};
use crate::fsa::{StateNode, Symbol};
use vstd::prelude::*;

verus! {

/// The edges of `a` together with those of `b` moved up by `off`.
pub open spec fn glue(a: Set<Edge>, b: Set<Edge>, off: int) -> Set<Edge> {
    Set::new(|e: Edge| a.contains(e) || b.contains(shift_edge(e, -off)))
}

/// The edge from `from` to `to` that reads no input.
pub open spec fn eps(from: int, to: int) -> Edge {
    Edge { from, sym: Symbol::Epsilon, to }
}

/// `m` is the fragment for the character `c`: a start, an end, and one
/// transition on `c` between them.
pub open spec fn is_single(c: char, m: NfaModel) -> bool {
    &&& m.size == 2
    &&& m.start == 0
    &&& m.end == 1
    &&& m.edges == Set::<Edge>::empty().insert(Edge { from: 0, sym: Symbol::Char(c), to: 1 })
}

/// `m` is `l` followed by `r`: the states of both, and an epsilon
/// transition from the end of `l` to the start of `r`.
pub open spec fn is_concat(l: NfaModel, r: NfaModel, m: NfaModel) -> bool {
    &&& m.size == l.size + r.size
    &&& m.start == l.start
    &&& m.end == l.size + r.end
    &&& m.edges == glue(l.edges, r.edges, l.size).insert(eps(l.end, l.size + r.start))
}

/// `m` is the choice between `l` and `r`: the states of both, a new start
/// with epsilon transitions to both starts, and a new end with epsilon
/// transitions from both ends.
pub open spec fn is_alternate(l: NfaModel, r: NfaModel, m: NfaModel) -> bool {
    let s = l.size + r.size;
    &&& m.size == s + 2
    &&& m.start == s
    &&& m.end == s + 1
    &&& m.edges == glue(l.edges, r.edges, l.size).insert(eps(s, l.start)).insert(eps(s, l.size + r.start)).insert(
        eps(l.end, s + 1),
    ).insert(eps(l.size + r.end, s + 1))
}

/// `m` is the repetition of `r`: the states of `r`, a new start with
/// epsilon transitions to the new end and to the start of `r`, and epsilon
/// transitions from the end of `r` back to its start and on to the new end.
pub open spec fn is_closure(r: NfaModel, m: NfaModel) -> bool {
    let s = r.size;
    &&& m.size == s + 2
    &&& m.start == s
    &&& m.end == s + 1
    &&& m.edges == r.edges.insert(eps(s, s + 1)).insert(eps(s, r.start)).insert(eps(r.end, r.start)).insert(
        eps(r.end, s + 1),
    )
}

/// `l` accepts the first `i` characters of `w` and `r` the rest.
pub open spec fn splits(l: NfaModel, r: NfaModel, w: Seq<char>, i: int) -> bool {
    0 <= i <= w.len() && l.accepts(w.take(i)) && r.accepts(w.skip(i))
}

/// `w` is a word of `l` followed by a word of `r`.
pub open spec fn concat_of(l: NfaModel, r: NfaModel, w: Seq<char>) -> bool {
    exists|i: int| #[trigger] splits(l, r, w, i)
}

/// The words of `parts`, one after the other.
pub open spec fn concat_all(parts: Seq<Seq<char>>) -> Seq<char>
    decreases parts.len(),
{
    if parts.len() == 0 {
        Seq::empty()
    } else {
        parts[0] + concat_all(parts.drop_first())
    }
}

/// `r` accepts every word of `parts`.
pub open spec fn all_accepted(r: NfaModel, parts: Seq<Seq<char>>) -> bool {
    forall|i: int| 0 <= i < parts.len() ==> r.accepts(#[trigger] parts[i])
}

/// `w` is made of any number of words of `r`, one after the other.
pub open spec fn star_of(r: NfaModel, w: Seq<char>) -> bool {
    exists|parts: Seq<Seq<char>>| all_accepted(r, parts) && #[trigger] concat_all(parts) == w
}

/// The list that holds the one word `w`.
pub open spec fn one_part(w: Seq<char>) -> Seq<Seq<char>> {
    Seq::<Seq<char>>::empty().push(w)
}

/// One word in a row is that word.
pub proof fn lemma_concat_all_one(w: Seq<char>)
    ensures
        concat_all(one_part(w)) == w,
{
    let p = one_part(w);
    assert(p[0] == w);
    assert(p.drop_first() =~= Seq::<Seq<char>>::empty());
    assert(concat_all(p.drop_first()) =~= Seq::<char>::empty());
    assert(w + Seq::<char>::empty() =~= w);
}

/// A word before a list of words comes first in the row.
pub proof fn lemma_concat_all_cons(w: Seq<char>, parts: Seq<Seq<char>>)
    ensures
        concat_all(one_part(w) + parts) == w + concat_all(parts),
{
    let p = one_part(w) + parts;
    assert(p[0] == w);
    assert(p.drop_first() =~= parts);
}

/// The fragment for `c` accepts the word `c` and no other.
pub proof fn lemma_single_language(c: char, m: NfaModel, w: Seq<char>)
    requires
        is_single(c, m),
    ensures
        m.accepts(w) <==> w == unit(c),
{
    let g = m.edges;
    let e = Edge { from: 0, sym: Symbol::Char(c), to: 1 };
    if m.accepts(w) {
        let pi = choose|pi: Seq<Edge>| #[trigger] is_path(g, pi, 0, 1) && label(pi) == w;
        assert(pi.len() > 0);
        assert(pi[0] == e);
        let rest = pi.drop_first();
        lemma_path_stuck(g, rest, 1, 1);
        assert(label(rest) =~= Seq::<char>::empty());
        assert(w =~= unit(c));
    }
    if w == unit(c) {
        lemma_path_single(g, e);
        assert(is_path(g, single(e), 0, 1));
    }
}

/// `l` followed by `r` accepts the words that split into a word of `l`
/// and a word of `r`.
pub proof fn lemma_concat_language(l: NfaModel, r: NfaModel, m: NfaModel, w: Seq<char>)
    requires
        l.wf(),
        r.wf(),
        is_concat(l, r, m),
    ensures
        m.accepts(w) <==> concat_of(l, r, w),
{
    let g = m.edges;
    let off = l.size;
    let x = eps(l.end, off + r.start);
    if m.accepts(w) {
        let pi = choose|pi: Seq<Edge>| #[trigger] is_path(g, pi, m.start, m.end) && label(pi) == w;
        let exits1 = Set::<Edge>::empty().insert(x);
        assert forall|e: Edge| #[trigger] g.contains(e) && 0 <= e.from < off implies exits1.contains(e) || (0
            <= e.to < off && l.edges.contains(shift_edge(e, -0))) by {
            if e != x {
                if r.edges.contains(shift_edge(e, -off)) {
                    assert(shift_edge(e, -off).from >= 0);
                }
                assert(l.edges.contains(e));
                assert(shift_edge(e, -0) == e);
            }
        }
        assert(confined(g, l.edges, 0, off, exits1));
        let k = lemma_first_exit(g, l.edges, 0, off, exits1, pi, l.start, m.end);
        assert(k < pi.len());
        assert(pi[k] == x);
        let w1 = label(pi.take(k));
        assert(is_path(l.edges, shift_path(pi.take(k), -0), l.start, l.end));
        assert(l.accepts(w1));
        let rest = pi.skip(k + 1);
        let exits2 = Set::<Edge>::empty();
        assert forall|e: Edge| #[trigger] g.contains(e) && off <= e.from < off + r.size implies exits2.contains(e)
            || (off <= e.to < off + r.size && r.edges.contains(shift_edge(e, -off))) by {
            if l.edges.contains(e) {
                assert(e.from < off);
            }
            assert(r.edges.contains(shift_edge(e, -off)));
            assert(0 <= shift_edge(e, -off).to < r.size);
        }
        assert(confined(g, r.edges, off, off + r.size, exits2));
        let k2 = lemma_first_exit(g, r.edges, off, off + r.size, exits2, rest, off + r.start, m.end);
        assert(k2 == rest.len());
        let w2 = label(rest);
        assert(rest.take(k2) =~= rest);
        assert(is_path(r.edges, shift_path(rest, -off), r.start, r.end));
        assert(r.accepts(w2));
        assert(pi.skip(k)[0] == pi[k]);
        assert(pi.skip(k).drop_first() =~= rest);
        assert(label(pi.skip(k)) == w2);
        let i = w1.len() as int;
        assert(w.take(i) =~= w1);
        assert(w.skip(i) =~= w2);
        assert(splits(l, r, w, i));
    }
    if concat_of(l, r, w) {
        let i = choose|i: int| #[trigger] splits(l, r, w, i);
        let a = choose|a: Seq<Edge>| #[trigger] is_path(l.edges, a, l.start, l.end) && label(a) == w.take(i);
        let b = choose|b: Seq<Edge>| #[trigger] is_path(r.edges, b, r.start, r.end) && label(b) == w.skip(i);
        assert(l.edges.subset_of(g));
        lemma_path_mono(l.edges, g, a, l.start, l.end);
        assert forall|e: Edge| #[trigger] r.edges.contains(e) implies g.contains(shift_edge(e, off)) by {
            assert(shift_edge(shift_edge(e, off), -off) == e);
        }
        lemma_shift_path(r.edges, g, off, b, r.start, r.end);
        lemma_path_single(g, x);
        lemma_path_append(g, a, single(x), l.start, l.end, off + r.start);
        lemma_path_append(g, a + single(x), shift_path(b, off), l.start, off + r.start, off + r.end);
        let pi = a + single(x) + shift_path(b, off);
        assert(label(pi) =~= w.take(i) + w.skip(i));
        assert(w.take(i) + w.skip(i) =~= w);
        assert(is_path(g, pi, m.start, m.end) && label(pi) == w);
    }
}

/// The choice between `l` and `r` accepts the words of `l` and those of `r`.
pub proof fn lemma_alternate_language(l: NfaModel, r: NfaModel, m: NfaModel, w: Seq<char>)
    requires
        l.wf(),
        r.wf(),
        is_alternate(l, r, m),
    ensures
        m.accepts(w) <==> l.accepts(w) || r.accepts(w),
{
    let g = m.edges;
    let off = l.size;
    let s = l.size + r.size;
    let t = s + 1;
    let xl = eps(s, l.start);
    let xr = eps(s, off + r.start);
    let yl = eps(l.end, t);
    let yr = eps(off + r.end, t);
    assert forall|e: Edge| #[trigger] g.contains(e) implies e.from != t by {
        if l.edges.contains(e) {
        } else if r.edges.contains(shift_edge(e, -off)) {
            assert(shift_edge(e, -off).from < r.size);
        }
    }
    if m.accepts(w) {
        let pi = choose|pi: Seq<Edge>| #[trigger] is_path(g, pi, s, t) && label(pi) == w;
        assert(pi.len() > 0);
        let first = pi[0];
        let rest = pi.drop_first();
        assert(first.from == s);
        if l.edges.contains(first) {
            assert(first.from < off);
        }
        if r.edges.contains(shift_edge(first, -off)) {
            assert(shift_edge(first, -off).from < r.size);
        }
        assert(first == xl || first == xr);
        assert(label(pi) == label(rest));
        if first == xl {
            let exits = Set::<Edge>::empty().insert(yl);
            assert forall|e: Edge| #[trigger] g.contains(e) && 0 <= e.from < off implies exits.contains(e) || (0
                <= e.to < off && l.edges.contains(shift_edge(e, -0))) by {
                if e != yl {
                    if r.edges.contains(shift_edge(e, -off)) {
                        assert(shift_edge(e, -off).from >= 0);
                    }
                    assert(l.edges.contains(e));
                    assert(shift_edge(e, -0) == e);
                }
            }
            assert(confined(g, l.edges, 0, off, exits));
            let k = lemma_first_exit(g, l.edges, 0, off, exits, rest, l.start, t);
            assert(k < rest.len());
            assert(rest[k] == yl);
            let tail = rest.skip(k + 1);
            lemma_path_stuck(g, tail, t, t);
            assert(rest.skip(k)[0] == rest[k]);
            assert(rest.skip(k).drop_first() =~= tail);
            assert(label(tail) =~= Seq::<char>::empty());
            assert(label(rest.skip(k)) =~= Seq::<char>::empty());
            assert(label(rest) =~= label(rest.take(k)));
            assert(is_path(l.edges, shift_path(rest.take(k), -0), l.start, l.end));
            assert(l.accepts(w));
        } else {
            let exits = Set::<Edge>::empty().insert(yr);
            assert forall|e: Edge| #[trigger] g.contains(e) && off <= e.from < s implies exits.contains(e) || (off
                <= e.to < s && r.edges.contains(shift_edge(e, -off))) by {
                if e != yr {
                    if l.edges.contains(e) {
                        assert(e.from < off);
                    }
                    assert(r.edges.contains(shift_edge(e, -off)));
                    assert(0 <= shift_edge(e, -off).to < r.size);
                }
            }
            assert(confined(g, r.edges, off, s, exits));
            let k = lemma_first_exit(g, r.edges, off, s, exits, rest, off + r.start, t);
            assert(k < rest.len());
            assert(rest[k] == yr);
            let tail = rest.skip(k + 1);
            lemma_path_stuck(g, tail, t, t);
            assert(rest.skip(k)[0] == rest[k]);
            assert(rest.skip(k).drop_first() =~= tail);
            assert(label(tail) =~= Seq::<char>::empty());
            assert(label(rest.skip(k)) =~= Seq::<char>::empty());
            assert(label(rest) =~= label(rest.take(k)));
            assert(is_path(r.edges, shift_path(rest.take(k), -off), r.start, r.end));
            assert(r.accepts(w));
        }
    }
    if l.accepts(w) {
        let a = choose|a: Seq<Edge>| #[trigger] is_path(l.edges, a, l.start, l.end) && label(a) == w;
        assert(l.edges.subset_of(g));
        lemma_path_mono(l.edges, g, a, l.start, l.end);
        lemma_path_single(g, xl);
        lemma_path_single(g, yl);
        lemma_path_append(g, single(xl), a, s, l.start, l.end);
        lemma_path_append(g, single(xl) + a, single(yl), s, l.end, t);
        let pi = single(xl) + a + single(yl);
        assert(label(pi) =~= w);
        assert(is_path(g, pi, m.start, m.end) && label(pi) == w);
    }
    if r.accepts(w) {
        let b = choose|b: Seq<Edge>| #[trigger] is_path(r.edges, b, r.start, r.end) && label(b) == w;
        assert forall|e: Edge| #[trigger] r.edges.contains(e) implies g.contains(shift_edge(e, off)) by {
            assert(shift_edge(shift_edge(e, off), -off) == e);
        }
        lemma_shift_path(r.edges, g, off, b, r.start, r.end);
        lemma_path_single(g, xr);
        lemma_path_single(g, yr);
        lemma_path_append(g, single(xr), shift_path(b, off), s, off + r.start, off + r.end);
        lemma_path_append(g, single(xr) + shift_path(b, off), single(yr), s, off + r.end, t);
        let pi = single(xr) + shift_path(b, off) + single(yr);
        assert(label(pi) =~= w);
        assert(is_path(g, pi, m.start, m.end) && label(pi) == w);
    }
}

/// In the repetition of `r`, a path from the start of `r` to its end
/// spells the words of `parts` in a row.
pub proof fn lemma_closure_build(r: NfaModel, m: NfaModel, parts: Seq<Seq<char>>) -> (path: Seq<Edge>)
    requires
        r.wf(),
        is_closure(r, m),
        parts.len() >= 1,
        all_accepted(r, parts),
    ensures
        is_path(m.edges, path, r.start, r.end),
        label(path) == concat_all(parts),
    decreases parts.len(),
{
    let g = m.edges;
    assert(r.accepts(parts[0]));
    let a = choose|a: Seq<Edge>| #[trigger] is_path(r.edges, a, r.start, r.end) && label(a) == parts[0];
    assert(r.edges.subset_of(g));
    lemma_path_mono(r.edges, g, a, r.start, r.end);
    let rest = parts.drop_first();
    if parts.len() == 1 {
        assert(concat_all(rest) =~= Seq::<char>::empty());
        assert(parts[0] + Seq::<char>::empty() =~= parts[0]);
        a
    } else {
        assert forall|i: int| 0 <= i < rest.len() implies r.accepts(#[trigger] rest[i]) by {
            assert(rest[i] == parts[i + 1]);
        }
        let b = lemma_closure_build(r, m, rest);
        let back = eps(r.end, r.start);
        lemma_path_single(g, back);
        lemma_path_append(g, a, single(back), r.start, r.end, r.start);
        lemma_path_append(g, a + single(back), b, r.start, r.start, r.end);
        assert(label(a + single(back) + b) =~= parts[0] + concat_all(rest));
        a + single(back) + b
    }
}

/// In the repetition of `r`, what a path from the start of `r` to the new
/// end spells is made of words of `r`.
pub proof fn lemma_closure_unroll(r: NfaModel, m: NfaModel, path: Seq<Edge>) -> (parts: Seq<Seq<char>>)
    requires
        r.wf(),
        is_closure(r, m),
        is_path(m.edges, path, r.start, m.end),
    ensures
        all_accepted(r, parts),
        concat_all(parts) == label(path),
    decreases path.len(),
{
    let g = m.edges;
    let s = r.size;
    let t = s + 1;
    let back = eps(r.end, r.start);
    let out = eps(r.end, t);
    let exits = Set::<Edge>::empty().insert(back).insert(out);
    assert forall|e: Edge| #[trigger] g.contains(e) implies e.from != t by {}
    assert forall|e: Edge| #[trigger] g.contains(e) && 0 <= e.from < s implies exits.contains(e) || (0 <= e.to
        < s && r.edges.contains(shift_edge(e, -0))) by {
        if !exits.contains(e) {
            assert(r.edges.contains(e));
            assert(shift_edge(e, -0) == e);
        }
    }
    assert(confined(g, r.edges, 0, s, exits));
    let k = lemma_first_exit(g, r.edges, 0, s, exits, path, r.start, t);
    assert(k < path.len());
    let w1 = label(path.take(k));
    assert(path[k].from == r.end);
    assert(is_path(r.edges, shift_path(path.take(k), -0), r.start, r.end));
    assert(r.accepts(w1));
    let tail = path.skip(k + 1);
    assert(path.skip(k)[0] == path[k]);
    assert(path.skip(k).drop_first() =~= tail);
    assert(label(path.skip(k)) == label(tail));
    if path[k] == out {
        lemma_path_stuck(g, tail, t, t);
        assert(label(tail) =~= Seq::<char>::empty());
        lemma_concat_all_one(w1);
        assert(w1 + Seq::<char>::empty() =~= w1);
        let parts = one_part(w1);
        assert forall|i: int| 0 <= i < parts.len() implies r.accepts(#[trigger] parts[i]) by {}
        parts
    } else {
        assert(path[k] == back);
        let more = lemma_closure_unroll(r, m, tail);
        lemma_concat_all_cons(w1, more);
        let parts = one_part(w1) + more;
        assert forall|i: int| 0 <= i < parts.len() implies r.accepts(#[trigger] parts[i]) by {
            if i > 0 {
                assert(parts[i] == more[i - 1]);
            }
        }
        parts
    }
}

/// The repetition of `r` accepts the words made of any number of words of
/// `r`, the empty word among them.
pub proof fn lemma_closure_language(r: NfaModel, m: NfaModel, w: Seq<char>)
    requires
        r.wf(),
        is_closure(r, m),
    ensures
        m.accepts(w) <==> star_of(r, w),
{
    let g = m.edges;
    let s = r.size;
    let t = s + 1;
    let skip = eps(s, t);
    let enter = eps(s, r.start);
    let out = eps(r.end, t);
    if m.accepts(w) {
        let pi = choose|pi: Seq<Edge>| #[trigger] is_path(g, pi, s, t) && label(pi) == w;
        assert(pi.len() > 0);
        let first = pi[0];
        let rest = pi.drop_first();
        assert(first == skip || first == enter);
        assert(label(pi) == label(rest));
        if first == skip {
            assert forall|e: Edge| #[trigger] g.contains(e) implies e.from != t by {}
            lemma_path_stuck(g, rest, t, t);
            let parts = Seq::<Seq<char>>::empty();
            assert(concat_all(parts) =~= w);
            assert(all_accepted(r, parts));
        } else {
            let parts = lemma_closure_unroll(r, m, rest);
            assert(concat_all(parts) == w);
        }
    }
    if star_of(r, w) {
        let parts = choose|parts: Seq<Seq<char>>| all_accepted(r, parts) && #[trigger] concat_all(parts) == w;
        if parts.len() == 0 {
            lemma_path_single(g, skip);
            assert(w =~= Seq::<char>::empty());
            assert(is_path(g, single(skip), s, t) && label(single(skip)) == w);
        } else {
            let b = lemma_closure_build(r, m, parts);
            lemma_path_single(g, enter);
            lemma_path_single(g, out);
            lemma_path_append(g, single(enter), b, s, r.start, r.end);
            lemma_path_append(g, single(enter) + b, single(out), s, r.end, t);
            let pi = single(enter) + b + single(out);
            assert(label(pi) =~= w);
            assert(is_path(g, pi, m.start, m.end) && label(pi) == w);
        }
    }
}

/// The transitions `a` are the transitions `b` with every target moved up
/// by `off`.
pub open spec fn shifted_from(a: Seq<(Symbol, StateNode)>, b: Seq<(Symbol, StateNode)>, off: int) -> bool {
    a.len() == b.len() && forall|k: int|
        0 <= k < b.len() ==> (#[trigger] a[k]).0 == b[k].0 && a[k].1 == b[k].1 + off
}

/// The arena `g` is the arena `a` followed by a copy of `b` whose targets
/// are moved up by the length of `a`.
pub proof fn lemma_glued(a: Seq<State>, b: Seq<State>, g: Seq<State>)
    requires
        arena_wf(a),
        arena_wf(b),
        g.len() == a.len() + b.len(),
        forall|i: int| 0 <= i < a.len() ==> (#[trigger] g[i])@ == a[i]@,
        forall|i: int| a.len() <= i < g.len() ==> shifted_from((#[trigger] g[i])@, b[i - a.len()]@, a.len() as int),
    ensures
        edges_of(g) == glue(edges_of(a), edges_of(b), a.len() as int),
        arena_wf(g),
{
    let off = a.len() as int;
    let n = g.len() as int;
    assert forall|i: int| 0 <= i < g.len() implies (#[trigger] g[i]).bounded(n) by {
        if i < off {
            assert(a[i].bounded(off));
            assert forall|k: int| 0 <= k < g[i]@.len() implies (#[trigger] g[i]@[k]).1 < n by {
                assert(a[i]@[k].1 < off);
            }
        } else {
            assert(b[i - off].bounded(b.len() as int));
            assert forall|k: int| 0 <= k < g[i]@.len() implies (#[trigger] g[i]@[k]).1 < n by {
                assert(b[i - off]@[k].1 < b.len());
            }
        }
    }
    let left = edges_of(g);
    let right = glue(edges_of(a), edges_of(b), off);
    assert forall|e: Edge| left.contains(e) <==> right.contains(e) by {
        let se = shift_edge(e, -off);
        if left.contains(e) {
            let st = g[e.from];
            let j = choose|j: int|
                0 <= j < st@.len() && j < st@.len() && (#[trigger] st@[j]).0 == e.sym && st@[j].1 == e.to;
            if e.from < off {
                assert(a[e.from]@[j].0 == e.sym);
                assert(a[e.from].has(e.sym, e.to));
            } else {
                let sb = b[e.from - off];
                assert(sb@[j].0 == e.sym && sb@[j].1 == e.to - off);
                assert(sb.has(se.sym, se.to));
                assert(edges_of(b).contains(se));
            }
        }
        if edges_of(a).contains(e) {
            let st = a[e.from];
            let j = choose|j: int|
                0 <= j < st@.len() && j < st@.len() && (#[trigger] st@[j]).0 == e.sym && st@[j].1 == e.to;
            assert(g[e.from]@[j].0 == e.sym);
            assert(g[e.from].has(e.sym, e.to));
        }
        if edges_of(b).contains(se) {
            let sb = b[se.from];
            let j = choose|j: int|
                0 <= j < sb@.len() && j < sb@.len() && (#[trigger] sb@[j]).0 == se.sym && sb@[j].1 == se.to;
            let st = g[e.from];
            assert(shifted_from(st@, sb@, off));
            assert(st@[j].0 == e.sym && st@[j].1 == e.to);
            assert(st.has(e.sym, e.to));
        }
    }
    assert(left =~= right);
}

/// Giving state `i` one more transition adds one edge to the graph.
pub proof fn lemma_add_edge(g: Seq<State>, h: Seq<State>, i: int, sym: Symbol, t: StateNode)
    requires
        arena_wf(g),
        0 <= i < g.len(),
        t < g.len(),
        h.len() == g.len(),
        forall|k: int| 0 <= k < g.len() && k != i ==> (#[trigger] h[k])@ == g[k]@,
        h[i]@ == g[i]@.push((sym, t)),
    ensures
        edges_of(h) == edges_of(g).insert(Edge { from: i, sym, to: t as int }),
        arena_wf(h),
{
    let n = g.len() as int;
    let x = Edge { from: i, sym, to: t as int };
    assert forall|k: int| 0 <= k < h.len() implies (#[trigger] h[k]).bounded(n) by {
        assert(g[k].bounded(n));
        assert forall|j: int| 0 <= j < h[k]@.len() implies (#[trigger] h[k]@[j]).1 < n by {
            if k == i && j == g[i]@.len() {
            } else {
                assert(g[k]@[j].1 < n);
            }
        }
    }
    let left = edges_of(h);
    let right = edges_of(g).insert(x);
    assert forall|e: Edge| left.contains(e) <==> right.contains(e) by {
        if left.contains(e) {
            let st = h[e.from];
            let j = choose|j: int|
                0 <= j < st@.len() && j < st@.len() && (#[trigger] st@[j]).0 == e.sym && st@[j].1 == e.to;
            if e.from == i && j == g[i]@.len() {
                assert(e == x);
            } else {
                assert(g[e.from]@[j].0 == e.sym);
                assert(g[e.from].has(e.sym, e.to));
            }
        }
        if edges_of(g).contains(e) {
            let st = g[e.from];
            let j = choose|j: int|
                0 <= j < st@.len() && j < st@.len() && (#[trigger] st@[j]).0 == e.sym && st@[j].1 == e.to;
            assert(h[e.from]@[j].0 == e.sym);
            assert(h[e.from].has(e.sym, e.to));
        }
        if e == x {
            assert(h[i]@[g[i]@.len() as int].0 == sym);
            assert(h[i].has(sym, t as int));
        }
    }
    assert(left =~= right);
}

/// A new state without transitions leaves the graph as it is.
pub proof fn lemma_push_state(g: Seq<State>, h: Seq<State>)
    requires
        arena_wf(g),
        h.len() == g.len() + 1,
        forall|k: int| 0 <= k < g.len() ==> (#[trigger] h[k])@ == g[k]@,
        h[g.len() as int]@.len() == 0,
    ensures
        edges_of(h) == edges_of(g),
        arena_wf(h),
{
    let n = h.len() as int;
    assert forall|k: int| 0 <= k < h.len() implies (#[trigger] h[k]).bounded(n) by {
        if k < g.len() {
            assert(g[k].bounded(g.len() as int));
            assert forall|j: int| 0 <= j < h[k]@.len() implies (#[trigger] h[k]@[j]).1 < n by {
                assert(g[k]@[j].1 < g.len());
            }
        }
    }
    let left = edges_of(h);
    let right = edges_of(g);
    assert forall|e: Edge| left.contains(e) <==> right.contains(e) by {
        if left.contains(e) {
            let st = h[e.from];
            let j = choose|j: int|
                0 <= j < st@.len() && j < st@.len() && (#[trigger] st@[j]).0 == e.sym && st@[j].1 == e.to;
            assert(g[e.from]@[j].0 == e.sym);
            assert(g[e.from].has(e.sym, e.to));
        }
        if right.contains(e) {
            let st = g[e.from];
            let j = choose|j: int|
                0 <= j < st@.len() && j < st@.len() && (#[trigger] st@[j]).0 == e.sym && st@[j].1 == e.to;
            assert(h[e.from]@[j].0 == e.sym);
            assert(h[e.from].has(e.sym, e.to));
        }
    }
    assert(left =~= right);
}

/// Moves the states of `other` behind those of `states`, with their
/// transitions adjusted to the new positions. Returns the position of the
/// first of them.
pub fn absorb(states: &mut Vec<State>, other: Vec<State>) -> (off: usize)
    requires
        arena_wf(old(states)@),
        arena_wf(other@),
    ensures
        off == old(states)@.len(),
        final(states)@.len() == off + other@.len(),
        arena_wf(final(states)@),
        edges_of(final(states)@) == glue(edges_of(old(states)@), edges_of(other@), off as int),
{
    let off = states.len();
    let ghost src = other@;
    let mut tail = other;
    states.append(&mut tail);
    let total = states.len();
    let mut i: usize = off;
    while i < total
        invariant
            off <= i <= total,
            off == old(states)@.len(),
            states@.len() == total,
            total == off + src.len(),
            arena_wf(src),
            forall|k: int| 0 <= k < off ==> (#[trigger] states@[k]) == old(states)@[k],
            forall|k: int| off <= k < i ==> shifted_from((#[trigger] states@[k])@, src[k - off]@, off as int),
            forall|k: int| i <= k < total ==> (#[trigger] states@[k]) == src[k - off],
        decreases total - i,
    {
        let ghost before = states@;
        assert(before[i as int] == src[i - off]);
        assert(src[i - off].bounded(src.len() as int));
        let moved = states[i].shifted(off);
        states[i] = moved;
        i += 1;
    }
    proof {
        lemma_glued(old(states)@, src, states@);
    }
    off
}

/// Adds a state without transitions and returns its handle.
pub fn fresh(states: &mut Vec<State>) -> (r: StateNode)
    requires
        arena_wf(old(states)@),
    ensures
        r == old(states)@.len(),
        final(states)@.len() == old(states)@.len() + 1,
        arena_wf(final(states)@),
        edges_of(final(states)@) == edges_of(old(states)@),
{
    let r = State::new_node(states);
    proof {
        assert forall|k: int| 0 <= k < old(states)@.len() implies (#[trigger] states@[k])@ == old(states)@[k]@ by {
            assert(states@.take(r as int)[k] == states@[k]);
        }
        lemma_push_state(old(states)@, states@);
    }
    r
}

/// Adds a transition on `symbol` from `from` to `to`.
pub fn connect(states: &mut Vec<State>, from: StateNode, symbol: Symbol, to: StateNode)
    requires
        arena_wf(old(states)@),
        from < old(states)@.len(),
        to < old(states)@.len(),
    ensures
        final(states)@.len() == old(states)@.len(),
        arena_wf(final(states)@),
        edges_of(final(states)@) == edges_of(old(states)@).insert(Edge { from: from as int, sym: symbol, to: to as int }),
{
    states[from].transition(symbol, to);
    proof {
        lemma_add_edge(old(states)@, states@, from as int, symbol, to);
    }
}

impl NFA {
    /// The fragment that accepts the one word `c`.
    pub fn single(c: char) -> (r: NFA)
        ensures
            r.wf(),
            is_single(c, r@),
            forall|w: Seq<char>| #[trigger] r@.accepts(w) <==> w == unit(c),
    {
        let mut states: Vec<State> = Vec::new();
        assert(edges_of(states@) =~= Set::<Edge>::empty());
        let start = fresh(&mut states);
        let end = fresh(&mut states);
        connect(&mut states, start, Symbol::Char(c), end);
        let r = NFA::new(states, start, end);
        proof {
            assert forall|w: Seq<char>| #[trigger] r@.accepts(w) <==> w == unit(c) by {
                lemma_single_language(c, r@, w);
            }
        }
        r
    }

    /// `left` followed by `right`: accepts the words that split into a
    /// word of `left` and a word of `right`.
    pub fn concat(left: NFA, right: NFA) -> (r: NFA)
        requires
            left.wf(),
            right.wf(),
        ensures
            r.wf(),
            is_concat(left@, right@, r@),
            forall|w: Seq<char>| #[trigger] r@.accepts(w) <==> concat_of(left@, right@, w),
    {
        let ghost lm = left@;
        let ghost rm = right@;
        proof {
            left.lemma_wf();
            right.lemma_wf();
        }
        let (mut states, ls, le) = left.into_parts();
        let (others, rs, re) = right.into_parts();
        let off = absorb(&mut states, others);
        let total = states.len();
        connect(&mut states, le, Symbol::Epsilon, rs + off);
        let r = NFA::new(states, ls, re + off);
        proof {
            assert(r@.edges =~= glue(lm.edges, rm.edges, lm.size).insert(eps(lm.end, lm.size + rm.start)));
            assert forall|w: Seq<char>| #[trigger] r@.accepts(w) <==> concat_of(lm, rm, w) by {
                lemma_concat_language(lm, rm, r@, w);
            }
        }
        r
    }

    /// The choice between `left` and `right`: accepts the words of both.
    pub fn alternate(left: NFA, right: NFA) -> (r: NFA)
        requires
            left.wf(),
            right.wf(),
        ensures
            r.wf(),
            is_alternate(left@, right@, r@),
            forall|w: Seq<char>| #[trigger] r@.accepts(w) <==> left@.accepts(w) || right@.accepts(w),
    {
        let ghost lm = left@;
        let ghost rm = right@;
        proof {
            left.lemma_wf();
            right.lemma_wf();
        }
        let (mut states, ls, le) = left.into_parts();
        let (others, rs, re) = right.into_parts();
        let off = absorb(&mut states, others);
        let total = states.len();
        let start = fresh(&mut states);
        let end = fresh(&mut states);
        connect(&mut states, start, Symbol::Epsilon, ls);
        connect(&mut states, start, Symbol::Epsilon, rs + off);
        connect(&mut states, le, Symbol::Epsilon, end);
        connect(&mut states, re + off, Symbol::Epsilon, end);
        let r = NFA::new(states, start, end);
        proof {
            let s = lm.size + rm.size;
            assert(r@.edges =~= glue(lm.edges, rm.edges, lm.size).insert(eps(s, lm.start)).insert(
                eps(s, lm.size + rm.start),
            ).insert(eps(lm.end, s + 1)).insert(eps(lm.size + rm.end, s + 1)));
            assert forall|w: Seq<char>| #[trigger] r@.accepts(w) <==> lm.accepts(w) || rm.accepts(w) by {
                lemma_alternate_language(lm, rm, r@, w);
            }
        }
        r
    }

    /// The repetition of `inner`: accepts the words made of any number of
    /// words of `inner`, the empty word among them.
    pub fn closure(inner: NFA) -> (r: NFA)
        requires
            inner.wf(),
        ensures
            r.wf(),
            is_closure(inner@, r@),
            forall|w: Seq<char>| #[trigger] r@.accepts(w) <==> star_of(inner@, w),
    {
        let ghost im = inner@;
        proof {
            inner.lemma_wf();
        }
        let (mut states, is, ie) = inner.into_parts();
        let start = fresh(&mut states);
        let end = fresh(&mut states);
        connect(&mut states, start, Symbol::Epsilon, end);
        connect(&mut states, start, Symbol::Epsilon, is);
        connect(&mut states, ie, Symbol::Epsilon, is);
        connect(&mut states, ie, Symbol::Epsilon, end);
        let r = NFA::new(states, start, end);
        proof {
            let s = im.size;
            assert(r@.edges =~= im.edges.insert(eps(s, s + 1)).insert(eps(s, im.start)).insert(
                eps(im.end, im.start),
            ).insert(eps(im.end, s + 1)));
            assert forall|w: Seq<char>| #[trigger] r@.accepts(w) <==> star_of(im, w) by {
                lemma_closure_language(im, r@, w);
            }
        }
        r
    }
}

} // verus!
