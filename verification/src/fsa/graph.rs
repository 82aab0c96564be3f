//! Labelled graphs as the mathematical model of nondeterministic automata:
//! paths, the words they spell, and the simulation by sets of states.
use crate::fsa::Symbol;
use vstd::prelude::*;

verus! {

/// A transition from state `from` to state `to` on `sym`.
pub ghost struct Edge {
    pub from: int,
    pub sym: Symbol,
    pub to: int,
}

/// The path that consists of the edge `e`.
pub open spec fn single(e: Edge) -> Seq<Edge> {
    Seq::<Edge>::empty().push(e)
}

/// The word that consists of the character `c`.
pub open spec fn unit(c: char) -> Seq<char> {
    Seq::<char>::empty().push(c)
}

/// `path` is a chain of edges of `g` that leads from `p` to `q`.
pub open spec fn is_path(g: Set<Edge>, path: Seq<Edge>, p: int, q: int) -> bool
    decreases path.len(),
{
    if path.len() == 0 {
        p == q
    } else {
        g.contains(path[0]) && path[0].from == p && is_path(g, path.drop_first(), path[0].to, q)
    }
}

/// The characters read along `path`, in order; epsilon edges read nothing.
pub open spec fn label(path: Seq<Edge>) -> Seq<char>
    decreases path.len(),
{
    if path.len() == 0 {
        Seq::empty()
    } else {
        match path[0].sym {
            Symbol::Epsilon => label(path.drop_first()),
            Symbol::Char(c) => unit(c) + label(path.drop_first()),
        }
    }
}

/// Some path of `g` leads from `p` to `q` and spells `w`.
pub open spec fn reach(g: Set<Edge>, p: int, w: Seq<char>, q: int) -> bool {
    exists|path: Seq<Edge>| #[trigger] is_path(g, path, p, q) && label(path) == w
}

/// The states reachable from a state of `s` without reading input.
pub open spec fn eclose(g: Set<Edge>, s: Set<int>) -> Set<int> {
    Set::new(|q: int| exists|p: int| s.contains(p) && #[trigger] reach(g, p, Seq::empty(), q))
}

/// The states that one edge labelled `sym` reaches from a state of `s`.
pub open spec fn moved(g: Set<Edge>, s: Set<int>, sym: Symbol) -> Set<int> {
    Set::new(|q: int| exists|p: int| s.contains(p) && #[trigger] g.contains(Edge { from: p, sym, to: q }))
}

/// Move on `sym`, then close under epsilon.
pub open spec fn step_on(g: Set<Edge>, s: Set<int>, sym: Symbol) -> Set<int> {
    eclose(g, moved(g, s, sym))
}

/// One step of the simulation: move on `c`, then close under epsilon.
pub open spec fn step(g: Set<Edge>, s: Set<int>, c: char) -> Set<int> {
    step_on(g, s, Symbol::Char(c))
}

/// The set of states that the simulation holds after reading `w` from `s`.
pub open spec fn simulate(g: Set<Edge>, s: Set<int>, w: Seq<char>) -> Set<int>
    decreases w.len(),
{
    if w.len() == 0 {
        s
    } else {
        simulate(g, step(g, s, w[0]), w.drop_first())
    }
}

/// `s` contains whatever its members reach without reading input.
pub open spec fn eps_closed(g: Set<Edge>, s: Set<int>) -> bool {
    forall|p: int, q: int| s.contains(p) && #[trigger] reach(g, p, Seq::empty(), q) ==> s.contains(q)
}

/// `s` contains the target of every epsilon edge that leaves a member.
pub open spec fn eps_edge_closed(g: Set<Edge>, s: Set<int>) -> bool {
    forall|e: Edge| #[trigger] g.contains(e) && e.sym == Symbol::Epsilon && s.contains(e.from) ==> s.contains(e.to)
}

/// The edge `e` moved by `off` states.
pub open spec fn shift_edge(e: Edge, off: int) -> Edge {
    Edge { from: e.from + off, sym: e.sym, to: e.to + off }
}

/// The path `path` moved by `off` states.
pub open spec fn shift_path(path: Seq<Edge>, off: int) -> Seq<Edge> {
    Seq::new(path.len(), |i: int| shift_edge(path[i], off))
}

/// Inside the states `lo..hi`, `g` is a copy of `inner` moved by `lo`, but
/// for the edges in `exits`.
pub open spec fn confined(g: Set<Edge>, inner: Set<Edge>, lo: int, hi: int, exits: Set<Edge>) -> bool {
    forall|e: Edge| #[trigger]
        g.contains(e) && lo <= e.from < hi ==> exits.contains(e) || (lo <= e.to < hi && inner.contains(
            shift_edge(e, -lo),
        ))
}

/// Two sequences of edges in a row spell what the first spells and then
/// what the second spells.
pub proof fn lemma_label_append(a: Seq<Edge>, b: Seq<Edge>)
    ensures
        label(a + b) == label(a) + label(b),
    decreases a.len(),
{
    if a.len() == 0 {
        assert(a + b =~= b);
        assert(label(a) + label(b) =~= label(b));
    } else {
        lemma_label_append(a.drop_first(), b);
        assert((a + b).drop_first() =~= a.drop_first() + b);
        assert((a + b)[0] == a[0]);
        match a[0].sym {
            Symbol::Epsilon => {},
            Symbol::Char(c) => {
                assert(unit(c) + (label(a.drop_first()) + label(b)) =~= (unit(c) + label(a.drop_first()))
                    + label(b));
            },
        }
    }
}

/// Two paths that meet in `q` make one path.
pub proof fn lemma_path_append(g: Set<Edge>, a: Seq<Edge>, b: Seq<Edge>, p: int, q: int, r: int)
    requires
        is_path(g, a, p, q),
        is_path(g, b, q, r),
    ensures
        is_path(g, a + b, p, r),
        label(a + b) == label(a) + label(b),
    decreases a.len(),
{
    lemma_label_append(a, b);
    if a.len() == 0 {
        assert(a + b =~= b);
    } else {
        lemma_path_append(g, a.drop_first(), b, a[0].to, q, r);
        assert((a + b).drop_first() =~= a.drop_first() + b);
        assert((a + b)[0] == a[0]);
    }
}

/// The empty path leads from a state to itself and spells the empty word.
pub proof fn lemma_path_empty(g: Set<Edge>, p: int)
    ensures
        is_path(g, Seq::<Edge>::empty(), p, p),
        label(Seq::<Edge>::empty()) == Seq::<char>::empty(),
        reach(g, p, Seq::<char>::empty(), p),
{
    assert(is_path(g, Seq::<Edge>::empty(), p, p));
}

/// An edge is a path of length one.
pub proof fn lemma_path_single(g: Set<Edge>, e: Edge)
    requires
        g.contains(e),
    ensures
        is_path(g, single(e), e.from, e.to),
        e.sym == Symbol::Epsilon ==> label(single(e)) == Seq::<char>::empty(),
        e.sym matches Symbol::Char(c) ==> label(single(e)) == unit(c),
{
    let s = single(e);
    assert(s[0] == e);
    assert(s.drop_first() =~= Seq::<Edge>::empty());
    assert(is_path(g, s.drop_first(), e.to, e.to));
    assert(label(s.drop_first()) =~= Seq::<char>::empty());
    match e.sym {
        Symbol::Epsilon => {
            assert(label(s) =~= Seq::<char>::empty());
        },
        Symbol::Char(c) => {
            assert(label(s) =~= unit(c));
        },
    }
}

/// A path of a graph is a path of every larger graph.
pub proof fn lemma_path_mono(g: Set<Edge>, h: Set<Edge>, path: Seq<Edge>, p: int, q: int)
    requires
        is_path(g, path, p, q),
        g.subset_of(h),
    ensures
        is_path(h, path, p, q),
    decreases path.len(),
{
    if path.len() > 0 {
        lemma_path_mono(g, h, path.drop_first(), path[0].to, q);
    }
}

/// Moving a graph moves its paths along and keeps what they spell.
pub proof fn lemma_shift_path(g: Set<Edge>, h: Set<Edge>, off: int, path: Seq<Edge>, p: int, q: int)
    requires
        is_path(g, path, p, q),
        forall|e: Edge| #[trigger] g.contains(e) ==> h.contains(shift_edge(e, off)),
    ensures
        is_path(h, shift_path(path, off), p + off, q + off),
        label(shift_path(path, off)) == label(path),
    decreases path.len(),
{
    let sp = shift_path(path, off);
    if path.len() == 0 {
    } else {
        lemma_shift_path(g, h, off, path.drop_first(), path[0].to, q);
        assert(sp.drop_first() =~= shift_path(path.drop_first(), off));
        assert(sp[0] == shift_edge(path[0], off));
    }
}

/// A moved path spells what the path spells.
pub proof fn lemma_shift_label(path: Seq<Edge>, off: int)
    ensures
        label(shift_path(path, off)) == label(path),
    decreases path.len(),
{
    let sp = shift_path(path, off);
    if path.len() > 0 {
        lemma_shift_label(path.drop_first(), off);
        assert(sp.drop_first() =~= shift_path(path.drop_first(), off));
        assert(sp[0] == shift_edge(path[0], off));
    }
}

/// A path from a state without outgoing edges is empty.
pub proof fn lemma_path_stuck(g: Set<Edge>, path: Seq<Edge>, p: int, q: int)
    requires
        is_path(g, path, p, q),
        forall|e: Edge| #[trigger] g.contains(e) ==> e.from != p,
    ensures
        path.len() == 0,
        p == q,
{
}

/// Follows `path` from a state inside `lo..hi` up to the first edge that is
/// not a copy of an edge of `inner`. Returns the position `k` of that edge,
/// or the length of the path where there is none. The first `k` edges are a
/// path of `inner`, moved by `lo`.
pub proof fn lemma_first_exit(
    g: Set<Edge>,
    inner: Set<Edge>,
    lo: int,
    hi: int,
    exits: Set<Edge>,
    path: Seq<Edge>,
    p: int,
    q: int,
) -> (k: int)
    requires
        confined(g, inner, lo, hi, exits),
        is_path(g, path, p, q),
        lo <= p < hi,
    ensures
        0 <= k <= path.len(),
        k == path.len() ==> lo <= q < hi && is_path(inner, shift_path(path, -lo), p - lo, q - lo),
        k < path.len() ==> exits.contains(path[k]) && g.contains(path[k]) && lo <= path[k].from < hi
            && is_path(inner, shift_path(path.take(k), -lo), p - lo, path[k].from - lo) && is_path(
            g,
            path.skip(k + 1),
            path[k].to,
            q,
        ),
        label(path) == label(path.take(k)) + label(path.skip(k)),
        label(shift_path(path.take(k), -lo)) == label(path.take(k)),
    decreases path.len(),
{
    if path.len() == 0 {
        assert(path.take(0) =~= path);
        assert(path.skip(0) =~= path);
        assert(label(path) + label(path) =~= label(path));
        lemma_shift_label(path.take(0), -lo);
        assert(shift_path(path, -lo) =~= Seq::<Edge>::empty());
        0
    } else {
        let e = path[0];
        let rest = path.drop_first();
        if lo <= e.to < hi && inner.contains(shift_edge(e, -lo)) {
            let k1 = lemma_first_exit(g, inner, lo, hi, exits, rest, e.to, q);
            let k = k1 + 1;
            let pre = path.take(k);
            let sp = shift_path(pre, -lo);
            assert(pre.drop_first() =~= rest.take(k1));
            assert(sp.drop_first() =~= shift_path(rest.take(k1), -lo));
            assert(sp[0] == shift_edge(e, -lo));
            assert(path.skip(k) =~= rest.skip(k1));
            lemma_label_append(pre, path.skip(k));
            assert(pre + path.skip(k) =~= path);
            lemma_shift_label(pre, -lo);
            if k1 < rest.len() {
                assert(path[k] == rest[k1]);
                assert(path.skip(k + 1) =~= rest.skip(k1 + 1));
                assert(is_path(inner, sp, p - lo, path[k].from - lo));
            } else {
                assert(pre =~= path);
                assert(rest.take(k1) =~= rest);
                assert(is_path(inner, sp, p - lo, q - lo));
            }
            k
        } else {
            assert(exits.contains(e));
            assert(path.take(0) =~= Seq::<Edge>::empty());
            assert(path.skip(0) =~= path);
            assert(label(path.take(0)) + label(path) =~= label(path));
            assert(shift_path(path.take(0), -lo) =~= Seq::<Edge>::empty());
            assert(path.skip(1) =~= rest);
            0
        }
    }
}

/// A set is contained in its closure, and the closure is closed.
pub proof fn lemma_eclose_closed(g: Set<Edge>, s: Set<int>)
    ensures
        s.subset_of(eclose(g, s)),
        eps_closed(g, eclose(g, s)),
{
    let c = eclose(g, s);
    assert forall|p: int| s.contains(p) implies c.contains(p) by {
        lemma_path_empty(g, p);
    }
    assert forall|p: int, q: int| c.contains(p) && #[trigger] reach(g, p, Seq::empty(), q) implies c.contains(
        q,
    ) by {
        let lead = choose|lead: int| s.contains(lead) && #[trigger] reach(g, lead, Seq::empty(), p);
        let a = choose|a: Seq<Edge>| #[trigger] is_path(g, a, lead, p) && label(a) == Seq::<char>::empty();
        let b = choose|b: Seq<Edge>| #[trigger] is_path(g, b, p, q) && label(b) == Seq::<char>::empty();
        lemma_path_append(g, a, b, lead, p, q);
        assert(label(a + b) =~= Seq::<char>::empty());
        assert(is_path(g, a + b, lead, q));
        assert(reach(g, lead, Seq::empty(), q));
    }
}

/// A path that reads nothing never leaves a set that is closed under
/// single epsilon edges.
pub proof fn lemma_eps_path_stays(g: Set<Edge>, s: Set<int>, path: Seq<Edge>, p: int, q: int)
    requires
        eps_edge_closed(g, s),
        s.contains(p),
        is_path(g, path, p, q),
        label(path) == Seq::<char>::empty(),
    ensures
        s.contains(q),
    decreases path.len(),
{
    if path.len() > 0 {
        match path[0].sym {
            Symbol::Epsilon => {
                lemma_eps_path_stays(g, s, path.drop_first(), path[0].to, q);
            },
            Symbol::Char(c) => {
                assert(label(path).len() > 0);
            },
        }
    }
}

/// The closure of `s` is the only set between `s` and its closure that is
/// closed under single epsilon edges.
pub proof fn lemma_eclose_least(g: Set<Edge>, s: Set<int>, r: Set<int>)
    requires
        s.subset_of(r),
        r.subset_of(eclose(g, s)),
        eps_edge_closed(g, r),
    ensures
        r == eclose(g, s),
{
    assert forall|q: int| eclose(g, s).contains(q) implies r.contains(q) by {
        let p = choose|p: int| s.contains(p) && #[trigger] reach(g, p, Seq::empty(), q);
        let a = choose|a: Seq<Edge>| #[trigger] is_path(g, a, p, q) && label(a) == Seq::<char>::empty();
        lemma_eps_path_stays(g, r, a, p, q);
    }
    assert(r =~= eclose(g, s));
}

/// The closure contains the target of every epsilon edge that leaves it.
pub proof fn lemma_eclose_edge(g: Set<Edge>, s: Set<int>, e: Edge)
    requires
        g.contains(e),
        e.sym == Symbol::Epsilon,
        eclose(g, s).contains(e.from),
    ensures
        eclose(g, s).contains(e.to),
{
    lemma_eclose_closed(g, s);
    lemma_path_single(g, e);
    assert(reach(g, e.from, Seq::empty(), e.to));
}

/// From the empty set the simulation never gets anywhere.
pub proof fn lemma_simulate_empty(g: Set<Edge>, w: Seq<char>)
    ensures
        simulate(g, Set::<int>::empty(), w) == Set::<int>::empty(),
    decreases w.len(),
{
    if w.len() > 0 {
        let e = Set::<int>::empty();
        assert(moved(g, e, Symbol::Char(w[0])) =~= e);
        assert(eclose(g, e) =~= e);
        lemma_simulate_empty(g, w.drop_first());
    }
}

/// Whatever the simulation holds after `w` is reached from a state of `s`
/// by a path that spells `w`.
pub proof fn lemma_simulate_sound(g: Set<Edge>, s: Set<int>, w: Seq<char>, q: int) -> (p: int)
    requires
        simulate(g, s, w).contains(q),
    ensures
        s.contains(p),
        reach(g, p, w, q),
    decreases w.len(),
{
    if w.len() == 0 {
        lemma_path_empty(g, q);
        assert(w =~= Seq::<char>::empty());
        q
    } else {
        let sym = Symbol::Char(w[0]);
        let via = lemma_simulate_sound(g, step(g, s, w[0]), w.drop_first(), q);
        let r = choose|r: int| moved(g, s, sym).contains(r) && #[trigger] reach(g, r, Seq::empty(), via);
        let p = choose|p: int| s.contains(p) && #[trigger] g.contains(Edge { from: p, sym, to: r });
        let e = Edge { from: p, sym, to: r };
        let a = choose|a: Seq<Edge>| #[trigger] is_path(g, a, r, via) && label(a) == Seq::<char>::empty();
        let b = choose|b: Seq<Edge>| #[trigger] is_path(g, b, via, q) && label(b) == w.drop_first();
        let first = single(e);
        lemma_path_single(g, e);
        lemma_path_append(g, first, a, p, r, via);
        lemma_path_append(g, first + a, b, p, via, q);
        assert(label(first + a + b) =~= w);
        assert(is_path(g, first + a + b, p, q));
        p
    }
}

/// The simulation from a closed set holds every state that a path from a
/// member reaches, after the word that the path spells.
pub proof fn lemma_simulate_complete(g: Set<Edge>, s: Set<int>, path: Seq<Edge>, p: int, q: int)
    requires
        eps_closed(g, s),
        s.contains(p),
        is_path(g, path, p, q),
    ensures
        simulate(g, s, label(path)).contains(q),
    decreases path.len(),
{
    if path.len() == 0 {
    } else {
        let e = path[0];
        let rest = path.drop_first();
        match e.sym {
            Symbol::Epsilon => {
                lemma_path_single(g, e);
                assert(reach(g, p, Seq::empty(), e.to));
                lemma_simulate_complete(g, s, rest, e.to, q);
            },
            Symbol::Char(c) => {
                let m = moved(g, s, e.sym);
                assert(e == Edge { from: p, sym: e.sym, to: e.to });
                assert(m.contains(e.to));
                lemma_eclose_closed(g, m);
                lemma_simulate_complete(g, step(g, s, c), rest, e.to, q);
                assert(label(path).drop_first() =~= label(rest));
                assert(label(path)[0] == c);
            },
        }
    }
}

/// The simulation from the closure of `{p}` holds `q` after `w` exactly if
/// a path from `p` to `q` spells `w`.
pub proof fn lemma_simulate_reach(g: Set<Edge>, p: int, w: Seq<char>, q: int)
    ensures
        simulate(g, eclose(g, Set::<int>::empty().insert(p)), w).contains(q) <==> reach(g, p, w, q),
{
    let s0 = Set::<int>::empty().insert(p);
    let s = eclose(g, s0);
    lemma_eclose_closed(g, s0);
    if simulate(g, s, w).contains(q) {
        let via = lemma_simulate_sound(g, s, w, q);
        let lead = choose|lead: int| s0.contains(lead) && #[trigger] reach(g, lead, Seq::empty(), via);
        assert(lead == p);
        let a = choose|a: Seq<Edge>| #[trigger] is_path(g, a, p, via) && label(a) == Seq::<char>::empty();
        let b = choose|b: Seq<Edge>| #[trigger] is_path(g, b, via, q) && label(b) == w;
        lemma_path_append(g, a, b, p, via, q);
        assert(label(a + b) =~= w);
        assert(is_path(g, a + b, p, q));
    }
    if reach(g, p, w, q) {
        let a = choose|a: Seq<Edge>| #[trigger] is_path(g, a, p, q) && label(a) == w;
        assert(s.contains(p));
        lemma_simulate_complete(g, s, a, p, q);
    }
}

} // verus!
