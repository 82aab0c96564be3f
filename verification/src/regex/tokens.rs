//! The shapes of patterns and the automaton of each.
use crate::fsa::graph::unit;
use crate::fsa::nfa::{NfaModel, NFA};
use crate::fsa::thompson::{
    all_accepted, concat_all, concat_of, is_alternate, is_closure, is_concat, is_single, splits, star_of,
};
use crate::regex::{PatternError, Regex};
use vstd::prelude::*;
use vstd::std_specs::iter::IteratorSpec;

verus! {

/// `l` matches the first `i` characters of `w` and `r` the rest.
pub open spec fn splits_at<L: Regex, R: Regex>(l: &L, r: &R, w: Seq<char>, i: int) -> bool {
    0 <= i <= w.len() && l.matches(w.take(i)) && r.matches(w.skip(i))
}

/// `r` matches every word of `parts`.
pub open spec fn all_match<R: Regex>(r: &R, parts: Seq<Seq<char>>) -> bool {
    forall|i: int| 0 <= i < parts.len() ==> r.matches(#[trigger] parts[i])
}

/// `w` is made of any number of words that `r` matches, one after the
/// other; of none, where `w` is empty.
pub open spec fn repeats<R: Regex>(r: &R, w: Seq<char>) -> bool {
    exists|parts: Seq<Seq<char>>| all_match(r, parts) && #[trigger] concat_all(parts) == w
}

/// `r` matches the first `i` characters of `w`, and the rest is made of
/// words that `r` matches.
pub open spec fn repeats_after<R: Regex>(r: &R, w: Seq<char>, i: int) -> bool {
    0 <= i <= w.len() && r.matches(w.take(i)) && repeats(r, w.skip(i))
}

/// The pattern that matches the one character.
#[derive(Clone, Copy, Debug, PartialEq, Eq, PartialOrd, Ord)]
pub struct Char(pub char);

impl Char {
    /// The pattern that matches `char`.
    pub fn new(char: char) -> (r: Self)
        ensures
            r.0 == char,
    {
        Self(char)
    }
}

impl Regex for Char {
    open spec fn valid(&self) -> bool {
        true
    }

    open spec fn matches(&self, w: Seq<char>) -> bool {
        w == unit(self.0)
    }

    open spec fn fragment(&self, m: NfaModel) -> bool {
        is_single(self.0, m)
    }

    fn as_nfa(&self) -> (r: Result<NFA, PatternError>) {
        Ok(NFA::single(self.0))
    }
}

/// One pattern, then another.
#[derive(Clone, Debug)]
pub struct Concatenation<L, R>(pub L, pub R);

impl<L, R> Concatenation<L, R> {
    /// The pattern made of `l` and `r`.
    pub fn new(l: L, r: R) -> (c: Self)
        ensures
            c.0 == l,
            c.1 == r,
    {
        Self(l, r)
    }
}

impl<L: Regex, R: Regex> Regex for Concatenation<L, R> {
    open spec fn valid(&self) -> bool {
        self.0.valid() && self.1.valid()
    }

    /// The words that split into a word of the first pattern and a word
    /// of the second.
    open spec fn matches(&self, w: Seq<char>) -> bool {
        exists|i: int| #[trigger] splits_at(&self.0, &self.1, w, i)
    }

    /// A fragment of the first pattern followed by one of the second.
    open spec fn fragment(&self, m: NfaModel) -> bool {
        exists|l: NfaModel, r: NfaModel| self.0.fragment(l) && self.1.fragment(r) && #[trigger] is_concat(l, r, m)
    }

    fn as_nfa(&self) -> (r: Result<NFA, PatternError>) {
        let left = match self.0.as_nfa() {
            Ok(nfa) => nfa,
            Err(e) => {
                return Err(e);
            },
        };
        let right = match self.1.as_nfa() {
            Ok(nfa) => nfa,
            Err(e) => {
                return Err(e);
            },
        };
        let ghost lm = left@;
        let ghost rm = right@;
        let nfa = NFA::concat(left, right);
        proof {
            assert(self.0.fragment(lm) && self.1.fragment(rm) && is_concat(lm, rm, nfa@));
            assert forall|w: Seq<char>| #[trigger] nfa@.accepts(w) <==> self.matches(w) by {
                if concat_of(lm, rm, w) {
                    let i = choose|i: int| #[trigger] splits(lm, rm, w, i);
                    assert(splits_at(&self.0, &self.1, w, i));
                }
                if self.matches(w) {
                    let i = choose|i: int| #[trigger] splits_at(&self.0, &self.1, w, i);
                    assert(splits(lm, rm, w, i));
                }
            }
        }
        Ok(nfa)
    }
}

/// One pattern or another.
#[derive(Clone, Debug)]
pub struct Alternative<L, R>(pub L, pub R);

impl<L, R> Alternative<L, R> {
    /// The pattern made of `l` and `r`.
    pub fn new(l: L, r: R) -> (c: Self)
        ensures
            c.0 == l,
            c.1 == r,
    {
        Self(l, r)
    }
}

impl<L: Regex, R: Regex> Regex for Alternative<L, R> {
    open spec fn valid(&self) -> bool {
        self.0.valid() && self.1.valid()
    }

    /// The words of the first pattern and those of the second.
    open spec fn matches(&self, w: Seq<char>) -> bool {
        self.0.matches(w) || self.1.matches(w)
    }

    /// The choice between a fragment of the first pattern and one of the
    /// second.
    open spec fn fragment(&self, m: NfaModel) -> bool {
        exists|l: NfaModel, r: NfaModel|
            self.0.fragment(l) && self.1.fragment(r) && #[trigger] is_alternate(l, r, m)
    }

    fn as_nfa(&self) -> (r: Result<NFA, PatternError>) {
        let left = match self.0.as_nfa() {
            Ok(nfa) => nfa,
            Err(e) => {
                return Err(e);
            },
        };
        let right = match self.1.as_nfa() {
            Ok(nfa) => nfa,
            Err(e) => {
                return Err(e);
            },
        };
        let ghost lm = left@;
        let ghost rm = right@;
        let nfa = NFA::alternate(left, right);
        proof {
            assert(self.0.fragment(lm) && self.1.fragment(rm) && is_alternate(lm, rm, nfa@));
        }
        Ok(nfa)
    }
}

/// A pattern any number of times, also none.
#[derive(Clone, Debug)]
pub struct Closure<R>(pub R);

impl<R> Closure<R> {
    /// The pattern made of `r`.
    pub fn new(r: R) -> (c: Self)
        ensures
            c.0 == r,
    {
        Self(r)
    }
}

/// The automaton accepts the repetitions that the pattern matches.
pub proof fn lemma_star_matches<R: Regex>(r: &R, m: crate::fsa::nfa::NfaModel, w: Seq<char>)
    requires
        forall|v: Seq<char>| #[trigger] m.accepts(v) <==> r.matches(v),
    ensures
        star_of(m, w) <==> repeats(r, w),
{
    if star_of(m, w) {
        let parts = choose|parts: Seq<Seq<char>>| all_accepted(m, parts) && #[trigger] concat_all(parts) == w;
        assert forall|i: int| 0 <= i < parts.len() implies r.matches(#[trigger] parts[i]) by {
            assert(m.accepts(parts[i]));
        }
        assert(all_match(r, parts) && concat_all(parts) == w);
    }
    if repeats(r, w) {
        let parts = choose|parts: Seq<Seq<char>>| all_match(r, parts) && #[trigger] concat_all(parts) == w;
        assert forall|i: int| 0 <= i < parts.len() implies m.accepts(#[trigger] parts[i]) by {
            assert(r.matches(parts[i]));
        }
        assert(all_accepted(m, parts) && concat_all(parts) == w);
    }
}

impl<R: Regex> Regex for Closure<R> {
    open spec fn valid(&self) -> bool {
        self.0.valid()
    }

    /// The words made of any number of words of the pattern; the empty
    /// word is made of none.
    open spec fn matches(&self, w: Seq<char>) -> bool {
        repeats(&self.0, w)
    }

    /// The repetition of a fragment of the pattern.
    open spec fn fragment(&self, m: NfaModel) -> bool {
        exists|r: NfaModel| self.0.fragment(r) && #[trigger] is_closure(r, m)
    }

    fn as_nfa(&self) -> (r: Result<NFA, PatternError>) {
        let inner = match self.0.as_nfa() {
            Ok(nfa) => nfa,
            Err(e) => {
                return Err(e);
            },
        };
        let ghost im = inner@;
        let nfa = NFA::closure(inner);
        proof {
            assert(self.0.fragment(im) && is_closure(im, nfa@));
            assert forall|w: Seq<char>| #[trigger] nfa@.accepts(w) <==> self.matches(w) by {
                lemma_star_matches(&self.0, im, w);
            }
        }
        Ok(nfa)
    }
}

/// A pattern once or more: the pattern, then the pattern any number of
/// times.
#[derive(Clone, Debug)]
pub struct OneOrMore<R>(pub R);

impl<R> OneOrMore<R> {
    /// The pattern made of `r`.
    pub fn new(r: R) -> (c: Self)
        ensures
            c.0 == r,
    {
        Self(r)
    }
}

impl<R: Regex> Regex for OneOrMore<R> {
    open spec fn valid(&self) -> bool {
        self.0.valid()
    }

    /// The words that split into a word of the pattern and a repetition
    /// of the pattern.
    open spec fn matches(&self, w: Seq<char>) -> bool {
        exists|i: int| #[trigger] repeats_after(&self.0, w, i)
    }

    /// A fragment of the pattern followed by the repetition of another
    /// fragment of the pattern: there is no shape of its own.
    open spec fn fragment(&self, m: NfaModel) -> bool {
        exists|once: NfaModel, again: NfaModel, more: NfaModel|
            self.0.fragment(once) && self.0.fragment(again) && #[trigger] is_closure(again, more)
                && #[trigger] is_concat(once, more, m)
    }

    fn as_nfa(&self) -> (r: Result<NFA, PatternError>) {
        let once = match self.0.as_nfa() {
            Ok(nfa) => nfa,
            Err(e) => {
                return Err(e);
            },
        };
        let again = match self.0.as_nfa() {
            Ok(nfa) => nfa,
            Err(e) => {
                return Err(e);
            },
        };
        let ghost om = once@;
        let ghost am = again@;
        let more = NFA::closure(again);
        let ghost mm = more@;
        let nfa = NFA::concat(once, more);
        proof {
            assert(self.0.fragment(om) && self.0.fragment(am) && is_closure(am, mm) && is_concat(om, mm, nfa@));
            assert forall|w: Seq<char>| #[trigger] nfa@.accepts(w) <==> self.matches(w) by {
                if concat_of(om, mm, w) {
                    let i = choose|i: int| #[trigger] splits(om, mm, w, i);
                    lemma_star_matches(&self.0, am, w.skip(i));
                    assert(repeats_after(&self.0, w, i));
                }
                if self.matches(w) {
                    let i = choose|i: int| #[trigger] repeats_after(&self.0, w, i);
                    lemma_star_matches(&self.0, am, w.skip(i));
                    assert(splits(om, mm, w, i));
                }
            }
        }
        Ok(nfa)
    }
}

/// `m` has the shape of the literal `s`: the fragment of its first
/// character, followed by the fragment of the next, and so on.
pub open spec fn literal_fragment(s: Seq<char>, m: NfaModel) -> bool
    decreases s.len(),
{
    if s.len() == 0 {
        false
    } else if s.len() == 1 {
        is_single(s[0], m)
    } else {
        exists|l: NfaModel, r: NfaModel|
            literal_fragment(s.drop_last(), l) && is_single(s.last(), r) && #[trigger] is_concat(l, r, m)
    }
}

/// The automaton of a literal: the fragments of its characters in a row.
/// It accepts the literal and no other word; the empty literal has none.
pub fn literal(s: &str) -> (r: Result<NFA, PatternError>)
    ensures
        r is Ok <==> s@.len() > 0,
        r matches Ok(nfa) ==> nfa.wf() && literal_fragment(s@, nfa@) && forall|w: Seq<char>| #[trigger]
            nfa@.accepts(w) <==> w == s@,
{
    broadcast use vstd::string::group_string_axioms;

    let mut rest = s.chars();
    let first = match rest.next() {
        Some(c) => c,
        None => {
            return Err(PatternError::EmptyLiteral);
        },
    };
    let mut acc = NFA::single(first);
    let ghost mut i: int = 1;
    proof {
        assert(s@.take(1) =~= unit(s@[0]));
        assert(s@.drop_first() =~= s@.skip(1));
    }
    loop
        invariant
            1 <= i <= s@.len(),
            rest.remaining() == s@.skip(i),
            acc.wf(),
            literal_fragment(s@.take(i), acc@),
            forall|w: Seq<char>| #[trigger] acc@.accepts(w) <==> w == s@.take(i),
        ensures
            acc.wf(),
            literal_fragment(s@, acc@),
            forall|w: Seq<char>| #[trigger] acc@.accepts(w) <==> w == s@,
        decreases s@.len() - i,
    {
        let ghost before_rest = rest.remaining();
        match rest.next() {
            Some(c) => {
                let next = NFA::single(c);
                let ghost am = acc@;
                let ghost nm = next@;
                acc = NFA::concat(acc, next);
                proof {
                    let before = s@.take(i);
                    let after = s@.take(i + 1);
                    assert(c == s@[i]);
                    assert(before_rest.drop_first() =~= s@.skip(i + 1));
                    assert(after =~= before + unit(c));
                    assert(after.drop_last() =~= before);
                    assert(after.last() == c);
                    assert(literal_fragment(before, am) && is_single(c, nm) && is_concat(am, nm, acc@));
                    assert forall|w: Seq<char>| #[trigger] acc@.accepts(w) <==> w == after by {
                        if concat_of(am, nm, w) {
                            let k = choose|k: int| #[trigger] splits(am, nm, w, k);
                            assert(am.accepts(w.take(k)));
                            assert(nm.accepts(w.skip(k)));
                            assert(w =~= w.take(k) + w.skip(k));
                        }
                        if w == after {
                            assert(w.take(i) =~= before);
                            assert(w.skip(i) =~= unit(c));
                            assert(am.accepts(w.take(i)));
                            assert(nm.accepts(w.skip(i)));
                            assert(splits(am, nm, w, i));
                        }
                    }
                    i = i + 1;
                }
            },
            None => {
                proof {
                    assert(s@.take(i) =~= s@);
                }
                break ;
            },
        }
    }
    Ok(acc)
}

impl<'a> Regex for &'a str {
    open spec fn valid(&self) -> bool {
        self@.len() > 0
    }

    /// The literal itself and no other word.
    open spec fn matches(&self, w: Seq<char>) -> bool {
        w == self@
    }

    open spec fn fragment(&self, m: NfaModel) -> bool {
        literal_fragment(self@, m)
    }

    fn as_nfa(&self) -> (r: Result<NFA, PatternError>) {
        literal(self)
    }
}

impl Regex for String {
    open spec fn valid(&self) -> bool {
        self@.len() > 0
    }

    /// The literal itself and no other word.
    open spec fn matches(&self, w: Seq<char>) -> bool {
        w == self@
    }

    open spec fn fragment(&self, m: NfaModel) -> bool {
        literal_fragment(self@, m)
    }

    fn as_nfa(&self) -> (r: Result<NFA, PatternError>) {
        literal(self.as_str())
    }
}

} // verus!
