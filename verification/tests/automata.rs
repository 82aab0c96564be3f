use regex_fsa::fsa::dfa;
use regex_fsa::fsa::dfa::DFA;
use regex_fsa::fsa::minimize::{find_block, find_signature, same_signature};
use regex_fsa::fsa::nfa;
use regex_fsa::fsa::nfa::NFA;
use regex_fsa::fsa::subset::find_set;
use regex_fsa::fsa::{State, StateSet, Symbol};
use regex_fsa::regex::Regex;
use regex_fsa::Matcher;

fn words(alphabet: &[char], max: usize) -> Vec<String> {
    let mut all = vec![String::new()];
    let mut last = vec![String::new()];
    for _ in 0..max {
        let mut next = Vec::new();
        for w in &last {
            for c in alphabet {
                let mut v = w.clone();
                v.push(*c);
                next.push(v);
            }
        }
        all.extend(next.iter().cloned());
        last = next;
    }
    all
}

fn simulate(nfa: &NFA, word: &str) -> bool {
    let mut current = StateSet::from_single(nfa.start()).e_closure(nfa);
    for c in word.chars() {
        current = current.move_to(nfa, Symbol::Char(c)).e_closure(nfa);
    }
    current.contains(nfa.end())
}

fn accepts(dfa: &DFA, word: &str) -> bool {
    let symbols: Vec<Symbol> = word.chars().map(Symbol::Char).collect();
    match dfa.end_of(&symbols) {
        Some(q) => dfa.states()[q].acceptable(),
        None => false,
    }
}

#[test]
fn character_fragment_has_two_states_and_one_transition() {
    let nfa = NFA::single('a');
    assert_eq!(nfa.size(), 2);
    assert_eq!(nfa.start(), 0);
    assert_eq!(nfa.end(), 1);
    assert_eq!(nfa.states()[0].degree(), 1);
    assert_eq!(nfa.states()[0].edge(0), (Symbol::Char('a'), 1));
    assert_eq!(nfa.states()[1].degree(), 0);
}

#[test]
fn concatenation_wires_end_to_start() {
    let nfa = NFA::concat(NFA::single('a'), NFA::single('b'));
    assert_eq!(nfa.size(), 4);
    assert_eq!(nfa.start(), 0);
    assert_eq!(nfa.end(), 3);
    assert_eq!(nfa.states()[1].edge(0), (Symbol::Epsilon, 2));
    assert_eq!(nfa.states()[2].edge(0), (Symbol::Char('b'), 3));
}

#[test]
fn alternation_adds_a_start_and_an_end() {
    let nfa = NFA::alternate(NFA::single('a'), NFA::single('b'));
    assert_eq!(nfa.size(), 6);
    assert_eq!(nfa.start(), 4);
    assert_eq!(nfa.end(), 5);
    assert_eq!(nfa.states()[4].edge(0), (Symbol::Epsilon, 0));
    assert_eq!(nfa.states()[4].edge(1), (Symbol::Epsilon, 2));
    assert_eq!(nfa.states()[1].edge(0), (Symbol::Epsilon, 5));
    assert_eq!(nfa.states()[3].edge(0), (Symbol::Epsilon, 5));
}

#[test]
fn closure_adds_skip_and_loop() {
    let nfa = NFA::closure(NFA::single('a'));
    assert_eq!(nfa.size(), 4);
    assert_eq!(nfa.start(), 2);
    assert_eq!(nfa.end(), 3);
    assert_eq!(nfa.states()[2].edge(0), (Symbol::Epsilon, 3));
    assert_eq!(nfa.states()[2].edge(1), (Symbol::Epsilon, 0));
    assert_eq!(nfa.states()[1].edge(0), (Symbol::Epsilon, 0));
    assert_eq!(nfa.states()[1].edge(1), (Symbol::Epsilon, 3));
}

#[test]
fn one_or_more_is_the_pattern_then_its_closure() {
    let nfa = "a".some().as_nfa().unwrap();
    // fragment of `a` (2 states) followed by the closure of `a` (4 states)
    assert_eq!(nfa.size(), 6);
    assert!(simulate(&nfa, "a"));
    assert!(simulate(&nfa, "aaa"));
    assert!(!simulate(&nfa, ""));
}

#[test]
fn literal_is_a_chain_of_character_fragments() {
    let nfa = "abc".as_nfa().unwrap();
    assert_eq!(nfa.size(), 6);
    assert_eq!(nfa.start(), 0);
    assert_eq!(nfa.end(), 5);
}

#[test]
fn nfa_state_keeps_transitions_in_order() {
    let mut arena: Vec<nfa::State> = Vec::new();
    let a = nfa::State::new_node(&mut arena);
    let b = nfa::State::new_node(&mut arena);
    assert_eq!((a, b), (0, 1));
    arena[a].transition(Symbol::Char('x'), b);
    arena[a].e_transition(a);
    arena[a].transition(Symbol::Char('x'), a);
    assert_eq!(arena[a].degree(), 3);
    assert_eq!(arena[a].next_states(Symbol::Char('x')), Some(vec![1, 0]));
    assert_eq!(arena[a].next_states(Symbol::Epsilon), Some(vec![0]));
    assert_eq!(arena[a].next_states(Symbol::Char('y')), None);
    assert_eq!(arena[a].alphabet(), vec![Symbol::Char('x'), Symbol::Epsilon]);
    assert_eq!(nfa::State::new().degree(), 0);
    let shifted = arena[a].shifted(10);
    assert_eq!(shifted.edge(0), (Symbol::Char('x'), 11));
    assert_eq!(shifted.edge(1), (Symbol::Epsilon, 10));
}

#[test]
fn epsilon_closure_and_move() {
    let nfa = "a".or("b").many().as_nfa().unwrap();
    let start = StateSet::from_single(nfa.start()).e_closure(&nfa);
    assert!(start.contains(nfa.start()));
    assert!(start.contains(nfa.end()));
    let moved = start.move_to(&nfa, Symbol::Char('a'));
    assert_eq!(moved.len(), 1);
    let none = start.move_to(&nfa, Symbol::Char('z'));
    assert!(none.is_empty());
    assert!(none.e_closure(&nfa).is_empty());
    assert_eq!(start.alphabet(nfa.states()).len(), 2);
}

#[test]
fn subset_construction_agrees_with_simulation() {
    let nfa = "ab".and("a".or("b").many()).and("ba").as_nfa().unwrap();
    let dfa = nfa.as_dfa();
    for w in words(&['a', 'b', 'c'], 6) {
        assert_eq!(accepts(&dfa, &w), simulate(&nfa, &w), "on {:?}", w);
    }
}

#[test]
fn subset_construction_is_deterministic_and_epsilon_free() {
    let dfa = "a".or("ab").some().as_nfa().unwrap().as_dfa();
    for state in dfa.states() {
        let symbols = state.alphabet();
        for (i, s) in symbols.iter().enumerate() {
            assert!(!s.is_epsilon());
            assert!(!symbols[..i].contains(s));
        }
    }
}

#[test]
fn minimization_keeps_the_language() {
    let dfa = "a".or("b").many().and("abb").as_nfa().unwrap().as_dfa();
    let small = dfa.minimize();
    assert!(small.size() <= dfa.size());
    for w in words(&['a', 'b'], 7) {
        assert_eq!(accepts(&small, &w), accepts(&dfa, &w), "on {:?}", w);
    }
}

#[test]
fn minimization_is_idempotent() {
    for dfa in [
        "a".or("b").many().and("abb").as_nfa().unwrap().as_dfa(),
        "ab".and("a".or("b").many()).and("ba").as_nfa().unwrap().as_dfa(),
        "a".some().as_nfa().unwrap().as_dfa(),
    ] {
        let once = dfa.minimize();
        let twice = once.minimize();
        assert_eq!(twice.size(), once.size());
        assert_eq!(twice.all_states().len(), once.all_states().len());
        assert_eq!(once.all_states().len(), once.size());
    }
}

fn chain(accepting: [bool; 3]) -> DFA {
    let mut arena: Vec<dfa::State> = Vec::new();
    let a = dfa::State::new_node(&mut arena, accepting[0]);
    let b = dfa::State::new_node(&mut arena, accepting[1]);
    let c = dfa::State::new_node(&mut arena, accepting[2]);
    arena[a].transition(Symbol::Char('a'), b);
    arena[b].transition(Symbol::Char('a'), c);
    DFA::new(arena, a)
}

#[test]
fn minimization_tells_missing_transitions_apart() {
    // every state accepts, yet the three states differ in how long they go on
    let dfa = chain([true, true, true]);
    let small = dfa.minimize();
    assert_eq!(small.size(), 3);
    assert!(accepts(&small, ""));
    assert!(accepts(&small, "a"));
    assert!(accepts(&small, "aa"));
    assert!(!accepts(&small, "aaa"));
    let matcher = Matcher::from_dfa(chain([true, true, true]));
    assert!(matcher.is_matched("aa"));
    assert!(!matcher.is_matched("aaa"));
}

#[test]
fn minimization_drops_unreachable_states_and_merges_equals() {
    let mut arena: Vec<dfa::State> = Vec::new();
    let s = dfa::State::new_node(&mut arena, false);
    let x = dfa::State::new_node(&mut arena, true);
    let y = dfa::State::new_node(&mut arena, true);
    let lost = dfa::State::new_node(&mut arena, true);
    arena[s].transition(Symbol::Char('a'), x);
    arena[s].transition(Symbol::Char('b'), y);
    arena[x].transition(Symbol::Char('a'), y);
    arena[y].transition(Symbol::Char('a'), x);
    arena[lost].transition(Symbol::Char('a'), s);
    let dfa = DFA::new(arena, s);
    assert_eq!(dfa.all_states().states(), vec![0, 1, 2]);
    let small = dfa.minimize();
    assert_eq!(small.size(), 2);
    for w in words(&['a', 'b'], 5) {
        assert_eq!(accepts(&small, &w), accepts(&dfa, &w));
    }
}

#[test]
fn dfa_state_replaces_a_transition_on_the_same_symbol() {
    let mut state = dfa::State::new(true);
    assert!(state.acceptable());
    assert_eq!(state.next_state(Symbol::Char('a')), None);
    state.transition(Symbol::Char('a'), 1);
    state.transition(Symbol::Char('b'), 2);
    state.transition(Symbol::Char('a'), 3);
    assert_eq!(state.degree(), 2);
    assert_eq!(state.next_state(Symbol::Char('a')), Some(3));
    assert_eq!(state.next_state(Symbol::Char('b')), Some(2));
    assert_eq!(state.edge(0), (Symbol::Char('a'), 3));
    assert_eq!(state.alphabet(), vec![Symbol::Char('a'), Symbol::Char('b')]);
    assert!(!dfa::State::new(false).acceptable());
}

#[test]
fn end_of_follows_the_transitions() {
    let dfa = chain([false, false, true]);
    assert_eq!(dfa.start(), 0);
    assert_eq!(dfa.end_of(&[]), Some(0));
    assert_eq!(dfa.end_of(&[Symbol::Char('a')]), Some(1));
    assert_eq!(dfa.end_of(&[Symbol::Char('a'), Symbol::Char('a')]), Some(2));
    assert_eq!(dfa.end_of(&[Symbol::Char('a'), Symbol::Char('a'), Symbol::Char('a')]), None);
    assert_eq!(dfa.end_of(&[Symbol::Char('b')]), None);
    assert_eq!(dfa.end_of(&[Symbol::Epsilon]), None);
}

#[test]
fn partition_by_acceptance_and_by_signature() {
    let dfa = chain([false, false, true]);
    let all = dfa.all_states();
    let group = all.divide_by_acceptable(&dfa);
    assert_eq!(group.len(), 2);
    assert_eq!(group[0].states(), vec![0, 1]);
    assert_eq!(group[1].states(), vec![2]);
    assert_eq!(find_block(&group, 1), Some(0));
    assert_eq!(find_block(&group, 2), Some(1));
    assert_eq!(find_block(&group, 7), None);
    assert_eq!(DFA::typical_state_of_state(2, &group), 1);
    let symbols = vec![Symbol::Char('a'), Symbol::Epsilon];
    assert_eq!(dfa.signature(&group, &symbols, 0), vec![Some(0), None]);
    assert_eq!(dfa.signature(&group, &symbols, 1), vec![Some(1), None]);
    assert_eq!(dfa.signature(&group, &symbols, 2), vec![None, None]);
    let parts = group[0].divide(&dfa, &group, &symbols);
    assert_eq!(parts.len(), 2);
    assert_eq!(parts[0].states(), vec![0]);
    assert_eq!(parts[1].states(), vec![1]);
    let next = dfa.refine(&group, &symbols);
    assert_eq!(next.len(), 3);
    let again = dfa.refine(&next, &symbols);
    assert_eq!(again.len(), 3);
    let merged = dfa.merge(&next);
    assert_eq!(merged.size(), 3);
    assert!(dfa.typical_state_of_set(&group[1]).acceptable());
    assert!(!dfa.typical_state_of_set(&group[0]).acceptable());
}

#[test]
fn partition_by_acceptance_has_no_empty_block() {
    let dfa = chain([true, true, true]);
    let group = dfa.all_states().divide_by_acceptable(&dfa);
    assert_eq!(group.len(), 1);
    assert_eq!(group[0].states(), vec![0, 1, 2]);
    let none = chain([false, false, false]);
    assert_eq!(none.all_states().divide_by_acceptable(&none).len(), 1);
}

#[test]
fn signatures_and_sets_are_found_by_content() {
    let a = vec![Some(1), None];
    let b = vec![Some(1), None];
    let c = vec![None, Some(1)];
    assert!(same_signature(&a, &b));
    assert!(!same_signature(&a, &c));
    assert!(!same_signature(&a, &vec![Some(1)]));
    assert_eq!(find_signature(&vec![c.clone(), a.clone()], &b), Some(1));
    assert_eq!(find_signature(&vec![c], &b), None);
    let sets = vec![StateSet::from_states(&vec![1, 2]), StateSet::from_states(&vec![3])];
    assert_eq!(find_set(&sets, &StateSet::from_states(&vec![2, 1, 2])), Some(0));
    assert_eq!(find_set(&sets, &StateSet::from_single(3)), Some(1));
    assert_eq!(find_set(&sets, &StateSet::new()), None);
}

#[test]
fn matcher_from_nfa_and_from_dfa_agree() {
    let from_nfa = Matcher::from_nfa("a".or("b").many().and("abb").as_nfa().unwrap());
    let from_dfa = Matcher::from_dfa("a".or("b").many().and("abb").as_nfa().unwrap().as_dfa());
    assert_eq!(from_nfa.size(), from_dfa.size());
    for w in words(&['a', 'b'], 6) {
        assert_eq!(from_nfa.is_matched(&w), from_dfa.is_matched(&w));
        assert_eq!(from_nfa.is_matched(&w), w.ends_with("abb"));
    }
}

#[test]
fn subset_construction_builds_reachable_states_only() {
    for nfa in [
        "a".or("b").many().and("abb").as_nfa().unwrap(),
        "ab".and("a".or("b").many()).and("ba").as_nfa().unwrap(),
        "abc".as_nfa().unwrap(),
    ] {
        let dfa = nfa.as_dfa();
        assert_eq!(dfa.start(), 0);
        assert_eq!(dfa.all_states().len(), dfa.size());
        assert!(dfa.size() >= 1);
        assert!((dfa.size() as u128) <= 1u128 << nfa.size().min(100));
    }
}
