use regex_fsa::fsa::{symbol_in, StateSet, Symbol};

#[test]
fn key_is_sorted_and_free_of_duplicates() {
    let mut set = StateSet::new();
    assert!(set.is_empty());
    for q in [5, 1, 3, 1, 5, 2] {
        set.insert(q);
    }
    assert_eq!(set.key(), &vec![1, 2, 3, 5]);
    assert_eq!(set.states(), vec![1, 2, 3, 5]);
    assert_eq!(set.len(), 4);
    assert_eq!(set.get(2), 3);
    assert!(!set.is_empty());
}

#[test]
fn sets_with_the_same_members_are_the_same() {
    let a = StateSet::from_states(&vec![3, 1, 2]);
    let b = StateSet::from_states(&vec![2, 2, 3, 1]);
    let c = StateSet::from_states(&vec![1, 2]);
    assert!(a.same(&b));
    assert!(b.same(&a));
    assert!(!a.same(&c));
    assert_eq!(a.key(), b.key());
    assert!(a.clone().same(&a));
}

#[test]
fn membership_and_union() {
    let mut set = StateSet::from_single(4);
    assert!(set.contains(4));
    assert!(!set.contains(3));
    set.extend(&vec![9, 0, 4]);
    assert_eq!(set.states(), vec![0, 4, 9]);
    assert!(set.contains(0) && set.contains(9));
    assert!(!StateSet::new().contains(0));
}

#[test]
fn symbols_compare_by_tag_and_character() {
    assert!(Symbol::Epsilon.is_epsilon());
    assert!(!Symbol::Char('a').is_epsilon());
    assert_eq!(Symbol::from('a'), Symbol::Char('a'));
    assert_ne!(Symbol::Char('a'), Symbol::Char('b'));
    assert_ne!(Symbol::Char('a'), Symbol::Epsilon);
    let list = vec![Symbol::Char('a'), Symbol::Epsilon];
    assert!(symbol_in(&list, Symbol::Epsilon));
    assert!(!symbol_in(&list, Symbol::Char('b')));
}

#[test]
fn sets_are_keys_of_hashed_collections() {
    let mut seen = std::collections::HashSet::new();
    assert!(seen.insert(StateSet::from_states(&vec![2, 1])));
    assert!(!seen.insert(StateSet::from_states(&vec![1, 2, 1])));
    assert!(seen.insert(StateSet::from_single(1)));
    assert!(StateSet::from_states(&vec![7, 3]) == StateSet::from_states(&vec![3, 7]));
    assert!(StateSet::from_single(3) != StateSet::from_states(&vec![3, 7]));
}
