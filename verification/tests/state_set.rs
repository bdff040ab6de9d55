use wfc::state::{State, StateSet};

fn set(state_count: u32, states: &[u32]) -> StateSet {
    let states: Vec<State> = states.iter().map(|n| State::nth(*n)).collect();
    StateSet::with_states(state_count, &states)
}

fn numbers(set: &StateSet) -> Vec<u32> {
    set.states().iter().map(|s| s.0).collect()
}

#[test]
fn entropy_of_empty_is_zero() {
    assert_eq!(StateSet::empty(5).entropy(), 0);
    assert_eq!(StateSet::empty(0).entropy(), 0);
}

#[test]
fn entropy_of_singleton_is_zero() {
    assert_eq!(StateSet::state(5, State::nth(2)).entropy(), 0);
    assert_eq!(set(5, &[4]).entropy(), 0);
}

#[test]
fn entropy_of_full_is_count_less_one() {
    assert_eq!(StateSet::all(5).entropy(), 4);
    assert_eq!(StateSet::all(1).entropy(), 0);
    assert_eq!(StateSet::all(200).entropy(), 199);
}

#[test]
fn entropy_counts_the_states_within() {
    assert_eq!(set(70, &[0, 63, 64, 69]).entropy(), 3);
    assert_eq!(set(70, &[1, 2]).entropy(), 1);
}

#[test]
fn all_holds_every_state_and_empty_none() {
    let all = StateSet::all(67);
    let none = StateSet::empty(67);
    assert_eq!(all.len(), 67);
    assert_eq!(none.len(), 67);
    for n in 0..67 {
        assert!(all.has(State::nth(n)));
        assert!(!none.has(State::nth(n)));
    }
}

#[test]
fn with_states_holds_the_listed_states() {
    let s = set(6, &[1, 4, 1]);
    assert_eq!(s.len(), 6);
    assert_eq!(numbers(&s), vec![1, 4]);
    assert_eq!(numbers(&set(6, &[])), Vec::<u32>::new());
}

#[test]
fn state_holds_one_state() {
    let s = StateSet::state(9, State::nth(7));
    assert_eq!(s.len(), 9);
    assert_eq!(numbers(&s), vec![7]);
}

#[test]
fn add_and_remove_change_one_state() {
    let mut s = set(8, &[2, 3]);
    s.add(State::nth(5));
    assert_eq!(numbers(&s), vec![2, 3, 5]);
    s.add(State::nth(2));
    assert_eq!(numbers(&s), vec![2, 3, 5]);
    s.remove(State::nth(3));
    assert_eq!(numbers(&s), vec![2, 5]);
    s.remove(State::nth(7));
    assert_eq!(numbers(&s), vec![2, 5]);
    assert_eq!(s.len(), 8);
}

#[test]
fn union_intersection_and_xor() {
    assert_eq!(numbers(&set(8, &[1, 2, 3]).union(set(8, &[3, 4]))), vec![1, 2, 3, 4]);
    assert_eq!(numbers(&set(8, &[1, 2, 3]).intersection(set(8, &[3, 4, 1]))), vec![1, 3]);
    assert_eq!(numbers(&set(8, &[1, 2, 3]).xor(set(8, &[3, 4]))), vec![1, 2, 4]);
    assert_eq!(numbers(&set(8, &[1]).intersection(set(8, &[2]))), Vec::<u32>::new());
}

#[test]
fn has_any_finds_a_common_state() {
    assert!(set(8, &[1, 5]).has_any(&set(8, &[5, 7])));
    assert!(!set(8, &[1, 5]).has_any(&set(8, &[0, 2, 7])));
    assert!(!set(8, &[]).has_any(&StateSet::all(8)));
    assert!(!StateSet::all(8).has_any(&set(8, &[])));
}

#[test]
fn has_any_compares_every_block() {
    assert!(set(130, &[64]).has_any(&set(130, &[0, 64])));
    assert!(!set(130, &[63]).has_any(&set(130, &[64])));
    assert!(set(130, &[129]).has_any(&StateSet::all(130)));
    assert!(!set(130, &[0, 1, 65]).has_any(&set(130, &[2, 64, 66, 128, 129])));
    assert!(set(128, &[127]).has_any(&set(128, &[127])));
    assert!(!StateSet::empty(0).has_any(&StateSet::empty(0)));
}

#[test]
fn remove_all_and_add_all() {
    let mut s = set(70, &[1, 2, 65, 69]);
    s.remove_all(&set(70, &[2, 3, 69]));
    assert_eq!(numbers(&s), vec![1, 65]);
    s.add_all(&set(70, &[0, 65, 68]));
    assert_eq!(numbers(&s), vec![0, 1, 65, 68]);
}

#[test]
fn states_come_lowest_first() {
    assert_eq!(numbers(&set(100, &[99, 0, 64, 63])), vec![0, 63, 64, 99]);
}

#[test]
fn first_is_the_lowest_state_or_none() {
    assert_eq!(set(100, &[70, 5, 64]).first(), Some(State::nth(5)));
    assert_eq!(set(100, &[99]).first(), Some(State::nth(99)));
    assert_eq!(StateSet::empty(100).first(), None);
}

#[test]
fn retain_keeps_the_states_that_pass() {
    let mut s = set(10, &[1, 2, 3, 4, 8]);
    s.retain(|state: State| state.0 % 2 == 0);
    assert_eq!(numbers(&s), vec![2, 4, 8]);
    s.retain(|_: State| false);
    assert_eq!(numbers(&s), Vec::<u32>::new());
    assert_eq!(s.len(), 10);
}

#[test]
fn equal_sets_hold_the_same_states() {
    assert!(set(5, &[1, 3]) == set(5, &[3, 1]));
    assert!(set(5, &[1, 3]) != set(5, &[1]));
    assert!(set(5, &[1]) != set(6, &[1]));
}

#[test]
fn a_clone_is_a_set_of_its_own() {
    let original = set(5, &[1, 3]);
    let mut copy = original.clone();
    copy.remove(State::nth(1));
    assert_eq!(numbers(&original), vec![1, 3]);
    assert_eq!(numbers(&copy), vec![3]);
}

#[test]
fn nth_state_keeps_its_number() {
    assert_eq!(State::nth(3).0, 3);
    assert_eq!(State::nth(3), State::nth(3));
    assert_ne!(State::nth(3), State::nth(4));
}

#[test]
fn equal_sets_hash_alike() {
    let mut seen = std::collections::HashSet::new();
    assert!(seen.insert(set(70, &[1, 65])));
    assert!(!seen.insert(set(70, &[65, 1])));
    assert!(seen.insert(set(70, &[1])));
    assert!(seen.insert(set(71, &[1, 65])));
    assert_eq!(seen.len(), 3);
}
