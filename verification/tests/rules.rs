use rand::rngs::StdRng;
use rand::SeedableRng;
use wfc::grid_2d::{Direction2d, Grid2d};
use wfc::grid_3d::{Direction3d, Grid3d};
use wfc::rules::{
    SetCollapseObserver, SetCollapseRules, SetCollapseRulesBuilder, UniformSetCollapseObserver,
};
use wfc::state::{State, StateSet};

const RIGHT: usize = 0;
const UP: usize = 1;
const LEFT: usize = 2;
const DOWN: usize = 3;

fn set(state_count: u32, states: &[u32]) -> StateSet {
    let states: Vec<State> = states.iter().map(|n| State::nth(*n)).collect();
    StateSet::with_states(state_count, &states)
}

fn allowed(
    rules: &SetCollapseRules<UniformSetCollapseObserver>,
    state: u32,
    direction: usize,
) -> Option<Vec<u32>> {
    rules
        .allowed(State::nth(state), direction)
        .map(|set| set.states().iter().map(|s| s.0).collect())
}

fn builder(state_count: u32) -> SetCollapseRulesBuilder<Grid2d<StateSet>, UniformSetCollapseObserver> {
    SetCollapseRulesBuilder::new(state_count, UniformSetCollapseObserver)
}

#[test]
fn allowing_to_the_right_allows_back_to_the_left() {
    let a = State::nth(0);
    let rules = builder(2).allow(a, &[(Direction2d::Right, set(2, &[1]))]).build();
    assert_eq!(allowed(&rules, 0, RIGHT), Some(vec![1]));
    assert_eq!(allowed(&rules, 1, LEFT), Some(vec![0]));
    assert_eq!(allowed(&rules, 0, LEFT), None);
    assert_eq!(allowed(&rules, 1, RIGHT), None);
    assert_eq!(allowed(&rules, 0, UP), None);
    assert_eq!(allowed(&rules, 0, DOWN), None);
    assert_eq!(allowed(&rules, 1, UP), None);
    assert_eq!(allowed(&rules, 1, DOWN), None);
}

#[test]
fn declarations_add_up() {
    let rules = builder(4)
        .allow(
            State::nth(0),
            &[(Direction2d::Up, set(4, &[1, 2])), (Direction2d::Left, set(4, &[0]))],
        )
        .allow(State::nth(3), &[(Direction2d::Down, set(4, &[0, 3]))])
        .build();
    assert_eq!(allowed(&rules, 0, UP), Some(vec![1, 2, 3]));
    assert_eq!(allowed(&rules, 1, DOWN), Some(vec![0]));
    assert_eq!(allowed(&rules, 2, DOWN), Some(vec![0]));
    assert_eq!(allowed(&rules, 0, LEFT), Some(vec![0]));
    assert_eq!(allowed(&rules, 0, RIGHT), Some(vec![0]));
    assert_eq!(allowed(&rules, 3, DOWN), Some(vec![0, 3]));
    assert_eq!(allowed(&rules, 3, UP), Some(vec![3]));
    assert_eq!(allowed(&rules, 0, DOWN), None);
    assert_eq!(allowed(&rules, 1, UP), None);
}

#[test]
fn built_rules_are_symmetric() {
    let rules = builder(5)
        .allow(
            State::nth(0),
            &[
                (Direction2d::Right, set(5, &[1, 4])),
                (Direction2d::Up, set(5, &[0, 2])),
                (Direction2d::Down, set(5, &[3])),
            ],
        )
        .allow(State::nth(2), &[(Direction2d::Left, set(5, &[2, 3, 4]))])
        .allow(State::nth(4), &[(Direction2d::Right, set(5, &[0]))])
        .build();
    let opposite = [LEFT, DOWN, RIGHT, UP];
    for a in 0..5 {
        for b in 0..5 {
            for d in 0..4 {
                let there = allowed(&rules, a, d).map_or(false, |s| s.contains(&b));
                let back = allowed(&rules, b, opposite[d]).map_or(false, |s| s.contains(&a));
                assert_eq!(there, back);
            }
        }
    }
}

#[test]
fn a_state_never_mentioned_accepts_nothing() {
    let rules = builder(3).allow(State::nth(0), &[(Direction2d::Right, set(3, &[0]))]).build();
    assert_eq!(rules.state_count(), 3);
    assert_eq!(rules.direction_count(), 4);
    for state in 1..3 {
        for d in 0..4 {
            assert_eq!(allowed(&rules, state, d), None);
        }
    }
    let empty = builder(2).build();
    assert_eq!(empty.state_count(), 2);
    for state in 0..2 {
        for d in 0..4 {
            assert_eq!(allowed(&empty, state, d), None);
        }
    }
}

#[test]
fn an_empty_declaration_allows_nothing() {
    let rules = builder(2).allow(State::nth(0), &[(Direction2d::Right, set(2, &[]))]).build();
    assert_eq!(allowed(&rules, 0, RIGHT), None);
    assert_eq!(allowed(&rules, 1, LEFT), None);
}

#[test]
fn rules_of_a_grid_3d_have_six_directions() {
    let rules = SetCollapseRulesBuilder::<Grid3d<StateSet>, _>::new(2, UniformSetCollapseObserver)
        .allow(State::nth(1), &[(Direction3d::NegZ, set(2, &[0]))])
        .build();
    assert_eq!(rules.direction_count(), 6);
    assert_eq!(rules.state_count(), 2);
    let at = |state: u32, d: usize| -> Option<Vec<u32>> {
        rules.allowed(State::nth(state), d).map(|s| s.states().iter().map(|s| s.0).collect())
    };
    assert_eq!(at(1, 5), Some(vec![0]));
    assert_eq!(at(0, 4), Some(vec![1]));
    assert_eq!(at(0, 5), None);
    assert_eq!(at(1, 4), None);
    assert_eq!(at(1, 0), None);
}

#[test]
fn collapse_keeps_the_states_that_every_neighbor_supports() {
    // 0 accepts 1 to the right; 1 accepts 2 to the right; 2 accepts 2 above.
    let rules = builder(3)
        .allow(State::nth(0), &[(Direction2d::Right, set(3, &[1]))])
        .allow(State::nth(1), &[(Direction2d::Right, set(3, &[2]))])
        .allow(State::nth(2), &[(Direction2d::Up, set(3, &[2]))])
        .build();
    let mut cell = StateSet::all(3);
    rules.collapse(&mut cell, &[Some(set(3, &[1])), None, None, None]);
    assert_eq!(cell, set(3, &[0]));
    let mut cell = StateSet::all(3);
    rules.collapse(&mut cell, &[Some(set(3, &[1, 2])), None, None, None]);
    assert_eq!(cell, set(3, &[0, 1]));
    let mut cell = StateSet::all(3);
    rules.collapse(&mut cell, &[Some(set(3, &[1, 2])), None, Some(set(3, &[0])), None]);
    assert_eq!(cell, set(3, &[1]));
    let mut cell = StateSet::all(3);
    rules.collapse(&mut cell, &[None, Some(set(3, &[0, 2])), None, Some(set(3, &[2]))]);
    assert_eq!(cell, set(3, &[2]));
}

#[test]
fn collapse_removes_nothing_for_a_neighbor_that_is_not_there() {
    let rules = builder(2).allow(State::nth(0), &[(Direction2d::Right, set(2, &[1]))]).build();
    let mut cell = StateSet::all(2);
    rules.collapse(&mut cell, &[None, None, None, None]);
    assert_eq!(cell, StateSet::all(2));
    let mut cell = StateSet::all(2);
    rules.collapse(&mut cell, &[]);
    assert_eq!(cell, StateSet::all(2));
}

#[test]
fn collapse_removes_a_state_that_accepts_nothing_beside_a_neighbor() {
    let rules = builder(2).allow(State::nth(0), &[(Direction2d::Right, set(2, &[1]))]).build();
    // state 1 accepts nothing to the right, state 0 nothing above
    let mut cell = StateSet::all(2);
    rules.collapse(&mut cell, &[Some(StateSet::all(2)), None, None, None]);
    assert_eq!(cell, set(2, &[0]));
    let mut cell = StateSet::all(2);
    rules.collapse(&mut cell, &[None, Some(StateSet::all(2)), None, None]);
    assert_eq!(cell, set(2, &[]));
}

#[test]
fn collapse_finds_no_support_in_an_empty_neighbor() {
    let rules = builder(2).allow(State::nth(0), &[(Direction2d::Right, set(2, &[0, 1]))]).build();
    let mut cell = set(2, &[0]);
    rules.collapse(&mut cell, &[Some(StateSet::empty(2)), None, None, None]);
    assert_eq!(cell, StateSet::empty(2));
}

#[test]
fn collapse_never_adds_and_settles_at_once() {
    let rules = builder(4)
        .allow(State::nth(0), &[(Direction2d::Right, set(4, &[1, 2])), (Direction2d::Up, set(4, &[3]))])
        .allow(State::nth(3), &[(Direction2d::Right, set(4, &[3]))])
        .build();
    let neighbors = [Some(set(4, &[2, 3])), Some(set(4, &[0, 3])), None, Some(set(4, &[0]))];
    let start = set(4, &[0, 1, 3]);
    let mut cell = start.clone();
    rules.collapse(&mut cell, &neighbors);
    for state in cell.states() {
        assert!(start.has(state));
    }
    let once = cell.clone();
    rules.collapse(&mut cell, &neighbors);
    assert_eq!(cell, once);
}

#[test]
fn uniform_observer_picks_one_state_of_the_cell() {
    let mut rng = StdRng::seed_from_u64(3);
    let mut seen = [false; 8];
    for _ in 0..200 {
        let mut cell = set(8, &[1, 4, 6]);
        UniformSetCollapseObserver.observe(&mut cell, &[], &mut rng);
        let states = cell.states();
        assert_eq!(states.len(), 1);
        assert!([1, 4, 6].contains(&states[0].0));
        assert_eq!(cell.len(), 8);
        seen[states[0].0 as usize] = true;
    }
    assert!(seen[1] && seen[4] && seen[6]);
}

#[test]
fn rules_observe_through_their_observer() {
    let rules = builder(3).build();
    let mut rng = StdRng::seed_from_u64(5);
    let mut cell = set(3, &[2]);
    rules.observe(&mut cell, &[None, None, None, None], &mut rng);
    assert_eq!(cell, set(3, &[2]));
    let mut cell = set(3, &[0, 2]);
    rules.observe(&mut cell, &[None, None, None, None], &mut rng);
    assert!(cell == set(3, &[0]) || cell == set(3, &[2]));
    let _: &UniformSetCollapseObserver = rules.observer();
}
