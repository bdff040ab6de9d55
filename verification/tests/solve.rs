use rand::rngs::StdRng;
use rand::{Rng, SeedableRng};
use std::collections::VecDeque;
use wfc::collapse::{collapse, collapse_cell, propagate};
use wfc::grid_2d::{Coordinate2d, Direction2d, Grid2d};
use wfc::grid_3d::{Coordinate3d, Direction3d, Grid3d};
use wfc::rules::{SetCollapseRules, SetCollapseRulesBuilder, UniformSetCollapseObserver};
use wfc::space::Space;
use wfc::state::{State, StateSet};

fn at(x: u32, y: u32) -> Coordinate2d {
    Coordinate2d { x, y }
}

fn set(state_count: u32, states: &[u32]) -> StateSet {
    let states: Vec<State> = states.iter().map(|n| State::nth(*n)).collect();
    StateSet::with_states(state_count, &states)
}

fn builder(state_count: u32) -> SetCollapseRulesBuilder<Grid2d<StateSet>, UniformSetCollapseObserver> {
    SetCollapseRulesBuilder::new(state_count, UniformSetCollapseObserver)
}

fn accepts(
    rules: &SetCollapseRules<UniformSetCollapseObserver>,
    a: State,
    direction: usize,
    b: State,
) -> bool {
    rules.allowed(a, direction).map_or(false, |set| set.has(b))
}

/// The state of a decided cell.
fn decided(cell: &StateSet) -> State {
    let states = cell.states();
    assert_eq!(states.len(), 1);
    states[0]
}

fn alternation() -> SetCollapseRules<UniformSetCollapseObserver> {
    builder(2)
        .allow(State::nth(0), &[(Direction2d::Right, set(2, &[1]))])
        .allow(State::nth(1), &[(Direction2d::Right, set(2, &[0]))])
        .build()
}

fn chain() -> SetCollapseRules<UniformSetCollapseObserver> {
    let (a, b) = (State::nth(0), State::nth(1));
    builder(3)
        .allow(
            a,
            &[
                (Direction2d::Left, set(3, &[1, 2])),
                (Direction2d::Right, set(3, &[1, 2])),
                (Direction2d::Up, set(3, &[0])),
            ],
        )
        .allow(b, &[(Direction2d::Up, set(3, &[2])), (Direction2d::Down, set(3, &[2]))])
        .build()
}

#[test]
fn two_colors_alternate_along_a_row() {
    let rules = alternation();
    let mut zero_first = false;
    let mut one_first = false;
    for seed in 0..20 {
        let mut space = Grid2d::new(at(10, 1), |_| StateSet::all(2));
        collapse(&mut space, &rules, &mut StdRng::seed_from_u64(seed));
        let row: String = (0..10).map(|x| format!("{}", decided(space.get(at(x, 0))).0)).collect();
        assert!(row == "0101010101" || row == "1010101010");
        zero_first |= row == "0101010101";
        one_first |= row == "1010101010";
    }
    assert!(zero_first && one_first);
}

#[test]
fn a_single_state_needs_no_observation() {
    let all = StateSet::all(1);
    let rules = builder(1)
        .allow(State::nth(0), &[(Direction2d::Right, all.clone()), (Direction2d::Up, all.clone())])
        .build();
    let mut space = Grid2d::new(at(5, 5), |_| StateSet::all(1));
    let mut rng = StdRng::seed_from_u64(11);
    collapse(&mut space, &rules, &mut rng);
    let mut overconstrained = 0;
    for c in <Grid2d<StateSet>>::coordinates(at(5, 5)) {
        assert_eq!(*space.get(c), set(1, &[0]));
        if space.get(c).first().is_none() {
            overconstrained += 1;
        }
    }
    assert_eq!(overconstrained, 0);
    // nothing was drawn
    assert_eq!(rng.gen::<u64>(), StdRng::seed_from_u64(11).gen::<u64>());
}

#[test]
fn abc_chain_fills_the_grid() {
    let rules = chain();
    for seed in 0..5 {
        let mut space = Grid2d::new(at(20, 10), |_| StateSet::all(3));
        collapse(&mut space, &rules, &mut StdRng::seed_from_u64(seed));
        for y in 0..10 {
            for x in 0..20 {
                let here = decided(space.get(at(x, y))).0;
                if x + 1 < 20 {
                    let right = decided(space.get(at(x + 1, y))).0;
                    // a row alternates A with B or C
                    assert!((here == 0) != (right == 0));
                }
                if here == 0 {
                    // a column with an A holds nothing but A
                    for other in 0..10 {
                        assert_eq!(decided(space.get(at(x, other))).0, 0);
                    }
                } else if y + 1 < 10 {
                    let above = decided(space.get(at(x, y + 1))).0;
                    assert_eq!(here + above, 3);
                }
            }
        }
    }
}

#[test]
fn the_same_seed_gives_the_same_space() {
    let rules = chain();
    let solve = |seed: u64| -> Vec<u32> {
        let mut space = Grid2d::new(at(12, 7), |_| StateSet::all(3));
        collapse(&mut space, &rules, &mut StdRng::seed_from_u64(seed));
        <Grid2d<StateSet>>::coordinates(at(12, 7))
            .into_iter()
            .map(|c| decided(space.get(c)).0)
            .collect()
    };
    assert_eq!(solve(42), solve(42));
    assert_eq!(solve(7), solve(7));
    let mut differ = false;
    for seed in 0..10 {
        differ |= solve(seed) != solve(seed + 100);
    }
    assert!(differ);
}

#[test]
fn every_cell_ends_with_one_state_or_none_and_gains_none() {
    // 0 beside 1, 1 beside 2, and nothing else: most spaces have no solution
    let rules = builder(3)
        .allow(State::nth(0), &[(Direction2d::Right, set(3, &[1])), (Direction2d::Up, set(3, &[1]))])
        .allow(State::nth(1), &[(Direction2d::Right, set(3, &[2])), (Direction2d::Up, set(3, &[2]))])
        .build();
    for seed in 0..10 {
        let start = |c: Coordinate2d| -> StateSet {
            if (c.x + c.y) % 3 == 0 {
                set(3, &[0, 1])
            } else {
                StateSet::all(3)
            }
        };
        let mut space = Grid2d::new(at(6, 4), start);
        collapse(&mut space, &rules, &mut StdRng::seed_from_u64(seed));
        assert_eq!(space.dimensions(), at(6, 4));
        for c in <Grid2d<StateSet>>::coordinates(at(6, 4)) {
            let cell = space.get(c);
            assert_eq!(cell.entropy(), 0);
            assert!(cell.states().len() <= 1);
            assert_eq!(cell.len(), 3);
            for state in cell.states() {
                assert!(start(c).has(state));
            }
        }
    }
}

#[test]
fn rules_that_allow_nothing_empty_every_cell_with_a_neighbor() {
    let rules = builder(2).build();
    let mut space = Grid2d::new(at(2, 1), |_| StateSet::all(2));
    collapse(&mut space, &rules, &mut StdRng::seed_from_u64(0));
    assert_eq!(*space.get(at(0, 0)), StateSet::empty(2));
    assert_eq!(*space.get(at(1, 0)), StateSet::empty(2));
    // a cell without neighbors is only observed
    let mut alone = Grid2d::new(at(1, 1), |_| StateSet::all(2));
    collapse(&mut alone, &rules, &mut StdRng::seed_from_u64(0));
    assert_eq!(alone.get(at(0, 0)).states().len(), 1);
}

#[test]
fn a_state_without_rules_stays_in_no_cell_that_has_a_neighbor() {
    let rules = builder(3)
        .allow(
            State::nth(0),
            &[(Direction2d::Right, set(3, &[0, 1])), (Direction2d::Up, set(3, &[0, 1]))],
        )
        .allow(
            State::nth(1),
            &[(Direction2d::Right, set(3, &[1])), (Direction2d::Up, set(3, &[1]))],
        )
        .build();
    for seed in 0..10 {
        let mut space = Grid2d::new(at(4, 3), |_| StateSet::all(3));
        collapse(&mut space, &rules, &mut StdRng::seed_from_u64(seed));
        for c in <Grid2d<StateSet>>::coordinates(at(4, 3)) {
            assert!(!space.get(c).has(State::nth(2)));
            assert_eq!(space.get(c).states().len(), 1);
        }
    }
}

#[test]
fn decided_neighbors_accept_each_other() {
    let rules = chain();
    let opposite = [2, 3, 0, 1];
    for seed in 0..5 {
        let mut space = Grid2d::new(at(9, 6), |_| StateSet::all(3));
        collapse(&mut space, &rules, &mut StdRng::seed_from_u64(seed));
        for c in <Grid2d<StateSet>>::coordinates(at(9, 6)) {
            for (d, direction) in <Grid2d<StateSet>>::directions().into_iter().enumerate() {
                if let Some(n) = space.neighbor(c, direction) {
                    let (s, t) = (decided(space.get(c)), decided(space.get(n)));
                    assert!(accepts(&rules, s, d, t));
                    assert!(accepts(&rules, t, opposite[d], s));
                }
            }
        }
    }
}

#[test]
fn cells_decided_from_the_start_are_left_alone() {
    let rules = alternation();
    // two zeros side by side contradict the rules, and stay
    let start = |c: Coordinate2d| -> StateSet {
        if c.x < 2 {
            set(2, &[0])
        } else if c.x == 5 {
            StateSet::empty(2)
        } else {
            StateSet::all(2)
        }
    };
    let mut space = Grid2d::new(at(8, 1), start);
    collapse(&mut space, &rules, &mut StdRng::seed_from_u64(9));
    assert_eq!(*space.get(at(0, 0)), set(2, &[0]));
    assert_eq!(*space.get(at(1, 0)), set(2, &[0]));
    assert_eq!(*space.get(at(2, 0)), set(2, &[1]));
    assert_eq!(*space.get(at(3, 0)), set(2, &[0]));
    // beside the empty cell nothing finds support
    assert_eq!(*space.get(at(4, 0)), StateSet::empty(2));
    assert_eq!(*space.get(at(5, 0)), StateSet::empty(2));
    assert_eq!(*space.get(at(6, 0)), StateSet::empty(2));
}

#[test]
fn narrowing_runs_before_the_first_observation() {
    let rules = alternation();
    let start = |c: Coordinate2d| -> StateSet {
        if c.x == 3 {
            set(2, &[1])
        } else {
            StateSet::all(2)
        }
    };
    let mut space = Grid2d::new(at(7, 1), start);
    let mut rng = StdRng::seed_from_u64(4);
    collapse(&mut space, &rules, &mut rng);
    let row: Vec<u32> = (0..7).map(|x| decided(space.get(at(x, 0))).0).collect();
    assert_eq!(row, vec![0, 1, 0, 1, 0, 1, 0]);
    assert_eq!(rng.gen::<u64>(), StdRng::seed_from_u64(4).gen::<u64>());
}

#[test]
fn an_empty_space_is_left_empty() {
    let rules = alternation();
    let mut space = Grid2d::new(at(0, 3), |_| StateSet::all(2));
    collapse(&mut space, &rules, &mut StdRng::seed_from_u64(0));
    assert_eq!(space.dimensions(), at(0, 3));
}

#[test]
fn a_grid_3d_collapses_layer_by_layer() {
    // along z the two states alternate, along x and y they repeat
    let rules = SetCollapseRulesBuilder::<Grid3d<StateSet>, _>::new(2, UniformSetCollapseObserver)
        .allow(
            State::nth(0),
            &[
                (Direction3d::PosZ, set(2, &[1])),
                (Direction3d::NegZ, set(2, &[1])),
                (Direction3d::PosX, set(2, &[0])),
                (Direction3d::PosY, set(2, &[0])),
            ],
        )
        .allow(
            State::nth(1),
            &[(Direction3d::PosX, set(2, &[1])), (Direction3d::PosY, set(2, &[1]))],
        )
        .build();
    let dimensions = Coordinate3d { x: 3, y: 2, z: 4 };
    let mut space = Grid3d::new(dimensions, |_| StateSet::all(2));
    collapse(&mut space, &rules, &mut StdRng::seed_from_u64(2));
    let bottom = decided(space.get(Coordinate3d { x: 0, y: 0, z: 0 })).0;
    for c in <Grid3d<StateSet>>::coordinates(dimensions) {
        assert_eq!(decided(space.get(c)).0, (bottom + c.z) % 2);
    }
}

#[test]
fn deciding_a_cell_propagates_from_it() {
    let rules = alternation();
    let mut space = Grid2d::new(at(8, 1), |_| StateSet::all(2));
    collapse_cell(&mut space, &rules, at(3, 0), State::nth(1));
    let row: Vec<u32> = (0..8).map(|x| decided(space.get(at(x, 0))).0).collect();
    assert_eq!(row, vec![0, 1, 0, 1, 0, 1, 0, 1]);
}

#[test]
fn deciding_a_cell_leaves_what_it_does_not_reach() {
    // rows do not bind each other
    let rules = builder(2)
        .allow(
            State::nth(0),
            &[(Direction2d::Right, set(2, &[1])), (Direction2d::Up, StateSet::all(2))],
        )
        .allow(
            State::nth(1),
            &[(Direction2d::Right, set(2, &[0])), (Direction2d::Up, StateSet::all(2))],
        )
        .build();
    let mut space = Grid2d::new(at(4, 3), |_| StateSet::all(2));
    collapse_cell(&mut space, &rules, at(0, 1), State::nth(0));
    for x in 0..4 {
        assert_eq!(*space.get(at(x, 0)), StateSet::all(2));
        assert_eq!(*space.get(at(x, 1)), set(2, &[x % 2]));
        assert_eq!(*space.get(at(x, 2)), StateSet::all(2));
    }
    // deciding a decided cell for its state changes nothing
    let before = space.clone();
    collapse_cell(&mut space, &rules, at(2, 1), State::nth(0));
    assert!(space == before);
}

#[test]
fn propagation_leaves_a_stable_space_alone() {
    let rules = chain();
    let mut space = Grid2d::new(at(5, 4), |_| StateSet::all(3));
    let before = space.clone();
    let mut queue: VecDeque<Coordinate2d> =
        <Grid2d<StateSet>>::coordinates(at(5, 4)).into_iter().collect();
    propagate(&mut space, &rules, &mut queue);
    assert!(queue.is_empty());
    assert!(space == before);
}

#[test]
fn propagation_narrows_the_queued_cells_and_on_from_those_that_shrank() {
    let rules = alternation();
    let start = |c: Coordinate2d| -> StateSet {
        if c.x == 0 {
            set(2, &[1])
        } else {
            StateSet::all(2)
        }
    };
    // nothing is queued: nothing is narrowed
    let mut space = Grid2d::new(at(5, 1), start);
    let mut queue = VecDeque::new();
    propagate(&mut space, &rules, &mut queue);
    assert_eq!(*space.get(at(1, 0)), StateSet::all(2));
    // the neighbor of the decided cell is queued: the row follows
    let mut queue = VecDeque::from(vec![at(1, 0)]);
    propagate(&mut space, &rules, &mut queue);
    assert!(queue.is_empty());
    let row: Vec<u32> = (0..5).map(|x| decided(space.get(at(x, 0))).0).collect();
    assert_eq!(row, vec![1, 0, 1, 0, 1]);
    // a cell far from the decided one is stable, and is left
    let mut space = Grid2d::new(at(5, 1), start);
    let mut queue = VecDeque::from(vec![at(3, 0)]);
    propagate(&mut space, &rules, &mut queue);
    assert_eq!(*space.get(at(1, 0)), StateSet::all(2));
    assert_eq!(*space.get(at(3, 0)), StateSet::all(2));
}

#[test]
fn propagation_does_not_narrow_a_decided_cell() {
    let rules = alternation();
    let mut space = Grid2d::new(at(2, 1), |_| set(2, &[0]));
    let mut queue = VecDeque::from(vec![at(0, 0), at(1, 0)]);
    propagate(&mut space, &rules, &mut queue);
    assert_eq!(*space.get(at(0, 0)), set(2, &[0]));
    assert_eq!(*space.get(at(1, 0)), set(2, &[0]));
}
