use rand::rngs::StdRng;
use rand::SeedableRng;
use wfc::collapse::collapse;
use wfc::grid_2d::{Coordinate2d, Direction2d, Grid2d};
use wfc::rules::{SetCollapseRulesBuilder, UniformSetCollapseObserver};
use wfc::space::Space;
use wfc::state::{State, StateSet};

#[derive(PartialEq, Eq, Clone, Copy, Debug)]
enum PossibleStates {
    AB,
    A,
    B,
}

fn possible(cell: &StateSet) -> PossibleStates {
    match (cell.has(State::nth(0)), cell.has(State::nth(1))) {
        (true, false) => PossibleStates::A,
        (false, true) => PossibleStates::B,
        _ => PossibleStates::AB,
    }
}

#[test]
fn test_basic() {
    let a = State::nth(0);
    let b = State::nth(1);
    let either = StateSet::all(2);
    let rule = SetCollapseRulesBuilder::<Grid2d<StateSet>, _>::new(2, UniformSetCollapseObserver)
        .allow(
            a,
            &[
                (Direction2d::Left, StateSet::state(2, b)),
                (Direction2d::Right, StateSet::state(2, b)),
                (Direction2d::Up, either.clone()),
            ],
        )
        .allow(b, &[(Direction2d::Up, either.clone())])
        .build();
    let mut grid = Grid2d::new(Coordinate2d { x: 10, y: 10 }, |_| StateSet::all(2));
    let mut rng = StdRng::seed_from_u64(1);
    collapse(&mut grid, &rule, &mut rng);
    for y in 0..10 {
        for x in 0..9 {
            assert_ne!(possible(grid.get(Coordinate2d { x, y })), PossibleStates::AB);
        }
        for x in 0..9 {
            assert_ne!(
                possible(grid.get(Coordinate2d { x, y })),
                possible(grid.get(Coordinate2d { x: x + 1, y }))
            );
        }
    }
}
