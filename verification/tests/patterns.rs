use rand::rngs::StdRng;
use rand::SeedableRng;
use wfc::collapse::collapse;
use wfc::grid_2d::{Axis2d, Coordinate2d, Grid2d, Rotation2d};
use wfc::grid_3d::{Axis3d, Coordinate3d, Grid3d};
use wfc::overlapping::{codify_patterns, ExtractedPatterns, Tile};
use wfc::rules::{SetCollapseObserver, SetCollapseRules};
use wfc::space::Space;
use wfc::state::{State, StateSet};

const RIGHT: usize = 0;
const UP: usize = 1;
const LEFT: usize = 2;
const DOWN: usize = 3;

/// A letter; a bar turns into a dash and a dash into a bar, and `<` flips
/// into `>` along x.
#[derive(Copy, Clone, Eq, PartialEq, Debug)]
struct Letter(char);

impl Tile<Axis2d, Rotation2d> for Letter {
    fn flipped(self, axis: Axis2d) -> Self {
        self.flip(axis)
    }

    fn turned(self, axis: Rotation2d) -> Self {
        self.perp(axis)
    }

    fn flip(self, axis: Axis2d) -> Self {
        match (self.0, axis) {
            ('<', Axis2d::X) => Letter('>'),
            ('>', Axis2d::X) => Letter('<'),
            _ => self,
        }
    }

    fn perp(self, _axis: Rotation2d) -> Self {
        match self.0 {
            '-' => Letter('|'),
            '|' => Letter('-'),
            _ => self,
        }
    }
}

fn at(x: u32, y: u32) -> Coordinate2d {
    Coordinate2d { x, y }
}

fn set(state_count: u32, states: &[u32]) -> StateSet {
    let states: Vec<State> = states.iter().map(|n| State::nth(*n)).collect();
    StateSet::with_states(state_count, &states)
}

/// A sample from rows of letters, the first row at `y = 0`; `_` stands for
/// no tile.
fn sample(rows: &[&str]) -> Grid2d<Option<Letter>> {
    let width = rows.iter().map(|r| r.len()).max().unwrap_or(0) as u32;
    Grid2d::new(at(width, rows.len() as u32), |c: Coordinate2d| {
        rows[c.y as usize]
            .chars()
            .nth(c.x as usize)
            .filter(|letter| *letter != '_')
            .map(Letter)
    })
}

fn codify(
    rows: &[&str],
    size: Coordinate2d,
    flips: &[Axis2d],
    rotation: Option<Rotation2d>,
) -> SetCollapseRules<ExtractedPatterns<Letter>> {
    codify_patterns::<Letter, Grid2d<Option<Letter>>, Grid2d<StateSet>>(
        &sample(rows),
        size,
        flips,
        rotation,
    )
}

fn centers(rules: &SetCollapseRules<ExtractedPatterns<Letter>>) -> String {
    (0..rules.state_count())
        .map(|s| rules.observer().center(State::nth(s)).map_or('_', |letter| letter.0))
        .collect()
}

fn frequencies(rules: &SetCollapseRules<ExtractedPatterns<Letter>>) -> Vec<u32> {
    (0..rules.state_count()).map(|s| rules.observer().frequency(State::nth(s))).collect()
}

fn allowed(
    rules: &SetCollapseRules<ExtractedPatterns<Letter>>,
    state: u32,
    direction: usize,
) -> Vec<u32> {
    rules
        .allowed(State::nth(state), direction)
        .map_or(vec![], |set| set.states().iter().map(|s| s.0).collect())
}

#[test]
fn windows_of_a_row_become_patterns_in_order() {
    // the windows are [_ a], [a b], [b a]
    let rules = codify(&["aba"], at(2, 1), &[], None);
    assert_eq!(rules.state_count(), 3);
    assert_eq!(rules.direction_count(), 4);
    assert_eq!(rules.observer().len(), 3);
    assert_eq!(centers(&rules), "aba");
    assert_eq!(frequencies(&rules), vec![1, 1, 1]);
}

#[test]
fn patterns_accept_what_agrees_where_they_overlap() {
    let rules = codify(&["aba"], at(2, 1), &[], None);
    // to the right stands a window that begins as this one ends
    assert_eq!(allowed(&rules, 0, RIGHT), vec![1]);
    assert_eq!(allowed(&rules, 1, RIGHT), vec![2]);
    assert_eq!(allowed(&rules, 2, RIGHT), vec![1]);
    // to the left one that ends as this one begins
    assert_eq!(allowed(&rules, 0, LEFT), vec![]);
    assert_eq!(allowed(&rules, 1, LEFT), vec![0, 2]);
    assert_eq!(allowed(&rules, 2, LEFT), vec![1]);
    // a window one row high shares nothing with what is above or below
    for state in 0..3 {
        assert_eq!(allowed(&rules, state, UP), vec![0, 1, 2]);
        assert_eq!(allowed(&rules, state, DOWN), vec![0, 1, 2]);
    }
    assert!(rules.allowed(State::nth(0), LEFT).is_none());
}

#[test]
fn equal_windows_are_counted_not_kept() {
    // [_ a], [a a], [a a], [a b], [b a], [a a]
    let rules = codify(&["aaabaa"], at(2, 1), &[], None);
    assert_eq!(rules.state_count(), 4);
    assert_eq!(centers(&rules), "aaba");
    assert_eq!(frequencies(&rules), vec![1, 3, 1, 1]);
    assert_eq!(allowed(&rules, 1, RIGHT), vec![1, 2]);
    assert_eq!(allowed(&rules, 3, LEFT), vec![2]);
}

#[test]
fn a_flip_sights_every_window_twice() {
    // [_ a] [a _], [a b] [b a], [b a] [a b]
    let rules = codify(&["aba"], at(2, 1), &[Axis2d::X], None);
    assert_eq!(rules.state_count(), 4);
    assert_eq!(centers(&rules), "a_ba");
    assert_eq!(frequencies(&rules), vec![1, 1, 2, 2]);
}

#[test]
fn a_flip_flips_the_tiles_too() {
    // [< a] flips into [a >]
    let rules = codify(&["<a"], at(2, 1), &[Axis2d::X], None);
    // [_ <] [> _], [< a] [a >]
    assert_eq!(rules.state_count(), 4);
    assert_eq!(centers(&rules), "<_a>");
    assert_eq!(frequencies(&rules), vec![1, 1, 1, 1]);
}

#[test]
fn two_flips_walk_through_every_reflection() {
    // the window around the only cell of the sample, flipped along x, along
    // y, and along x again
    let rules = codify(&["a"], at(2, 2), &[Axis2d::X, Axis2d::Y], None);
    assert_eq!(rules.state_count(), 4);
    assert_eq!(frequencies(&rules), vec![1, 1, 1, 1]);
    // the tile sits at (1, 1), then at (0, 1), at (0, 0) and at (1, 0)
    assert_eq!(centers(&rules), "a___");
}

#[test]
fn a_rotation_sights_the_turned_window_too() {
    let rules = codify(&["-"], at(1, 1), &[], Some(Rotation2d));
    assert_eq!(rules.state_count(), 2);
    assert_eq!(centers(&rules), "-|");
    assert_eq!(frequencies(&rules), vec![1, 1]);
    let rules = codify(&["o"], at(1, 1), &[], Some(Rotation2d));
    assert_eq!(rules.state_count(), 1);
    assert_eq!(frequencies(&rules), vec![2]);
}

#[test]
fn a_rotation_moves_the_cells() {
    // the window [[_ _] [_ a]] has its tile at (1, 1); turned, it shows at
    // (x, y) what was at (1 - y, x), so the tile comes to (1, 0)
    let rules = codify(&["a"], at(2, 2), &[], Some(Rotation2d));
    assert_eq!(rules.state_count(), 2);
    assert_eq!(centers(&rules), "a_");
    // below the first pattern the second can stand: the lower row of the
    // first is empty, as is the upper row of the second
    assert_eq!(allowed(&rules, 0, DOWN), vec![1]);
    assert_eq!(allowed(&rules, 1, UP), vec![0]);
    // and above it too: the upper row of the first is the lower row of the
    // second
    assert_eq!(allowed(&rules, 0, UP), vec![1]);
    assert_eq!(allowed(&rules, 1, DOWN), vec![0]);
    // side by side their columns differ, and each beside itself as well
    assert_eq!(allowed(&rules, 0, RIGHT), vec![]);
    assert_eq!(allowed(&rules, 1, RIGHT), vec![]);
    assert_eq!(allowed(&rules, 0, LEFT), vec![]);
    assert_eq!(allowed(&rules, 1, LEFT), vec![]);
}

#[test]
fn every_sighting_is_counted_once() {
    let rows = ["ab_", "ba_", "abb"];
    for (flips, rotation, each) in [
        (vec![], None, 1),
        (vec![Axis2d::X], None, 2),
        (vec![Axis2d::Y], Some(Rotation2d), 4),
        (vec![Axis2d::X, Axis2d::Y], None, 4),
        (vec![Axis2d::X, Axis2d::Y], Some(Rotation2d), 8),
    ] {
        let rules = codify(&rows, at(3, 3), &flips, rotation);
        assert_eq!(frequencies(&rules).iter().sum::<u32>(), 9 * each);
        assert!(frequencies(&rules).iter().all(|f| *f >= 1));
        assert_eq!(rules.observer().len() as u32, rules.state_count());
    }
}

#[test]
fn the_center_of_a_window_is_the_cell_it_was_taken_around() {
    let rows = ["abc", "def", "ghi"];
    let rules = codify(&rows, at(3, 3), &[], None);
    // nine windows, all distinct, in row-major order
    assert_eq!(rules.state_count(), 9);
    assert_eq!(centers(&rules), "abcdefghi");
    let rules = codify(&rows, at(2, 2), &[], None);
    assert_eq!(centers(&rules), "abcdefghi");
}

#[test]
fn extracted_rules_are_symmetric() {
    let rules = codify(&["ab_", "ba_", "abb"], at(2, 2), &[Axis2d::X], Some(Rotation2d));
    let opposite = [LEFT, DOWN, RIGHT, UP];
    let count = rules.state_count();
    assert!(count > 4);
    for a in 0..count {
        for b in 0..count {
            for d in 0..4 {
                assert_eq!(
                    allowed(&rules, a, d).contains(&b),
                    allowed(&rules, b, opposite[d]).contains(&a)
                );
            }
        }
    }
}

#[test]
fn an_empty_sample_has_no_patterns() {
    let rules = codify(&[], at(3, 3), &[Axis2d::X, Axis2d::Y], Some(Rotation2d));
    assert_eq!(rules.state_count(), 0);
    assert_eq!(rules.observer().len(), 0);
}

#[test]
fn numbers_are_tiles_that_look_the_same_from_every_side() {
    assert_eq!(<u32 as Tile<Axis2d, Rotation2d>>::flip(7, Axis2d::X), 7);
    assert_eq!(<u32 as Tile<Axis2d, Rotation2d>>::perp(7, Rotation2d), 7);
    let input = Grid2d::new(at(2, 1), |c: Coordinate2d| Some(c.x + 1));
    let rules = codify_patterns::<u32, Grid2d<Option<u32>>, Grid2d<StateSet>>(
        &input,
        at(1, 1),
        &[Axis2d::X, Axis2d::Y],
        Some(Rotation2d),
    );
    assert_eq!(rules.state_count(), 2);
    assert_eq!(rules.observer().frequency(State::nth(0)), 8);
    assert_eq!(rules.observer().frequency(State::nth(1)), 8);
    assert_eq!(rules.observer().center(State::nth(1)), Some(&2));
}

#[test]
fn patterns_of_a_grid_3d() {
    let input = Grid3d::new(Coordinate3d { x: 1, y: 1, z: 3 }, |c: Coordinate3d| Some(c.z % 2));
    let rules = codify_patterns::<u32, Grid3d<Option<u32>>, Grid3d<StateSet>>(
        &input,
        Coordinate3d { x: 1, y: 1, z: 2 },
        &[],
        None,
    );
    // [_ 0], [0 1], [1 0] along z
    assert_eq!(rules.state_count(), 3);
    assert_eq!(rules.direction_count(), 6);
    let above: Vec<u32> = rules
        .allowed(State::nth(0), 4)
        .map_or(vec![], |set| set.states().iter().map(|s| s.0).collect());
    assert_eq!(above, vec![1]);
    let with_turn = codify_patterns::<u32, Grid3d<Option<u32>>, Grid3d<StateSet>>(
        &input,
        Coordinate3d { x: 1, y: 1, z: 2 },
        &[Axis3d::Z],
        Some(Axis3d::Z),
    );
    // flipped along z: [0 _], [1 0], [0 1]; the turn around z changes nothing
    assert_eq!(with_turn.state_count(), 4);
    let counts: Vec<u32> =
        (0..4).map(|s| with_turn.observer().frequency(State::nth(s))).collect();
    assert_eq!(counts, vec![2, 2, 4, 4]);
}

#[test]
fn the_observer_draws_by_frequency_among_the_states_within() {
    let rules = codify(&["aaabaa"], at(2, 1), &[], None);
    assert_eq!(frequencies(&rules), vec![1, 3, 1, 1]);
    let mut rng = StdRng::seed_from_u64(17);
    let mut drawn = [0u32; 4];
    for _ in 0..400 {
        let mut cell = set(4, &[0, 1, 3]);
        rules.observer().observe(&mut cell, &[], &mut rng);
        let states = cell.states();
        assert_eq!(states.len(), 1);
        assert_eq!(cell.len(), 4);
        drawn[states[0].0 as usize] += 1;
    }
    assert_eq!(drawn[2], 0);
    assert!(drawn[0] > 0 && drawn[1] > 0 && drawn[3] > 0);
    assert!(drawn[1] > drawn[0] && drawn[1] > drawn[3]);
    let mut cell = set(4, &[2]);
    rules.observe(&mut cell, &[], &mut rng);
    assert_eq!(cell, set(4, &[2]));
}

#[test]
fn decoding_gives_the_center_of_the_first_state() {
    let rules = codify(&["aba"], at(2, 1), &[], None);
    let cells = [set(3, &[1]), set(3, &[]), set(3, &[0, 1]), set(3, &[2]), set(3, &[])];
    let space = Grid2d::new(at(5, 1), |c: Coordinate2d| cells[c.x as usize].clone());
    let (tiles, overconstrained): (Grid2d<Option<Letter>>, usize) =
        rules.observer().decode_superposition(&space);
    assert_eq!(overconstrained, 2);
    assert_eq!(tiles.dimensions(), at(5, 1));
    let shown: String =
        (0..5).map(|x| tiles.get(at(x, 0)).map_or('_', |letter| letter.0)).collect();
    assert_eq!(shown, "b_aa_");
}

#[test]
fn decoding_a_pattern_without_a_center_gives_no_tile_and_counts_nothing() {
    let rules = codify(&["aba"], at(2, 1), &[Axis2d::X], None);
    assert_eq!(centers(&rules), "a_ba");
    let space = Grid2d::new(at(2, 1), |c: Coordinate2d| set(4, &[c.x + 1]));
    let (tiles, overconstrained): (Grid2d<Option<Letter>>, usize) =
        rules.observer().decode_superposition(&space);
    assert_eq!(overconstrained, 0);
    assert_eq!(*tiles.get(at(0, 0)), None);
    assert_eq!(*tiles.get(at(1, 0)), Some(Letter('b')));
}

#[test]
fn a_sample_of_stripes_collapses_into_stripes() {
    let rules = codify(&["abab", "abab"], at(2, 1), &[], None);
    // [_ a], [a b], [b a]
    assert_eq!(centers(&rules), "aba");
    assert_eq!(frequencies(&rules), vec![2, 4, 2]);
    let count = rules.state_count();
    for seed in 0..5 {
        let mut space = Grid2d::new(at(6, 4), |_| StateSet::all(count));
        collapse(&mut space, &rules, &mut StdRng::seed_from_u64(seed));
        let (tiles, overconstrained): (Grid2d<Option<Letter>>, usize) =
            rules.observer().decode_superposition(&space);
        assert_eq!(overconstrained, 0);
        for y in 0..4 {
            for x in 0..5 {
                let here = tiles.get(at(x, y)).unwrap();
                let right = tiles.get(at(x + 1, y)).unwrap();
                assert_ne!(here, right);
            }
            // the window without a left half stands at the left edge only
            for x in 1..6 {
                assert!(!space.get(at(x, y)).has(State::nth(0)));
            }
        }
    }
}

#[test]
fn a_sample_that_cannot_go_on_leaves_cells_empty() {
    let rules = codify(&["ab", "ab", "ab"], at(2, 1), &[], None);
    // [_ a], [a b]: nothing begins with b, so nothing follows [a b]
    assert_eq!(centers(&rules), "ab");
    assert_eq!(frequencies(&rules), vec![3, 3]);
    let count = rules.state_count();
    let mut space = Grid2d::new(at(6, 4), |c: Coordinate2d| {
        if c.x == 0 {
            set(count, &[0])
        } else {
            StateSet::all(count)
        }
    });
    collapse(&mut space, &rules, &mut StdRng::seed_from_u64(1));
    let (tiles, overconstrained): (Grid2d<Option<Letter>>, usize) =
        rules.observer().decode_superposition(&space);
    assert_eq!(overconstrained, 5 * 4);
    for y in 0..4 {
        assert_eq!(*tiles.get(at(0, y)), Some(Letter('a')));
        for x in 1..6 {
            assert_eq!(*tiles.get(at(x, y)), None);
        }
    }
}

#[test]
fn the_weights_are_the_frequencies_of_the_states_within() {
    let rules = codify(&["aaabaa"], at(2, 1), &[], None);
    assert_eq!(frequencies(&rules), vec![1, 3, 1, 1]);
    assert_eq!(rules.observer().weights(&set(4, &[0, 1, 3])), vec![1, 3, 0, 1]);
    assert_eq!(rules.observer().weights(&set(4, &[2])), vec![0, 0, 1, 0]);
    assert_eq!(rules.observer().weights(&set(4, &[])), vec![0, 0, 0, 0]);
    assert_eq!(rules.observer().weights(&StateSet::all(4)), vec![1, 3, 1, 1]);
}

#[test]
fn patterns_can_be_copied() {
    let rules = codify(&["aba"], at(2, 1), &[], None);
    let copy = rules.observer().clone();
    assert_eq!(copy.len(), 3);
    assert_eq!(copy.frequency(State::nth(1)), 1);
    assert_eq!(copy.center(State::nth(1)), Some(&Letter('b')));
}
