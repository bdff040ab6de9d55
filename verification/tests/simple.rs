use rand::rngs::StdRng;
use rand::SeedableRng;
use wfc::collapse::collapse;
use wfc::grid_2d::{Axis2d, Coordinate2d, Grid2d, Rotation2d};
use wfc::overlapping::{codify_patterns, Tile};
use wfc::space::Space;
use wfc::state::{State, StateSet};

#[test]
fn simple() {
    let input = parse_grid(
        r#"
____________________
__+---+__+---+______
__|+++|__|***|______
__|+++|__|***+---+__
__|+++|__|*******|__
__|+++|__|*******|__
__|+++|__|*******|__
__+---+__+-------+__
____________________
 "#,
    );

    println!("input:");
    print_grid(&input);

    let rule = codify_patterns::<CharTile, Grid2d<Option<CharTile>>, Grid2d<StateSet>>(
        &input,
        Coordinate2d { x: 3, y: 3 },
        &[Axis2d::X, Axis2d::Y],
        Some(Rotation2d),
    );

    println!("rules: {}", rule.state_count());

    let state_count = rule.state_count();
    let dimensions = Coordinate2d { x: 50, y: 20 };
    let mut space = Grid2d::new(dimensions, |_| StateSet::all(state_count));

    for coord in <Grid2d<StateSet>>::coordinates(space.dimensions()) {
        if coord.x == 0
            || coord.y == 0
            || coord.x == space.dimensions().x - 1
            || coord.y == space.dimensions().y - 1
        {
            let state = space.get_mut(coord);
            for s in 0..state_count {
                let s = State::nth(s);
                if state.has(s) && rule.observer().center(s).is_some() {
                    state.remove(s);
                }
            }
        }
    }

    let mut rng = StdRng::seed_from_u64(20);
    collapse(&mut space, &rule, &mut rng);

    let (unextracted, overconstrained): (Grid2d<Option<CharTile>>, usize) =
        rule.observer().decode_superposition(&space);

    println!("overconstrained: {overconstrained}");
    println!("output:");
    print_grid(&unextracted);

    let mut empty = 0;
    for coord in <Grid2d<StateSet>>::coordinates(dimensions) {
        let cell = space.get(coord);
        assert_eq!(cell.entropy(), 0);
        if cell.first().is_none() {
            empty += 1;
            assert!(unextracted.get(coord).is_none());
        }
    }
    assert_eq!(overconstrained, empty);
}

fn parse_grid(s: &str) -> Grid2d<Option<CharTile>> {
    let lines = s
        .lines()
        .filter(|l| !l.trim().is_empty())
        .collect::<Vec<_>>();

    Grid2d::new(
        Coordinate2d {
            x: lines.iter().map(|x| x.len()).max().unwrap_or(0) as u32,
            y: lines.len() as u32,
        },
        |coordinate| {
            Some(CharTile {
                b: lines[coordinate.y as usize]
                    .as_bytes()
                    .get(coordinate.x as usize)
                    .copied()
                    .map(|b| if matches!(b, b' ' | b'_') { 0 } else { b })
                    .unwrap_or(0),
            })
            .filter(|c| c.b != 0)
        },
    )
}

fn print_grid(grid: &Grid2d<Option<CharTile>>) {
    for y in 0..grid.dimensions().y {
        let mut row = String::new();
        for x in 0..grid.dimensions().x {
            let v = grid.get(Coordinate2d { x, y });
            row.push_str(&if let Some(v) = v {
                format!("{}", v.b as char)
            } else {
                "_".to_owned()
            });
        }
        println!("{row}");
    }
}

#[derive(Copy, Clone, Eq, Hash, PartialEq)]
pub struct CharTile {
    b: u8,
}

impl Tile<Axis2d, Rotation2d> for CharTile {
    fn flipped(self, axis: Axis2d) -> Self {
        self.flip(axis)
    }

    fn turned(self, axis: Rotation2d) -> Self {
        self.perp(axis)
    }

    fn flip(self, _axis: Axis2d) -> Self {
        self
    }

    fn perp(self, _axis: Rotation2d) -> Self {
        Self {
            b: match self.b {
                b'-' => b'|',
                b'|' => b'-',
                o => o,
            },
        }
    }
}
