//! A rectangular grid of cells.

use crate::space::{InvertDelta, Space};
use vstd::arithmetic::div_mod::{
    lemma_fundamental_div_mod, lemma_fundamental_div_mod_converse,
};
use vstd::prelude::*;
use vstd::std_specs::cmp::PartialEqSpecImpl;

verus! {

/// Basic square grid implementing [`crate::space::Space`]
///
/// Coordinates are specified as [`Coordinate2d`]. The cells are enumerated
/// row by row: `x` runs fastest.
#[derive(Hash, PartialEq, Eq, Debug, Clone)]
pub struct Grid2d<T> {
    cells: Vec<T>,
    dimensions: Coordinate2d,
}

/// A position in a [`Grid2d`], or the dimensions of one.
#[derive(Copy, Clone, Debug, Default, PartialEq, Eq, Structural, Hash, PartialOrd, Ord)]
pub struct Coordinate2d {
    pub x: u32,
    pub y: u32,
}

/// The four directions in which cells of a [`Grid2d`] are adjacent.
#[derive(Copy, Clone, Debug)]
pub enum Direction2d {
    Right,
    Up,
    Left,
    Down,
}

/// The axes of a [`Grid2d`].
#[derive(Copy, Clone, Debug)]
pub enum Axis2d {
    X,
    Y,
}

/// The one rotation of a [`Grid2d`]: a quarter turn within the plane.
#[derive(Copy, Clone, Debug)]
pub struct Rotation2d;

impl PartialEq for Direction2d {
    fn eq(&self, other: &Self) -> (r: bool) {
        match (*self, *other) {
            (Direction2d::Right, Direction2d::Right) => true,
            (Direction2d::Up, Direction2d::Up) => true,
            (Direction2d::Left, Direction2d::Left) => true,
            (Direction2d::Down, Direction2d::Down) => true,
            _ => false,
        }
    }
}

impl Eq for Direction2d {

}

impl PartialEqSpecImpl for Direction2d {
    open spec fn obeys_eq_spec() -> bool {
        true
    }

    open spec fn eq_spec(&self, other: &Self) -> bool {
        *self == *other
    }
}

impl PartialEq for Axis2d {
    fn eq(&self, other: &Self) -> (r: bool) {
        match (*self, *other) {
            (Axis2d::X, Axis2d::X) => true,
            (Axis2d::Y, Axis2d::Y) => true,
            _ => false,
        }
    }
}

impl Eq for Axis2d {

}

impl PartialEqSpecImpl for Axis2d {
    open spec fn obeys_eq_spec() -> bool {
        true
    }

    open spec fn eq_spec(&self, other: &Self) -> bool {
        *self == *other
    }
}

impl Coordinate2d {
    /// The component along `axis`.
    pub open spec fn along(self, axis: Axis2d) -> u32 {
        match axis {
            Axis2d::X => self.x,
            Axis2d::Y => self.y,
        }
    }

    /// The component along `axis`.
    pub fn index(&self, axis: Axis2d) -> (r: u32)
        ensures
            r == self.along(axis),
    {
        match axis {
            Axis2d::X => self.x,
            Axis2d::Y => self.y,
        }
    }
}

impl Direction2d {
    /// The step that the direction takes, as `(dx, dy)`.
    pub open spec fn delta(self) -> (int, int) {
        match self {
            Direction2d::Right => (1, 0),
            Direction2d::Up => (0, 1),
            Direction2d::Left => (-1, 0),
            Direction2d::Down => (0, -1),
        }
    }

    /// The step that the direction takes, as `(dx, dy)`.
    pub fn offset(self) -> (r: (i32, i32))
        ensures
            r.0 == self.delta().0,
            r.1 == self.delta().1,
    {
        match self {
            Direction2d::Right => (1, 0),
            Direction2d::Up => (0, 1),
            Direction2d::Left => (-1, 0),
            Direction2d::Down => (0, -1),
        }
    }
}

impl InvertDelta for Direction2d {
    open spec fn inverted(self) -> Self {
        match self {
            Direction2d::Left => Direction2d::Right,
            Direction2d::Up => Direction2d::Down,
            Direction2d::Right => Direction2d::Left,
            Direction2d::Down => Direction2d::Up,
        }
    }

    fn invert_delta(&self) -> (r: Self) {
        match self {
            Direction2d::Left => Direction2d::Right,
            Direction2d::Up => Direction2d::Down,
            Direction2d::Right => Direction2d::Left,
            Direction2d::Down => Direction2d::Up,
        }
    }
}

/// Positions in a grid `width` wide and `height` high correspond one to one
/// to the pairs of a column and a row.
pub proof fn lemma_row_major(width: int, height: int)
    requires
        0 <= width,
        0 <= height,
    ensures
        forall|x: int, y: int|
            0 <= x < width && 0 <= y < height ==> 0 <= #[trigger] (x + y * width) < width * height
                && (x + y * width) % width == x && (x + y * width) / width == y,
        forall|i: int|
            0 <= i < width * height ==> 0 <= #[trigger] (i % width) < width && 0 <= i / width
                < height && i % width + (i / width) * width == i,
{
    assert forall|x: int, y: int| 0 <= x < width && 0 <= y < height implies 0 <= #[trigger] (x + y
        * width) < width * height && (x + y * width) % width == x && (x + y * width) / width
        == y by {
        assert(0 <= y * width && (y + 1) * width <= height * width && (y + 1) * width == y * width
            + width && height * width == width * height) by (nonlinear_arith)
            requires
                0 <= y < height,
                0 <= width,
        ;
        lemma_fundamental_div_mod_converse(x + y * width, width, y, x);
    }
    assert forall|i: int| 0 <= i < width * height implies 0 <= #[trigger] (i % width) < width && 0
        <= i / width < height && i % width + (i / width) * width == i by {
        assert(width > 0) by (nonlinear_arith)
            requires
                0 <= i < width * height,
                0 <= width,
        ;
        lemma_fundamental_div_mod(i, width);
        let q = i / width;
        assert(0 <= q < height && width * q == q * width) by (nonlinear_arith)
            requires
                0 <= i < width * height,
                0 < width,
                i == width * q + i % width,
                0 <= i % width < width,
        ;
    }
}

/// At the edge of a grid there is no neighbor in the outward direction, and
/// everywhere else there is one.
pub proof fn lemma_edges_2d<T>(dimensions: Coordinate2d, c: Coordinate2d)
    requires
        Grid2d::<T>::contains(dimensions, c),
    ensures
        Grid2d::<T>::step(dimensions, c, Direction2d::Left) is None <==> c.x == 0,
        Grid2d::<T>::step(dimensions, c, Direction2d::Right) is None <==> c.x == dimensions.x - 1,
        Grid2d::<T>::step(dimensions, c, Direction2d::Down) is None <==> c.y == 0,
        Grid2d::<T>::step(dimensions, c, Direction2d::Up) is None <==> c.y == dimensions.y - 1,
{
}

impl<T> Grid2d<T> {
    /// The coordinate one step from `coordinate` in `direction`, where that
    /// lies inside `dimensions`.
    pub open spec fn step_2d(
        dimensions: Coordinate2d,
        coordinate: Coordinate2d,
        direction: Direction2d,
    ) -> Option<Coordinate2d> {
        let x = coordinate.x + direction.delta().0;
        let y = coordinate.y + direction.delta().1;
        if 0 <= x < dimensions.x && 0 <= y < dimensions.y {
            Some(Coordinate2d { x: x as u32, y: y as u32 })
        } else {
            None
        }
    }

    /// `start + add - sub` by components, where that lies inside
    /// `dimensions`.
    pub open spec fn shifted_2d(
        dimensions: Coordinate2d,
        start: Coordinate2d,
        add: Coordinate2d,
        sub: Coordinate2d,
    ) -> Option<Coordinate2d> {
        let x = start.x + add.x - sub.x;
        let y = start.y + add.y - sub.y;
        if 0 <= x < dimensions.x && 0 <= y < dimensions.y {
            Some(Coordinate2d { x: x as u32, y: y as u32 })
        } else {
            None
        }
    }
}

impl<T> Space<T> for Grid2d<T> {
    type Coordinate = Coordinate2d;

    type Direction = Direction2d;

    type Axis = Axis2d;

    type RotationAxis = Rotation2d;

    open spec fn volume(dimensions: Coordinate2d) -> nat {
        (dimensions.x * dimensions.y) as nat
    }

    open spec fn contains(dimensions: Coordinate2d, coordinate: Coordinate2d) -> bool {
        coordinate.x < dimensions.x && coordinate.y < dimensions.y
    }

    open spec fn position(dimensions: Coordinate2d, coordinate: Coordinate2d) -> int {
        coordinate.x + coordinate.y * dimensions.x
    }

    open spec fn coordinate_at(dimensions: Coordinate2d, position: int) -> Coordinate2d {
        Coordinate2d {
            x: (position % (dimensions.x as int)) as u32,
            y: (position / (dimensions.x as int)) as u32,
        }
    }

    open spec fn component(coordinate: Coordinate2d, axis: Axis2d) -> u32 {
        coordinate.along(axis)
    }

    open spec fn mapped(coordinate: Coordinate2d, f: spec_fn(Axis2d, u32) -> u32) -> Coordinate2d {
        Coordinate2d { x: f(Axis2d::X, coordinate.x), y: f(Axis2d::Y, coordinate.y) }
    }

    open spec fn all_directions() -> Seq<Direction2d> {
        seq![Direction2d::Right, Direction2d::Up, Direction2d::Left, Direction2d::Down]
    }

    open spec fn step(
        dimensions: Coordinate2d,
        coordinate: Coordinate2d,
        direction: Direction2d,
    ) -> Option<Coordinate2d> {
        Self::step_2d(dimensions, coordinate, direction)
    }

    open spec fn shifted(
        dimensions: Coordinate2d,
        start: Coordinate2d,
        add: Coordinate2d,
        sub: Coordinate2d,
    ) -> Option<Coordinate2d> {
        Self::shifted_2d(dimensions, start, add, sub)
    }

    open spec fn square(dimensions: Coordinate2d, axis: Rotation2d) -> bool {
        dimensions.x == dimensions.y
    }

    open spec fn turned(dimensions: Coordinate2d, coordinate: Coordinate2d, axis: Rotation2d)
        -> Coordinate2d {
        Coordinate2d { x: (dimensions.y - 1 - coordinate.y) as u32, y: coordinate.x }
    }

    closed spec fn view(&self) -> Seq<T> {
        self.cells@
    }

    closed spec fn extent(&self) -> Coordinate2d {
        self.dimensions
    }

    closed spec fn wf(&self) -> bool {
        &&& self.cells@.len() == self.dimensions.x * self.dimensions.y
        &&& self.dimensions.x * self.dimensions.y <= u32::MAX
    }

    proof fn lemma_wf(&self) {
    }

    proof fn lemma_enumeration(dimensions: Coordinate2d) {
        lemma_row_major(dimensions.x as int, dimensions.y as int);
        assert forall|c: Coordinate2d| #[trigger]
            Self::contains(dimensions, c) implies 0 <= Self::position(dimensions, c)
            < Self::volume(dimensions) && Self::coordinate_at(
            dimensions,
            Self::position(dimensions, c),
        ) == c by {
            assert(0 <= c.x + c.y * dimensions.x < dimensions.x * dimensions.y);
        }
        assert forall|i: int| 0 <= i < Self::volume(dimensions) implies Self::contains(
            dimensions,
            #[trigger] Self::coordinate_at(dimensions, i),
        ) && Self::position(dimensions, Self::coordinate_at(dimensions, i)) == i by {
            assert(0 <= i % (dimensions.x as int) < dimensions.x);
        }
        assert forall|c: Coordinate2d| #[trigger]
            Self::contains(dimensions, c) <==> forall|a: Axis2d| #[trigger]
                Self::component(c, a) < Self::component(dimensions, a) by {
            if forall|a: Axis2d| #[trigger]
                Self::component(c, a) < Self::component(dimensions, a) {
                assert(Self::component(c, Axis2d::X) < Self::component(dimensions, Axis2d::X));
                assert(Self::component(c, Axis2d::Y) < Self::component(dimensions, Axis2d::Y));
            }
        }
    }

    proof fn lemma_mapped(coordinate: Coordinate2d, f: spec_fn(Axis2d, u32) -> u32, axis: Axis2d) {
    }

    proof fn lemma_directions() {
        let d = Self::all_directions();
        assert forall|x: Direction2d| #[trigger] d.contains(x) implies d.contains(x.inverted())
            && x.inverted().inverted() == x by {
            assert(d[0] == Direction2d::Right && d[1] == Direction2d::Up && d[2]
                == Direction2d::Left && d[3] == Direction2d::Down);
        }
    }

    proof fn lemma_step(dimensions: Coordinate2d, coordinate: Coordinate2d, direction: Direction2d) {
    }

    proof fn lemma_moves(dimensions: Coordinate2d) {
    }

    fn directions() -> (r: Vec<Direction2d>) {
        let r = vec![Direction2d::Right, Direction2d::Up, Direction2d::Left, Direction2d::Down];
        assert(r@ =~= Self::all_directions());
        r
    }

    /// Create a new `Grid2d`
    fn new<F: Fn(Coordinate2d) -> T>(dimensions: Coordinate2d, init_fn: F) -> (r: Self) {
        proof {
            lemma_row_major(dimensions.x as int, dimensions.y as int);
        }
        let mut cells: Vec<T> = Vec::new();
        let mut y: u32 = 0;
        while y < dimensions.y
            invariant
                y <= dimensions.y,
                dimensions.x * dimensions.y <= u32::MAX,
                cells@.len() == y * dimensions.x,
                forall|c: Coordinate2d|
                    Self::contains(dimensions, c) ==> call_requires(init_fn, (c,)),
                forall|i: int|
                    0 <= i < cells@.len() ==> call_ensures(
                        init_fn,
                        (Self::coordinate_at(dimensions, i),),
                        #[trigger] cells@[i],
                    ),
            decreases dimensions.y - y,
        {
            let mut x: u32 = 0;
            while x < dimensions.x
                invariant
                    x <= dimensions.x,
                    y < dimensions.y,
                    dimensions.x * dimensions.y <= u32::MAX,
                    cells@.len() == y * dimensions.x + x,
                    forall|c: Coordinate2d|
                        Self::contains(dimensions, c) ==> call_requires(init_fn, (c,)),
                    forall|i: int|
                        0 <= i < cells@.len() ==> call_ensures(
                            init_fn,
                            (Self::coordinate_at(dimensions, i),),
                            #[trigger] cells@[i],
                        ),
                decreases dimensions.x - x,
            {
                let c = Coordinate2d { x, y };
                proof {
                    lemma_row_major(dimensions.x as int, dimensions.y as int);
                    assert(0 <= x + y * dimensions.x < dimensions.x * dimensions.y);
                    assert(Self::coordinate_at(dimensions, x + y * dimensions.x) == c);
                    assert(Self::contains(dimensions, c));
                }
                cells.push(init_fn(c));
                x += 1;
            }
            assert((y + 1) * dimensions.x == y * dimensions.x + dimensions.x) by (nonlinear_arith);
            y += 1;
        }
        assert(dimensions.y * dimensions.x == dimensions.x * dimensions.y) by (nonlinear_arith);
        Self { cells, dimensions }
    }

    fn index(coordinate: Coordinate2d, axis: Axis2d) -> (r: u32) {
        coordinate.index(axis)
    }

    fn dimensions(&self) -> (r: Coordinate2d) {
        self.dimensions
    }

    fn get(&self, coordinate: Coordinate2d) -> (r: &T) {
        proof {
            lemma_row_major(self.dimensions.x as int, self.dimensions.y as int);
            assert(0 <= coordinate.x + coordinate.y * self.dimensions.x < self.dimensions.x
                * self.dimensions.y);
        }
        &self.cells[(coordinate.x + coordinate.y * self.dimensions.x) as usize]
    }

    fn get_mut(&mut self, coordinate: Coordinate2d) -> (r: &mut T) {
        proof {
            lemma_row_major(self.dimensions.x as int, self.dimensions.y as int);
            assert(0 <= coordinate.x + coordinate.y * self.dimensions.x < self.dimensions.x
                * self.dimensions.y);
        }
        &mut self.cells[(coordinate.x + coordinate.y * self.dimensions.x) as usize]
    }

    fn map<F: Fn(Axis2d, u32) -> u32>(coordinate: Coordinate2d, map_fn: F) -> (r: Coordinate2d) {
        assert(coordinate.x == Self::component(coordinate, Axis2d::X));
        assert(coordinate.y == Self::component(coordinate, Axis2d::Y));
        let r = Coordinate2d {
            x: map_fn(Axis2d::X, coordinate.x),
            y: map_fn(Axis2d::Y, coordinate.y),
        };
        proof {
            assert forall|a: Axis2d|
                call_ensures(
                    map_fn,
                    (a, Self::component(coordinate, a)),
                    #[trigger] Self::component(r, a),
                ) by {
                match a {
                    Axis2d::X => {},
                    Axis2d::Y => {},
                }
            }
        }
        r
    }

    fn perp(&self, coordinate: Coordinate2d, axis: Rotation2d) -> (r: Coordinate2d) {
        Coordinate2d { x: self.dimensions.y - 1 - coordinate.y, y: coordinate.x }
    }

    fn add_sub(&self, start: Coordinate2d, add: Coordinate2d, sub: Coordinate2d) -> (r: Option<
        Coordinate2d,
    >) {
        let x = start.x as i64 + add.x as i64 - sub.x as i64;
        let y = start.y as i64 + add.y as i64 - sub.y as i64;
        if x < 0 || y < 0 || x >= self.dimensions.x as i64 || y >= self.dimensions.y as i64 {
            return None;
        }
        Some(Coordinate2d { x: x as u32, y: y as u32 })
    }

    fn coordinates(dimensions: Coordinate2d) -> (r: Vec<Coordinate2d>) {
        proof {
            lemma_row_major(dimensions.x as int, dimensions.y as int);
        }
        let mut out: Vec<Coordinate2d> = Vec::new();
        let mut y: u32 = 0;
        while y < dimensions.y
            invariant
                y <= dimensions.y,
                dimensions.x * dimensions.y <= u32::MAX,
                out@.len() == y * dimensions.x,
                forall|i: int|
                    0 <= i < out@.len() ==> #[trigger] out@[i] == Self::coordinate_at(
                        dimensions,
                        i,
                    ),
            decreases dimensions.y - y,
        {
            let mut x: u32 = 0;
            while x < dimensions.x
                invariant
                    x <= dimensions.x,
                    y < dimensions.y,
                    dimensions.x * dimensions.y <= u32::MAX,
                    out@.len() == y * dimensions.x + x,
                    forall|i: int|
                        0 <= i < out@.len() ==> #[trigger] out@[i] == Self::coordinate_at(
                            dimensions,
                            i,
                        ),
                decreases dimensions.x - x,
            {
                proof {
                    lemma_row_major(dimensions.x as int, dimensions.y as int);
                    assert(0 <= x + y * dimensions.x < dimensions.x * dimensions.y);
                }
                out.push(Coordinate2d { x, y });
                x += 1;
            }
            assert((y + 1) * dimensions.x == y * dimensions.x + dimensions.x) by (nonlinear_arith);
            y += 1;
        }
        assert(dimensions.y * dimensions.x == dimensions.x * dimensions.y) by (nonlinear_arith);
        out
    }

    fn neighbor(&self, coordinate: Coordinate2d, direction: Direction2d) -> (r: Option<
        Coordinate2d,
    >) {
        let Coordinate2d { x, y } = coordinate;
        let (dx, dy) = direction.offset();
        if (x == 0 && dx == -1) || (y == 0 && dy == -1) {
            None
        } else if (x == self.dimensions.x - 1 && dx == 1) || (y == self.dimensions.y - 1 && dy
            == 1) {
            None
        } else {
            Some(
                Coordinate2d {
                    x: (x as i64 + dx as i64) as u32,
                    y: (y as i64 + dy as i64) as u32,
                },
            )
        }
    }
}

} // verus!
