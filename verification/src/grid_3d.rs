//! A box-shaped grid of cells.

use crate::grid_2d::lemma_row_major;
use crate::space::{InvertDelta, Space};
use vstd::prelude::*;
use vstd::std_specs::cmp::PartialEqSpecImpl;

verus! {

/// Basic cubic grid implementing [`crate::space::Space`]
///
/// Coordinates are specified as [`Coordinate3d`]. The cells are enumerated
/// layer by layer and row by row: `x` runs fastest, `z` slowest.
#[derive(Hash, PartialEq, Eq, Debug, Clone)]
pub struct Grid3d<T> {
    cells: Vec<T>,
    dimensions: Coordinate3d,
}

/// A position in a [`Grid3d`], or the dimensions of one.
#[derive(Copy, Clone, Debug, Default, PartialEq, Eq, Structural, Hash, PartialOrd, Ord)]
pub struct Coordinate3d {
    pub x: u32,
    pub y: u32,
    pub z: u32,
}

/// The six directions in which cells of a [`Grid3d`] are adjacent.
#[derive(Copy, Clone, Debug)]
pub enum Direction3d {
    PosX,
    NegX,
    PosY,
    NegY,
    PosZ,
    NegZ,
}

/// The axes of a [`Grid3d`], for flipping and for rotation.
#[derive(Copy, Clone, Debug)]
pub enum Axis3d {
    X,
    Y,
    Z,
}

impl PartialEq for Direction3d {
    fn eq(&self, other: &Self) -> (r: bool) {
        match (*self, *other) {
            (Direction3d::PosX, Direction3d::PosX) => true,
            (Direction3d::NegX, Direction3d::NegX) => true,
            (Direction3d::PosY, Direction3d::PosY) => true,
            (Direction3d::NegY, Direction3d::NegY) => true,
            (Direction3d::PosZ, Direction3d::PosZ) => true,
            (Direction3d::NegZ, Direction3d::NegZ) => true,
            _ => false,
        }
    }
}

impl Eq for Direction3d {

}

impl PartialEqSpecImpl for Direction3d {
    open spec fn obeys_eq_spec() -> bool {
        true
    }

    open spec fn eq_spec(&self, other: &Self) -> bool {
        *self == *other
    }
}

impl PartialEq for Axis3d {
    fn eq(&self, other: &Self) -> (r: bool) {
        match (*self, *other) {
            (Axis3d::X, Axis3d::X) => true,
            (Axis3d::Y, Axis3d::Y) => true,
            (Axis3d::Z, Axis3d::Z) => true,
            _ => false,
        }
    }
}

impl Eq for Axis3d {

}

impl PartialEqSpecImpl for Axis3d {
    open spec fn obeys_eq_spec() -> bool {
        true
    }

    open spec fn eq_spec(&self, other: &Self) -> bool {
        *self == *other
    }
}

impl Coordinate3d {
    /// The component along `axis`.
    pub open spec fn along(self, axis: Axis3d) -> u32 {
        match axis {
            Axis3d::X => self.x,
            Axis3d::Y => self.y,
            Axis3d::Z => self.z,
        }
    }

    /// The component along `axis`.
    pub fn index(&self, axis: Axis3d) -> (r: u32)
        ensures
            r == self.along(axis),
    {
        match axis {
            Axis3d::X => self.x,
            Axis3d::Y => self.y,
            Axis3d::Z => self.z,
        }
    }
}

impl Direction3d {
    /// The step that the direction takes, as `(dx, dy, dz)`.
    pub open spec fn delta(self) -> (int, int, int) {
        match self {
            Direction3d::PosX => (1, 0, 0),
            Direction3d::NegX => (-1, 0, 0),
            Direction3d::PosY => (0, 1, 0),
            Direction3d::NegY => (0, -1, 0),
            Direction3d::PosZ => (0, 0, 1),
            Direction3d::NegZ => (0, 0, -1),
        }
    }

    /// The step that the direction takes, as `(dx, dy, dz)`.
    pub fn offset(self) -> (r: (i32, i32, i32))
        ensures
            r.0 == self.delta().0,
            r.1 == self.delta().1,
            r.2 == self.delta().2,
    {
        match self {
            Direction3d::PosX => (1, 0, 0),
            Direction3d::NegX => (-1, 0, 0),
            Direction3d::PosY => (0, 1, 0),
            Direction3d::NegY => (0, -1, 0),
            Direction3d::PosZ => (0, 0, 1),
            Direction3d::NegZ => (0, 0, -1),
        }
    }
}

impl InvertDelta for Direction3d {
    open spec fn inverted(self) -> Self {
        match self {
            Direction3d::PosX => Direction3d::NegX,
            Direction3d::NegX => Direction3d::PosX,
            Direction3d::PosY => Direction3d::NegY,
            Direction3d::NegY => Direction3d::PosY,
            Direction3d::PosZ => Direction3d::NegZ,
            Direction3d::NegZ => Direction3d::PosZ,
        }
    }

    fn invert_delta(&self) -> (r: Self) {
        match self {
            Direction3d::PosX => Direction3d::NegX,
            Direction3d::NegX => Direction3d::PosX,
            Direction3d::PosY => Direction3d::NegY,
            Direction3d::NegY => Direction3d::PosY,
            Direction3d::PosZ => Direction3d::NegZ,
            Direction3d::NegZ => Direction3d::PosZ,
        }
    }
}

/// Positions in a grid of the given extents correspond one to one to the
/// triples of a column, a row and a layer.
pub proof fn lemma_layer_major(width: int, height: int, depth: int)
    requires
        0 <= width,
        0 <= height,
        0 <= depth,
    ensures
        forall|x: int, y: int, z: int|
            0 <= x < width && 0 <= y < height && 0 <= z < depth ==> {
                let i = #[trigger] (x + y * width + z * (width * height));
                &&& 0 <= i < width * height * depth
                &&& i % width == x
                &&& (i / width) % height == y
                &&& i / (width * height) == z
            },
        forall|i: int|
            0 <= i < width * height * depth ==> {
                &&& 0 <= #[trigger] (i % width) < width
                &&& 0 <= (i / width) % height < height
                &&& 0 <= i / (width * height) < depth
                &&& i % width + ((i / width) % height) * width + (i / (width * height)) * (width
                    * height) == i
            },
{
    let area = width * height;
    assert(0 <= area) by (nonlinear_arith)
        requires
            0 <= width,
            0 <= height,
            area == width * height,
    ;
    assert(width * height * depth == area * depth);
    lemma_row_major(width, height);
    lemma_row_major(area, depth);
    assert forall|x: int, y: int, z: int|
        0 <= x < width && 0 <= y < height && 0 <= z < depth implies {
        let i = #[trigger] (x + y * width + z * (width * height));
        &&& 0 <= i < width * height * depth
        &&& i % width == x
        &&& (i / width) % height == y
        &&& i / (width * height) == z
    } by {
        let p = x + y * width;
        let i = p + z * area;
        assert(0 <= p < area && p % width == x && p / width == y);
        assert(0 <= i < area * depth && i % area == p && i / area == z);
        // i = x + (y + z * height) * width
        let row = y + z * height;
        assert(i == x + row * width) by (nonlinear_arith)
            requires
                i == x + y * width + z * (width * height),
                row == y + z * height,
        ;
        assert(0 <= row < height * depth) by (nonlinear_arith)
            requires
                0 <= y < height,
                0 <= z < depth,
                row == y + z * height,
        ;
        lemma_row_major(width, height * depth);
        assert(0 <= x < width && 0 <= row < height * depth);
        assert((x + row * width) % width == x && (x + row * width) / width == row);
        lemma_row_major(height, depth);
        assert((y + z * height) % height == y);
    }
    assert forall|i: int| 0 <= i < width * height * depth implies {
        &&& 0 <= #[trigger] (i % width) < width
        &&& 0 <= (i / width) % height < height
        &&& 0 <= i / (width * height) < depth
        &&& i % width + ((i / width) % height) * width + (i / (width * height)) * (width * height)
            == i
    } by {
        assert(0 <= i % area < area && 0 <= i / area < depth && i % area + (i / area) * area == i);
        let z = i / area;
        let p = i % area;
        assert(0 <= p % width < width && 0 <= p / width < height && p % width + (p / width)
            * width == p);
        let x = p % width;
        let y = p / width;
        // the forward direction, applied to (x, y, z), gives the claim
        let j = x + y * width + z * (width * height);
        assert(j == i);
        assert(j % width == x && (j / width) % height == y && j / (width * height) == z);
    }
}

/// At the faces of a grid there is no neighbor in the outward direction,
/// and everywhere else there is one.
pub proof fn lemma_edges_3d<T>(dimensions: Coordinate3d, c: Coordinate3d)
    requires
        Grid3d::<T>::contains(dimensions, c),
    ensures
        Grid3d::<T>::step(dimensions, c, Direction3d::NegX) is None <==> c.x == 0,
        Grid3d::<T>::step(dimensions, c, Direction3d::PosX) is None <==> c.x == dimensions.x - 1,
        Grid3d::<T>::step(dimensions, c, Direction3d::NegY) is None <==> c.y == 0,
        Grid3d::<T>::step(dimensions, c, Direction3d::PosY) is None <==> c.y == dimensions.y - 1,
        Grid3d::<T>::step(dimensions, c, Direction3d::NegZ) is None <==> c.z == 0,
        Grid3d::<T>::step(dimensions, c, Direction3d::PosZ) is None <==> c.z == dimensions.z - 1,
{
}

impl<T> Grid3d<T> {
    /// The coordinate one step from `coordinate` in `direction`, where that
    /// lies inside `dimensions`.
    pub open spec fn step_3d(
        dimensions: Coordinate3d,
        coordinate: Coordinate3d,
        direction: Direction3d,
    ) -> Option<Coordinate3d> {
        let x = coordinate.x + direction.delta().0;
        let y = coordinate.y + direction.delta().1;
        let z = coordinate.z + direction.delta().2;
        if 0 <= x < dimensions.x && 0 <= y < dimensions.y && 0 <= z < dimensions.z {
            Some(Coordinate3d { x: x as u32, y: y as u32, z: z as u32 })
        } else {
            None
        }
    }

    /// `start + add - sub` by components, where that lies inside
    /// `dimensions`.
    pub open spec fn shifted_3d(
        dimensions: Coordinate3d,
        start: Coordinate3d,
        add: Coordinate3d,
        sub: Coordinate3d,
    ) -> Option<Coordinate3d> {
        let x = start.x + add.x - sub.x;
        let y = start.y + add.y - sub.y;
        let z = start.z + add.z - sub.z;
        if 0 <= x < dimensions.x && 0 <= y < dimensions.y && 0 <= z < dimensions.z {
            Some(Coordinate3d { x: x as u32, y: y as u32, z: z as u32 })
        } else {
            None
        }
    }

    /// `coordinate` after a quarter turn around `axis` within `dimensions`.
    pub open spec fn turned_3d(dimensions: Coordinate3d, coordinate: Coordinate3d, axis: Axis3d)
        -> Coordinate3d {
        match axis {
            Axis3d::X => Coordinate3d {
                x: coordinate.x,
                y: (dimensions.z - 1 - coordinate.z) as u32,
                z: coordinate.y,
            },
            Axis3d::Y => Coordinate3d {
                x: coordinate.z,
                y: coordinate.y,
                z: (dimensions.x - 1 - coordinate.x) as u32,
            },
            Axis3d::Z => Coordinate3d {
                x: (dimensions.y - 1 - coordinate.y) as u32,
                y: coordinate.x,
                z: coordinate.z,
            },
        }
    }

    /// The place of `coordinate` among the cells.
    fn cell_index(&self, coordinate: Coordinate3d) -> (r: usize)
        requires
            self.wf(),
            Self::contains(self.dimensions, coordinate),
        ensures
            r == Self::position(self.dimensions, coordinate),
            r < self.cells@.len(),
    {
        let Coordinate3d { x, y, z } = coordinate;
        proof {
            let w = self.dimensions.x as int;
            let h = self.dimensions.y as int;
            let d = self.dimensions.z as int;
            lemma_layer_major(w, h, d);
            lemma_row_major(w, h);
            assert(0 <= x + y * w + z * (w * h) < w * h * d);
            assert(0 <= x + y * w < w * h);
            assert(0 <= z * (w * h) && z * w * h == z * (w * h) && 0 <= z * w <= z * (w * h))
                by (nonlinear_arith)
                requires
                    0 <= z,
                    0 <= x + y * w < w * h,
                    0 <= w,
                    0 <= h,
            ;
        }
        (x + y * self.dimensions.x + z * self.dimensions.x * self.dimensions.y) as usize
    }
}

impl<T> Space<T> for Grid3d<T> {
    type Coordinate = Coordinate3d;

    type Direction = Direction3d;

    type Axis = Axis3d;

    type RotationAxis = Axis3d;

    open spec fn volume(dimensions: Coordinate3d) -> nat {
        (dimensions.x * dimensions.y * dimensions.z) as nat
    }

    open spec fn contains(dimensions: Coordinate3d, coordinate: Coordinate3d) -> bool {
        coordinate.x < dimensions.x && coordinate.y < dimensions.y && coordinate.z < dimensions.z
    }

    open spec fn position(dimensions: Coordinate3d, coordinate: Coordinate3d) -> int {
        coordinate.x + coordinate.y * dimensions.x + coordinate.z * (dimensions.x * dimensions.y)
    }

    open spec fn coordinate_at(dimensions: Coordinate3d, position: int) -> Coordinate3d {
        Coordinate3d {
            x: (position % (dimensions.x as int)) as u32,
            y: ((position / (dimensions.x as int)) % (dimensions.y as int)) as u32,
            z: (position / (dimensions.x * dimensions.y)) as u32,
        }
    }

    open spec fn component(coordinate: Coordinate3d, axis: Axis3d) -> u32 {
        coordinate.along(axis)
    }

    open spec fn mapped(coordinate: Coordinate3d, f: spec_fn(Axis3d, u32) -> u32) -> Coordinate3d {
        Coordinate3d {
            x: f(Axis3d::X, coordinate.x),
            y: f(Axis3d::Y, coordinate.y),
            z: f(Axis3d::Z, coordinate.z),
        }
    }

    open spec fn all_directions() -> Seq<Direction3d> {
        seq![
            Direction3d::PosX,
            Direction3d::NegX,
            Direction3d::PosY,
            Direction3d::NegY,
            Direction3d::PosZ,
            Direction3d::NegZ,
        ]
    }

    open spec fn step(
        dimensions: Coordinate3d,
        coordinate: Coordinate3d,
        direction: Direction3d,
    ) -> Option<Coordinate3d> {
        Self::step_3d(dimensions, coordinate, direction)
    }

    open spec fn shifted(
        dimensions: Coordinate3d,
        start: Coordinate3d,
        add: Coordinate3d,
        sub: Coordinate3d,
    ) -> Option<Coordinate3d> {
        Self::shifted_3d(dimensions, start, add, sub)
    }

    open spec fn square(dimensions: Coordinate3d, axis: Axis3d) -> bool {
        match axis {
            Axis3d::X => dimensions.y == dimensions.z,
            Axis3d::Y => dimensions.z == dimensions.x,
            Axis3d::Z => dimensions.x == dimensions.y,
        }
    }

    open spec fn turned(dimensions: Coordinate3d, coordinate: Coordinate3d, axis: Axis3d)
        -> Coordinate3d {
        Self::turned_3d(dimensions, coordinate, axis)
    }

    closed spec fn view(&self) -> Seq<T> {
        self.cells@
    }

    closed spec fn extent(&self) -> Coordinate3d {
        self.dimensions
    }

    closed spec fn wf(&self) -> bool {
        &&& self.cells@.len() == self.dimensions.x * self.dimensions.y * self.dimensions.z
        &&& self.dimensions.x * self.dimensions.y * self.dimensions.z <= u32::MAX
    }

    proof fn lemma_wf(&self) {
    }

    proof fn lemma_enumeration(dimensions: Coordinate3d) {
        lemma_layer_major(dimensions.x as int, dimensions.y as int, dimensions.z as int);
        assert forall|c: Coordinate3d| #[trigger]
            Self::contains(dimensions, c) implies 0 <= Self::position(dimensions, c)
            < Self::volume(dimensions) && Self::coordinate_at(
            dimensions,
            Self::position(dimensions, c),
        ) == c by {
            let i = c.x + c.y * dimensions.x + c.z * (dimensions.x * dimensions.y);
            assert(0 <= i < dimensions.x * dimensions.y * dimensions.z);
        }
        assert forall|i: int| 0 <= i < Self::volume(dimensions) implies Self::contains(
            dimensions,
            #[trigger] Self::coordinate_at(dimensions, i),
        ) && Self::position(dimensions, Self::coordinate_at(dimensions, i)) == i by {
            assert(0 <= i % (dimensions.x as int) < dimensions.x);
        }
        assert forall|c: Coordinate3d| #[trigger]
            Self::contains(dimensions, c) <==> forall|a: Axis3d| #[trigger]
                Self::component(c, a) < Self::component(dimensions, a) by {
            if forall|a: Axis3d| #[trigger]
                Self::component(c, a) < Self::component(dimensions, a) {
                assert(Self::component(c, Axis3d::X) < Self::component(dimensions, Axis3d::X));
                assert(Self::component(c, Axis3d::Y) < Self::component(dimensions, Axis3d::Y));
                assert(Self::component(c, Axis3d::Z) < Self::component(dimensions, Axis3d::Z));
            }
        }
    }

    proof fn lemma_mapped(coordinate: Coordinate3d, f: spec_fn(Axis3d, u32) -> u32, axis: Axis3d) {
    }

    proof fn lemma_directions() {
        let d = Self::all_directions();
        assert forall|x: Direction3d| #[trigger] d.contains(x) implies d.contains(x.inverted())
            && x.inverted().inverted() == x by {
            assert(d[0] == Direction3d::PosX && d[1] == Direction3d::NegX && d[2]
                == Direction3d::PosY && d[3] == Direction3d::NegY && d[4] == Direction3d::PosZ
                && d[5] == Direction3d::NegZ);
        }
    }

    proof fn lemma_step(dimensions: Coordinate3d, coordinate: Coordinate3d, direction: Direction3d) {
    }

    proof fn lemma_moves(dimensions: Coordinate3d) {
    }

    fn directions() -> (r: Vec<Direction3d>) {
        let r = vec![
            Direction3d::PosX,
            Direction3d::NegX,
            Direction3d::PosY,
            Direction3d::NegY,
            Direction3d::PosZ,
            Direction3d::NegZ,
        ];
        assert(r@ =~= Self::all_directions());
        r
    }

    /// Create a new `Grid3d`
    fn new<F: Fn(Coordinate3d) -> T>(dimensions: Coordinate3d, init_fn: F) -> (r: Self) {
        let coordinates = Self::coordinates(dimensions);
        let mut cells: Vec<T> = Vec::new();
        let mut n: usize = 0;
        while n < coordinates.len()
            invariant
                n <= coordinates@.len(),
                cells@.len() == n,
                coordinates@.len() == Self::volume(dimensions),
                forall|i: int|
                    0 <= i < coordinates@.len() ==> #[trigger] coordinates@[i]
                        == Self::coordinate_at(dimensions, i),
                forall|c: Coordinate3d|
                    Self::contains(dimensions, c) ==> call_requires(init_fn, (c,)),
                forall|i: int|
                    0 <= i < cells@.len() ==> call_ensures(
                        init_fn,
                        (Self::coordinate_at(dimensions, i),),
                        #[trigger] cells@[i],
                    ),
            decreases coordinates@.len() - n,
        {
            let c = coordinates[n];
            proof {
                Self::lemma_enumeration(dimensions);
                assert(c == Self::coordinate_at(dimensions, n as int));
                assert(Self::contains(dimensions, c));
            }
            cells.push(init_fn(c));
            n += 1;
        }
        Self { cells, dimensions }
    }

    fn index(coordinate: Coordinate3d, axis: Axis3d) -> (r: u32) {
        coordinate.index(axis)
    }

    fn dimensions(&self) -> (r: Coordinate3d) {
        self.dimensions
    }

    fn get(&self, coordinate: Coordinate3d) -> (r: &T) {
        let i = self.cell_index(coordinate);
        &self.cells[i]
    }

    fn get_mut(&mut self, coordinate: Coordinate3d) -> (r: &mut T) {
        let i = self.cell_index(coordinate);
        &mut self.cells[i]
    }

    fn map<F: Fn(Axis3d, u32) -> u32>(coordinate: Coordinate3d, map_fn: F) -> (r: Coordinate3d) {
        assert(coordinate.x == Self::component(coordinate, Axis3d::X));
        assert(coordinate.y == Self::component(coordinate, Axis3d::Y));
        assert(coordinate.z == Self::component(coordinate, Axis3d::Z));
        let r = Coordinate3d {
            x: map_fn(Axis3d::X, coordinate.x),
            y: map_fn(Axis3d::Y, coordinate.y),
            z: map_fn(Axis3d::Z, coordinate.z),
        };
        proof {
            assert forall|a: Axis3d|
                call_ensures(
                    map_fn,
                    (a, Self::component(coordinate, a)),
                    #[trigger] Self::component(r, a),
                ) by {
                match a {
                    Axis3d::X => {},
                    Axis3d::Y => {},
                    Axis3d::Z => {},
                }
            }
        }
        r
    }

    fn perp(&self, coordinate: Coordinate3d, axis: Axis3d) -> (r: Coordinate3d) {
        let Coordinate3d { x, y, z } = coordinate;
        match axis {
            Axis3d::X => Coordinate3d { x, y: self.dimensions.z - 1 - z, z: y },
            Axis3d::Y => Coordinate3d { x: z, y, z: self.dimensions.x - 1 - x },
            Axis3d::Z => Coordinate3d { x: self.dimensions.y - 1 - y, y: x, z },
        }
    }

    fn add_sub(&self, start: Coordinate3d, add: Coordinate3d, sub: Coordinate3d) -> (r: Option<
        Coordinate3d,
    >) {
        let x = start.x as i64 + add.x as i64 - sub.x as i64;
        let y = start.y as i64 + add.y as i64 - sub.y as i64;
        let z = start.z as i64 + add.z as i64 - sub.z as i64;
        if x < 0 || y < 0 || z < 0 || x >= self.dimensions.x as i64 || y
            >= self.dimensions.y as i64 || z >= self.dimensions.z as i64 {
            return None;
        }
        Some(Coordinate3d { x: x as u32, y: y as u32, z: z as u32 })
    }

    fn coordinates(dimensions: Coordinate3d) -> (r: Vec<Coordinate3d>) {
        let ghost w = dimensions.x as int;
        let ghost h = dimensions.y as int;
        let ghost d = dimensions.z as int;
        proof {
            lemma_layer_major(w, h, d);
        }
        let mut out: Vec<Coordinate3d> = Vec::new();
        let mut z: u32 = 0;
        while z < dimensions.z
            invariant
                z <= dimensions.z,
                w == dimensions.x,
                h == dimensions.y,
                d == dimensions.z,
                w * h * d <= u32::MAX,
                out@.len() == z * (w * h),
                forall|i: int|
                    0 <= i < out@.len() ==> #[trigger] out@[i] == Self::coordinate_at(
                        dimensions,
                        i,
                    ),
            decreases dimensions.z - z,
        {
            let mut y: u32 = 0;
            while y < dimensions.y
                invariant
                    y <= dimensions.y,
                    z < dimensions.z,
                    w == dimensions.x,
                    h == dimensions.y,
                    d == dimensions.z,
                    w * h * d <= u32::MAX,
                    out@.len() == z * (w * h) + y * w,
                    forall|i: int|
                        0 <= i < out@.len() ==> #[trigger] out@[i] == Self::coordinate_at(
                            dimensions,
                            i,
                        ),
                decreases dimensions.y - y,
            {
                let mut x: u32 = 0;
                while x < dimensions.x
                    invariant
                        x <= dimensions.x,
                        y < dimensions.y,
                        z < dimensions.z,
                        w == dimensions.x,
                        h == dimensions.y,
                        d == dimensions.z,
                        w * h * d <= u32::MAX,
                        out@.len() == z * (w * h) + y * w + x,
                        forall|i: int|
                            0 <= i < out@.len() ==> #[trigger] out@[i] == Self::coordinate_at(
                                dimensions,
                                i,
                            ),
                    decreases dimensions.x - x,
                {
                    proof {
                        lemma_layer_major(w, h, d);
                        assert(0 <= x + y * w + z * (w * h) < w * h * d);
                    }
                    out.push(Coordinate3d { x, y, z });
                    x += 1;
                }
                assert((y + 1) * w == y * w + w) by (nonlinear_arith);
                y += 1;
            }
            assert((z + 1) * (w * h) == z * (w * h) + h * w) by (nonlinear_arith);
            z += 1;
        }
        assert(d * (w * h) == w * h * d) by (nonlinear_arith);
        out
    }

    fn neighbor(&self, coordinate: Coordinate3d, direction: Direction3d) -> (r: Option<
        Coordinate3d,
    >) {
        let Coordinate3d { x, y, z } = coordinate;
        let (dx, dy, dz) = direction.offset();
        if (x == 0 && dx == -1) || (y == 0 && dy == -1) || (z == 0 && dz == -1) {
            None
        } else if (x == self.dimensions.x - 1 && dx == 1) || (y == self.dimensions.y - 1 && dy
            == 1) || (z == self.dimensions.z - 1 && dz == 1) {
            None
        } else {
            Some(
                Coordinate3d {
                    x: (x as i64 + dx as i64) as u32,
                    y: (y as i64 + dy as i64) as u32,
                    z: (z as i64 + dz as i64) as u32,
                },
            )
        }
    }
}

} // verus!
