//! The spatial domain that the solver and the extractor work on.

use vstd::prelude::*;
use vstd::std_specs::cmp::PartialEqSpec;

verus! {

/// A direction that can be turned around.
pub trait InvertDelta: Sized {
    /// The opposite direction.
    spec fn inverted(self) -> Self;

    /// The opposite direction.
    fn invert_delta(&self) -> (r: Self)
        ensures
            r == self.inverted(),
    ;
}

/// Defines the space or "world" to run WFC on.
///
/// A space holds one cell for each coordinate inside its dimensions, which
/// are fixed when it is made. Its geometry is a matter of the dimensions
/// alone: which coordinates lie inside, in which order they are enumerated,
/// and which of them are adjacent in which direction. The view of a space is
/// the sequence of its cells in enumeration order. A space has at most
/// `u32::MAX` cells.
///
/// - `Coordinate` is the index type for this space. Cells in the space are
///   uniquely identified by coordinates.
/// - `Direction` represents adjacency relations between cells.
/// - `Axis` names the components of a coordinate, and the axes of flipping.
/// - `RotationAxis` names the axes of rotation.
pub trait Space<T>: Sized {
    /// Coordinates for cells in the space
    type Coordinate: Copy;

    /// Spatial relationship between cells for accessing neighbors
    type Direction: Copy + PartialEq + InvertDelta;

    /// Axes of the components of a coordinate, and of flipping.
    type Axis: Copy + PartialEq;

    /// Axes of rotation.
    type RotationAxis: Copy;

    /// Number of coordinates inside `dimensions`.
    spec fn volume(dimensions: Self::Coordinate) -> nat;

    /// Whether `coordinate` lies inside `dimensions`.
    spec fn contains(dimensions: Self::Coordinate, coordinate: Self::Coordinate) -> bool;

    /// Where `coordinate` comes in the enumeration of `dimensions`.
    spec fn position(dimensions: Self::Coordinate, coordinate: Self::Coordinate) -> int;

    /// The coordinate that comes at `position` in the enumeration of
    /// `dimensions`.
    spec fn coordinate_at(dimensions: Self::Coordinate, position: int) -> Self::Coordinate;

    /// The component of `coordinate` along `axis`.
    spec fn component(coordinate: Self::Coordinate, axis: Self::Axis) -> u32;

    /// `coordinate` with `f` applied to each component.
    spec fn mapped(
        coordinate: Self::Coordinate,
        f: spec_fn(Self::Axis, u32) -> u32,
    ) -> Self::Coordinate;

    /// Every direction, in the order that rules list them.
    spec fn all_directions() -> Seq<Self::Direction>;

    /// The coordinate one step from `coordinate` in `direction`, where that
    /// lies inside `dimensions`.
    spec fn step(
        dimensions: Self::Coordinate,
        coordinate: Self::Coordinate,
        direction: Self::Direction,
    ) -> Option<Self::Coordinate>;

    /// `start + add - sub` by components, where that lies inside
    /// `dimensions`.
    spec fn shifted(
        dimensions: Self::Coordinate,
        start: Self::Coordinate,
        add: Self::Coordinate,
        sub: Self::Coordinate,
    ) -> Option<Self::Coordinate>;

    /// Whether `dimensions` have equal extents on the axes that a rotation
    /// around `axis` exchanges.
    spec fn square(dimensions: Self::Coordinate, axis: Self::RotationAxis) -> bool;

    /// `coordinate` after a quarter turn around `axis` within `dimensions`.
    spec fn turned(
        dimensions: Self::Coordinate,
        coordinate: Self::Coordinate,
        axis: Self::RotationAxis,
    ) -> Self::Coordinate;

    /// The cells, in enumeration order.
    spec fn view(&self) -> Seq<T>;

    /// The dimensions that the space was made with.
    spec fn extent(&self) -> Self::Coordinate;

    /// Whether the space holds one cell for each coordinate inside its
    /// dimensions.
    spec fn wf(&self) -> bool;

    /// A well-formed space has as many cells as its dimensions have
    /// coordinates.
    proof fn lemma_wf(&self)
        requires
            self.wf(),
        ensures
            self.view().len() == Self::volume(self.extent()),
            Self::volume(self.extent()) <= u32::MAX,
    ;

    /// The enumeration visits every coordinate inside the dimensions exactly
    /// once, and a coordinate lies inside exactly when each of its
    /// components is below that of the dimensions.
    proof fn lemma_enumeration(dimensions: Self::Coordinate)
        ensures
            forall|c: Self::Coordinate| #[trigger]
                Self::contains(dimensions, c) ==> 0 <= Self::position(dimensions, c)
                    < Self::volume(dimensions) && Self::coordinate_at(
                    dimensions,
                    Self::position(dimensions, c),
                ) == c,
            forall|i: int|
                0 <= i < Self::volume(dimensions) ==> Self::contains(
                    dimensions,
                    #[trigger] Self::coordinate_at(dimensions, i),
                ) && Self::position(dimensions, Self::coordinate_at(dimensions, i)) == i,
            forall|c: Self::Coordinate| #[trigger]
                Self::contains(dimensions, c) <==> forall|a: Self::Axis| #[trigger]
                    Self::component(c, a) < Self::component(dimensions, a),
    ;

    /// Each component of a mapped coordinate is the image of the component
    /// that it replaces.
    proof fn lemma_mapped(
        coordinate: Self::Coordinate,
        f: spec_fn(Self::Axis, u32) -> u32,
        axis: Self::Axis,
    )
        ensures
            Self::component(Self::mapped(coordinate, f), axis) == f(
                axis,
                Self::component(coordinate, axis),
            ),
    ;

    /// No direction is listed twice, the opposite of a direction is a
    /// direction, turning around twice gives the direction back, and `==` on
    /// directions and on axes is equality.
    proof fn lemma_directions()
        ensures
            Self::all_directions().no_duplicates(),
            forall|d: Self::Direction| #[trigger]
                Self::all_directions().contains(d) ==> Self::all_directions().contains(
                    d.inverted(),
                ) && d.inverted().inverted() == d,
            <Self::Direction as PartialEqSpec>::obeys_eq_spec(),
            forall|a: Self::Direction, b: Self::Direction| #[trigger] a.eq_spec(&b) <==> a == b,
            <Self::Axis as PartialEqSpec>::obeys_eq_spec(),
            forall|a: Self::Axis, b: Self::Axis| #[trigger] a.eq_spec(&b) <==> a == b,
    ;

    /// A step from a coordinate inside the dimensions ends at another
    /// coordinate inside them, and the opposite step leads back.
    proof fn lemma_step(
        dimensions: Self::Coordinate,
        coordinate: Self::Coordinate,
        direction: Self::Direction,
    )
        requires
            Self::contains(dimensions, coordinate),
            Self::all_directions().contains(direction),
        ensures
            Self::step(dimensions, coordinate, direction) matches Some(n) ==> Self::contains(
                dimensions,
                n,
            ) && n != coordinate && Self::step(dimensions, n, direction.inverted()) == Some(
                coordinate,
            ),
    ;

    /// A shifted or turned coordinate lies inside the dimensions.
    proof fn lemma_moves(dimensions: Self::Coordinate)
        ensures
            forall|start: Self::Coordinate, add: Self::Coordinate, sub: Self::Coordinate|
                #[trigger] Self::shifted(dimensions, start, add, sub) matches Some(c)
                    ==> Self::contains(dimensions, c),
            forall|c: Self::Coordinate, axis: Self::RotationAxis|
                Self::square(dimensions, axis) && Self::contains(dimensions, c)
                    ==> Self::contains(dimensions, #[trigger] Self::turned(dimensions, c, axis)),
    ;

    /// Every direction, in the order that rules list them.
    fn directions() -> (r: Vec<Self::Direction>)
        ensures
            r@ == Self::all_directions(),
    ;

    /// The space occupies the coordinates inside `dimensions`; `init_fn`
    /// gives the cell for each of them.
    fn new<F: Fn(Self::Coordinate) -> T>(dimensions: Self::Coordinate, init_fn: F) -> (r: Self)
        requires
            Self::volume(dimensions) <= u32::MAX,
            forall|c: Self::Coordinate|
                Self::contains(dimensions, c) ==> call_requires(init_fn, (c,)),
        ensures
            r.wf(),
            r.extent() == dimensions,
            forall|i: int|
                0 <= i < Self::volume(dimensions) ==> call_ensures(
                    init_fn,
                    (Self::coordinate_at(dimensions, i),),
                    #[trigger] r.view()[i],
                ),
    ;

    /// The component of `coordinate` along `axis`.
    fn index(coordinate: Self::Coordinate, axis: Self::Axis) -> (r: u32)
        ensures
            r == Self::component(coordinate, axis),
    ;

    /// The dimensions passed to [Space::new] during construction.
    fn dimensions(&self) -> (r: Self::Coordinate)
        ensures
            r == self.extent(),
    ;

    /// The cell at `coordinate`.
    fn get(&self, coordinate: Self::Coordinate) -> (r: &T)
        requires
            self.wf(),
            Self::contains(self.extent(), coordinate),
        ensures
            *r == self.view()[Self::position(self.extent(), coordinate)],
    ;

    /// The cell at `coordinate`, to be changed in place.
    fn get_mut(&mut self, coordinate: Self::Coordinate) -> (r: &mut T)
        requires
            old(self).wf(),
            Self::contains(old(self).extent(), coordinate),
        ensures
            *r == old(self).view()[Self::position(old(self).extent(), coordinate)],
            final(self).view() == old(self).view().update(
                Self::position(old(self).extent(), coordinate),
                *final(r),
            ),
            final(self).extent() == old(self).extent(),
            final(self).wf(),
    ;

    /// Apply `map_fn` to each component of `coordinate`.
    fn map<F: Fn(Self::Axis, u32) -> u32>(coordinate: Self::Coordinate, map_fn: F) -> (r:
        Self::Coordinate)
        requires
            forall|a: Self::Axis| call_requires(map_fn, (a, Self::component(coordinate, a))),
        ensures
            forall|a: Self::Axis|
                call_ensures(
                    map_fn,
                    (a, Self::component(coordinate, a)),
                    #[trigger] Self::component(r, a),
                ),
            forall|f: spec_fn(Self::Axis, u32) -> u32|
                (forall|a: Self::Axis, v: u32|
                    call_ensures(map_fn, (a, Self::component(coordinate, a)), v) ==> v == f(
                        a,
                        Self::component(coordinate, a),
                    )) ==> r == #[trigger] Self::mapped(coordinate, f),
    ;

    /// 90 degree rotation of `coordinate` around `axis` as if by looking down
    /// that axis in a left-handed coordinate system and rotating
    /// counter-clockwise. The extents that the rotation exchanges must be
    /// equal.
    fn perp(&self, coordinate: Self::Coordinate, axis: Self::RotationAxis) -> (r:
        Self::Coordinate)
        requires
            Self::square(self.extent(), axis),
            Self::contains(self.extent(), coordinate),
        ensures
            r == Self::turned(self.extent(), coordinate, axis),
    ;

    /// Computes `start + add - sub`, returning `Some` if the result is in the
    /// space.
    fn add_sub(
        &self,
        start: Self::Coordinate,
        add: Self::Coordinate,
        sub: Self::Coordinate,
    ) -> (r: Option<Self::Coordinate>)
        ensures
            r == Self::shifted(self.extent(), start, add, sub),
    ;

    /// Every coordinate inside `dimensions`, in enumeration order.
    fn coordinates(dimensions: Self::Coordinate) -> (r: Vec<Self::Coordinate>)
        requires
            Self::volume(dimensions) <= u32::MAX,
        ensures
            r@.len() == Self::volume(dimensions),
            forall|i: int|
                0 <= i < r@.len() ==> #[trigger] r@[i] == Self::coordinate_at(dimensions, i),
    ;

    /// Get the neighbor coordinates of a given cell based on a direction.
    fn neighbor(&self, coordinate: Self::Coordinate, direction: Self::Direction) -> (r: Option<
        Self::Coordinate,
    >)
        requires
            Self::contains(self.extent(), coordinate),
        ensures
            r == Self::step(self.extent(), coordinate, direction),
    ;
}

} // verus!
