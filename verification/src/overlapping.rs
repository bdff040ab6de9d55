//! Rules from the overlapping patterns of a sample.

use crate::random::{sample_index, total_weight, weighted_index};
use crate::rules::{SetCollapseObserver, SetCollapseRules, SetCollapseRulesBuilder};
use crate::space::{InvertDelta, Space};
use crate::state::{count_true, lemma_count_zero, State, StateSet};
use rand::rngs::StdRng;
use vstd::prelude::*;
use vstd::std_specs::cmp::PartialEqSpec;

verus! {

/// One of the distinct windows of a sample: the tile at its center, and how
/// often the window was sighted.
#[derive(Clone, Debug)]
pub struct Pattern<T> {
    pub center: Option<T>,
    pub frequency: u32,
}

/// What a sample is made of. A tile knows what becomes of it when the sample
/// is flipped along an axis `F`, or turned around an axis `R`.
///
/// An implementation that is not verified supplies `flipped` and `turned` as
/// ordinary functions that return what `flip` and `perp` return.
pub trait Tile<F, R>: Sized {
    /// The tile, flipped along `axis`.
    spec fn flipped(self, axis: F) -> Self;

    /// The tile, after a quarter turn around `axis`.
    spec fn turned(self, axis: R) -> Self;

    /// The tile, flipped along `axis`.
    fn flip(self, axis: F) -> (r: Self)
        ensures
            r == self.flipped(axis),
    ;

    /// The tile, after a quarter turn around `axis`.
    fn perp(self, axis: R) -> (r: Self)
        ensures
            r == self.turned(axis),
    ;
}

/// A number stands for a tile that looks the same from every side.
impl<F, R> Tile<F, R> for u32 {
    open spec fn flipped(self, axis: F) -> Self {
        self
    }

    open spec fn turned(self, axis: R) -> Self {
        self
    }

    fn flip(self, _axis: F) -> (r: Self) {
        self
    }

    fn perp(self, _axis: R) -> (r: Self) {
        self
    }
}

/// The patterns that were extracted from a sample, by the number of their
/// state. As an observer it collapses a superposition to one of its states
/// with a chance in proportion to the frequency of the state's pattern.
#[derive(Clone, Debug)]
pub struct ExtractedPatterns<T> {
    patterns: Vec<Pattern<T>>,
}

/// Whether `state` is the state of lowest number within `cell`.
pub open spec fn is_first(cell: Seq<bool>, state: int) -> bool {
    &&& 0 <= state < cell.len()
    &&& cell[state]
    &&& forall|t: int| 0 <= t < state ==> !cell[t]
}

/// The tile that `cell` decodes to: the center of the pattern of the first
/// state within, and none for the empty cell.
pub open spec fn decoded<T>(patterns: Seq<Pattern<T>>, cell: Seq<bool>) -> Option<T> {
    if exists|s: int| is_first(cell, s) {
        patterns[choose|s: int| is_first(cell, s)].center
    } else {
        None
    }
}

/// The number of empty cells among `cells`.
pub open spec fn overconstrained(cells: Seq<StateSet>) -> nat
    decreases cells.len(),
{
    if cells.len() == 0 {
        0
    } else {
        overconstrained(cells.drop_last()) + if count_true(cells.last()@) == 0 {
            1nat
        } else {
            0nat
        }
    }
}

/// The frequencies of `patterns`, in order.
pub open spec fn frequencies_of<T>(patterns: Seq<Pattern<T>>) -> Seq<u32> {
    Seq::new(patterns.len(), |i: int| patterns[i].frequency)
}

/// The weights by which a state of `cell` is drawn: the frequency of each
/// state within, and zero for every other.
pub open spec fn weights_of(frequencies: Seq<u32>, cell: Seq<bool>) -> Seq<u32> {
    Seq::new(
        frequencies.len(),
        |i: int|
            if cell[i] {
                frequencies[i]
            } else {
                0u32
            },
    )
}

/// Weights that are no more than the frequencies they stand beside add up to
/// no more, and to more than zero where one of them is.
proof fn lemma_weights(frequencies: Seq<u32>, weights: Seq<u32>)
    requires
        weights.len() == frequencies.len(),
        forall|i: int| 0 <= i < weights.len() ==> #[trigger] weights[i] <= frequencies[i],
    ensures
        total_weight(weights) <= total_weight(frequencies),
        forall|i: int| 0 <= i < weights.len() ==> #[trigger] weights[i] <= total_weight(weights),
    decreases weights.len(),
{
    if weights.len() > 0 {
        assert forall|i: int| 0 <= i < weights.drop_last().len() implies (
        #[trigger] weights.drop_last()[i]) <= frequencies.drop_last()[i] by {
            assert(weights[i] <= frequencies[i]);
        }
        lemma_weights(frequencies.drop_last(), weights.drop_last());
        assert(weights[weights.len() - 1] <= frequencies[weights.len() - 1]);
        assert forall|i: int| 0 <= i < weights.len() implies #[trigger] weights[i] <= total_weight(
            weights,
        ) by {
            if i < weights.len() - 1 {
                assert(weights.drop_last()[i] == weights[i]);
            }
        }
    }
}

impl<T> ExtractedPatterns<T> {
    /// The patterns, by the number of their state.
    pub closed spec fn view(&self) -> Seq<Pattern<T>> {
        self.patterns@
    }

    /// Whether every pattern was sighted, and not more often all together
    /// than a `u32` counts.
    pub open spec fn wf(&self) -> bool {
        &&& self@.len() <= u32::MAX
        &&& total_weight(frequencies_of(self@)) <= u32::MAX
        &&& forall|i: int| 0 <= i < self@.len() ==> (#[trigger] self@[i]).frequency > 0
    }

    /// The number of patterns.
    pub fn len(&self) -> (r: usize)
        ensures
            r == self@.len(),
    {
        self.patterns.len()
    }

    /// How often the pattern of `state` was sighted.
    pub fn frequency(&self, state: State) -> (r: u32)
        requires
            state.0 < self@.len(),
        ensures
            r == self@[state.0 as int].frequency,
    {
        self.patterns[state.0 as usize].frequency
    }

    /// The tile at the center of the pattern of `state`.
    pub fn center(&self, state: State) -> (r: Option<&T>)
        requires
            state.0 < self@.len(),
        ensures
            match r {
                Some(tile) => self@[state.0 as int].center == Some(*tile),
                None => self@[state.0 as int].center is None,
            },
    {
        self.patterns[state.0 as usize].center.as_ref()
    }
}

impl<T: Copy> ExtractedPatterns<T> {
    /// The tile that `cell` decodes to.
    fn decode_cell(&self, cell: &StateSet) -> (r: Option<T>)
        requires
            cell@.len() == self@.len(),
        ensures
            r == decoded(self@, cell@),
    {
        match cell.first() {
            Some(state) => {
                assert(is_first(cell@, state.0 as int));
                self.patterns[state.0 as usize].center
            },
            None => None,
        }
    }

    /// Decodes each cell of `space` to the tile at the center of the
    /// pattern of its first state, and an empty cell to no tile. The number
    /// beside the tiles counts the empty cells.
    ///
    /// The space of the tiles must hold the coordinates that `space` holds.
    pub fn decode_superposition<
        Osp: Space<Option<T>>,
        Sp: Space<StateSet, Coordinate = Osp::Coordinate>,
    >(&self, space: &Sp) -> (r: (Osp, usize))
        requires
            space.wf(),
            forall|i: int|
                0 <= i < space.view().len() ==> (#[trigger] space.view()[i])@.len() == self@.len(),
            Osp::volume(space.extent()) <= u32::MAX,
            forall|c: Osp::Coordinate|
                Osp::contains(space.extent(), c) <==> Sp::contains(space.extent(), c),
        ensures
            r.0.wf(),
            r.0.extent() == space.extent(),
            forall|c: Osp::Coordinate|
                Osp::contains(space.extent(), c) ==> #[trigger] r.0.view()[Osp::position(
                    space.extent(),
                    c,
                )] == decoded(self@, space.view()[Sp::position(space.extent(), c)]@),
            r.1 == overconstrained(space.view()),
    {
        let dimensions = space.dimensions();
        proof {
            space.lemma_wf();
            Sp::lemma_enumeration(dimensions);
            Osp::lemma_enumeration(dimensions);
        }
        let decode = |c: Osp::Coordinate| -> (tile: Option<T>)
            requires
                Sp::contains(dimensions, c),
            ensures
                tile == decoded(self@, space.view()[Sp::position(dimensions, c)]@),
            {
                proof {
                    space.lemma_wf();
                    Sp::lemma_enumeration(dimensions);
                }
                self.decode_cell(space.get(c))
            };
        assert forall|c: Osp::Coordinate| Osp::contains(dimensions, c) implies call_requires(
            decode,
            (c,),
        ) by {
            assert(Sp::contains(dimensions, c));
        }
        let ret = Osp::new(dimensions, decode);
        proof {
            ret.lemma_wf();
            assert forall|c: Osp::Coordinate| Osp::contains(dimensions, c) implies #[trigger] ret.view()[Osp::position(
                dimensions,
                c,
            )] == decoded(self@, space.view()[Sp::position(dimensions, c)]@) by {
                let i = Osp::position(dimensions, c);
                assert(Osp::coordinate_at(dimensions, i) == c);
                assert(call_ensures(decode, (c,), ret.view()[i]));
            }
        }
        let coordinates = Sp::coordinates(dimensions);
        let mut empty: usize = 0;
        let mut n: usize = 0;
        while n < coordinates.len()
            invariant
                n <= coordinates@.len(),
                space.wf(),
                dimensions == space.extent(),
                coordinates@.len() == space.view().len(),
                coordinates@.len() == Sp::volume(dimensions),
                coordinates@.len() <= u32::MAX,
                forall|i: int|
                    0 <= i < coordinates@.len() ==> #[trigger] coordinates@[i]
                        == Sp::coordinate_at(dimensions, i),
                empty <= n,
                empty == overconstrained(space.view().take(n as int)),
            decreases coordinates@.len() - n,
        {
            proof {
                Sp::lemma_enumeration(dimensions);
                assert(coordinates@[n as int] == Sp::coordinate_at(dimensions, n as int));
                assert(space.view().take(n + 1).drop_last() =~= space.view().take(n as int));
                lemma_count_zero(space.view()[n as int]@);
            }
            if space.get(coordinates[n]).first().is_none() {
                empty += 1;
            }
            n += 1;
        }
        assert(space.view().take(coordinates@.len() as int) =~= space.view());
        (ret, empty)
    }
}

impl<T> ExtractedPatterns<T> {
    /// The weights by which a state of `cell` is drawn: for each state
    /// within the frequency of its pattern, and zero for every other.
    pub fn weights(&self, cell: &StateSet) -> (r: Vec<u32>)
        requires
            cell@.len() == self@.len(),
        ensures
            r@ == weights_of(frequencies_of(self@), cell@),
    {
        let state_count = cell.len();
        let mut weights: Vec<u32> = Vec::new();
        let mut s: u32 = 0;
        while s < state_count
            invariant
                s <= state_count,
                state_count == cell@.len(),
                state_count == self@.len(),
                weights@.len() == s,
                forall|i: int|
                    0 <= i < s ==> #[trigger] weights@[i] == weights_of(
                        frequencies_of(self@),
                        cell@,
                    )[i],
            decreases state_count - s,
        {
            weights.push(
                if cell.has(State::nth(s)) {
                    self.patterns[s as usize].frequency
                } else {
                    0
                },
            );
            s += 1;
        }
        assert(weights@ =~= weights_of(frequencies_of(self@), cell@));
        weights
    }
}

impl<T> SetCollapseObserver for ExtractedPatterns<T> {
    open spec fn admits(&self, state_count: nat) -> bool {
        self.wf() && self@.len() == state_count
    }

    fn observe(&self, cell: &mut StateSet, neighbors: &[Option<StateSet>], rng: &mut StdRng) {
        let state_count = cell.len();
        let weights = self.weights(&*cell);
        proof {
            let frequencies = frequencies_of(self@);
            lemma_weights(frequencies, weights@);
            lemma_count_zero(cell@);
            let present = choose|i: int| 0 <= i < cell@.len() && cell@[i];
            assert(self@[present].frequency > 0);
            assert(weights@[present] > 0);
        }
        match weighted_index(&weights) {
            Ok(distribution) => {
                let chosen = sample_index(&distribution, rng);
                assert(cell@[chosen as int]);
                *cell = StateSet::state(state_count, State::nth(chosen as u32));
            },
            Err(_) => {},
        }
    }
}

/// Halves a component.
pub open spec fn halving<T, Sp: Space<T>>() -> spec_fn(Sp::Axis, u32) -> u32 {
    |axis: Sp::Axis, v: u32| v / 2
}

/// The coordinate at the center of a window of dimensions `size`: half of
/// `size`, rounded down, on every axis.
pub open spec fn center_of<T, Sp: Space<T>>(size: Sp::Coordinate) -> Sp::Coordinate {
    Sp::mapped(size, halving::<T, Sp>())
}

/// Counts a component along `axis` from the far end of `size`, and leaves
/// the others.
pub open spec fn mirroring<T, Sp: Space<T>>(size: Sp::Coordinate, axis: Sp::Axis) -> spec_fn(
    Sp::Axis,
    u32,
) -> u32 {
    |a: Sp::Axis, v: u32|
        if a == axis {
            (Sp::component(size, a) - 1 - v) as u32
        } else {
            v
        }
}

/// `coordinate`, mirrored along `axis` within `size`.
pub open spec fn mirrored<T, Sp: Space<T>>(
    size: Sp::Coordinate,
    coordinate: Sp::Coordinate,
    axis: Sp::Axis,
) -> Sp::Coordinate {
    Sp::mapped(coordinate, mirroring::<T, Sp>(size, axis))
}

/// What the window around `at` shows at its coordinate `within`: the cell
/// of `input` as far from `at` as `within` is from the window's center, and
/// nothing where that lies outside `input`.
pub open spec fn sampled<T, Sp: Space<Option<T>>>(
    input: &Sp,
    size: Sp::Coordinate,
    at: Sp::Coordinate,
    within: Sp::Coordinate,
) -> Option<T> {
    match Sp::shifted(input.extent(), at, within, center_of::<Option<T>, Sp>(size)) {
        Some(c) => input.view()[Sp::position(input.extent(), c)],
        None => None,
    }
}

/// The window of dimensions `size` around the coordinate `at` of `input`.
pub open spec fn window_at<T, Sp: Space<Option<T>>>(
    input: &Sp,
    size: Sp::Coordinate,
    at: Sp::Coordinate,
) -> Seq<Option<T>> {
    Seq::new(
        Sp::volume(size),
        |i: int| sampled::<T, Sp>(input, size, at, Sp::coordinate_at(size, i)),
    )
}

/// `window`, flipped along `axis`: each cell comes from its mirror image,
/// and its tile is flipped.
pub open spec fn flipped_window<T: Tile<Sp::Axis, Sp::RotationAxis>, Sp: Space<Option<T>>>(
    size: Sp::Coordinate,
    window: Seq<Option<T>>,
    axis: Sp::Axis,
) -> Seq<Option<T>> {
    Seq::new(
        Sp::volume(size),
        |i: int|
            match window[Sp::position(
                size,
                mirrored::<Option<T>, Sp>(size, Sp::coordinate_at(size, i), axis),
            )] {
                Some(tile) => Some(tile.flipped(axis)),
                None => None,
            },
    )
}

/// `window`, after a quarter turn around `axis`: each cell comes from where
/// the turn takes its coordinate, and its tile is turned.
pub open spec fn turned_window<T: Tile<Sp::Axis, Sp::RotationAxis>, Sp: Space<Option<T>>>(
    size: Sp::Coordinate,
    window: Seq<Option<T>>,
    axis: Sp::RotationAxis,
) -> Seq<Option<T>> {
    Seq::new(
        Sp::volume(size),
        |i: int|
            match window[Sp::position(size, Sp::turned(size, Sp::coordinate_at(size, i), axis))] {
                Some(tile) => Some(tile.turned(axis)),
                None => None,
            },
    )
}

/// The coordinate at the center of a window of dimensions `size`.
fn window_center<T, Sp: Space<T>>(size: Sp::Coordinate) -> (r: Sp::Coordinate)
    ensures
        r == center_of::<T, Sp>(size),
        (forall|a: Sp::Axis| Sp::component(size, a) > 0) ==> Sp::contains(size, r),
{
    let half = |axis: Sp::Axis, v: u32| -> (w: u32)
        ensures
            w == v / 2,
        { v / 2 };
    let r = Sp::map(size, half);
    proof {
        let f = halving::<T, Sp>();
        assert(r == Sp::mapped(size, f));
        if forall|a: Sp::Axis| Sp::component(size, a) > 0 {
            Sp::lemma_enumeration(size);
            assert forall|a: Sp::Axis| #[trigger]
                Sp::component(r, a) < Sp::component(size, a) by {
                Sp::lemma_mapped(size, f, a);
            }
        }
    }
    r
}

/// `coordinate`, mirrored along `axis` within `size`.
fn mirror<T, Sp: Space<T>>(size: Sp::Coordinate, coordinate: Sp::Coordinate, axis: Sp::Axis) -> (r:
    Sp::Coordinate)
    requires
        Sp::contains(size, coordinate),
    ensures
        r == mirrored::<T, Sp>(size, coordinate, axis),
        Sp::contains(size, r),
{
    proof {
        Sp::lemma_directions();
        Sp::lemma_enumeration(size);
    }
    let along = |a: Sp::Axis, v: u32| -> (w: u32)
        requires
            v < Sp::component(size, a),
        ensures
            w == mirroring::<T, Sp>(size, axis)(a, v),
        {
            if a == axis {
                Sp::index(size, a) - 1 - v
            } else {
                v
            }
        };
    assert forall|a: Sp::Axis| call_requires(along, (a, Sp::component(coordinate, a))) by {
        assert(Sp::component(coordinate, a) < Sp::component(size, a));
    }
    let r = Sp::map(coordinate, along);
    proof {
        let f = mirroring::<T, Sp>(size, axis);
        assert(r == Sp::mapped(coordinate, f));
        assert forall|a: Sp::Axis| #[trigger] Sp::component(r, a) < Sp::component(size, a) by {
            Sp::lemma_mapped(coordinate, f, a);
            assert(Sp::component(coordinate, a) < Sp::component(size, a));
        }
    }
    r
}

/// The window of dimensions `size` around the coordinate `at` of `input`.
fn sample_window<T: Copy, Sp: Space<Option<T>>>(
    input: &Sp,
    size: Sp::Coordinate,
    neg_radius: Sp::Coordinate,
    at: Sp::Coordinate,
) -> (r: Sp)
    requires
        input.wf(),
        Sp::volume(size) <= u32::MAX,
        neg_radius == center_of::<Option<T>, Sp>(size),
    ensures
        r.wf(),
        r.extent() == size,
        r.view() == window_at::<T, Sp>(input, size, at),
{
    let pick = |within: Sp::Coordinate| -> (tile: Option<T>)
        ensures
            tile == sampled::<T, Sp>(input, size, at, within),
        {
            proof {
                Sp::lemma_moves(input.extent());
            }
            match input.add_sub(at, within, neg_radius) {
                Some(c) => *input.get(c),
                None => None,
            }
        };
    let r = Sp::new(size, pick);
    proof {
        r.lemma_wf();
        assert(r.view() =~= window_at::<T, Sp>(input, size, at));
    }
    r
}

/// `grid`, flipped along `axis`.
fn flip_window<T: Copy + Tile<Sp::Axis, Sp::RotationAxis>, Sp: Space<Option<T>>>(
    grid: &Sp,
    axis: Sp::Axis,
) -> (r: Sp)
    requires
        grid.wf(),
    ensures
        r.wf(),
        r.extent() == grid.extent(),
        r.view() == flipped_window::<T, Sp>(grid.extent(), grid.view(), axis),
{
    let size = grid.dimensions();
    proof {
        grid.lemma_wf();
    }
    let pick = |c: Sp::Coordinate| -> (tile: Option<T>)
        requires
            Sp::contains(size, c),
        ensures
            tile == match grid.view()[Sp::position(
                size,
                mirrored::<Option<T>, Sp>(size, c, axis),
            )] {
                Some(t) => Some(t.flipped(axis)),
                None => None,
            },
        {
            let from = mirror::<Option<T>, Sp>(size, c, axis);
            match *grid.get(from) {
                Some(t) => Some(t.flip(axis)),
                None => None,
            }
        };
    let r = Sp::new(size, pick);
    proof {
        r.lemma_wf();
        assert(r.view() =~= flipped_window::<T, Sp>(size, grid.view(), axis));
    }
    r
}

/// `grid`, after a quarter turn around `axis`.
fn turn_window<T: Copy + Tile<Sp::Axis, Sp::RotationAxis>, Sp: Space<Option<T>>>(
    grid: &Sp,
    axis: Sp::RotationAxis,
) -> (r: Sp)
    requires
        grid.wf(),
        Sp::square(grid.extent(), axis),
    ensures
        r.wf(),
        r.extent() == grid.extent(),
        r.view() == turned_window::<T, Sp>(grid.extent(), grid.view(), axis),
{
    let size = grid.dimensions();
    proof {
        grid.lemma_wf();
    }
    let pick = |c: Sp::Coordinate| -> (tile: Option<T>)
        requires
            Sp::contains(size, c),
        ensures
            tile == match grid.view()[Sp::position(size, Sp::turned(size, c, axis))] {
                Some(t) => Some(t.turned(axis)),
                None => None,
            },
        {
            proof {
                Sp::lemma_moves(size);
            }
            let from = grid.perp(c, axis);
            match *grid.get(from) {
                Some(t) => Some(t.perp(axis)),
                None => None,
            }
        };
    let r = Sp::new(size, pick);
    proof {
        r.lemma_wf();
        assert(r.view() =~= turned_window::<T, Sp>(size, grid.view(), axis));
    }
    r
}

/// The distinct items of `seen`, each where it was first sighted.
pub open spec fn first_sightings<W>(seen: Seq<W>) -> Seq<W>
    decreases seen.len(),
{
    if seen.len() == 0 {
        Seq::empty()
    } else {
        let before = first_sightings(seen.drop_last());
        if before.contains(seen.last()) {
            before
        } else {
            before.push(seen.last())
        }
    }
}

/// How often `item` occurs in `seen`.
pub open spec fn occurrences<W>(seen: Seq<W>, item: W) -> nat
    decreases seen.len(),
{
    if seen.len() == 0 {
        0
    } else {
        occurrences(seen.drop_last(), item) + if seen.last() == item {
            1nat
        } else {
            0nat
        }
    }
}

/// The first sightings hold exactly the items that were seen, each once.
pub proof fn lemma_first_sightings<W>(seen: Seq<W>)
    ensures
        first_sightings(seen).no_duplicates(),
        forall|item: W| #[trigger] first_sightings(seen).contains(item) <==> seen.contains(item),
        forall|item: W| !seen.contains(item) ==> #[trigger] occurrences(seen, item) == 0,
        forall|item: W| seen.contains(item) ==> #[trigger] occurrences(seen, item) >= 1,
        first_sightings(seen).len() <= seen.len(),
    decreases seen.len(),
{
    if seen.len() > 0 {
        let rest = seen.drop_last();
        let last = seen.last();
        let before = first_sightings(rest);
        let now = first_sightings(seen);
        lemma_first_sightings(rest);
        assert(now == if before.contains(last) {
            before
        } else {
            before.push(last)
        });
        assert forall|item: W| seen.contains(item) <==> rest.contains(item) || item == last by {
            if seen.contains(item) {
                let j = choose|j: int| 0 <= j < seen.len() && seen[j] == item;
                if j < rest.len() {
                    assert(rest[j] == item);
                }
            }
            if rest.contains(item) {
                let j = choose|j: int| 0 <= j < rest.len() && rest[j] == item;
                assert(seen[j] == item);
            }
            assert(seen[seen.len() - 1] == last);
        }
        assert forall|item: W| now.contains(item) <==> before.contains(item) || item == last by {
            if now.contains(item) {
                let k = choose|k: int| 0 <= k < now.len() && now[k] == item;
                if k < before.len() {
                    assert(before[k] == item);
                }
            }
            if before.contains(item) {
                let k = choose|k: int| 0 <= k < before.len() && before[k] == item;
                assert(now[k] == item);
            }
            if item == last && !before.contains(last) {
                assert(now[before.len() as int] == last);
            }
        }
        assert forall|item: W| #[trigger] now.contains(item) <==> seen.contains(item) by {
            assert(before.contains(item) <==> rest.contains(item));
        }
        assert forall|i: int, j: int| 0 <= i < now.len() && 0 <= j < now.len() && i != j implies now[i]
            != now[j] by {
            if i < before.len() && j < before.len() {
                assert(before[i] != before[j]);
            } else if i < before.len() {
                assert(before.contains(before[i]));
            } else if j < before.len() {
                assert(before.contains(before[j]));
            }
        }
        assert forall|item: W| !seen.contains(item) implies #[trigger] occurrences(seen, item)
            == 0 by {
            assert(!rest.contains(item) && item != last);
            assert(occurrences(rest, item) == 0);
        }
        assert forall|item: W| seen.contains(item) implies #[trigger] occurrences(seen, item)
            >= 1 by {
            if rest.contains(item) {
                assert(occurrences(rest, item) >= 1);
            }
        }
    }
}

/// Every item that was seen has its place among the first sightings, and
/// was counted at least once.
pub proof fn lemma_sighted<W>(seen: Seq<W>, j: int)
    requires
        0 <= j < seen.len(),
    ensures
        first_sightings(seen).contains(seen[j]),
        occurrences(seen, seen[j]) >= 1,
{
    lemma_first_sightings(seen);
    assert(seen.contains(seen[j]));
}

/// Every window that was sighted has a pattern of its own, which was
/// counted at least once and has at its center what the window has there.
pub proof fn lemma_round_trip<T>(
    seen: Seq<Seq<Option<T>>>,
    patterns: Seq<Pattern<T>>,
    center: int,
    j: int,
)
    requires
        0 <= j < seen.len(),
        patterns.len() == first_sightings(seen).len(),
        forall|i: int|
            0 <= i < patterns.len() ==> (#[trigger] patterns[i]).center == first_sightings(
                seen,
            )[i][center] && patterns[i].frequency == occurrences(seen, first_sightings(seen)[i]),
    ensures
        exists|i: int|
            0 <= i < patterns.len() && first_sightings(seen)[i] == seen[j] && (
            #[trigger] patterns[i]).frequency >= 1 && patterns[i].center == seen[j][center],
{
    lemma_sighted(seen, j);
    let i = choose|i: int|
        0 <= i < first_sightings(seen).len() && first_sightings(seen)[i] == seen[j];
    assert(patterns[i].frequency >= 1);
}

/// Raising one weight by one raises the total by one.
proof fn lemma_total_raised(weights: Seq<u32>, i: int)
    requires
        0 <= i < weights.len(),
        weights[i] < u32::MAX,
    ensures
        total_weight(weights.update(i, (weights[i] + 1) as u32)) == total_weight(weights) + 1,
    decreases weights.len(),
{
    let raised = weights.update(i, (weights[i] + 1) as u32);
    if i == weights.len() - 1 {
        assert(raised.drop_last() =~= weights.drop_last());
    } else {
        lemma_total_raised(weights.drop_last(), i);
        assert(raised.drop_last() =~= weights.drop_last().update(i, (weights[i] + 1) as u32));
    }
}

/// Whether `patterns` and `frequencies` hold what was `seen`: the distinct
/// windows, each of dimensions `size`, in the order of their first
/// sighting, and for each how often it was seen.
pub open spec fn recorded<T, Sp: Space<Option<T>>>(
    patterns: Seq<Sp>,
    frequencies: Seq<u32>,
    seen: Seq<Seq<Option<T>>>,
    size: Sp::Coordinate,
) -> bool {
    &&& patterns.len() == first_sightings(seen).len()
    &&& frequencies.len() == first_sightings(seen).len()
    &&& forall|i: int|
        0 <= i < patterns.len() ==> (#[trigger] patterns[i]).wf() && patterns[i].extent() == size
            && patterns[i].view() == first_sightings(seen)[i]
    &&& forall|i: int|
        0 <= i < frequencies.len() ==> #[trigger] frequencies[i] == occurrences(
            seen,
            first_sightings(seen)[i],
        )
    &&& total_weight(frequencies) == seen.len()
}

/// Whether two windows of the same dimensions show the same.
fn same_window<T: Copy + PartialEq, Sp: Space<Option<T>>>(
    a: &Sp,
    b: &Sp,
    coordinates: &Vec<Sp::Coordinate>,
) -> (r: bool)
    requires
        T::obeys_eq_spec(),
        forall|x: T, y: T| #[trigger] x.eq_spec(&y) <==> x == y,
        a.wf(),
        b.wf(),
        a.extent() == b.extent(),
        coordinates@.len() == Sp::volume(a.extent()),
        forall|i: int|
            0 <= i < coordinates@.len() ==> #[trigger] coordinates@[i] == Sp::coordinate_at(
                a.extent(),
                i,
            ),
    ensures
        r == (a.view() == b.view()),
{
    proof {
        a.lemma_wf();
        b.lemma_wf();
        Sp::lemma_enumeration(a.extent());
    }
    let mut n: usize = 0;
    while n < coordinates.len()
        invariant
            n <= coordinates@.len(),
            T::obeys_eq_spec(),
            forall|x: T, y: T| #[trigger] x.eq_spec(&y) <==> x == y,
            a.wf(),
            b.wf(),
            a.extent() == b.extent(),
            a.view().len() == coordinates@.len(),
            b.view().len() == coordinates@.len(),
            coordinates@.len() == Sp::volume(a.extent()),
            forall|i: int|
                0 <= i < coordinates@.len() ==> #[trigger] coordinates@[i] == Sp::coordinate_at(
                    a.extent(),
                    i,
                ),
            forall|i: int| 0 <= i < n ==> a.view()[i] == b.view()[i],
        decreases coordinates@.len() - n,
    {
        proof {
            Sp::lemma_enumeration(a.extent());
            assert(coordinates@[n as int] == Sp::coordinate_at(a.extent(), n as int));
        }
        let c = coordinates[n];
        let same = match (*a.get(c), *b.get(c)) {
            (Some(x), Some(y)) => x == y,
            (None, None) => true,
            _ => false,
        };
        if !same {
            assert(a.view()[n as int] != b.view()[n as int]);
            return false;
        }
        n += 1;
    }
    assert(a.view() =~= b.view());
    true
}

/// A window that shows what `grid` shows.
fn copy_window<T: Copy, Sp: Space<Option<T>>>(grid: &Sp) -> (r: Sp)
    requires
        grid.wf(),
    ensures
        r.wf(),
        r.extent() == grid.extent(),
        r.view() == grid.view(),
{
    let size = grid.dimensions();
    proof {
        grid.lemma_wf();
    }
    let pick = |c: Sp::Coordinate| -> (tile: Option<T>)
        requires
            Sp::contains(size, c),
        ensures
            tile == grid.view()[Sp::position(size, c)],
        { *grid.get(c) };
    let r = Sp::new(size, pick);
    proof {
        r.lemma_wf();
        Sp::lemma_enumeration(size);
        assert(r.view() =~= grid.view());
    }
    r
}

/// Counts a sighting of `window`: for the pattern that shows the same, or
/// for a new pattern at the end.
fn record<T: Copy + PartialEq, Sp: Space<Option<T>>>(
    patterns: &mut Vec<Sp>,
    frequencies: &mut Vec<u32>,
    window: &Sp,
    coordinates: &Vec<Sp::Coordinate>,
    Ghost(seen): Ghost<Seq<Seq<Option<T>>>>,
)
    requires
        T::obeys_eq_spec(),
        forall|x: T, y: T| #[trigger] x.eq_spec(&y) <==> x == y,
        window.wf(),
        coordinates@.len() == Sp::volume(window.extent()),
        forall|i: int|
            0 <= i < coordinates@.len() ==> #[trigger] coordinates@[i] == Sp::coordinate_at(
                window.extent(),
                i,
            ),
        recorded::<T, Sp>(old(patterns)@, old(frequencies)@, seen, window.extent()),
        seen.len() < u32::MAX,
    ensures
        recorded::<T, Sp>(
            final(patterns)@,
            final(frequencies)@,
            seen.push(window.view()),
            window.extent(),
        ),
{
    let ghost size = window.extent();
    let ghost distinct = first_sightings(seen);
    let ghost after = seen.push(window.view());
    proof {
        lemma_first_sightings(seen);
        assert(after.drop_last() =~= seen);
        lemma_weights(frequencies@, frequencies@);
    }
    let mut n: usize = 0;
    while n < patterns.len()
        invariant
            n <= patterns@.len(),
            T::obeys_eq_spec(),
            forall|x: T, y: T| #[trigger] x.eq_spec(&y) <==> x == y,
            window.wf(),
            window.extent() == size,
            coordinates@.len() == Sp::volume(size),
            forall|i: int|
                0 <= i < coordinates@.len() ==> #[trigger] coordinates@[i] == Sp::coordinate_at(
                    size,
                    i,
                ),
            *patterns == *old(patterns),
            *frequencies == *old(frequencies),
            recorded::<T, Sp>(patterns@, frequencies@, seen, size),
            distinct == first_sightings(seen),
            after == seen.push(window.view()),
            seen.len() < u32::MAX,
            forall|i: int| 0 <= i < n ==> distinct[i] != window.view(),
        decreases patterns@.len() - n,
    {
        assert(patterns@[n as int].wf());
        if same_window(&patterns[n], window, coordinates) {
            let ghost before = frequencies@;
            proof {
                assert(distinct[n as int] == window.view());
                assert(distinct.contains(window.view()));
                assert(after.drop_last() =~= seen);
                assert(first_sightings(after) == distinct);
                lemma_weights(before, before);
                assert(before[n as int] <= total_weight(before));
                lemma_total_raised(before, n as int);
                lemma_first_sightings(seen);
            }
            frequencies[n] = frequencies[n] + 1;
            proof {
                assert forall|i: int| 0 <= i < frequencies@.len() implies #[trigger] frequencies@[i]
                    == occurrences(after, distinct[i]) by {
                    assert(before[i] == occurrences(seen, distinct[i]));
                    if i != n {
                        assert(distinct[i] != distinct[n as int]);
                    }
                }
            }
            return ;
        }
        n += 1;
    }
    proof {
        assert(!distinct.contains(window.view()));
        assert(after.drop_last() =~= seen);
        lemma_first_sightings(seen);
        assert(first_sightings(after) == distinct.push(window.view()));
        assert(occurrences(seen, window.view()) == 0);
        assert(frequencies@.push(1u32).drop_last() =~= frequencies@);
    }
    let ghost before = frequencies@;
    let ghost held = patterns@;
    patterns.push(copy_window(window));
    frequencies.push(1);
    proof {
        assert forall|i: int| 0 <= i < patterns@.len() implies (#[trigger] patterns@[i]).wf()
            && patterns@[i].extent() == size && patterns@[i].view() == first_sightings(after)[i] by {
            if i < held.len() {
                assert(patterns@[i] == held[i]);
            }
        }
        assert forall|i: int| 0 <= i < frequencies@.len() implies #[trigger] frequencies@[i]
            == occurrences(after, first_sightings(after)[i]) by {
            if i < before.len() {
                assert(before[i] == occurrences(seen, distinct[i]));
                assert(distinct[i] != window.view());
            }
        }
    }
}

/// Whether the window `b` can stand one step in `direction` from the
/// window `a`: wherever a cell of `a` has a neighbor against `direction`,
/// the cell shows in `a` what that neighbor shows in `b`.
pub open spec fn compatible<T, Sp: Space<Option<T>>>(
    size: Sp::Coordinate,
    a: Seq<Option<T>>,
    b: Seq<Option<T>>,
    direction: Sp::Direction,
) -> bool {
    forall|q: int|
        0 <= q < Sp::volume(size) ==> (#[trigger] Sp::step(
            size,
            Sp::coordinate_at(size, q),
            direction.inverted(),
        ) matches Some(c) ==> a[q] == b[Sp::position(size, c)])
}

/// Whether the pattern `b` can stand one step in `direction` from the
/// pattern `a`.
fn compatible_patterns<T: Copy + PartialEq, Sp: Space<Option<T>>>(
    a: &Sp,
    b: &Sp,
    direction: Sp::Direction,
    coordinates: &Vec<Sp::Coordinate>,
) -> (r: bool)
    requires
        T::obeys_eq_spec(),
        forall|x: T, y: T| #[trigger] x.eq_spec(&y) <==> x == y,
        a.wf(),
        b.wf(),
        a.extent() == b.extent(),
        Sp::all_directions().contains(direction),
        coordinates@.len() == Sp::volume(a.extent()),
        forall|i: int|
            0 <= i < coordinates@.len() ==> #[trigger] coordinates@[i] == Sp::coordinate_at(
                a.extent(),
                i,
            ),
    ensures
        r == compatible::<T, Sp>(a.extent(), a.view(), b.view(), direction),
{
    let ghost size = a.extent();
    let against = direction.invert_delta();
    proof {
        a.lemma_wf();
        b.lemma_wf();
        Sp::lemma_enumeration(size);
        Sp::lemma_directions();
    }
    let mut n: usize = 0;
    while n < coordinates.len()
        invariant
            n <= coordinates@.len(),
            T::obeys_eq_spec(),
            forall|x: T, y: T| #[trigger] x.eq_spec(&y) <==> x == y,
            a.wf(),
            b.wf(),
            a.extent() == size,
            b.extent() == size,
            against == direction.inverted(),
            Sp::all_directions().contains(against),
            coordinates@.len() == Sp::volume(size),
            forall|i: int|
                0 <= i < coordinates@.len() ==> #[trigger] coordinates@[i] == Sp::coordinate_at(
                    size,
                    i,
                ),
            forall|q: int|
                0 <= q < n ==> (#[trigger] Sp::step(size, Sp::coordinate_at(size, q), against)
                    matches Some(c) ==> a.view()[q] == b.view()[Sp::position(size, c)]),
        decreases coordinates@.len() - n,
    {
        let coordinate = coordinates[n];
        proof {
            Sp::lemma_enumeration(size);
            assert(coordinate == Sp::coordinate_at(size, n as int));
            Sp::lemma_step(size, coordinate, against);
        }
        if let Some(coordinate2) = a.neighbor(coordinate, against) {
            let same = match (*a.get(coordinate), *b.get(coordinate2)) {
                (Some(x), Some(y)) => x == y,
                (None, None) => true,
                _ => false,
            };
            if !same {
                assert(Sp::step(size, Sp::coordinate_at(size, n as int), direction.inverted())
                    == Some(coordinate2));
                return false;
            }
        }
        n += 1;
    }
    true
}

/// The number of flips that a window goes through: each axis once, and
/// then each but the last once more.
pub open spec fn walk_length(flips: nat) -> nat {
    if flips == 0 {
        0
    } else {
        (2 * flips - 1) as nat
    }
}

/// The number of windows that are sighted around one coordinate: the window
/// as it is and after each flip, and each of these after a turn as well
/// where there is a rotation.
pub open spec fn sightings_each(flips: nat, rotation: bool) -> nat {
    if rotation {
        2 * (walk_length(flips) + 1)
    } else {
        walk_length(flips) + 1
    }
}

/// The axis of the flip of number `k`.
pub open spec fn walk_axis<A>(axes: Seq<A>, k: int) -> A {
    if k < axes.len() {
        axes[k]
    } else {
        axes[k - axes.len()]
    }
}

/// `window` after the first `k` flips.
pub open spec fn flipped_upto<T: Tile<Sp::Axis, Sp::RotationAxis>, Sp: Space<Option<T>>>(
    size: Sp::Coordinate,
    window: Seq<Option<T>>,
    axes: Seq<Sp::Axis>,
    k: nat,
) -> Seq<Option<T>>
    decreases k,
{
    if k == 0 {
        window
    } else {
        flipped_window::<T, Sp>(
            size,
            flipped_upto::<T, Sp>(size, window, axes, (k - 1) as nat),
            walk_axis(axes, k - 1),
        )
    }
}

/// What is sighted of `window`: the window itself and, where there is a
/// rotation, the window after the turn.
pub open spec fn emitted<T: Tile<Sp::Axis, Sp::RotationAxis>, Sp: Space<Option<T>>>(
    size: Sp::Coordinate,
    window: Seq<Option<T>>,
    rotation: Option<Sp::RotationAxis>,
) -> Seq<Seq<Option<T>>> {
    match rotation {
        Some(axis) => seq![window, turned_window::<T, Sp>(size, window, axis)],
        None => seq![window],
    }
}

/// What is sighted of `window` as it is and after each of its first `k - 1`
/// flips.
pub open spec fn variants_upto<T: Tile<Sp::Axis, Sp::RotationAxis>, Sp: Space<Option<T>>>(
    size: Sp::Coordinate,
    window: Seq<Option<T>>,
    axes: Seq<Sp::Axis>,
    rotation: Option<Sp::RotationAxis>,
    k: nat,
) -> Seq<Seq<Option<T>>>
    decreases k,
{
    if k == 0 {
        Seq::empty()
    } else {
        variants_upto::<T, Sp>(size, window, axes, rotation, (k - 1) as nat) + emitted::<T, Sp>(
            size,
            flipped_upto::<T, Sp>(size, window, axes, (k - 1) as nat),
            rotation,
        )
    }
}

/// What is sighted around the first `n` coordinates of `input`.
pub open spec fn enumerated_upto<T: Tile<Sp::Axis, Sp::RotationAxis>, Sp: Space<Option<T>>>(
    input: &Sp,
    size: Sp::Coordinate,
    axes: Seq<Sp::Axis>,
    rotation: Option<Sp::RotationAxis>,
    n: nat,
) -> Seq<Seq<Option<T>>>
    decreases n,
{
    if n == 0 {
        Seq::empty()
    } else {
        enumerated_upto::<T, Sp>(input, size, axes, rotation, (n - 1) as nat) + variants_upto::<
            T,
            Sp,
        >(
            size,
            window_at::<T, Sp>(input, size, Sp::coordinate_at(input.extent(), n - 1)),
            axes,
            rotation,
            walk_length(axes.len()) + 1,
        )
    }
}

/// Every window that is sighted in `input`, in the order of the sightings:
/// coordinate by coordinate the window around it, as it is and after each
/// flip, each time followed by its turn where there is a rotation.
pub open spec fn enumerated<T: Tile<Sp::Axis, Sp::RotationAxis>, Sp: Space<Option<T>>>(
    input: &Sp,
    size: Sp::Coordinate,
    axes: Seq<Sp::Axis>,
    rotation: Option<Sp::RotationAxis>,
) -> Seq<Seq<Option<T>>> {
    enumerated_upto::<T, Sp>(input, size, axes, rotation, Sp::volume(input.extent()))
}

/// Sights every window of `input` and counts the sightings of each distinct
/// one.
fn enumerate_patterns<
    T: Copy + PartialEq + Tile<Sp::Axis, Sp::RotationAxis>,
    Sp: Space<Option<T>>,
>(
    input: &Sp,
    size: Sp::Coordinate,
    flip_symmetries: &[Sp::Axis],
    rotational_symmetry: Option<Sp::RotationAxis>,
    size_coordinates: &Vec<Sp::Coordinate>,
) -> (r: (Vec<Sp>, Vec<u32>))
    requires
        T::obeys_eq_spec(),
        forall|x: T, y: T| #[trigger] x.eq_spec(&y) <==> x == y,
        input.wf(),
        Sp::volume(size) <= u32::MAX,
        rotational_symmetry matches Some(axis) ==> Sp::square(size, axis),
        Sp::volume(input.extent()) * sightings_each(
            flip_symmetries@.len(),
            rotational_symmetry is Some,
        ) <= u32::MAX,
        size_coordinates@.len() == Sp::volume(size),
        forall|i: int|
            0 <= i < size_coordinates@.len() ==> #[trigger] size_coordinates@[i]
                == Sp::coordinate_at(size, i),
    ensures
        recorded::<T, Sp>(
            r.0@,
            r.1@,
            enumerated::<T, Sp>(input, size, flip_symmetries@, rotational_symmetry),
            size,
        ),
        enumerated::<T, Sp>(input, size, flip_symmetries@, rotational_symmetry).len() <= u32::MAX,
{
    proof {
        input.lemma_wf();
    }
    let ghost axes = flip_symmetries@;
    let ghost most = sightings_each(axes.len(), rotational_symmetry is Some);
    let ghost volume = Sp::volume(input.extent());
    let neg_radius = window_center::<Option<T>, Sp>(size);
    let input_coordinates = Sp::coordinates(input.dimensions());
    let flips = flip_symmetries.len();
    let mut patterns: Vec<Sp> = Vec::new();
    let mut frequencies: Vec<u32> = Vec::new();
    let ghost mut seen: Seq<Seq<Option<T>>> = Seq::empty();
    let mut at: usize = 0;
    while at < input_coordinates.len()
        invariant
            at <= input_coordinates@.len(),
            T::obeys_eq_spec(),
            forall|x: T, y: T| #[trigger] x.eq_spec(&y) <==> x == y,
            input.wf(),
            Sp::volume(size) <= u32::MAX,
            rotational_symmetry matches Some(axis) ==> Sp::square(size, axis),
            axes == flip_symmetries@,
            flips == axes.len(),
            most == sightings_each(axes.len(), rotational_symmetry is Some),
            volume == Sp::volume(input.extent()),
            volume * most <= u32::MAX,
            neg_radius == center_of::<Option<T>, Sp>(size),
            input_coordinates@.len() == volume,
            forall|i: int|
                0 <= i < input_coordinates@.len() ==> #[trigger] input_coordinates@[i]
                    == Sp::coordinate_at(input.extent(), i),
            size_coordinates@.len() == Sp::volume(size),
            forall|i: int|
                0 <= i < size_coordinates@.len() ==> #[trigger] size_coordinates@[i]
                    == Sp::coordinate_at(size, i),
            recorded::<T, Sp>(patterns@, frequencies@, seen, size),
            seen == enumerated_upto::<T, Sp>(input, size, axes, rotational_symmetry, at as nat),
            seen.len() <= at * most,
        decreases input_coordinates@.len() - at,
    {
        let ghost base = seen;
        proof {
            assert(at * most + most == (at + 1) * most && (at + 1) * most <= volume * most)
                by (nonlinear_arith)
                requires
                    at + 1 <= volume,
                    0 <= most,
            ;
        }
        let walk = if flips == 0 {
            0
        } else {
            2 * flips - 1
        };
        let mut grid = sample_window(input, size, neg_radius, input_coordinates[at]);
        let ghost first = grid.view();
        let mut k: usize = 0;
        while k <= walk
            invariant
                k <= walk + 1,
                T::obeys_eq_spec(),
                forall|x: T, y: T| #[trigger] x.eq_spec(&y) <==> x == y,
                rotational_symmetry matches Some(axis) ==> Sp::square(size, axis),
                axes == flip_symmetries@,
                flips == axes.len(),
                walk == walk_length(axes.len()),
                most == sightings_each(axes.len(), rotational_symmetry is Some),
                base.len() + most <= u32::MAX,
                size_coordinates@.len() == Sp::volume(size),
                forall|i: int|
                    0 <= i < size_coordinates@.len() ==> #[trigger] size_coordinates@[i]
                        == Sp::coordinate_at(size, i),
                grid.wf(),
                grid.extent() == size,
                k <= walk ==> grid.view() == flipped_upto::<T, Sp>(size, first, axes, k as nat),
                recorded::<T, Sp>(patterns@, frequencies@, seen, size),
                seen == base + variants_upto::<T, Sp>(
                    size,
                    first,
                    axes,
                    rotational_symmetry,
                    k as nat,
                ),
                seen.len() <= base.len() + if rotational_symmetry is Some {
                    2 * k
                } else {
                    k as int
                },
            decreases walk + 1 - k,
        {
            let ghost shown = grid.view();
            let ghost sofar = variants_upto::<T, Sp>(
                size,
                first,
                axes,
                rotational_symmetry,
                k as nat,
            );
            record(&mut patterns, &mut frequencies, &grid, size_coordinates, Ghost(seen));
            proof {
                seen = seen.push(shown);
            }
            if let Some(rotation_axis) = rotational_symmetry {
                let rotated_grid = turn_window(&grid, rotation_axis);
                record(
                    &mut patterns,
                    &mut frequencies,
                    &rotated_grid,
                    size_coordinates,
                    Ghost(seen),
                );
                proof {
                    seen = seen.push(rotated_grid.view());
                }
            }
            proof {
                assert(seen =~= base + (sofar + emitted::<T, Sp>(
                    size,
                    shown,
                    rotational_symmetry,
                )));
            }
            if k < walk {
                let axis = if k < flips {
                    flip_symmetries[k]
                } else {
                    flip_symmetries[k - flips]
                };
                assert(axis == walk_axis(axes, k as int));
                grid = flip_window(&grid, axis);
            }
            k += 1;
        }
        proof {
            assert(input_coordinates@[at as int] == Sp::coordinate_at(input.extent(), at as int));
        }
        at += 1;
    }
    (patterns, frequencies)
}

/// Whether the rules drawn from `patterns` let `a` accept `b` in the
/// direction of number `i`, as far as the states below `limit` have declared
/// it: `a` is below `limit` and `b` can stand in that direction from it, or
/// `b` is below `limit` and `a` can stand in the opposite direction from
/// it.
pub open spec fn adjacent_upto<T, Sp: Space<Option<T>>>(
    size: Sp::Coordinate,
    patterns: Seq<Seq<Option<T>>>,
    limit: int,
    a: State,
    i: int,
    b: State,
) -> bool {
    &&& a.0 < patterns.len()
    &&& b.0 < patterns.len()
    &&& 0 <= i < Sp::all_directions().len()
    &&& {
        ||| a.0 < limit && compatible::<T, Sp>(
            size,
            patterns[a.0 as int],
            patterns[b.0 as int],
            Sp::all_directions()[i],
        )
        ||| b.0 < limit && compatible::<T, Sp>(
            size,
            patterns[b.0 as int],
            patterns[a.0 as int],
            Sp::all_directions()[i].inverted(),
        )
    }
}

/// Whether the rules drawn from `patterns` let `a` accept `b` in the
/// direction of number `i`: `b` can stand in that direction from `a`, or
/// `a` in the opposite direction from `b`.
pub open spec fn adjacent<T, Sp: Space<Option<T>>>(
    size: Sp::Coordinate,
    patterns: Seq<Seq<Option<T>>>,
    a: State,
    i: int,
    b: State,
) -> bool {
    adjacent_upto::<T, Sp>(size, patterns, patterns.len() as int, a, i, b)
}

/// The states whose patterns can stand one step in `direction` from the
/// pattern of number `a`.
fn allowed_neighbors<T: Copy + PartialEq, Sp: Space<Option<T>>>(
    patterns: &Vec<Sp>,
    a: usize,
    direction: Sp::Direction,
    coordinates: &Vec<Sp::Coordinate>,
    Ghost(size): Ghost<Sp::Coordinate>,
) -> (r: StateSet)
    requires
        T::obeys_eq_spec(),
        forall|x: T, y: T| #[trigger] x.eq_spec(&y) <==> x == y,
        a < patterns@.len(),
        patterns@.len() <= u32::MAX,
        forall|i: int|
            0 <= i < patterns@.len() ==> (#[trigger] patterns@[i]).wf() && patterns@[i].extent()
                == size,
        Sp::all_directions().contains(direction),
        coordinates@.len() == Sp::volume(size),
        forall|i: int|
            0 <= i < coordinates@.len() ==> #[trigger] coordinates@[i] == Sp::coordinate_at(
                size,
                i,
            ),
    ensures
        r@.len() == patterns@.len(),
        forall|b: int|
            0 <= b < patterns@.len() ==> (#[trigger] r@[b] <==> compatible::<T, Sp>(
                size,
                patterns@[a as int].view(),
                patterns@[b].view(),
                direction,
            )),
{
    let mut allowed = StateSet::all(patterns.len() as u32);
    let mut b: usize = 0;
    while b < patterns.len()
        invariant
            b <= patterns@.len(),
            T::obeys_eq_spec(),
            forall|x: T, y: T| #[trigger] x.eq_spec(&y) <==> x == y,
            a < patterns@.len(),
            patterns@.len() <= u32::MAX,
            forall|i: int|
                0 <= i < patterns@.len() ==> (#[trigger] patterns@[i]).wf()
                    && patterns@[i].extent() == size,
            Sp::all_directions().contains(direction),
            coordinates@.len() == Sp::volume(size),
            forall|i: int|
                0 <= i < coordinates@.len() ==> #[trigger] coordinates@[i] == Sp::coordinate_at(
                    size,
                    i,
                ),
            allowed@.len() == patterns@.len(),
            forall|i: int|
                0 <= i < b ==> (#[trigger] allowed@[i] <==> compatible::<T, Sp>(
                    size,
                    patterns@[a as int].view(),
                    patterns@[i].view(),
                    direction,
                )),
            forall|i: int| b <= i < patterns@.len() ==> #[trigger] allowed@[i],
        decreases patterns@.len() - b,
    {
        assert(patterns@[a as int].wf() && patterns@[b as int].wf());
        if !compatible_patterns(&patterns[a], &patterns[b], direction, coordinates) {
            allowed.remove(State::nth(b as u32));
        }
        b += 1;
    }
    allowed
}

/// Derives the rules of a sample from its overlapping patterns.
///
/// Around every coordinate of `input` a window of dimensions `size` is
/// sighted, as it is and flipped along the axes of `flip_symmetries` in
/// turn, and each of these once more after a quarter turn where
/// `rotational_symmetry` names an axis. Every distinct window becomes a
/// pattern and a state, numbered in the order of the first sightings. A
/// state accepts another in a direction where their patterns agree on the
/// cells that they share when the second is laid one step in that direction
/// over the first, or the first one step in the opposite direction over the
/// second.
///
/// The rules carry the patterns as their observer, each with the tile at
/// its center and the number of its sightings.
pub fn codify_patterns<
    T: Copy + PartialEq + Tile<Sp::Axis, Sp::RotationAxis>,
    Sp: Space<Option<T>>,
    Ssp: Space<StateSet, Coordinate = Sp::Coordinate, Direction = Sp::Direction, Axis = Sp::Axis>,
>(
    input: &Sp,
    size: Sp::Coordinate,
    flip_symmetries: &[Sp::Axis],
    rotational_symmetry: Option<Sp::RotationAxis>,
) -> (r: SetCollapseRules<ExtractedPatterns<T>>)
    requires
        T::obeys_eq_spec(),
        forall|x: T, y: T| #[trigger] x.eq_spec(&y) <==> x == y,
        input.wf(),
        Sp::volume(size) <= u32::MAX,
        Sp::volume(input.extent()) > 0 ==> forall|a: Sp::Axis| Sp::component(size, a) > 0,
        rotational_symmetry matches Some(axis) ==> Sp::square(size, axis),
        Sp::volume(input.extent()) * sightings_each(
            flip_symmetries@.len(),
            rotational_symmetry is Some,
        ) <= u32::MAX,
        Ssp::all_directions() == Sp::all_directions(),
    ensures
        r.wf(),
        r.spec_direction_count() == Sp::all_directions().len(),
        r.symmetric_over(Sp::all_directions()),
        ({
            let seen = enumerated::<T, Sp>(input, size, flip_symmetries@, rotational_symmetry);
            let distinct = first_sightings(seen);
            &&& r.spec_state_count() == distinct.len()
            &&& r.spec_observer()@.len() == distinct.len()
            &&& forall|i: int|
                0 <= i < distinct.len() ==> {
                    &&& (#[trigger] r.spec_observer()@[i]).center == distinct[i][Sp::position(
                        size,
                        center_of::<Option<T>, Sp>(size),
                    )]
                    &&& r.spec_observer()@[i].frequency == occurrences(seen, distinct[i])
                }
            &&& forall|a: State, i: int, b: State| #[trigger]
                r.allows(a, i, b) <==> adjacent::<T, Sp>(size, distinct, a, i, b)
        }),
{
    let ghost seen = enumerated::<T, Sp>(input, size, flip_symmetries@, rotational_symmetry);
    let ghost distinct = first_sightings(seen);
    let ghost directions = Sp::all_directions();
    let size_coordinates = Sp::coordinates(size);
    let neg_radius = window_center::<Option<T>, Sp>(size);
    let (patterns, frequencies) = enumerate_patterns(
        input,
        size,
        flip_symmetries,
        rotational_symmetry,
        &size_coordinates,
    );
    proof {
        lemma_first_sightings(seen);
        Sp::lemma_directions();
    }
    let state_count = patterns.len();
    proof {
        if Sp::volume(input.extent()) == 0 {
            assert(seen.len() == 0);
        }
    }
    let mut extracted: Vec<Pattern<T>> = Vec::new();
    let mut n: usize = 0;
    while n < state_count
        invariant
            n <= state_count,
            state_count == patterns@.len(),
            recorded::<T, Sp>(patterns@, frequencies@, seen, size),
            distinct == first_sightings(seen),
            state_count > 0 ==> Sp::contains(size, neg_radius),
            neg_radius == center_of::<Option<T>, Sp>(size),
            extracted@.len() == n,
            forall|i: int|
                0 <= i < n ==> (#[trigger] extracted@[i]).center == distinct[i][Sp::position(
                    size,
                    neg_radius,
                )] && extracted@[i].frequency == frequencies@[i],
        decreases state_count - n,
    {
        assert(patterns@[n as int].wf());
        extracted.push(
            Pattern { frequency: frequencies[n], center: *patterns[n].get(neg_radius) },
        );
        n += 1;
    }
    let observer = ExtractedPatterns { patterns: extracted };
    proof {
        assert(frequencies_of(observer@) =~= frequencies@);
        assert forall|i: int| 0 <= i < observer@.len() implies (#[trigger] observer@[i]).frequency
            > 0 by {
            assert(frequencies@[i] == occurrences(seen, distinct[i]));
            assert(distinct.contains(distinct[i]));
        }
    }
    let mut builder = SetCollapseRulesBuilder::<Ssp, ExtractedPatterns<T>>::new(
        state_count as u32,
        observer,
    );
    let all_directions = Ssp::directions();
    let mut a: usize = 0;
    while a < state_count
        invariant
            a <= state_count,
            T::obeys_eq_spec(),
            forall|x: T, y: T| #[trigger] x.eq_spec(&y) <==> x == y,
            state_count == patterns@.len(),
            state_count <= u32::MAX,
            recorded::<T, Sp>(patterns@, frequencies@, seen, size),
            distinct == first_sightings(seen),
            directions == Sp::all_directions(),
            Ssp::all_directions() == directions,
            all_directions@ == directions,
            size_coordinates@.len() == Sp::volume(size),
            forall|i: int|
                0 <= i < size_coordinates@.len() ==> #[trigger] size_coordinates@[i]
                    == Sp::coordinate_at(size, i),
            builder.wf(),
            builder.spec_state_count() == state_count,
            builder.spec_observer() == observer,
            forall|x: State, i: int, y: State| #[trigger]
                builder.allows(x, i, y) <==> adjacent_upto::<T, Sp>(
                    size,
                    distinct,
                    a as int,
                    x,
                    i,
                    y,
                ),
        decreases state_count - a,
    {
        let ghost before = builder;
        let state = State::nth(a as u32);
        let mut neighbors: Vec<(Sp::Direction, StateSet)> = Vec::new();
        let mut d: usize = 0;
        while d < all_directions.len()
            invariant
                d <= all_directions@.len(),
                T::obeys_eq_spec(),
                forall|x: T, y: T| #[trigger] x.eq_spec(&y) <==> x == y,
                a < state_count,
                state_count == patterns@.len(),
                state_count <= u32::MAX,
                recorded::<T, Sp>(patterns@, frequencies@, seen, size),
                distinct == first_sightings(seen),
                directions == Sp::all_directions(),
                all_directions@ == directions,
                size_coordinates@.len() == Sp::volume(size),
                forall|i: int|
                    0 <= i < size_coordinates@.len() ==> #[trigger] size_coordinates@[i]
                        == Sp::coordinate_at(size, i),
                neighbors@.len() == d,
                forall|k: int|
                    0 <= k < d ==> {
                        &&& (#[trigger] neighbors@[k]).0 == directions[k]
                        &&& neighbors@[k].1@.len() == state_count
                        &&& forall|b: int|
                            0 <= b < state_count ==> (#[trigger] neighbors@[k].1@[b]
                                <==> compatible::<T, Sp>(
                                size,
                                distinct[a as int],
                                distinct[b],
                                directions[k],
                            ))
                    },
            decreases all_directions@.len() - d,
        {
            let direction = all_directions[d];
            assert(directions.contains(directions[d as int]));
            let allowed = allowed_neighbors(
                &patterns,
                a,
                direction,
                &size_coordinates,
                Ghost(size),
            );
            let ghost held = neighbors@;
            neighbors.push((direction, allowed));
            proof {
                assert forall|k: int| 0 <= k < d + 1 implies {
                    &&& (#[trigger] neighbors@[k]).0 == directions[k]
                    &&& neighbors@[k].1@.len() == state_count
                    &&& forall|b: int|
                        0 <= b < state_count ==> (#[trigger] neighbors@[k].1@[b]
                            <==> compatible::<T, Sp>(
                            size,
                            distinct[a as int],
                            distinct[b],
                            directions[k],
                        ))
                } by {
                    if k < d {
                        assert(neighbors@[k] == held[k]);
                    } else {
                        assert forall|b: int| 0 <= b < state_count implies (
                        #[trigger] neighbors@[k].1@[b] <==> compatible::<T, Sp>(
                            size,
                            distinct[a as int],
                            distinct[b],
                            directions[k],
                        )) by {
                            assert(patterns@[b].view() == distinct[b]);
                            assert(patterns@[a as int].view() == distinct[a as int]);
                        }
                    }
                }
            }
            d += 1;
        }
        proof {
            assert forall|k: int| 0 <= k < neighbors@.len() implies Ssp::all_directions().contains(
                (#[trigger] neighbors@[k]).0,
            ) && neighbors@[k].1@.len() == builder.spec_state_count() by {
                assert(directions.contains(directions[k]));
            }
        }
        builder = builder.allow(state, neighbors.as_slice());
        proof {
            Sp::lemma_directions();
            let nb = neighbors@;
            assert forall|x: State, i: int, y: State| #[trigger]
                builder.allows(x, i, y) <==> adjacent_upto::<T, Sp>(
                    size,
                    distinct,
                    a + 1,
                    x,
                    i,
                    y,
                ) by {
                let declared = exists|k: int|
                    0 <= k < nb.len() && #[trigger] crate::rules::declares::<Ssp>(
                        state,
                        nb[k].0,
                        nb[k].1,
                        x,
                        i,
                        y,
                    );
                let earlier = adjacent_upto::<T, Sp>(size, distinct, a as int, x, i, y);
                let now = adjacent_upto::<T, Sp>(size, distinct, a + 1, x, i, y);
                assert(builder.allows(x, i, y) <==> (before.allows(x, i, y) || declared));
                assert(before.allows(x, i, y) <==> earlier);
                if declared {
                    let k = choose|k: int|
                        0 <= k < nb.len() && #[trigger] crate::rules::declares::<Ssp>(
                            state,
                            nb[k].0,
                            nb[k].1,
                            x,
                            i,
                            y,
                        );
                    assert(nb[k].0 == directions[k]);
                    assert(directions.contains(directions[k]));
                    assert(directions.contains(directions[i]));
                    if x == state && directions[i] == nb[k].0 && nb[k].1.contains(y) {
                        assert(nb[k].1@[y.0 as int]);
                    } else {
                        assert(nb[k].1@[x.0 as int]);
                        assert(directions[i].inverted() == directions[k]);
                    }
                    assert(now);
                }
                if now && !earlier {
                    assert(directions.contains(directions[i]));
                    if x.0 == a && compatible::<T, Sp>(
                        size,
                        distinct[x.0 as int],
                        distinct[y.0 as int],
                        directions[i],
                    ) {
                        assert(x == state);
                        assert(nb[i].0 == directions[i]);
                        assert(nb[i].1@[y.0 as int]);
                        assert(crate::rules::declares::<Ssp>(state, nb[i].0, nb[i].1, x, i, y));
                    } else {
                        assert(y == state);
                        let back = directions[i].inverted();
                        assert(directions.contains(back));
                        let k = choose|k: int| 0 <= k < directions.len() && directions[k] == back;
                        assert(nb[k].0 == directions[k]);
                        assert(nb[k].1@[x.0 as int]);
                        assert(directions[k].inverted() == directions[i]);
                        assert(crate::rules::declares::<Ssp>(state, nb[k].0, nb[k].1, x, i, y));
                    }
                    assert(declared);
                }
                if earlier {
                    assert(now);
                }
            }
        }
        a += 1;
    }
    let rules = builder.build();
    proof {
        assert forall|x: State, i: int, y: State| #[trigger]
            rules.allows(x, i, y) <==> adjacent::<T, Sp>(size, distinct, x, i, y) by {
            assert(rules.entry(x, i) == builder.entry(x, i));
            assert(builder.allows(x, i, y) <==> adjacent_upto::<T, Sp>(
                size,
                distinct,
                state_count as int,
                x,
                i,
                y,
            ));
        }
    }
    rules
}

} // verus!
