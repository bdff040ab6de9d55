//! Collapse constraints.

use crate::random::choose_state;
use crate::space::{InvertDelta, Space};
use crate::state::{count_true, subset, State, StateSet};
use rand::rngs::StdRng;
use vstd::prelude::*;
use vstd::std_specs::cmp::PartialEqSpec;

verus! {

/// For collapsing superpositions.
pub trait SetCollapseObserver {
    /// Whether the observer can collapse superpositions over `state_count`
    /// states.
    spec fn admits(&self, state_count: nat) -> bool;

    /// Arbitrarily collapse a superposition, which must not be empty, into a
    /// single one of its states.
    fn observe(&self, cell: &mut StateSet, neighbors: &[Option<StateSet>], rng: &mut StdRng)
        requires
            self.admits(old(cell)@.len()),
            count_true(old(cell)@) > 0,
        ensures
            subset(final(cell)@, old(cell)@),
            count_true(final(cell)@) == 1,
    ;
}

/// Collapse a superposition into a uniformly-random one of its states.
#[derive(Clone, Copy, Debug)]
pub struct UniformSetCollapseObserver;

impl SetCollapseObserver for UniformSetCollapseObserver {
    open spec fn admits(&self, state_count: nat) -> bool {
        true
    }

    fn observe(&self, cell: &mut StateSet, neighbors: &[Option<StateSet>], rng: &mut StdRng) {
        let states = cell.states();
        let state_count = cell.len();
        match choose_state(&states, rng) {
            Some(state) => {
                assert(old(cell).contains(state));
                *cell = StateSet::state(state_count, state);
            },
            None => {},
        }
    }
}

/// Whether `set` holds a state.
pub open spec fn inhabited(set: Seq<bool>) -> bool {
    exists|b: int| 0 <= b < set.len() && #[trigger] set[b]
}

/// What one state accepts next to it: for each direction, in the order of
/// the space's directions, the states that it accepts there, if any.
struct StateRule {
    state: State,
    allowed_neighbors: Vec<Option<StateSet>>,
}

impl StateRule {
    /// The states accepted in the direction of number `direction`.
    spec fn entry(&self, direction: int) -> Option<Seq<bool>> {
        if 0 <= direction < self.allowed_neighbors@.len() {
            match self.allowed_neighbors@[direction] {
                Some(set) => Some(set@),
                None => None,
            }
        } else {
            None
        }
    }

    /// Whether every set of accepted states ranges over `state_count`
    /// states and holds one at least.
    spec fn wf(&self, state_count: nat) -> bool {
        forall|i: int|
            0 <= i < self.allowed_neighbors@.len() ==> (
            #[trigger] self.allowed_neighbors@[i] matches Some(set) ==> set@.len() == state_count
                && inhabited(set@))
    }

    /// Fills the rule up with directions in which nothing is accepted, to
    /// `direction_count` directions.
    fn pad(&mut self, direction_count: usize, state_count: Ghost<nat>)
        requires
            old(self).wf(state_count@),
            old(self).allowed_neighbors@.len() <= direction_count,
        ensures
            final(self).wf(state_count@),
            final(self).state == old(self).state,
            final(self).allowed_neighbors@.len() == direction_count,
            forall|i: int| final(self).entry(i) == old(self).entry(i),
    {
        while self.allowed_neighbors.len() < direction_count
            invariant
                self.wf(state_count@),
                self.state == old(self).state,
                self.allowed_neighbors@.len() <= direction_count,
                forall|i: int| self.entry(i) == old(self).entry(i),
            decreases direction_count - self.allowed_neighbors@.len(),
        {
            let ghost before = *self;
            self.allowed_neighbors.push(None);
            assert forall|i: int| self.entry(i) == before.entry(i) by {
                if 0 <= i < before.allowed_neighbors@.len() {
                    assert(self.allowed_neighbors@[i] == before.allowed_neighbors@[i]);
                }
            }
        }
    }

    /// Accepts `allowed` in the direction of number `neighbor_index`.
    fn add_allowed(&mut self, state_count: u32, neighbor_index: usize, allowed: State)
        requires
            old(self).wf(state_count as nat),
            allowed.0 < state_count,
        ensures
            final(self).wf(state_count as nat),
            final(self).state == old(self).state,
            final(self).allowed_neighbors@.len() == if old(self).allowed_neighbors@.len()
                <= neighbor_index {
                neighbor_index + 1
            } else {
                old(self).allowed_neighbors@.len() as int
            },
            forall|i: int| i != neighbor_index ==> final(self).entry(i) == old(self).entry(i),
            final(self).entry(neighbor_index as int) == Some(
                match old(self).entry(neighbor_index as int) {
                    Some(set) => set.update(allowed.0 as int, true),
                    None => Seq::new(state_count as nat, |i: int| i == allowed.0),
                },
            ),
    {
        while self.allowed_neighbors.len() <= neighbor_index
            invariant
                self.wf(state_count as nat),
                self.state == old(self).state,
                old(self).allowed_neighbors@.len() <= self.allowed_neighbors@.len(),
                self.allowed_neighbors@.len() <= neighbor_index + 1
                    || self.allowed_neighbors@.len() == old(self).allowed_neighbors@.len(),
                forall|i: int| self.entry(i) == old(self).entry(i),
            decreases neighbor_index + 1 - self.allowed_neighbors@.len(),
        {
            let ghost before = *self;
            self.allowed_neighbors.push(None);
            assert forall|i: int| self.entry(i) == before.entry(i) by {
                if 0 <= i < before.allowed_neighbors@.len() {
                    assert(self.allowed_neighbors@[i] == before.allowed_neighbors@[i]);
                }
            }
        }
        let ghost before = *self;
        if self.allowed_neighbors[neighbor_index].is_some() {
            let mut set = self.allowed_neighbors[neighbor_index].take().unwrap();
            set.add(allowed);
            self.allowed_neighbors[neighbor_index] = Some(set);
        } else {
            self.allowed_neighbors[neighbor_index] = Some(StateSet::state(state_count, allowed));
        }
        assert forall|i: int| i != neighbor_index implies self.entry(i) == before.entry(i) by {
            if 0 <= i < before.allowed_neighbors@.len() {
                assert(self.allowed_neighbors@[i] == before.allowed_neighbors@[i]);
            }
        }
        assert forall|i: int| 0 <= i < self.allowed_neighbors@.len() implies (
        #[trigger] self.allowed_neighbors@[i] matches Some(set) ==> set@.len() == state_count
            && inhabited(set@)) by {
            if i == neighbor_index {
                let set = self.allowed_neighbors@[i].unwrap();
                assert(set@[allowed.0 as int]);
            } else {
                assert(self.allowed_neighbors@[i] == before.allowed_neighbors@[i]);
            }
        }
    }
}

/// Whether the declaration that `state` accepts the states of `set` in
/// `direction` makes `a` accept `b` in the direction of number `i`: either
/// as declared, or the other way round in the opposite direction.
pub open spec fn declares<Sp: Space<StateSet>>(
    state: State,
    direction: Sp::Direction,
    set: StateSet,
    a: State,
    i: int,
    b: State,
) -> bool {
    &&& 0 <= i < Sp::all_directions().len()
    &&& {
        ||| a == state && Sp::all_directions()[i] == direction && set.contains(b)
        ||| b == state && Sp::all_directions()[i] == direction.inverted() && set.contains(a)
    }
}

/// A declaration makes a state accept something only where it names the
/// state, as the one that accepts or among those that are accepted.
pub proof fn lemma_unnamed_state<Sp: Space<StateSet>>(
    state: State,
    direction: Sp::Direction,
    set: StateSet,
    unnamed: State,
    i: int,
    b: State,
)
    requires
        unnamed != state,
        !set.contains(unnamed),
    ensures
        !declares::<Sp>(state, direction, set, unnamed, i, b),
{
}

/// Whether letting `state` accept `neighbor` in `direction`, and `neighbor`
/// accept `state` in the opposite direction, makes `a` accept `b` in the
/// direction of number `i`.
pub open spec fn declares_one<Sp: Space<StateSet>>(
    state: State,
    direction: Sp::Direction,
    neighbor: State,
    a: State,
    i: int,
    b: State,
) -> bool {
    &&& 0 <= i < Sp::all_directions().len()
    &&& {
        ||| a == state && b == neighbor && Sp::all_directions()[i] == direction
        ||| b == state && a == neighbor && Sp::all_directions()[i] == direction.inverted()
    }
}

/// Adjacency rules.
///
/// For each state and each direction, by its number among the directions of
/// the space, the rules hold the states that the state accepts as its
/// neighbor in that direction, or nothing.
pub struct SetCollapseRules<O: SetCollapseObserver> {
    state_rules: Vec<StateRule>,
    direction_count: usize,
    observer: O,
}

/// Builder for [SetCollapseRules]
///
/// Manages creating symmetric rules from asymmetric definitions.
pub struct SetCollapseRulesBuilder<Sp: Space<StateSet>, O: SetCollapseObserver> {
    state_rules: Vec<StateRule>,
    directions: Vec<Sp::Direction>,
    observer: O,
}

impl<Sp: Space<StateSet>, O: SetCollapseObserver> SetCollapseRulesBuilder<Sp, O> {
    /// The number of states that the rules are about.
    pub closed spec fn spec_state_count(&self) -> nat {
        self.state_rules@.len()
    }

    /// The observer that the rules will carry.
    pub closed spec fn spec_observer(&self) -> O {
        self.observer
    }

    /// The states that `state` accepts so far in the direction of number
    /// `direction`, if any.
    pub closed spec fn entry(&self, state: State, direction: int) -> Option<Seq<bool>> {
        if state.0 < self.state_rules@.len() {
            self.state_rules@[state.0 as int].entry(direction)
        } else {
            None
        }
    }

    /// Whether `a` accepts `b` as its neighbor in the direction of number
    /// `direction`.
    pub open spec fn allows(&self, a: State, direction: int, b: State) -> bool {
        self.entry(a, direction) matches Some(set) && b.0 < set.len() && set[b.0 as int]
    }

    /// Whether every entry that is there holds a state: an entry is there
    /// only where the state accepts a state in that direction.
    pub open spec fn entries_accept(&self) -> bool {
        forall|a: State, i: int|
            (#[trigger] self.entry(a, i)) is Some ==> exists|b: State| self.allows(a, i, b)
    }

    /// A builder that is in order holds no entry without a state.
    pub proof fn lemma_entries_accept(&self)
        requires
            self.wf(),
        ensures
            self.entries_accept(),
    {
        assert forall|a: State, i: int| (#[trigger] self.entry(a, i)) is Some implies exists|
            b: State,
        |
            self.allows(a, i, b) by {
            let rule = self.state_rules@[a.0 as int];
            assert(rule.allowed_neighbors@[i] is Some);
            let set = self.entry(a, i).unwrap();
            let k = choose|k: int| 0 <= k < set.len() && #[trigger] set[k];
            assert(self.allows(a, i, State(k as u32)));
        }
    }

    /// Whether `a` accepts `b` in a direction exactly where `b` accepts `a`
    /// in the opposite direction.
    pub open spec fn symmetric(&self) -> bool {
        forall|a: State, b: State, i: int, j: int|
            0 <= i < Sp::all_directions().len() && 0 <= j < Sp::all_directions().len()
                && Sp::all_directions()[j] == Sp::all_directions()[i].inverted() ==> (
            #[trigger] self.allows(a, i, b) <==> #[trigger] self.allows(b, j, a))
    }

    /// Whether the builder is in order: it knows the directions of the
    /// space, no state accepts anything in a direction that is none, every
    /// set of accepted states ranges over all states, and what it holds is
    /// symmetric.
    pub closed spec fn wf(&self) -> bool {
        &&& self.state_rules@.len() <= u32::MAX
        &&& self.directions@ == Sp::all_directions()
        &&& self.observer.admits(self.state_rules@.len())
        &&& forall|s: int|
            0 <= s < self.state_rules@.len() ==> {
                &&& (#[trigger] self.state_rules@[s]).state == State(s as u32)
                &&& self.state_rules@[s].allowed_neighbors@.len() <= self.directions@.len()
                &&& self.state_rules@[s].wf(self.state_rules@.len())
            }
        &&& self.symmetric()
    }

    /// A builder over `state_count` states in which no state accepts
    /// anything yet.
    pub fn new(state_count: u32, observer: O) -> (r: Self)
        requires
            observer.admits(state_count as nat),
        ensures
            r.wf(),
            r.spec_state_count() == state_count,
            r.spec_observer() == observer,
            forall|a: State, i: int| r.entry(a, i) is None,
    {
        let mut state_rules: Vec<StateRule> = Vec::new();
        let mut n: u32 = 0;
        while n < state_count
            invariant
                n <= state_count,
                state_rules@.len() == n,
                forall|s: int|
                    0 <= s < n ==> (#[trigger] state_rules@[s]).state == State(s as u32)
                        && state_rules@[s].allowed_neighbors@.len() == 0,
            decreases state_count - n,
        {
            state_rules.push(StateRule { state: State::nth(n), allowed_neighbors: Vec::new() });
            n += 1;
        }
        Self { state_rules, directions: Sp::directions(), observer }
    }

    /// The number of `offset` among the directions of the space.
    fn get_offset_index(&self, offset: Sp::Direction) -> (r: usize)
        requires
            self.directions@ == Sp::all_directions(),
            Sp::all_directions().contains(offset),
        ensures
            r < Sp::all_directions().len(),
            Sp::all_directions()[r as int] == offset,
    {
        proof {
            Sp::lemma_directions();
        }
        let mut i: usize = 0;
        while i < self.directions.len()
            invariant
                i <= self.directions@.len(),
                self.directions@ == Sp::all_directions(),
                Sp::all_directions().contains(offset),
                <Sp::Direction as PartialEqSpec>::obeys_eq_spec(),
                forall|a: Sp::Direction, b: Sp::Direction| #[trigger] a.eq_spec(&b) <==> a == b,
                forall|j: int| 0 <= j < i ==> self.directions@[j] != offset,
            decreases self.directions@.len() - i,
        {
            if self.directions[i] == offset {
                return i;
            }
            i += 1;
        }
        proof {
            let j = choose|j: int|
                0 <= j < Sp::all_directions().len() && Sp::all_directions()[j] == offset;
            assert(self.directions@[j] != offset);
        }
        0
    }

    /// Lets `a` accept `b` in the direction `offset`, and `b` accept `a` in
    /// the opposite direction.
    fn allow_symmetric(&mut self, a: State, b: State, offset: &Sp::Direction)
        requires
            old(self).wf(),
            a.0 < old(self).spec_state_count(),
            b.0 < old(self).spec_state_count(),
            Sp::all_directions().contains(*offset),
        ensures
            final(self).wf(),
            final(self).spec_state_count() == old(self).spec_state_count(),
            final(self).spec_observer() == old(self).spec_observer(),
            forall|x: State, i: int, y: State| #[trigger]
                final(self).allows(x, i, y) <==> (old(self).allows(x, i, y) || (0 <= i
                    < Sp::all_directions().len() && ((x == a && y == b
                    && Sp::all_directions()[i] == *offset) || (x == b && y == a
                    && Sp::all_directions()[i] == offset.inverted())))),
            forall|x: State, i: int| #[trigger]
                final(self).entry(x, i) is Some ==> old(self).entry(x, i) is Some || x == a || x
                    == b,
    {
        proof {
            Sp::lemma_directions();
        }
        let state_count = self.state_rules.len() as u32;
        let there = self.get_offset_index(*offset);
        let back = self.get_offset_index(offset.invert_delta());
        let ghost start = *self;
        self.state_rules[a.0 as usize].add_allowed(state_count, there, b);
        let ghost middle = *self;
        proof {
            assert forall|x: State, i: int, y: State| #[trigger]
                middle.allows(x, i, y) <==> (start.allows(x, i, y) || (x == a && y == b && i
                    == there)) by {
                if x.0 < state_count {
                    if x.0 != a.0 {
                        assert(middle.state_rules@[x.0 as int] == start.state_rules@[x.0 as int]);
                    }
                }
            }
        }
        self.state_rules[b.0 as usize].add_allowed(state_count, back, a);
        proof {
            let end = *self;
            assert forall|x: State, i: int, y: State| #[trigger]
                end.allows(x, i, y) <==> (middle.allows(x, i, y) || (x == b && y == a && i
                    == back)) by {
                if x.0 < state_count {
                    if x.0 != b.0 {
                        assert(end.state_rules@[x.0 as int] == middle.state_rules@[x.0 as int]);
                    }
                }
            }
            assert forall|s: int| 0 <= s < end.state_rules@.len() implies {
                &&& (#[trigger] end.state_rules@[s]).state == State(s as u32)
                &&& end.state_rules@[s].allowed_neighbors@.len() <= end.directions@.len()
                &&& end.state_rules@[s].wf(end.state_rules@.len())
            } by {
                assert(start.state_rules@[s].state == State(s as u32));
                if s != a.0 {
                    assert(middle.state_rules@[s] == start.state_rules@[s]);
                }
                if s != b.0 {
                    assert(end.state_rules@[s] == middle.state_rules@[s]);
                }
            }
            assert forall|x: State, y: State, i: int, j: int|
                0 <= i < Sp::all_directions().len() && 0 <= j < Sp::all_directions().len()
                    && Sp::all_directions()[j] == Sp::all_directions()[i].inverted() implies (
            #[trigger] end.allows(x, i, y) <==> #[trigger] end.allows(y, j, x)) by {
                let d = Sp::all_directions();
                assert(start.allows(x, i, y) <==> start.allows(y, j, x));
                assert(d.contains(d[i]) && d.contains(d[j]));
                if i == there {
                    assert(d[j] == d[back as int]);
                }
                if i == back {
                    assert(d[j] == d[there as int]);
                }
                if j == there {
                    assert(d[i] == d[j].inverted());
                    assert(d[i] == d[back as int]);
                }
                if j == back {
                    assert(d[i] == d[j].inverted());
                    assert(d[i] == d[there as int]);
                }
            }
            assert forall|x: State, i: int| #[trigger] end.entry(x, i) is Some implies start.entry(
                x,
                i,
            ) is Some || x == a || x == b by {
                if x.0 < state_count && x.0 != a.0 && x.0 != b.0 {
                    assert(middle.state_rules@[x.0 as int] == start.state_rules@[x.0 as int]);
                    assert(end.state_rules@[x.0 as int] == middle.state_rules@[x.0 as int]);
                }
            }
        }
    }

    /// Set the allowed neighbors for a cell based on their directions
    ///
    /// This will create symmetric rules. For example, if you set state A to be
    /// allowed to the left of B, then state B will be allowed to the right of
    /// A - you don't have to explicitly set both rules.
    ///
    /// A state which has no allowed neighbors in a given direction cannot
    /// stay in a cell that has a neighbor in that direction. It has no entry
    /// for that direction either: a declaration of no states makes none.
    pub fn allow(self, state: State, neighbors: &[(Sp::Direction, StateSet)]) -> (r: Self)
        requires
            self.wf(),
            state.0 < self.spec_state_count(),
            forall|k: int|
                0 <= k < neighbors@.len() ==> Sp::all_directions().contains(
                    (#[trigger] neighbors@[k]).0,
                ) && neighbors@[k].1@.len() == self.spec_state_count(),
        ensures
            r.wf(),
            r.spec_state_count() == self.spec_state_count(),
            r.spec_observer() == self.spec_observer(),
            forall|a: State, i: int, b: State| #[trigger]
                r.allows(a, i, b) <==> (self.allows(a, i, b) || exists|k: int|
                    0 <= k < neighbors@.len() && #[trigger] declares::<Sp>(
                        state,
                        neighbors@[k].0,
                        neighbors@[k].1,
                        a,
                        i,
                        b,
                    )),
            r.entries_accept(),
    {
        let mut builder = self;
        let mut k: usize = 0;
        while k < neighbors.len()
            invariant
                k <= neighbors@.len(),
                builder.wf(),
                builder.spec_state_count() == self.spec_state_count(),
                builder.spec_observer() == self.spec_observer(),
                state.0 < self.spec_state_count(),
                forall|k: int|
                    0 <= k < neighbors@.len() ==> Sp::all_directions().contains(
                        (#[trigger] neighbors@[k]).0,
                    ) && neighbors@[k].1@.len() == self.spec_state_count(),
                forall|a: State, i: int, b: State| #[trigger]
                    builder.allows(a, i, b) <==> (self.allows(a, i, b) || exists|q: int|
                        0 <= q < k && #[trigger] declares::<Sp>(
                            state,
                            neighbors@[q].0,
                            neighbors@[q].1,
                            a,
                            i,
                            b,
                        )),
            decreases neighbors@.len() - k,
        {
            let delta = neighbors[k].0;
            let states = neighbors[k].1.states();
            let ghost set = neighbors@[k as int].1;
            let ghost before = builder;
            assert(Sp::all_directions().contains(neighbors@[k as int].0));
            let mut m: usize = 0;
            while m < states.len()
                invariant
                    m <= states@.len(),
                    builder.wf(),
                    builder.spec_state_count() == self.spec_state_count(),
                    builder.spec_observer() == self.spec_observer(),
                    state.0 < self.spec_state_count(),
                    Sp::all_directions().contains(delta),
                    set@.len() == self.spec_state_count(),
                    forall|j: int| 0 <= j < states@.len() ==> set.contains(#[trigger] states@[j]),
                    forall|a: State, i: int, b: State| #[trigger]
                        builder.allows(a, i, b) <==> (before.allows(a, i, b) || exists|q: int|
                            0 <= q < m && #[trigger] declares_one::<Sp>(
                                state,
                                delta,
                                states@[q],
                                a,
                                i,
                                b,
                            )),
                decreases states@.len() - m,
            {
                let ghost earlier = builder;
                assert(set.contains(states@[m as int]));
                builder.allow_symmetric(state, states[m], &delta);
                proof {
                    assert forall|a: State, i: int, b: State| #[trigger]
                        builder.allows(a, i, b) <==> (before.allows(a, i, b) || exists|q: int|
                            0 <= q < m + 1 && #[trigger] declares_one::<Sp>(
                                state,
                                delta,
                                states@[q],
                                a,
                                i,
                                b,
                            )) by {
                        let now = declares_one::<Sp>(state, delta, states@[m as int], a, i, b);
                        assert(builder.allows(a, i, b) <==> (earlier.allows(a, i, b) || now));
                        if exists|q: int|
                            0 <= q < m + 1 && #[trigger] declares_one::<Sp>(
                                state,
                                delta,
                                states@[q],
                                a,
                                i,
                                b,
                            ) {
                            let q = choose|q: int|
                                0 <= q < m + 1 && #[trigger] declares_one::<Sp>(
                                    state,
                                    delta,
                                    states@[q],
                                    a,
                                    i,
                                    b,
                                );
                            if q < m {
                                assert(earlier.allows(a, i, b));
                            }
                        }
                    }
                }
                m += 1;
            }
            proof {
                assert forall|a: State, i: int, b: State| #[trigger]
                    builder.allows(a, i, b) <==> (self.allows(a, i, b) || exists|q: int|
                        0 <= q < k + 1 && #[trigger] declares::<Sp>(
                            state,
                            neighbors@[q].0,
                            neighbors@[q].1,
                            a,
                            i,
                            b,
                        )) by {
                    let whole = declares::<Sp>(state, delta, set, a, i, b);
                    let piecewise = exists|q: int|
                        0 <= q < states@.len() && #[trigger] declares_one::<Sp>(
                            state,
                            delta,
                            states@[q],
                            a,
                            i,
                            b,
                        );
                    if whole {
                        let n = if a == state && Sp::all_directions()[i] == delta && set.contains(
                            b,
                        ) {
                            b
                        } else {
                            a
                        };
                        assert(states@.contains(n));
                        let q = choose|q: int| 0 <= q < states@.len() && states@[q] == n;
                        assert(declares_one::<Sp>(state, delta, states@[q], a, i, b));
                    }
                    if piecewise {
                        let q = choose|q: int|
                            0 <= q < states@.len() && #[trigger] declares_one::<Sp>(
                                state,
                                delta,
                                states@[q],
                                a,
                                i,
                                b,
                            );
                        assert(set.contains(states@[q]));
                    }
                    assert(whole <==> piecewise);
                    assert(builder.allows(a, i, b) <==> (before.allows(a, i, b) || piecewise));
                    if whole {
                        assert(declares::<Sp>(
                            state,
                            neighbors@[k as int].0,
                            neighbors@[k as int].1,
                            a,
                            i,
                            b,
                        ));
                    }
                    if exists|q: int|
                        0 <= q < k + 1 && #[trigger] declares::<Sp>(
                            state,
                            neighbors@[q].0,
                            neighbors@[q].1,
                            a,
                            i,
                            b,
                        ) {
                        let q = choose|q: int|
                            0 <= q < k + 1 && #[trigger] declares::<Sp>(
                                state,
                                neighbors@[q].0,
                                neighbors@[q].1,
                                a,
                                i,
                                b,
                            );
                        if q < k {
                            assert(before.allows(a, i, b));
                        }
                    }
                }
            }
            k += 1;
        }
        proof {
            builder.lemma_entries_accept();
        }
        builder
    }

    /// The rules that were declared, with an entry for every state and
    /// every direction.
    pub fn build(self) -> (r: SetCollapseRules<O>)
        requires
            self.wf(),
        ensures
            r.wf(),
            r.spec_state_count() == self.spec_state_count(),
            r.spec_direction_count() == Sp::all_directions().len(),
            r.spec_observer() == self.spec_observer(),
            forall|a: State, i: int| #[trigger] r.entry(a, i) == self.entry(a, i),
            r.symmetric_over(Sp::all_directions()),
            r.entries_accept(),
    {
        let ghost start = self;
        let direction_count = self.directions.len();
        let mut state_rules = self.state_rules;
        let mut s: usize = 0;
        while s < state_rules.len()
            invariant
                s <= state_rules@.len(),
                state_rules@.len() == start.state_rules@.len(),
                start.wf(),
                direction_count == start.directions@.len(),
                forall|n: int|
                    0 <= n < state_rules@.len() ==> {
                        &&& (#[trigger] state_rules@[n]).state == State(n as u32)
                        &&& state_rules@[n].allowed_neighbors@.len() <= direction_count
                        &&& state_rules@[n].wf(state_rules@.len())
                        &&& forall|i: int|
                            state_rules@[n].entry(i) == start.state_rules@[n].entry(i)
                    },
                forall|n: int|
                    0 <= n < s ==> (#[trigger] state_rules@[n]).allowed_neighbors@.len()
                        == direction_count,
            decreases state_rules@.len() - s,
        {
            let ghost before = state_rules@;
            state_rules[s].pad(direction_count, Ghost(before.len()));
            proof {
                assert forall|n: int| 0 <= n < state_rules@.len() implies {
                    &&& (#[trigger] state_rules@[n]).state == State(n as u32)
                    &&& state_rules@[n].allowed_neighbors@.len() <= direction_count
                    &&& state_rules@[n].wf(state_rules@.len())
                    &&& forall|i: int| state_rules@[n].entry(i) == start.state_rules@[n].entry(i)
                } by {
                    assert(before[n].state == State(n as u32));
                    if n != s {
                        assert(state_rules@[n] == before[n]);
                    }
                }
                assert forall|n: int| 0 <= n < s + 1 implies (
                #[trigger] state_rules@[n]).allowed_neighbors@.len() == direction_count by {
                    if n != s {
                        assert(state_rules@[n] == before[n]);
                    }
                }
            }
            s += 1;
        }
        let r = SetCollapseRules { state_rules, direction_count, observer: self.observer };
        proof {
            assert forall|a: State, i: int| #[trigger] r.entry(a, i) == start.entry(a, i) by {
                if a.0 < r.state_rules@.len() {
                    assert(r.state_rules@[a.0 as int].entry(i) == start.state_rules@[a.0 as int].entry(
                        i,
                    ));
                }
            }
            assert forall|a: State, b: State, i: int, j: int|
                0 <= i < Sp::all_directions().len() && 0 <= j < Sp::all_directions().len()
                    && Sp::all_directions()[j] == Sp::all_directions()[i].inverted() implies (
            #[trigger] r.allows(a, i, b) <==> #[trigger] r.allows(b, j, a)) by {
                assert(r.entry(a, i) == start.entry(a, i));
                assert(r.entry(b, j) == start.entry(b, j));
                assert(start.allows(a, i, b) <==> start.allows(b, j, a));
            }
            assert(r.wf());
            r.lemma_entries_accept();
        }
        r
    }
}

/// Whether every neighbor that is there holds a state that `accepted`, the
/// row of `state` in the rules, accepts in its direction.
pub open spec fn supported_by(
    accepted: spec_fn(int) -> Option<Seq<bool>>,
    neighbors: Seq<Option<StateSet>>,
) -> bool {
    forall|i: int|
        0 <= i < neighbors.len() ==> (#[trigger] neighbors[i] matches Some(present) ==> (
        accepted(i) matches Some(set) && exists|b: int|
            0 <= b < set.len() && b < present@.len() && set[b] && #[trigger] present@[b]))
}

impl<O: SetCollapseObserver> SetCollapseRules<O> {
    /// The number of states that the rules are about.
    pub closed spec fn spec_state_count(&self) -> nat {
        self.state_rules@.len()
    }

    /// The number of directions that the rules are about.
    pub closed spec fn spec_direction_count(&self) -> nat {
        self.direction_count as nat
    }

    /// The observer that the rules carry.
    pub closed spec fn spec_observer(&self) -> O {
        self.observer
    }

    /// The states that `state` accepts in the direction of number
    /// `direction`, if any.
    pub closed spec fn entry(&self, state: State, direction: int) -> Option<Seq<bool>> {
        if state.0 < self.state_rules@.len() {
            self.state_rules@[state.0 as int].entry(direction)
        } else {
            None
        }
    }

    /// Whether `a` accepts `b` as its neighbor in the direction of number
    /// `direction`.
    pub open spec fn allows(&self, a: State, direction: int, b: State) -> bool {
        self.entry(a, direction) matches Some(set) && b.0 < set.len() && set[b.0 as int]
    }

    /// Whether `a` accepts `b` in a direction exactly where `b` accepts `a`
    /// in the opposite direction, the directions taken by their numbers in
    /// `directions`.
    pub open spec fn symmetric_over<D: InvertDelta>(&self, directions: Seq<D>) -> bool {
        forall|a: State, b: State, i: int, j: int|
            0 <= i < directions.len() && 0 <= j < directions.len() && directions[j]
                == directions[i].inverted() ==> (#[trigger] self.allows(a, i, b)
                <==> #[trigger] self.allows(b, j, a))
    }

    /// Whether `state` can stay in a cell beside `neighbors`, which holds
    /// for each direction the superposition of the neighbor there, if there
    /// is one: each neighbor holds a state that `state` accepts in its
    /// direction.
    pub open spec fn supported(&self, state: State, neighbors: Seq<Option<StateSet>>) -> bool {
        supported_by(|i: int| self.entry(state, i), neighbors)
    }

    /// Whether the rules are in order: an entry for every state and
    /// direction, each over all states, and an observer for that many
    /// states.
    pub closed spec fn wf(&self) -> bool {
        &&& self.state_rules@.len() <= u32::MAX
        &&& self.observer.admits(self.state_rules@.len())
        &&& forall|s: int|
            0 <= s < self.state_rules@.len() ==> {
                &&& (#[trigger] self.state_rules@[s]).state == State(s as u32)
                &&& self.state_rules@[s].allowed_neighbors@.len() == self.direction_count
                &&& self.state_rules@[s].wf(self.state_rules@.len())
            }
    }

    /// Whether every entry that is there holds a state: an entry is there
    /// only where the state accepts a state in that direction.
    pub open spec fn entries_accept(&self) -> bool {
        forall|a: State, i: int|
            (#[trigger] self.entry(a, i)) is Some ==> exists|b: State| self.allows(a, i, b)
    }

    /// Rules that are in order hold no entry without a state.
    pub proof fn lemma_entries_accept(&self)
        requires
            self.wf(),
        ensures
            self.entries_accept(),
    {
        assert forall|a: State, i: int| (#[trigger] self.entry(a, i)) is Some implies exists|
            b: State,
        |
            self.allows(a, i, b) by {
            let rule = self.state_rules@[a.0 as int];
            assert(rule.allowed_neighbors@[i] is Some);
            let set = self.entry(a, i).unwrap();
            let k = choose|k: int| 0 <= k < set.len() && #[trigger] set[k];
            assert(self.allows(a, i, State(k as u32)));
        }
    }

    /// Entries are held for the directions below the direction count only,
    /// and each ranges over all states.
    pub proof fn lemma_entries(&self)
        requires
            self.wf(),
        ensures
            self.spec_state_count() <= u32::MAX,
            self.spec_observer().admits(self.spec_state_count()),
            forall|a: State, i: int|
                (#[trigger] self.entry(a, i)) is Some ==> a.0 < self.spec_state_count() && 0 <= i
                    < self.spec_direction_count() && self.entry(a, i).unwrap().len()
                    == self.spec_state_count(),
    {
        assert forall|a: State, i: int| (#[trigger] self.entry(a, i)) is Some implies a.0
            < self.spec_state_count() && 0 <= i < self.spec_direction_count() && self.entry(
            a,
            i,
        ).unwrap().len() == self.spec_state_count() by {
            let rule = self.state_rules@[a.0 as int];
            assert(rule.allowed_neighbors@[i] is Some);
        }
    }

    /// The number of states that the rules are about.
    pub fn state_count(&self) -> (r: u32)
        requires
            self.wf(),
        ensures
            r == self.spec_state_count(),
    {
        self.state_rules.len() as u32
    }

    /// The number of directions that the rules are about.
    pub fn direction_count(&self) -> (r: usize)
        ensures
            r == self.spec_direction_count(),
    {
        self.direction_count
    }

    /// The states that `state` accepts in the direction of number
    /// `direction`, if it accepts any there.
    pub fn allowed(&self, state: State, direction: usize) -> (r: Option<&StateSet>)
        requires
            self.wf(),
            state.0 < self.spec_state_count(),
            direction < self.spec_direction_count(),
        ensures
            match r {
                Some(set) => self.entry(state, direction as int) == Some(set@),
                None => self.entry(state, direction as int) is None,
            },
    {
        self.state_rules[state.0 as usize].allowed_neighbors[direction].as_ref()
    }

    /// The observer that the rules carry.
    pub fn observer(&self) -> (r: &O)
        ensures
            *r == self.spec_observer(),
    {
        &self.observer
    }

    /// Narrows `cell` to the states that `neighbors` support: a state stays
    /// exactly where each neighbor that is there holds a state that it
    /// accepts in that direction. No state stays for having no neighbor.
    pub fn collapse(&self, cell: &mut StateSet, neighbors: &[Option<StateSet>])
        requires
            self.wf(),
            old(cell)@.len() == self.spec_state_count(),
            neighbors@.len() <= self.spec_direction_count(),
            forall|i: int|
                0 <= i < neighbors@.len() ==> (#[trigger] neighbors@[i] matches Some(present)
                    ==> present@.len() == self.spec_state_count()),
        ensures
            final(cell)@.len() == old(cell)@.len(),
            forall|s: State|
                s.0 < self.spec_state_count() ==> (#[trigger] final(cell).contains(s) <==> old(
                    cell,
                ).contains(s) && self.supported(s, neighbors@)),
            subset(final(cell)@, old(cell)@),
    {
        let state_count = self.state_rules.len();
        let mut n: usize = 0;
        while n < state_count
            invariant
                n <= state_count,
                state_count == self.state_rules@.len(),
                self.wf(),
                cell@.len() == state_count,
                neighbors@.len() <= self.spec_direction_count(),
                forall|i: int|
                    0 <= i < neighbors@.len() ==> (#[trigger] neighbors@[i] matches Some(present)
                        ==> present@.len() == self.spec_state_count()),
                forall|s: State|
                    s.0 < n ==> (#[trigger] cell.contains(s) <==> old(cell).contains(s)
                        && self.supported(s, neighbors@)),
                forall|s: State|
                    n <= s.0 < state_count ==> (#[trigger] cell.contains(s) <==> old(
                        cell,
                    ).contains(s)),
            decreases state_count - n,
        {
            let state = State(n as u32);
            let rule = &self.state_rules[n];
            let ghost entered = *cell;
            let ghost entering = cell@;
            if cell.has(state) {
                let mut i: usize = 0;
                while i < neighbors.len()
                    invariant
                        i <= neighbors@.len(),
                        n < state_count,
                        state == State(n as u32),
                        state_count == self.state_rules@.len(),
                        *rule == self.state_rules@[n as int],
                        self.wf(),
                        cell@.len() == state_count,
                        entering.len() == state_count,
                        entering[n as int],
                        neighbors@.len() <= self.spec_direction_count(),
                        forall|i: int|
                            0 <= i < neighbors@.len() ==> (
                            #[trigger] neighbors@[i] matches Some(present) ==> present@.len()
                                == self.spec_state_count()),
                        forall|j: int| 0 <= j < state_count && j != n ==> cell@[j] == entering[j],
                        cell@[n as int] <==> supported_by(
                            |i: int| self.entry(state, i),
                            neighbors@.take(i as int),
                        ),
                    decreases neighbors@.len() - i,
                {
                    let ghost sofar = neighbors@.take(i as int);
                    let ghost next = neighbors@.take(i + 1);
                    let ghost row = |i: int| self.entry(state, i);
                    let mut allow = true;
                    if let Some(neighbor_state) = &neighbors[i] {
                        allow =
                        if let Some(allowed_state) = &rule.allowed_neighbors[i] {
                            let any = neighbor_state.has_any(allowed_state);
                            proof {
                                let set = allowed_state@;
                                let present = neighbor_state@;
                                assert(row(i as int) == Some(set));
                                if any {
                                    let b = choose|b: int|
                                        0 <= b < present.len() && present[b] && set[b];
                                    assert(0 <= b < set.len() && b < present.len() && set[b]
                                        && present[b]);
                                }
                            }
                            any
                        } else {
                            false
                        };
                        if !allow {
                            cell.remove(state);
                        }
                    }
                    proof {
                        assert(next[i as int] == neighbors@[i as int]);
                        assert forall|j: int| 0 <= j < i implies next[j] == sofar[j] by {}
                        if supported_by(row, next) {
                            assert forall|j: int| 0 <= j < sofar.len() implies (
                            #[trigger] sofar[j] matches Some(present) ==> (row(j) matches Some(set)
                                && exists|b: int|
                                0 <= b < set.len() && b < present@.len() && set[b]
                                    && #[trigger] present@[b])) by {
                                assert(next[j] == sofar[j]);
                            }
                            assert(next[i as int] is Some ==> allow);
                        }
                        if supported_by(row, sofar) && allow {
                            assert forall|j: int| 0 <= j < next.len() implies (
                            #[trigger] next[j] matches Some(present) ==> (row(j) matches Some(set)
                                && exists|b: int|
                                0 <= b < set.len() && b < present@.len() && set[b]
                                    && #[trigger] present@[b])) by {
                                if j < i {
                                    assert(next[j] == sofar[j]);
                                }
                            }
                        }
                    }
                    i += 1;
                }
                assert(neighbors@.take(neighbors@.len() as int) =~= neighbors@);
            }
            proof {
                assert(entered.contains(state) <==> old(cell).contains(state));
                assert(cell.contains(state) <==> old(cell).contains(state) && self.supported(
                    state,
                    neighbors@,
                ));
                assert forall|s: State| s.0 < n + 1 implies (#[trigger] cell.contains(s) <==> old(
                    cell,
                ).contains(s) && self.supported(s, neighbors@)) by {
                    if s.0 == n {
                        assert(s == state);
                    } else {
                        assert(cell.contains(s) == entered.contains(s));
                    }
                }
                assert forall|s: State| n + 1 <= s.0 < state_count implies (
                #[trigger] cell.contains(s) <==> old(cell).contains(s)) by {
                    assert(cell.contains(s) == entered.contains(s));
                }
            }
            n += 1;
        }
        assert forall|k: int| 0 <= k < cell@.len() && cell@[k] implies old(cell)@[k] by {
            assert(cell.contains(State(k as u32)));
        }
    }

    /// Collapses `cell`, which must not be empty, into a single one of its
    /// states, as the observer of the rules chooses.
    pub fn observe(&self, cell: &mut StateSet, neighbors: &[Option<StateSet>], rng: &mut StdRng)
        requires
            self.wf(),
            old(cell)@.len() == self.spec_state_count(),
            count_true(old(cell)@) > 0,
        ensures
            subset(final(cell)@, old(cell)@),
            count_true(final(cell)@) == 1,
    {
        self.observer.observe(cell, neighbors, rng);
    }
}

} // verus!
