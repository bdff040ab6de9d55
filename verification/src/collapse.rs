//! The collapse loop: observation of a cell of least entropy, and
//! propagation of the rules to a fixed point.

use crate::consistency::{
    accepted_at, beside, cell_at, consistent, decided, entropy_at, kept, least_undecided,
    lemma_beside, lemma_kept_from_settled, lemma_replaced, lemma_same_views,
    lemma_stable_views, lemma_upheld, neighborhood, propagated, ranges_over, self_supporting,
    settled, single, solved, stable_at, upheld, views, within,
};
use crate::random::random_index;
use crate::rules::{SetCollapseObserver, SetCollapseRules};
use crate::space::Space;
use crate::state::{count_true, entropy_of, lemma_count_subset, subset, State, StateSet};
use rand::rngs::StdRng;
use std::collections::VecDeque;
use vstd::prelude::*;

verus! {

/// The number of states that the cells hold, all together.
pub open spec fn total_states(cells: Seq<StateSet>) -> nat
    decreases cells.len(),
{
    if cells.len() == 0 {
        0
    } else {
        total_states(cells.drop_last()) + count_true(cells.last()@)
    }
}

/// Whether every cell of `after` holds states of the same cell of `before`
/// only.
pub open spec fn narrows(before: Seq<StateSet>, after: Seq<StateSet>) -> bool {
    &&& after.len() == before.len()
    &&& forall|i: int| 0 <= i < after.len() ==> subset((#[trigger] after[i])@, before[i]@)
}

/// The least entropy other than zero among the cells at `coordinates`, and
/// `u32::MAX`, which is the entropy of no cell, where there is none.
pub open spec fn least_entropy<Sp: Space<StateSet>>(
    space: &Sp,
    coordinates: Seq<Sp::Coordinate>,
) -> nat
    decreases coordinates.len(),
{
    if coordinates.len() == 0 {
        u32::MAX as nat
    } else {
        let rest = least_entropy(space, coordinates.drop_last());
        let entropy = entropy_at(space, coordinates.last());
        if 0 < entropy < rest {
            entropy
        } else {
            rest
        }
    }
}

/// No cell at `coordinates` has an entropy between zero and the least.
pub proof fn lemma_least_entropy<Sp: Space<StateSet>>(
    space: &Sp,
    coordinates: Seq<Sp::Coordinate>,
)
    ensures
        least_entropy(space, coordinates) > 0,
        forall|j: int|
            0 <= j < coordinates.len() ==> entropy_at(space, #[trigger] coordinates[j]) == 0
                || entropy_at(space, coordinates[j]) >= least_entropy(space, coordinates),
    decreases coordinates.len(),
{
    if coordinates.len() > 0 {
        lemma_least_entropy(space, coordinates.drop_last());
        assert forall|j: int| 0 <= j < coordinates.len() implies entropy_at(
            space,
            #[trigger] coordinates[j],
        ) == 0 || entropy_at(space, coordinates[j]) >= least_entropy(space, coordinates) by {
            if j < coordinates.len() - 1 {
                assert(coordinates.drop_last()[j] == coordinates[j]);
            }
        }
    }
}

/// Where a cell at `coordinates` has an entropy other than zero, one of
/// them has the least.
pub proof fn lemma_least_is_met<Sp: Space<StateSet>>(space: &Sp, coordinates: Seq<Sp::Coordinate>)
    requires
        exists|j: int| 0 <= j < coordinates.len() && entropy_at(space, coordinates[j]) > 0,
        forall|j: int|
            0 <= j < coordinates.len() ==> entropy_at(space, #[trigger] coordinates[j])
                < u32::MAX,
    ensures
        coordinates.filter(
            |c: Sp::Coordinate| entropy_at(space, c) == least_entropy(space, coordinates),
        ).len() > 0,
    decreases coordinates.len(),
{
    let tied = |c: Sp::Coordinate| entropy_at(space, c) == least_entropy(space, coordinates);
    let rest = coordinates.drop_last();
    let last = coordinates.last();
    assert(coordinates =~= rest.push(last));
    rest.lemma_filter_push(last, tied);
    if !tied(last) {
        let j = choose|j: int| 0 <= j < coordinates.len() && entropy_at(space, coordinates[j]) > 0;
        if j == coordinates.len() - 1 {
            // the last has an entropy above the least, so the least is met before it
            assert(least_entropy(space, rest) < entropy_at(space, last));
            lemma_least_below_max(space, rest);
        } else {
            assert(rest[j] == coordinates[j]);
        }
        lemma_least_is_met(space, rest);
        assert(least_entropy(space, rest) == least_entropy(space, coordinates));
    }
}

/// Where the least entropy is below `u32::MAX`, a cell at `coordinates`
/// has an entropy other than zero.
pub proof fn lemma_least_below_max<Sp: Space<StateSet>>(
    space: &Sp,
    coordinates: Seq<Sp::Coordinate>,
)
    requires
        least_entropy(space, coordinates) < u32::MAX,
    ensures
        exists|j: int| 0 <= j < coordinates.len() && entropy_at(space, coordinates[j]) > 0,
    decreases coordinates.len(),
{
    if coordinates.len() > 0 {
        let rest = coordinates.drop_last();
        if least_entropy(space, rest) < u32::MAX {
            lemma_least_below_max(space, rest);
            let j = choose|j: int| 0 <= j < rest.len() && entropy_at(space, rest[j]) > 0;
            assert(coordinates[j] == rest[j]);
        } else {
            assert(entropy_at(space, coordinates[coordinates.len() - 1]) > 0);
        }
    }
}

/// Replacing one cell changes the total by what that cell gains or loses.
pub proof fn lemma_total_update(cells: Seq<StateSet>, i: int, cell: StateSet)
    requires
        0 <= i < cells.len(),
    ensures
        total_states(cells.update(i, cell)) + count_true(cells[i]@) == total_states(cells)
            + count_true(cell@),
    decreases cells.len(),
{
    let changed = cells.update(i, cell);
    if i == cells.len() - 1 {
        assert(changed.drop_last() =~= cells.drop_last());
    } else {
        lemma_total_update(cells.drop_last(), i, cell);
        assert(changed.drop_last() =~= cells.drop_last().update(i, cell));
    }
}

/// Narrowed cells hold no more states, all together, than before.
pub proof fn lemma_total_narrows(before: Seq<StateSet>, after: Seq<StateSet>)
    requires
        narrows(before, after),
    ensures
        total_states(after) <= total_states(before),
    decreases before.len(),
{
    if before.len() > 0 {
        assert forall|i: int| 0 <= i < after.drop_last().len() implies subset(
            (#[trigger] after.drop_last()[i])@,
            before.drop_last()[i]@,
        ) by {
            assert(subset(after[i]@, before[i]@));
        }
        lemma_total_narrows(before.drop_last(), after.drop_last());
        assert(subset(after[after.len() - 1]@, before[before.len() - 1]@));
        lemma_count_subset(after.last()@, before.last()@);
    }
}

/// Looks up the neighbor of `coord` in each direction.
fn fill_neighbors<Sp: Space<StateSet>>(
    space: &Sp,
    coord: Sp::Coordinate,
    directions: &Vec<Sp::Direction>,
    neighbors: &mut Vec<Option<Sp::Coordinate>>,
)
    requires
        Sp::contains(space.extent(), coord),
        directions@ == Sp::all_directions(),
        old(neighbors)@.len() == directions@.len(),
    ensures
        final(neighbors)@.len() == directions@.len(),
        forall|i: int|
            0 <= i < directions@.len() ==> #[trigger] final(neighbors)@[i] == Sp::step(
                space.extent(),
                coord,
                directions@[i],
            ),
{
    let mut i: usize = 0;
    while i < directions.len()
        invariant
            i <= directions@.len(),
            Sp::contains(space.extent(), coord),
            neighbors@.len() == directions@.len(),
            forall|j: int|
                0 <= j < i ==> #[trigger] neighbors@[j] == Sp::step(
                    space.extent(),
                    coord,
                    directions@[j],
                ),
        decreases directions@.len() - i,
    {
        neighbors[i] = space.neighbor(coord, directions[i]);
        i += 1;
    }
}

/// Copies the cell of each neighbor that is there.
fn snapshot_neighbors<Sp: Space<StateSet>>(
    space: &Sp,
    neighbors: &Vec<Option<Sp::Coordinate>>,
    neighbor_states: &mut Vec<Option<StateSet>>,
)
    requires
        space.wf(),
        old(neighbor_states)@.len() == neighbors@.len(),
        forall|i: int|
            0 <= i < neighbors@.len() ==> (#[trigger] neighbors@[i] matches Some(n)
                ==> Sp::contains(space.extent(), n)),
    ensures
        final(neighbor_states)@.len() == neighbors@.len(),
        forall|i: int|
            0 <= i < neighbors@.len() ==> match neighbors@[i] {
                Some(n) => (#[trigger] final(neighbor_states)@[i]) matches Some(present)
                    && present@ == cell_at(space, n)@,
                None => final(neighbor_states)@[i] is None,
            },
        forall|i: int|
            0 <= i < neighbors@.len() ==> (#[trigger] final(neighbor_states)@[i] matches Some(
                present,
            ) ==> neighbors@[i] is Some),
{
    let mut i: usize = 0;
    while i < neighbors.len()
        invariant
            i <= neighbors@.len(),
            space.wf(),
            neighbor_states@.len() == neighbors@.len(),
            forall|i: int|
                0 <= i < neighbors@.len() ==> (#[trigger] neighbors@[i] matches Some(n)
                    ==> Sp::contains(space.extent(), n)),
            forall|j: int|
                0 <= j < i ==> match neighbors@[j] {
                    Some(n) => (#[trigger] neighbor_states@[j]) matches Some(present)
                        && present@ == cell_at(space, n)@,
                    None => neighbor_states@[j] is None,
                },
        decreases neighbors@.len() - i,
    {
        neighbor_states[i] =
        match neighbors[i] {
            Some(coord) => Some(space.get(coord).clone()),
            None => None,
        };
        i += 1;
    }
}

/// Drops the decided and the contradictory cells from `unresolved`, in
/// place, gathers in `lowest_entropy_set` those of the rest whose entropy
/// is least, and draws one of these.
fn find_next_to_collapse<Sp: Space<StateSet>>(
    unresolved: &mut Vec<Sp::Coordinate>,
    lowest_entropy_set: &mut Vec<Sp::Coordinate>,
    space: &Sp,
    rng: &mut StdRng,
) -> (r: Option<Sp::Coordinate>)
    requires
        space.wf(),
        forall|j: int|
            0 <= j < old(unresolved)@.len() ==> Sp::contains(
                space.extent(),
                #[trigger] old(unresolved)@[j],
            ),
    ensures
        final(unresolved)@ == old(unresolved)@.filter(
            |c: Sp::Coordinate| entropy_at(space, c) > 0,
        ),
        final(lowest_entropy_set)@ == old(unresolved)@.filter(
            |c: Sp::Coordinate| entropy_at(space, c) == least_entropy(space, old(unresolved)@),
        ),
        r is None <==> final(unresolved)@.len() == 0,
        r matches Some(c) ==> final(lowest_entropy_set)@.contains(c),
        r is None ==> *final(rng) == *old(rng),
{
    let ghost all = unresolved@;
    let ghost live = |c: Sp::Coordinate| entropy_at(space, c) > 0;
    let mut lowest_entropy = u32::MAX;
    lowest_entropy_set.clear();
    let mut kept: usize = 0;
    let mut seen: usize = 0;
    proof {
        assert(all.take(0) =~= Seq::empty());
        reveal(Seq::filter);
    }
    while seen < unresolved.len()
        invariant
            kept <= seen <= all.len(),
            space.wf(),
            unresolved@.len() == all.len(),
            live == (|c: Sp::Coordinate| entropy_at(space, c) > 0),
            forall|j: int| 0 <= j < all.len() ==> Sp::contains(space.extent(), #[trigger] all[j]),
            forall|j: int| seen <= j < all.len() ==> #[trigger] unresolved@[j] == all[j],
            forall|j: int| 0 <= j < seen ==> entropy_at(space, #[trigger] all[j]) < u32::MAX,
            unresolved@.take(kept as int) == all.take(seen as int).filter(live),
            lowest_entropy == least_entropy(space, all.take(seen as int)),
            lowest_entropy_set@ == all.take(seen as int).filter(
                |c: Sp::Coordinate| entropy_at(space, c) == lowest_entropy,
            ),
        decreases all.len() - seen,
    {
        let coordinate = unresolved[seen];
        let ghost before = all.take(seen as int);
        let ghost lowest_before = lowest_entropy;
        proof {
            all.lemma_take_succ_push(seen as int);
            assert(all.take(seen + 1).drop_last() =~= before);
            before.lemma_filter_push(coordinate, live);
            space.lemma_wf();
            Sp::lemma_enumeration(space.extent());
            assert(Sp::contains(space.extent(), all[seen as int]));
        }
        let entropy = space.get(coordinate).entropy();
        if entropy != 0 {
            let ghost earlier = unresolved@;
            unresolved[kept] = coordinate;
            proof {
                assert(unresolved@.take(kept + 1) =~= earlier.take(kept as int).push(coordinate));
            }
            kept += 1;
            if entropy < lowest_entropy {
                lowest_entropy = entropy;
                lowest_entropy_set.clear();
                lowest_entropy_set.push(coordinate);
                proof {
                    let tied = |c: Sp::Coordinate| entropy_at(space, c) == lowest_entropy;
                    lemma_least_entropy(space, before);
                    assert(before.all(|x: Sp::Coordinate| !tied(x)));
                    before.lemma_all_neg_filter_empty(tied);
                    before.lemma_filter_push(coordinate, tied);
                    assert(lowest_entropy_set@ =~= before.filter(tied).push(coordinate));
                }
            } else if entropy == lowest_entropy {
                lowest_entropy_set.push(coordinate);
                proof {
                    let tied = |c: Sp::Coordinate| entropy_at(space, c) == lowest_entropy;
                    before.lemma_filter_push(coordinate, tied);
                }
            } else {
                proof {
                    let tied = |c: Sp::Coordinate| entropy_at(space, c) == lowest_entropy;
                    before.lemma_filter_push(coordinate, tied);
                }
            }
        } else {
            proof {
                let tied = |c: Sp::Coordinate| entropy_at(space, c) == lowest_entropy;
                before.lemma_filter_push(coordinate, tied);
                lemma_least_entropy(space, before);
            }
        }
        seen += 1;
    }
    unresolved.truncate(kept);
    proof {
        assert(all.take(all.len() as int) =~= all);
        let tied = |c: Sp::Coordinate| entropy_at(space, c) == least_entropy(space, all);
        lemma_least_entropy(space, all);
        if unresolved@.len() > 0 {
            // the least entropy is that of a kept cell, which is in the set
            let first = unresolved@[0];
            all.lemma_filter_contains_rev(live, first);
            lemma_least_is_met(space, all);
        } else {
            assert forall|j: int| 0 <= j < all.len() implies !tied(#[trigger] all[j]) by {
                if entropy_at(space, all[j]) > 0 {
                    assert(all.contains(all[j]));
                    all.lemma_filter_contains(live, j);
                }
            }
            assert(all.all(|x: Sp::Coordinate| !tied(x)));
            all.lemma_all_neg_filter_empty(tied);
        }
    }
    if lowest_entropy_set.len() == 0 {
        None
    } else {
        let chosen = random_index(lowest_entropy_set.len(), rng);
        Some(lowest_entropy_set[chosen])
    }
}

/// What a cell was narrowed to holds states that found support beside the
/// cell only, where the neighbors were copied from the space.
proof fn lemma_narrowed<Sp: Space<StateSet>, O: SetCollapseObserver>(
    before: &Sp,
    rules: &SetCollapseRules<O>,
    p: Sp::Coordinate,
    neighbors: Seq<Option<Sp::Coordinate>>,
    neighbor_states: Seq<Option<StateSet>>,
    s: State,
)
    requires
        neighbors.len() == Sp::all_directions().len(),
        neighbor_states.len() == neighbors.len(),
        forall|i: int|
            0 <= i < neighbors.len() ==> #[trigger] neighbors[i] == Sp::step(
                before.extent(),
                p,
                Sp::all_directions()[i],
            ),
        forall|i: int|
            0 <= i < neighbors.len() ==> match neighbors[i] {
                Some(n) => (#[trigger] neighbor_states[i]) matches Some(present) && present@
                    == cell_at(before, n)@,
                None => neighbor_states[i] is None,
            },
    ensures
        rules.supported(s, neighbor_states) == rules.supported(s, neighborhood(before, p)),
{
    assert forall|i: int| 0 <= i < neighbor_states.len() implies match (
        #[trigger] neighbor_states[i],
        neighborhood(before, p)[i],
    ) {
        (Some(x), Some(y)) => x@ == y@,
        (None, None) => true,
        _ => false,
    } by {
        assert(neighbors[i] == Sp::step(before.extent(), p, Sp::all_directions()[i]));
    }
    lemma_same_views(|i: int| rules.entry(s, i), neighbor_states, neighborhood(before, p));
}

/// Narrows the cells in the queue by the rules, and the neighbors of each
/// cell that shrank, until the queue is empty.
///
/// A state leaves a cell only for want of support. Where `since` holds the
/// cells that a solve began with, what the solve keeps true of the space is
/// true in the end, with every undecided cell stable.
fn run_propagation<Sp: Space<StateSet>, O: SetCollapseObserver>(
    space: &mut Sp,
    rules: &SetCollapseRules<O>,
    to_propagate: &mut VecDeque<Sp::Coordinate>,
    neighbors: &mut Vec<Option<Sp::Coordinate>>,
    neighbor_states: &mut Vec<Option<StateSet>>,
    directions: &Vec<Sp::Direction>,
    Ghost(since): Ghost<Option<Seq<StateSet>>>,
)
    requires
        old(space).wf(),
        rules.wf(),
        ranges_over(old(space).view(), rules.spec_state_count()),
        directions@ == Sp::all_directions(),
        rules.spec_direction_count() == directions@.len(),
        old(neighbors)@.len() == directions@.len(),
        old(neighbor_states)@.len() == directions@.len(),
        forall|j: int|
            0 <= j < old(to_propagate)@.len() ==> Sp::contains(
                old(space).extent(),
                #[trigger] old(to_propagate)@[j],
            ),
        kept(&*old(space), rules, since, old(to_propagate)@),
    ensures
        final(space).wf(),
        final(space).extent() == old(space).extent(),
        ranges_over(final(space).view(), rules.spec_state_count()),
        narrows(old(space).view(), final(space).view()),
        propagated::<Sp, O>(
            old(space).extent(),
            rules,
            views(old(space).view()),
            views(final(space).view()),
        ),
        forall|i: int|
            0 <= i < old(space).view().len() && entropy_of(old(space).view()[i]@) == 0 ==> (
            #[trigger] final(space).view()[i])@ == old(space).view()[i]@,
        final(to_propagate)@.len() == 0,
        final(neighbors)@.len() == directions@.len(),
        final(neighbor_states)@.len() == directions@.len(),
        kept(&*final(space), rules, since, Seq::empty()),
{
    proof {
        old(space).lemma_wf();
        Sp::lemma_enumeration(old(space).extent());
        assert(within(views(space.view()), views(old(space).view())));
    }
    while to_propagate.len() > 0
        invariant
            space.wf(),
            rules.wf(),
            space.extent() == old(space).extent(),
            ranges_over(space.view(), rules.spec_state_count()),
            narrows(old(space).view(), space.view()),
            forall|i: int|
                0 <= i < old(space).view().len() && entropy_of(old(space).view()[i]@) == 0 ==> (
                #[trigger] space.view()[i])@ == old(space).view()[i]@,
            forall|keep: Seq<Seq<bool>>|
                #![trigger within(keep, views(space.view()))]
                within(keep, views(old(space).view())) && self_supporting::<Sp, O>(
                    space.extent(),
                    rules,
                    keep,
                    views(old(space).view()),
                ) ==> within(keep, views(space.view())),
            directions@ == Sp::all_directions(),
            rules.spec_direction_count() == directions@.len(),
            neighbors@.len() == directions@.len(),
            neighbor_states@.len() == directions@.len(),
            forall|j: int|
                0 <= j < to_propagate@.len() ==> Sp::contains(
                    space.extent(),
                    #[trigger] to_propagate@[j],
                ),
            kept(&*space, rules, since, to_propagate@),
        decreases total_states(space.view()), to_propagate@.len(),
    {
        let ghost entering = *space;
        let ghost queued = to_propagate@;
        let propagating = to_propagate.pop_front().unwrap();
        let ghost rest = to_propagate@;
        assert(propagating == queued[0]);
        assert forall|j: int| 0 <= j < rest.len() implies Sp::contains(
            space.extent(),
            #[trigger] rest[j],
        ) by {
            assert(rest[j] == queued[j + 1]);
        }
        proof {
            space.lemma_wf();
            Sp::lemma_enumeration(space.extent());
            // whatever waited in the queue waits still, but for the cell taken from it
            assert forall|c: Sp::Coordinate| queued.contains(c) && c != propagating implies rest.contains(
                c,
            ) by {
                let j = choose|j: int| 0 <= j < queued.len() && queued[j] == c;
                assert(rest[j - 1] == c);
            }
        }
        let ghost at = Sp::position(space.extent(), propagating);
        let entropy_before = space.get(propagating).entropy();
        if entropy_before != 0 {
            fill_neighbors(&*space, propagating, directions, neighbors);
            proof {
                Sp::lemma_directions();
                assert forall|i: int| 0 <= i < neighbors@.len() implies (
                #[trigger] neighbors@[i] matches Some(n) ==> Sp::contains(space.extent(), n)) by {
                    assert(directions@.contains(directions@[i]));
                    Sp::lemma_step(space.extent(), propagating, directions@[i]);
                }
            }
            snapshot_neighbors(&*space, neighbors, neighbor_states);
            assert forall|i: int| 0 <= i < neighbor_states@.len() implies (
            #[trigger] neighbor_states@[i] matches Some(present) ==> present@.len()
                == rules.spec_state_count()) by {
                if let Some(n) = neighbors@[i] {
                    assert(Sp::contains(space.extent(), n));
                }
            }
            let cell = space.get_mut(propagating);
            rules.collapse(cell, neighbor_states.as_slice());
            proof {
                space.lemma_wf();
                rules.lemma_entries();
                let before = entering.view()[at];
                let after = space.view()[at];
                assert(space.view() == entering.view().update(at, after));
                lemma_count_subset(after@, before@);
                lemma_total_update(entering.view(), at, after);
                assert forall|i: int| 0 <= i < space.view().len() implies subset(
                    (#[trigger] space.view()[i])@,
                    old(space).view()[i]@,
                ) by {
                    assert(subset(entering.view()[i]@, old(space).view()[i]@));
                }
                assert forall|s: State| #[trigger] cell_at(&*space, propagating).contains(
                    s,
                ) implies rules.supported(s, neighborhood(&entering, propagating)) by {
                    lemma_narrowed(&entering, rules, propagating, neighbors@, neighbor_states@, s);
                }
                // states that hold each other up all stay
                assert forall|keep: Seq<Seq<bool>>|
                    #![trigger within(keep, views(space.view()))]
                    within(keep, views(old(space).view())) && self_supporting::<Sp, O>(
                        space.extent(),
                        rules,
                        keep,
                        views(old(space).view()),
                    ) implies within(keep, views(space.view())) by {
                    lemma_count_subset(before@, old(space).view()[at]@);
                    assert(entropy_of(views(old(space).view())[at]) > 0);
                    assert(within(keep, views(entering.view())));
                    assert forall|i: int| 0 <= i < keep.len() implies subset(
                        #[trigger] keep[i],
                        views(space.view())[i],
                    ) by {
                        assert(subset(keep[i], views(entering.view())[i]));
                        if i == at {
                            assert forall|j: int| 0 <= j < keep[i].len() && keep[i][j] implies after@[j] by {
                                let s = State(j as u32);
                                assert(before@[j]);
                                assert(upheld::<Sp, O>(space.extent(), rules, keep, propagating, s));
                                lemma_upheld(&entering, rules, keep, propagating, s);
                                lemma_narrowed(
                                    &entering,
                                    rules,
                                    propagating,
                                    neighbors@,
                                    neighbor_states@,
                                    s,
                                );
                                assert(before.contains(s));
                                assert(after.contains(s));
                            }
                        }
                    }
                }
                if let Some(origin) = since {
                    assert(subset(before@, origin[at]@));
                    lemma_count_subset(before@, origin[at]@);
                    lemma_replaced(&entering, &*space, rules, origin, propagating);
                    assert forall|i: int| 0 <= i < origin.len() implies subset(
                        (#[trigger] space.view()[i])@,
                        origin[i]@,
                    ) by {
                        assert(subset(entering.view()[i]@, origin[i]@));
                    }
                }
            }
            let entropy_after = space.get(propagating).entropy();
            let ghost narrowed = *space;
            if entropy_after < entropy_before {
                let mut i: usize = 0;
                while i < directions.len()
                    invariant
                        i <= directions@.len(),
                        space.wf(),
                        *space == narrowed,
                        neighbors@.len() == directions@.len(),
                        forall|i: int|
                            0 <= i < neighbors@.len() ==> (
                            #[trigger] neighbors@[i] matches Some(n) ==> Sp::contains(
                                space.extent(),
                                n,
                            )),
                        forall|j: int|
                            0 <= j < to_propagate@.len() ==> Sp::contains(
                                space.extent(),
                                #[trigger] to_propagate@[j],
                            ),
                        forall|c: Sp::Coordinate| rest.contains(c) ==> to_propagate@.contains(c),
                        forall|j: int|
                            0 <= j < i ==> (#[trigger] neighbors@[j] matches Some(n) ==> entropy_at(
                                &*space,
                                n,
                            ) == 0 || to_propagate@.contains(n)),
                    decreases directions@.len() - i,
                {
                    let ghost waiting = to_propagate@;
                    if let Some(neighbor) = neighbors[i] {
                        if space.get(neighbor).entropy() != 0 {
                            to_propagate.push_back(neighbor);
                            proof {
                                assert(to_propagate@[waiting.len() as int] == neighbor);
                                assert forall|c: Sp::Coordinate|
                                    waiting.contains(c) implies to_propagate@.contains(c) by {
                                    let j = choose|j: int| 0 <= j < waiting.len() && waiting[j] == c;
                                    assert(to_propagate@[j] == c);
                                }
                            }
                        }
                    }
                    i += 1;
                }
                proof {
                    if let Some(origin) = since {
                        let queue = to_propagate@;
                        assert forall|c: Sp::Coordinate|
                            #![trigger stable_at(&*space, rules, c)]
                            Sp::contains(space.extent(), c) && entropy_at(&*space, c) > 0
                                && !queue.contains(c) implies stable_at(&*space, rules, c) by {
                            if c != propagating {
                                if beside::<Sp>(space.extent(), c, propagating) {
                                    lemma_beside::<Sp>(space.extent(), c, propagating);
                                    let j = choose|j: int|
                                        0 <= j < directions@.len() && #[trigger] Sp::step(
                                            space.extent(),
                                            propagating,
                                            directions@[j],
                                        ) == Some(c);
                                    assert(neighbors@[j] == Some(c));
                                }
                                assert(cell_at(&*space, c) == cell_at(&entering, c));
                                assert(stable_at(&entering, rules, c));
                            }
                        }
                        assert forall|c: Sp::Coordinate|
                            #![trigger accepted_at(&*space, rules, c)]
                            Sp::contains(space.extent(), c) && entropy_of(
                                origin[Sp::position(space.extent(), c)]@,
                            ) > 0 implies accepted_at(&*space, rules, c) || (queue.contains(c)
                            && entropy_at(&*space, c) > 0) by {
                            if c != propagating {
                                assert(cell_at(&*space, c) == cell_at(&entering, c));
                                if !accepted_at(&entering, rules, c) {
                                    assert(rest.contains(c));
                                }
                            }
                        }
                    }
                }
            } else {
                proof {
                    if let Some(origin) = since {
                        assert(cell_at(&*space, propagating)@ == cell_at(&entering, propagating)@);
                        assert forall|c: Sp::Coordinate|
                            #![trigger stable_at(&*space, rules, c)]
                            Sp::contains(space.extent(), c) && entropy_at(&*space, c) > 0
                                && !rest.contains(c) implies stable_at(&*space, rules, c) by {
                            if c != propagating {
                                assert(cell_at(&*space, c) == cell_at(&entering, c));
                                assert(stable_at(&entering, rules, c));
                            }
                        }
                        assert forall|c: Sp::Coordinate|
                            #![trigger accepted_at(&*space, rules, c)]
                            Sp::contains(space.extent(), c) && entropy_of(
                                origin[Sp::position(space.extent(), c)]@,
                            ) > 0 implies accepted_at(&*space, rules, c) || (rest.contains(c)
                            && entropy_at(&*space, c) > 0) by {
                            if c != propagating {
                                assert(cell_at(&*space, c) == cell_at(&entering, c));
                                if !accepted_at(&entering, rules, c) {
                                    assert(rest.contains(c));
                                }
                            }
                        }
                    }
                }
            }
        } else {
            proof {
                if let Some(origin) = since {
                    assert forall|c: Sp::Coordinate|
                        #![trigger stable_at(&*space, rules, c)]
                        Sp::contains(space.extent(), c) && entropy_at(&*space, c) > 0
                            && !rest.contains(c) implies stable_at(&*space, rules, c) by {
                        assert(c != propagating);
                    }
                    assert forall|c: Sp::Coordinate|
                        #![trigger accepted_at(&*space, rules, c)]
                        Sp::contains(space.extent(), c) && entropy_of(
                            origin[Sp::position(space.extent(), c)]@,
                        ) > 0 implies accepted_at(&*space, rules, c) || (rest.contains(c)
                        && entropy_at(&*space, c) > 0) by {
                        if !accepted_at(&*space, rules, c) {
                            assert(c != propagating);
                        }
                    }
                }
            }
        }
    }
    proof {
        assert(to_propagate@ =~= Seq::empty());
        assert(within(views(space.view()), views(old(space).view()))) by {
            assert forall|i: int| 0 <= i < space.view().len() implies subset(
                #[trigger] views(space.view())[i],
                views(old(space).view())[i],
            ) by {
                assert(subset(space.view()[i]@, old(space).view()[i]@));
            }
        }
        assert forall|i: int|
            0 <= i < views(old(space).view()).len() && entropy_of(
                views(old(space).view())[i],
            ) == 0 implies #[trigger] views(space.view())[i] == views(old(space).view())[i] by {
            assert(space.view()[i]@ == old(space).view()[i]@);
        }
    }
}

/// Buffers for the neighbors of a cell and for copies of their cells, one
/// place for each direction.
fn scratch<Sp: Space<StateSet>>(directions: &Vec<Sp::Direction>) -> (r: (
    Vec<Option<Sp::Coordinate>>,
    Vec<Option<StateSet>>,
))
    ensures
        r.0@.len() == directions@.len(),
        r.1@.len() == directions@.len(),
{
    let mut neighbors: Vec<Option<Sp::Coordinate>> = Vec::new();
    let mut neighbor_states: Vec<Option<StateSet>> = Vec::new();
    let mut d: usize = 0;
    while d < directions.len()
        invariant
            d <= directions@.len(),
            neighbors@.len() == d,
            neighbor_states@.len() == d,
        decreases directions@.len() - d,
    {
        neighbors.push(None);
        neighbor_states.push(None);
        d += 1;
    }
    (neighbors, neighbor_states)
}

/// Leaves the cell at `coordinate` with `state` alone, which it holds, and
/// propagates the rules from its neighbors, which `neighbors` holds.
fn decide<Sp: Space<StateSet>, O: SetCollapseObserver>(
    space: &mut Sp,
    rules: &SetCollapseRules<O>,
    coordinate: Sp::Coordinate,
    state: State,
    to_propagate: &mut VecDeque<Sp::Coordinate>,
    neighbors: &mut Vec<Option<Sp::Coordinate>>,
    neighbor_states: &mut Vec<Option<StateSet>>,
    directions: &Vec<Sp::Direction>,
    Ghost(since): Ghost<Option<Seq<StateSet>>>,
)
    requires
        old(space).wf(),
        rules.wf(),
        ranges_over(old(space).view(), rules.spec_state_count()),
        directions@ == Sp::all_directions(),
        rules.spec_direction_count() == directions@.len(),
        old(neighbors)@.len() == directions@.len(),
        old(neighbor_states)@.len() == directions@.len(),
        forall|i: int|
            0 <= i < directions@.len() ==> #[trigger] old(neighbors)@[i] == Sp::step(
                old(space).extent(),
                coordinate,
                directions@[i],
            ),
        Sp::contains(old(space).extent(), coordinate),
        cell_at(&*old(space), coordinate).contains(state),
        since is Some ==> entropy_at(&*old(space), coordinate) > 0,
        kept(&*old(space), rules, since, Seq::empty()),
    ensures
        final(space).wf(),
        final(space).extent() == old(space).extent(),
        ranges_over(final(space).view(), rules.spec_state_count()),
        narrows(old(space).view(), final(space).view()),
        decided::<Sp, O>(
            old(space).extent(),
            rules,
            views(old(space).view()),
            coordinate,
            state,
            views(final(space).view()),
        ),
        entropy_at(&*old(space), coordinate) > 0 ==> total_states(final(space).view())
            < total_states(old(space).view()),
        final(to_propagate)@.len() == 0,
        final(neighbors)@.len() == directions@.len(),
        final(neighbor_states)@.len() == directions@.len(),
        kept(&*final(space), rules, since, Seq::empty()),
{
    let ghost entering = *space;
    let ghost at = Sp::position(space.extent(), coordinate);
    let ghost nothing = Seq::<Sp::Coordinate>::empty();
    proof {
        space.lemma_wf();
        Sp::lemma_enumeration(space.extent());
        Sp::lemma_directions();
        rules.lemma_entries();
        assert forall|i: int| 0 <= i < neighbors@.len() implies (
        #[trigger] neighbors@[i] matches Some(n) ==> Sp::contains(space.extent(), n)) by {
            assert(directions@.contains(directions@[i]));
            Sp::lemma_step(space.extent(), coordinate, directions@[i]);
        }
    }
    let state_count = space.get(coordinate).len();
    let cell = space.get_mut(coordinate);
    *cell = StateSet::state(state_count, state);
    proof {
        space.lemma_wf();
        let before = entering.view()[at];
        let after = space.view()[at];
        assert(space.view() == entering.view().update(at, after));
        assert(subset(after@, before@));
        lemma_count_subset(after@, before@);
        lemma_total_update(entering.view(), at, after);
        assert(views(space.view()) =~= views(entering.view()).update(
            at,
            single(views(entering.view())[at].len(), state),
        ));
        assert forall|i: int| 0 <= i < space.view().len() implies subset(
            (#[trigger] space.view()[i])@,
            entering.view()[i]@,
        ) by {}
        if let Some(origin) = since {
            assert(!nothing.contains(coordinate));
            assert(stable_at(&entering, rules, coordinate));
            assert forall|s: State| #[trigger] cell_at(&*space, coordinate).contains(
                s,
            ) implies rules.supported(s, neighborhood(&entering, coordinate)) by {
                assert(cell_at(&entering, coordinate).contains(s));
            }
            assert(subset(before@, origin[at]@));
            lemma_count_subset(before@, origin[at]@);
            lemma_replaced(&entering, &*space, rules, origin, coordinate);
            assert forall|i: int| 0 <= i < origin.len() implies subset(
                (#[trigger] space.view()[i])@,
                origin[i]@,
            ) by {
                assert(subset(entering.view()[i]@, origin[i]@));
            }
        }
    }
    let ghost chosen = *space;
    to_propagate.clear();
    let mut i: usize = 0;
    while i < directions.len()
        invariant
            i <= directions@.len(),
            *space == chosen,
            neighbors@.len() == directions@.len(),
            forall|i: int|
                0 <= i < neighbors@.len() ==> (#[trigger] neighbors@[i] matches Some(n)
                    ==> Sp::contains(space.extent(), n)),
            forall|j: int|
                0 <= j < to_propagate@.len() ==> Sp::contains(
                    space.extent(),
                    #[trigger] to_propagate@[j],
                ),
            forall|j: int|
                0 <= j < i ==> (#[trigger] neighbors@[j] matches Some(n)
                    ==> to_propagate@.contains(n)),
        decreases directions@.len() - i,
    {
        let ghost waiting = to_propagate@;
        if let Some(neighbor_coord) = neighbors[i] {
            to_propagate.push_back(neighbor_coord);
            proof {
                assert(to_propagate@[waiting.len() as int] == neighbor_coord);
                assert forall|c: Sp::Coordinate| waiting.contains(c) implies to_propagate@.contains(
                    c,
                ) by {
                    let j = choose|j: int| 0 <= j < waiting.len() && waiting[j] == c;
                    assert(to_propagate@[j] == c);
                }
            }
        }
        i += 1;
    }
    proof {
        if let Some(origin) = since {
            let queue = to_propagate@;
            assert forall|c: Sp::Coordinate|
                #![trigger stable_at(&*space, rules, c)]
                Sp::contains(space.extent(), c) && entropy_at(&*space, c) > 0 && !queue.contains(
                    c,
                ) implies stable_at(&*space, rules, c) by {
                assert(c != coordinate);
                if beside::<Sp>(space.extent(), c, coordinate) {
                    lemma_beside::<Sp>(space.extent(), c, coordinate);
                    let j = choose|j: int|
                        0 <= j < directions@.len() && #[trigger] Sp::step(
                            space.extent(),
                            coordinate,
                            directions@[j],
                        ) == Some(c);
                    assert(neighbors@[j] == Some(c));
                }
                assert(cell_at(&*space, c) == cell_at(&entering, c));
                assert(!nothing.contains(c));
                assert(stable_at(&entering, rules, c));
            }
            assert forall|c: Sp::Coordinate|
                #![trigger accepted_at(&*space, rules, c)]
                Sp::contains(space.extent(), c) && entropy_of(
                    origin[Sp::position(space.extent(), c)]@,
                ) > 0 implies accepted_at(&*space, rules, c) || (queue.contains(c) && entropy_at(
                &*space,
                c,
            ) > 0) by {
                if c != coordinate {
                    assert(!nothing.contains(c));
                    assert(accepted_at(&entering, rules, c));
                }
            }
        }
    }
    run_propagation(space, rules, to_propagate, neighbors, neighbor_states, directions, Ghost(since));
    proof {
        lemma_total_narrows(chosen.view(), space.view());
        assert forall|i: int| 0 <= i < space.view().len() implies subset(
            (#[trigger] space.view()[i])@,
            entering.view()[i]@,
        ) by {
            assert(subset(space.view()[i]@, chosen.view()[i]@));
            assert(subset(chosen.view()[i]@, entering.view()[i]@));
        }
    }
}

/// Narrows the cells in `to_propagate` by the rules, and the neighbors of
/// each cell that shrank, until nothing is left to narrow. A cell with one
/// state or none is not narrowed.
///
/// No cell gains a state, and a state leaves a cell only for want of
/// support: states that hold each other up all stay. Where every undecided
/// cell outside `to_propagate` is stable at the start, every undecided cell
/// is stable in the end.
pub fn propagate<Sp: Space<StateSet>, O: SetCollapseObserver>(
    space: &mut Sp,
    rules: &SetCollapseRules<O>,
    to_propagate: &mut VecDeque<Sp::Coordinate>,
)
    requires
        old(space).wf(),
        rules.wf(),
        ranges_over(old(space).view(), rules.spec_state_count()),
        rules.spec_direction_count() == Sp::all_directions().len(),
        forall|j: int|
            0 <= j < old(to_propagate)@.len() ==> Sp::contains(
                old(space).extent(),
                #[trigger] old(to_propagate)@[j],
            ),
    ensures
        final(space).wf(),
        final(space).extent() == old(space).extent(),
        ranges_over(final(space).view(), rules.spec_state_count()),
        propagated::<Sp, O>(
            old(space).extent(),
            rules,
            views(old(space).view()),
            views(final(space).view()),
        ),
        final(to_propagate)@.len() == 0,
        settled(&*old(space), rules, old(to_propagate)@) ==> settled(
            &*final(space),
            rules,
            Seq::empty(),
        ),
{
    let directions = Sp::directions();
    let (mut neighbors, mut neighbor_states) = scratch::<Sp>(&directions);
    let ghost since = if settled(&*space, rules, to_propagate@) {
        Some(space.view())
    } else {
        None
    };
    proof {
        if settled(&*space, rules, to_propagate@) {
            lemma_kept_from_settled(&*space, rules, to_propagate@);
        }
    }
    run_propagation(
        space,
        rules,
        to_propagate,
        &mut neighbors,
        &mut neighbor_states,
        &directions,
        Ghost(since),
    );
}

/// Decides the cell at `coordinate` for `state`, which it holds: the cell
/// is left with `state` alone, and the rules are propagated from its
/// neighbors.
///
/// No other cell gains a state, and a state leaves a cell only for want of
/// support. Where the cell was undecided and every undecided cell was
/// stable, every undecided cell is stable in the end.
pub fn collapse_cell<Sp: Space<StateSet>, O: SetCollapseObserver>(
    space: &mut Sp,
    rules: &SetCollapseRules<O>,
    coordinate: Sp::Coordinate,
    state: State,
)
    requires
        old(space).wf(),
        rules.wf(),
        ranges_over(old(space).view(), rules.spec_state_count()),
        rules.spec_direction_count() == Sp::all_directions().len(),
        Sp::contains(old(space).extent(), coordinate),
        cell_at(&*old(space), coordinate).contains(state),
    ensures
        final(space).wf(),
        final(space).extent() == old(space).extent(),
        ranges_over(final(space).view(), rules.spec_state_count()),
        decided::<Sp, O>(
            old(space).extent(),
            rules,
            views(old(space).view()),
            coordinate,
            state,
            views(final(space).view()),
        ),
        settled(&*old(space), rules, Seq::empty()) && entropy_at(&*old(space), coordinate) > 0
            ==> settled(&*final(space), rules, Seq::empty()),
{
    let directions = Sp::directions();
    let (mut neighbors, mut neighbor_states) = scratch::<Sp>(&directions);
    let mut to_propagate: VecDeque<Sp::Coordinate> = VecDeque::new();
    fill_neighbors(&*space, coordinate, &directions, &mut neighbors);
    let ghost orderly = settled(&*space, rules, Seq::empty()) && entropy_at(&*space, coordinate)
        > 0;
    let ghost since = if orderly {
        Some(space.view())
    } else {
        None
    };
    proof {
        if orderly {
            lemma_kept_from_settled(&*space, rules, Seq::empty());
        }
    }
    decide(
        space,
        rules,
        coordinate,
        state,
        &mut to_propagate,
        &mut neighbors,
        &mut neighbor_states,
        &directions,
        Ghost(since),
    );
}

/// Perform the wave function collapse algorithm on a given state-space
/// with the provided collapse rules.
///
/// The rules are propagated from every undecided cell. Then, as long as a
/// cell is undecided, one of those with the fewest states is drawn, the
/// observer of the rules draws one of its states, and the cell is decided
/// for it as [`collapse_cell`] does. The space ends as such a course of
/// choices leaves it; where propagation alone decides every cell, nothing
/// is drawn.
///
/// Every cell ends decided or contradictory: with one state or with none.
/// No cell gains a state, and a cell that was decided or contradictory
/// already is left as it was. A cell that was neither holds in the end no
/// state that accepts nothing in a direction in which the cell has a
/// neighbor. Where the rules are symmetric, two decided cells side by side
/// hold states that accept each other, unless both were decided from the
/// start.
pub fn collapse<Sp: Space<StateSet>, O: SetCollapseObserver>(
    space: &mut Sp,
    rules: &SetCollapseRules<O>,
    rng: &mut StdRng,
)
    requires
        old(space).wf(),
        rules.wf(),
        ranges_over(old(space).view(), rules.spec_state_count()),
        rules.spec_direction_count() == Sp::all_directions().len(),
    ensures
        final(space).wf(),
        final(space).extent() == old(space).extent(),
        ranges_over(final(space).view(), rules.spec_state_count()),
        narrows(old(space).view(), final(space).view()),
        exists|choices: Seq<(Sp::Coordinate, State)>, spaces: Seq<Seq<Seq<bool>>>|
            {
                &&& #[trigger] solved::<Sp, O>(
                    old(space).extent(),
                    rules,
                    views(old(space).view()),
                    choices,
                    spaces,
                )
                &&& spaces.last() == views(final(space).view())
                &&& choices.len() == 0 ==> *final(rng) == *old(rng)
            },
        (forall|i: int|
            0 <= i < old(space).view().len() ==> entropy_of((#[trigger] old(space).view()[i])@)
                == 0) ==> *final(rng) == *old(rng),
        forall|i: int|
            0 <= i < final(space).view().len() ==> entropy_of(
                (#[trigger] final(space).view()[i])@,
            ) == 0,
        forall|i: int|
            0 <= i < old(space).view().len() && entropy_of(old(space).view()[i]@) == 0 ==> (
            #[trigger] final(space).view()[i])@ == old(space).view()[i]@,
        forall|c: Sp::Coordinate|
            #![trigger accepted_at(&*final(space), rules, c)]
            Sp::contains(old(space).extent(), c) && entropy_of(
                old(space).view()[Sp::position(old(space).extent(), c)]@,
            ) > 0 ==> accepted_at(&*final(space), rules, c),
        rules.symmetric_over(Sp::all_directions()) ==> consistent(
            &*final(space),
            rules,
            old(space).view(),
        ),
{
    proof {
        space.lemma_wf();
        Sp::lemma_enumeration(space.extent());
    }
    let ghost origin = space.view();
    let ghost since = Some(origin);
    let ghost dimensions = space.extent();
    let directions = Sp::directions();
    let coordinates = Sp::coordinates(space.dimensions());
    let mut unresolved: Vec<Sp::Coordinate> = Vec::new();
    let mut to_propagate: VecDeque<Sp::Coordinate> = VecDeque::new();
    let mut n: usize = 0;
    while n < coordinates.len()
        invariant
            n <= coordinates@.len(),
            space.wf(),
            *space == *old(space),
            coordinates@.len() == Sp::volume(space.extent()),
            coordinates@.len() == space.view().len(),
            forall|i: int|
                0 <= i < coordinates@.len() ==> #[trigger] coordinates@[i] == Sp::coordinate_at(
                    space.extent(),
                    i,
                ),
            forall|j: int|
                0 <= j < unresolved@.len() ==> Sp::contains(space.extent(), #[trigger] unresolved@[j]),
            forall|j: int|
                0 <= j < to_propagate@.len() ==> Sp::contains(
                    space.extent(),
                    #[trigger] to_propagate@[j],
                ),
            forall|i: int|
                0 <= i < n && entropy_of(space.view()[i]@) > 0 ==> unresolved@.contains(
                    #[trigger] coordinates@[i],
                ) && to_propagate@.contains(coordinates@[i]),
        decreases coordinates@.len() - n,
    {
        let coordinate = coordinates[n];
        proof {
            Sp::lemma_enumeration(space.extent());
            assert(coordinate == Sp::coordinate_at(space.extent(), n as int));
        }
        if space.get(coordinate).entropy() > 0 {
            let ghost before = unresolved@;
            let ghost waiting = to_propagate@;
            unresolved.push(coordinate);
            to_propagate.push_back(coordinate);
            proof {
                assert forall|i: int|
                    0 <= i < n + 1 && entropy_of(space.view()[i]@) > 0 implies unresolved@.contains(
                    #[trigger] coordinates@[i],
                ) && to_propagate@.contains(coordinates@[i]) by {
                    if i < n {
                        let j = choose|j: int| 0 <= j < before.len() && before[j] == coordinates@[i];
                        assert(unresolved@[j] == coordinates@[i]);
                        let k = choose|k: int|
                            0 <= k < waiting.len() && waiting[k] == coordinates@[i];
                        assert(to_propagate@[k] == coordinates@[i]);
                    } else {
                        assert(unresolved@[before.len() as int] == coordinates@[i]);
                        assert(to_propagate@[waiting.len() as int] == coordinates@[i]);
                    }
                }
            }
        }
        n += 1;
    }
    let (mut neighbors, mut neighbor_states) = scratch::<Sp>(&directions);
    let mut lowest_entropy_set: Vec<Sp::Coordinate> = Vec::new();
    proof {
        let queue = to_propagate@;
        assert forall|c: Sp::Coordinate|
            Sp::contains(space.extent(), c) && entropy_at(&*space, c) > 0 implies queue.contains(
            c,
        ) by {
            let i = Sp::position(space.extent(), c);
            assert(coordinates@[i] == c);
        }
        if rules.symmetric_over(Sp::all_directions()) {
            assert forall|c: Sp::Coordinate, i: int|
                #![trigger crate::consistency::agrees(&*space, rules, origin, c, i)]
                Sp::contains(space.extent(), c) && 0 <= i
                    < Sp::all_directions().len() implies crate::consistency::agrees(
                &*space,
                rules,
                origin,
                c,
                i,
            ) by {
                Sp::lemma_directions();
                assert(Sp::all_directions().contains(Sp::all_directions()[i]));
                Sp::lemma_step(space.extent(), c, Sp::all_directions()[i]);
            }
        }
    }
    run_propagation(
        space,
        rules,
        &mut to_propagate,
        &mut neighbors,
        &mut neighbor_states,
        &directions,
        Ghost(since),
    );
    let ghost mut choices: Seq<(Sp::Coordinate, State)> = Seq::empty();
    let ghost mut spaces: Seq<Seq<Seq<bool>>> = seq![views(space.view())];
    proof {
        assert forall|i: int|
            0 <= i < space.view().len() && entropy_of(space.view()[i]@) > 0 implies unresolved@.contains(
            Sp::coordinate_at(space.extent(), i),
        ) by {
            assert(subset(space.view()[i]@, old(space).view()[i]@));
            lemma_count_subset(space.view()[i]@, old(space).view()[i]@);
            assert(unresolved@.contains(coordinates@[i]));
        }
        assert(spaces[0] == views(space.view()));
        assert forall|c: Sp::Coordinate|
            #![trigger stable_at(&*space, rules, c)]
            Sp::contains(space.extent(), c) && entropy_at(&*space, c) > 0 implies stable_at(
            &*space,
            rules,
            c,
        ) by {
            assert(!Seq::<Sp::Coordinate>::empty().contains(c));
        }
        lemma_stable_views(&*space, rules);
    }
    loop
        invariant
            space.wf(),
            rules.wf(),
            space.extent() == old(space).extent(),
            dimensions == old(space).extent(),
            origin == old(space).view(),
            since == Some(origin),
            ranges_over(space.view(), rules.spec_state_count()),
            narrows(old(space).view(), space.view()),
            forall|i: int|
                0 <= i < old(space).view().len() && entropy_of(old(space).view()[i]@) == 0 ==> (
                #[trigger] space.view()[i])@ == old(space).view()[i]@,
            directions@ == Sp::all_directions(),
            rules.spec_direction_count() == directions@.len(),
            neighbors@.len() == directions@.len(),
            neighbor_states@.len() == directions@.len(),
            forall|j: int|
                0 <= j < unresolved@.len() ==> Sp::contains(space.extent(), #[trigger] unresolved@[j]),
            forall|i: int|
                0 <= i < space.view().len() && entropy_of(space.view()[i]@) > 0
                    ==> unresolved@.contains(#[trigger] Sp::coordinate_at(space.extent(), i)),
            kept(&*space, rules, since, Seq::empty()),
            solved::<Sp, O>(dimensions, rules, views(origin), choices, spaces),
            spaces.last() == views(space.view()),
            choices.len() == 0 ==> *rng == *old(rng),
        ensures
            forall|i: int|
                0 <= i < space.view().len() ==> entropy_of((#[trigger] space.view()[i])@) == 0,
        decreases total_states(space.view()),
    {
        let ghost entering = *space;
        let ghost listed = unresolved@;
        let ghost live = |c: Sp::Coordinate| entropy_at(&entering, c) > 0;
        let ghost tied = |c: Sp::Coordinate|
            entropy_at(&entering, c) == least_entropy(&entering, listed);
        let next = find_next_to_collapse(&mut unresolved, &mut lowest_entropy_set, &*space, rng);
        proof {
            space.lemma_wf();
            Sp::lemma_enumeration(space.extent());
            assert forall|j: int| 0 <= j < unresolved@.len() implies Sp::contains(
                space.extent(),
                #[trigger] unresolved@[j],
            ) by {
                assert(unresolved@.contains(unresolved@[j]));
                listed.lemma_filter_contains_rev(live, unresolved@[j]);
            }
            assert forall|i: int|
                0 <= i < space.view().len() && entropy_of(
                    space.view()[i]@,
                ) > 0 implies unresolved@.contains(
                #[trigger] Sp::coordinate_at(space.extent(), i),
            ) by {
                let c = Sp::coordinate_at(space.extent(), i);
                assert(listed.contains(c));
                let j = choose|j: int| 0 <= j < listed.len() && listed[j] == c;
                listed.lemma_filter_contains(live, j);
            }
        }
        match next {
            None => {
                proof {
                    assert forall|i: int| 0 <= i < space.view().len() implies entropy_of(
                        (#[trigger] space.view()[i])@,
                    ) == 0 by {
                        if entropy_of(space.view()[i]@) > 0 {
                            assert(unresolved@.contains(Sp::coordinate_at(space.extent(), i)));
                        }
                    }
                }
                break ;
            },
            Some(to_collapse) => {
                let ghost at = Sp::position(space.extent(), to_collapse);
                proof {
                    listed.lemma_filter_contains_rev(tied, to_collapse);
                    lemma_least_entropy(&entering, listed);
                    // no undecided cell has fewer states than the one drawn
                    assert forall|i: int| 0 <= i < views(entering.view()).len() implies entropy_of(
                        #[trigger] views(entering.view())[i],
                    ) == 0 || entropy_of(views(entering.view())[i]) >= entropy_of(
                        views(entering.view())[at],
                    ) by {
                        if entropy_of(entering.view()[i]@) > 0 {
                            let c = Sp::coordinate_at(space.extent(), i);
                            assert(listed.contains(c));
                            let j = choose|j: int| 0 <= j < listed.len() && listed[j] == c;
                            assert(entropy_at(&entering, listed[j]) == entropy_of(
                                entering.view()[i]@,
                            ));
                        }
                    }
                    assert(least_undecided(views(entering.view()), at));
                }
                fill_neighbors(&*space, to_collapse, &directions, &mut neighbors);
                proof {
                    Sp::lemma_directions();
                    assert forall|i: int| 0 <= i < neighbors@.len() implies (
                    #[trigger] neighbors@[i] matches Some(n) ==> Sp::contains(
                        space.extent(),
                        n,
                    )) by {
                        assert(directions@.contains(directions@[i]));
                        Sp::lemma_step(space.extent(), to_collapse, directions@[i]);
                    }
                }
                snapshot_neighbors(&*space, &neighbors, &mut neighbor_states);
                let mut observed = space.get(to_collapse).clone();
                rules.observe(&mut observed, neighbor_states.as_slice(), rng);
                match observed.first() {
                    Some(state) => {
                        decide(
                            space,
                            rules,
                            to_collapse,
                            state,
                            &mut to_propagate,
                            &mut neighbors,
                            &mut neighbor_states,
                            &directions,
                            Ghost(since),
                        );
                        proof {
                            let before = spaces;
                            let chosen = choices;
                            choices = choices.push((to_collapse, state));
                            spaces = spaces.push(views(space.view()));
                            assert forall|c: Sp::Coordinate|
                                #![trigger stable_at(&*space, rules, c)]
                                Sp::contains(space.extent(), c) && entropy_at(&*space, c)
                                    > 0 implies stable_at(&*space, rules, c) by {
                                assert(!Seq::<Sp::Coordinate>::empty().contains(c));
                            }
                            lemma_stable_views(&*space, rules);
                            assert forall|k: int| 0 <= k < spaces.len() implies self_supporting::<
                                Sp,
                                O,
                            >(dimensions, rules, #[trigger] spaces[k], spaces[k]) by {
                                if k < before.len() {
                                    assert(spaces[k] == before[k]);
                                }
                            }
                            assert forall|k: int| 0 <= k < choices.len() implies least_undecided(
                                spaces[k],
                                Sp::position(dimensions, (#[trigger] choices[k]).0),
                            ) && decided::<Sp, O>(
                                dimensions,
                                rules,
                                spaces[k],
                                choices[k].0,
                                choices[k].1,
                                spaces[k + 1],
                            ) by {
                                if k < chosen.len() {
                                    assert(spaces[k] == before[k]);
                                    assert(spaces[k + 1] == before[k + 1]);
                                    assert(choices[k] == chosen[k]);
                                } else {
                                    assert(spaces[k] == views(entering.view()));
                                    assert(spaces[k + 1] == views(space.view()));
                                }
                            }
                            assert(spaces[0] == before[0]);
                            assert forall|i: int| 0 <= i < space.view().len() implies subset(
                                (#[trigger] space.view()[i])@,
                                old(space).view()[i]@,
                            ) by {
                                assert(subset(space.view()[i]@, entering.view()[i]@));
                                assert(subset(entering.view()[i]@, old(space).view()[i]@));
                            }
                            let start = views(entering.view()).update(
                                at,
                                single(views(entering.view())[at].len(), state),
                            );
                            assert forall|i: int|
                                0 <= i < old(space).view().len() && entropy_of(
                                    old(space).view()[i]@,
                                ) == 0 implies (#[trigger] space.view()[i])@ == old(
                                space,
                            ).view()[i]@ by {
                                assert(entering.view()[i]@ == old(space).view()[i]@);
                                assert(i != at);
                                assert(start[i] == entering.view()[i]@);
                                assert(views(space.view())[i] == start[i]);
                            }
                            assert forall|i: int|
                                0 <= i < space.view().len() && entropy_of(
                                    space.view()[i]@,
                                ) > 0 implies unresolved@.contains(
                                #[trigger] Sp::coordinate_at(space.extent(), i),
                            ) by {
                                assert(subset(space.view()[i]@, entering.view()[i]@));
                                lemma_count_subset(space.view()[i]@, entering.view()[i]@);
                            }
                        }
                    },
                    None => {
                        proof {
                            crate::state::lemma_count_zero(observed@);
                            assert(false);
                        }
                    },
                }
            },
        }
    }
    proof {
        assert forall|c: Sp::Coordinate|
            #![trigger accepted_at(&*space, rules, c)]
            Sp::contains(space.extent(), c) && entropy_of(
                origin[Sp::position(space.extent(), c)]@,
            ) > 0 implies accepted_at(&*space, rules, c) by {
            assert(!Seq::<Sp::Coordinate>::empty().contains(c));
        }
        assert(solved::<Sp, O>(dimensions, rules, views(origin), choices, spaces));
        if forall|i: int|
            0 <= i < origin.len() ==> entropy_of((#[trigger] origin[i])@) == 0 {
            if choices.len() > 0 {
                let at = Sp::position(dimensions, choices[0].0);
                assert(least_undecided(spaces[0], at));
                assert(entropy_of(origin[at]@) == 0);
                assert(views(origin)[at] == origin[at]@);
                assert(spaces[0][at] == views(origin)[at]);
            }
        }
    }
}

} // verus!
