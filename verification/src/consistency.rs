//! What the solver keeps true of a space while it narrows the cells, and
//! what holds of the space in the end.

use crate::rules::{supported_by, SetCollapseObserver, SetCollapseRules};
use crate::space::{InvertDelta, Space};
use crate::state::{
    count_true, entropy_of, lemma_count_one, lemma_count_subset, subset, State, StateSet,
};
use vstd::prelude::*;

verus! {

/// The cell of `space` at `coordinate`.
pub open spec fn cell_at<Sp: Space<StateSet>>(space: &Sp, coordinate: Sp::Coordinate) -> StateSet {
    space.view()[Sp::position(space.extent(), coordinate)]
}

/// The entropy of the cell of `space` at `coordinate`.
pub open spec fn entropy_at<Sp: Space<StateSet>>(space: &Sp, coordinate: Sp::Coordinate) -> nat {
    entropy_of(cell_at(space, coordinate)@)
}

/// What the cell at `coordinate` finds beside it: for each direction the
/// cell of the neighbor there, if there is one.
pub open spec fn neighborhood<Sp: Space<StateSet>>(
    space: &Sp,
    coordinate: Sp::Coordinate,
) -> Seq<Option<StateSet>> {
    Seq::new(
        Sp::all_directions().len(),
        |i: int|
            match Sp::step(space.extent(), coordinate, Sp::all_directions()[i]) {
                Some(n) => Some(cell_at(space, n)),
                None => None,
            },
    )
}

/// Whether two neighborhoods show the same: a neighbor in the same
/// directions, and the same states in each.
pub open spec fn same_views(a: Seq<Option<StateSet>>, b: Seq<Option<StateSet>>) -> bool {
    &&& a.len() == b.len()
    &&& forall|i: int|
        0 <= i < a.len() ==> match (#[trigger] a[i], b[i]) {
            (Some(x), Some(y)) => x@ == y@,
            (None, None) => true,
            _ => false,
        }
}

/// Whether `other` is one step from `coordinate` in some direction.
pub open spec fn beside<Sp: Space<StateSet>>(
    dimensions: Sp::Coordinate,
    coordinate: Sp::Coordinate,
    other: Sp::Coordinate,
) -> bool {
    exists|i: int|
        0 <= i < Sp::all_directions().len() && #[trigger] Sp::step(
            dimensions,
            coordinate,
            Sp::all_directions()[i],
        ) == Some(other)
}

/// Whether narrowing the cell at `coordinate` by the rules would leave it as
/// it is: each of its states finds, in every neighbor, a state that it
/// accepts there.
pub open spec fn stable_at<Sp: Space<StateSet>, O: SetCollapseObserver>(
    space: &Sp,
    rules: &SetCollapseRules<O>,
    coordinate: Sp::Coordinate,
) -> bool {
    forall|s: State| #[trigger]
        cell_at(space, coordinate).contains(s) ==> rules.supported(
            s,
            neighborhood(space, coordinate),
        )
}

/// Whether `state` accepts any state in the direction of number `i`.
pub open spec fn accepts_some<O: SetCollapseObserver>(
    rules: &SetCollapseRules<O>,
    state: State,
    i: int,
) -> bool {
    exists|b: State| rules.allows(state, i, b)
}

/// Whether each state of the cell at `coordinate` accepts some state in
/// every direction in which the cell has a neighbor.
pub open spec fn accepted_at<Sp: Space<StateSet>, O: SetCollapseObserver>(
    space: &Sp,
    rules: &SetCollapseRules<O>,
    coordinate: Sp::Coordinate,
) -> bool {
    forall|s: State, i: int|
        cell_at(space, coordinate).contains(s) && 0 <= i < Sp::all_directions().len() && Sp::step(
            space.extent(),
            coordinate,
            Sp::all_directions()[i],
        ) is Some ==> #[trigger] accepts_some(rules, s, i)
}

/// Whether the cell at `coordinate` agrees with its neighbor in the
/// direction of number `i`: where both are decided, and not both were so in
/// `origin`, the state of the cell accepts the state of the neighbor in
/// that direction.
pub open spec fn agrees<Sp: Space<StateSet>, O: SetCollapseObserver>(
    space: &Sp,
    rules: &SetCollapseRules<O>,
    origin: Seq<StateSet>,
    coordinate: Sp::Coordinate,
    i: int,
) -> bool {
    Sp::step(space.extent(), coordinate, Sp::all_directions()[i]) matches Some(n) ==> (count_true(
        cell_at(space, coordinate)@,
    ) == 1 && count_true(cell_at(space, n)@) == 1 && (entropy_of(
        origin[Sp::position(space.extent(), coordinate)]@,
    ) > 0 || entropy_of(origin[Sp::position(space.extent(), n)]@) > 0) ==> forall|
        s: State,
        t: State,
    |
        cell_at(space, coordinate).contains(s) && cell_at(space, n).contains(t)
            ==> #[trigger] rules.allows(s, i, t))
}

/// Whether every cell agrees with each of its neighbors.
pub open spec fn consistent<Sp: Space<StateSet>, O: SetCollapseObserver>(
    space: &Sp,
    rules: &SetCollapseRules<O>,
    origin: Seq<StateSet>,
) -> bool {
    forall|c: Sp::Coordinate, i: int|
        #![trigger agrees(space, rules, origin, c, i)]
        Sp::contains(space.extent(), c) && 0 <= i < Sp::all_directions().len() ==> agrees(
            space,
            rules,
            origin,
            c,
            i,
        )
}

/// Whether every cell with more than one state is stable, but for those
/// that wait in `queue`.
pub open spec fn settled<Sp: Space<StateSet>, O: SetCollapseObserver>(
    space: &Sp,
    rules: &SetCollapseRules<O>,
    queue: Seq<Sp::Coordinate>,
) -> bool {
    forall|c: Sp::Coordinate|
        #![trigger stable_at(space, rules, c)]
        Sp::contains(space.extent(), c) && entropy_at(space, c) > 0 && !queue.contains(c)
            ==> stable_at(space, rules, c)
}

/// Whether every cell that had more than one state in `origin` holds
/// accepted states only, but for those that wait in `queue` with more than
/// one state still.
pub open spec fn screened<Sp: Space<StateSet>, O: SetCollapseObserver>(
    space: &Sp,
    rules: &SetCollapseRules<O>,
    origin: Seq<StateSet>,
    queue: Seq<Sp::Coordinate>,
) -> bool {
    forall|c: Sp::Coordinate|
        #![trigger accepted_at(space, rules, c)]
        Sp::contains(space.extent(), c) && entropy_of(
            origin[Sp::position(space.extent(), c)]@,
        ) > 0 ==> accepted_at(space, rules, c) || (queue.contains(c) && entropy_at(space, c) > 0)
}

/// Neighborhoods that show the same support the same states.
pub proof fn lemma_same_views(
    accepted: spec_fn(int) -> Option<Seq<bool>>,
    a: Seq<Option<StateSet>>,
    b: Seq<Option<StateSet>>,
)
    requires
        same_views(a, b),
    ensures
        supported_by(accepted, a) == supported_by(accepted, b),
{
    if supported_by(accepted, a) {
        assert forall|i: int| 0 <= i < b.len() implies (#[trigger] b[i] matches Some(present) ==> (
        accepted(i) matches Some(set) && exists|k: int|
            0 <= k < set.len() && k < present@.len() && set[k] && #[trigger] present@[k])) by {
            if let Some(present) = b[i] {
                let shown = a[i].unwrap();
                let set = accepted(i).unwrap();
                let k = choose|k: int|
                    0 <= k < set.len() && k < shown@.len() && set[k] && #[trigger] shown@[k];
                assert(present@[k]);
            }
        }
    }
    if supported_by(accepted, b) {
        assert forall|i: int| 0 <= i < a.len() implies (#[trigger] a[i] matches Some(present) ==> (
        accepted(i) matches Some(set) && exists|k: int|
            0 <= k < set.len() && k < present@.len() && set[k] && #[trigger] present@[k])) by {
            if let Some(present) = a[i] {
                let shown = b[i].unwrap();
                let set = accepted(i).unwrap();
                let k = choose|k: int|
                    0 <= k < set.len() && k < shown@.len() && set[k] && #[trigger] shown@[k];
                assert(present@[k]);
            }
        }
    }
}

/// A coordinate is beside another exactly where the other is beside it.
pub proof fn lemma_beside<Sp: Space<StateSet>>(
    dimensions: Sp::Coordinate,
    a: Sp::Coordinate,
    b: Sp::Coordinate,
)
    requires
        Sp::contains(dimensions, a),
        beside::<Sp>(dimensions, a, b),
    ensures
        Sp::contains(dimensions, b),
        beside::<Sp>(dimensions, b, a),
        a != b,
{
    let directions = Sp::all_directions();
    let i = choose|i: int|
        0 <= i < directions.len() && #[trigger] Sp::step(dimensions, a, directions[i]) == Some(b);
    Sp::lemma_directions();
    assert(directions.contains(directions[i]));
    Sp::lemma_step(dimensions, a, directions[i]);
    let back = directions[i].inverted();
    let j = choose|j: int| 0 <= j < directions.len() && directions[j] == back;
    assert(Sp::step(dimensions, b, directions[j]) == Some(a));
}

/// A cell finds the same beside it after another cell, which is not beside
/// it, was replaced; and it finds the same states beside it wherever the
/// replaced cell holds the states it held.
pub proof fn lemma_neighborhood_kept<Sp: Space<StateSet>>(
    before: &Sp,
    after: &Sp,
    replaced: Sp::Coordinate,
    c: Sp::Coordinate,
)
    requires
        before.wf(),
        after.extent() == before.extent(),
        Sp::contains(before.extent(), replaced),
        Sp::contains(before.extent(), c),
        after.view() == before.view().update(
            Sp::position(before.extent(), replaced),
            cell_at(after, replaced),
        ),
    ensures
        !beside::<Sp>(before.extent(), c, replaced) ==> neighborhood(after, c) == neighborhood(
            before,
            c,
        ),
        cell_at(after, replaced)@ == cell_at(before, replaced)@ ==> same_views(
            neighborhood(after, c),
            neighborhood(before, c),
        ),
{
    let dimensions = before.extent();
    let directions = Sp::all_directions();
    before.lemma_wf();
    Sp::lemma_enumeration(dimensions);
    Sp::lemma_directions();
    assert forall|i: int| 0 <= i < directions.len() implies match (
        #[trigger] neighborhood(after, c)[i],
        neighborhood(before, c)[i],
    ) {
        (Some(x), Some(y)) => (x == y || (Sp::step(dimensions, c, directions[i]) == Some(replaced)
            && x == cell_at(after, replaced) && y == cell_at(before, replaced))),
        (None, None) => true,
        _ => false,
    } by {
        assert(directions.contains(directions[i]));
        Sp::lemma_step(dimensions, c, directions[i]);
        if let Some(n) = Sp::step(dimensions, c, directions[i]) {
            if n != replaced {
                assert(Sp::position(dimensions, n) != Sp::position(dimensions, replaced));
            }
        }
    }
    if !beside::<Sp>(dimensions, c, replaced) {
        assert(neighborhood(after, c) =~= neighborhood(before, c));
    }
}

/// A cell that holds accepted states only holds no state that accepts
/// nothing in a direction in which the cell has a neighbor: least of all a
/// state for which no rule was ever declared.
pub proof fn lemma_unaccepted_state_is_gone<Sp: Space<StateSet>, O: SetCollapseObserver>(
    space: &Sp,
    rules: &SetCollapseRules<O>,
    coordinate: Sp::Coordinate,
    state: State,
    i: int,
)
    requires
        accepted_at(space, rules, coordinate),
        0 <= i < Sp::all_directions().len(),
        Sp::step(space.extent(), coordinate, Sp::all_directions()[i]) is Some,
        forall|b: State| !rules.allows(state, i, b),
    ensures
        !cell_at(space, coordinate).contains(state),
{
    if cell_at(space, coordinate).contains(state) {
        assert(accepts_some(rules, state, i));
    }
}

/// In a consistent space, two decided cells side by side hold states of
/// which the first accepts the second in the direction from the first to
/// the second, unless both were decided to begin with.
pub proof fn lemma_decided_neighbors_agree<Sp: Space<StateSet>, O: SetCollapseObserver>(
    space: &Sp,
    rules: &SetCollapseRules<O>,
    origin: Seq<StateSet>,
    coordinate: Sp::Coordinate,
    i: int,
    neighbor: Sp::Coordinate,
    s: State,
    t: State,
)
    requires
        consistent(space, rules, origin),
        Sp::contains(space.extent(), coordinate),
        0 <= i < Sp::all_directions().len(),
        Sp::step(space.extent(), coordinate, Sp::all_directions()[i]) == Some(neighbor),
        count_true(cell_at(space, coordinate)@) == 1,
        cell_at(space, coordinate).contains(s),
        count_true(cell_at(space, neighbor)@) == 1,
        cell_at(space, neighbor).contains(t),
        entropy_of(origin[Sp::position(space.extent(), coordinate)]@) > 0 || entropy_of(
            origin[Sp::position(space.extent(), neighbor)]@,
        ) > 0,
    ensures
        rules.allows(s, i, t),
{
    assert(agrees(space, rules, origin, coordinate, i));
}

/// Whether every cell ranges over `state_count` states.
pub open spec fn ranges_over(cells: Seq<StateSet>, state_count: nat) -> bool {
    forall|i: int| 0 <= i < cells.len() ==> (#[trigger] cells[i])@.len() == state_count
}

/// What is kept when one cell, with more than one state, is replaced by
/// some of its states that all find support beside it: the cell is stable
/// and holds accepted states only, the cells that are not beside it are
/// stable as before, every other cell holds accepted states as before, and
/// under symmetric rules every cell agrees with its neighbors as before.
pub proof fn lemma_replaced<Sp: Space<StateSet>, O: SetCollapseObserver>(
    before: &Sp,
    after: &Sp,
    rules: &SetCollapseRules<O>,
    origin: Seq<StateSet>,
    p: Sp::Coordinate,
)
    requires
        before.wf(),
        after.extent() == before.extent(),
        rules.wf(),
        ranges_over(before.view(), rules.spec_state_count()),
        Sp::contains(before.extent(), p),
        after.view() == before.view().update(
            Sp::position(before.extent(), p),
            cell_at(after, p),
        ),
        subset(cell_at(after, p)@, cell_at(before, p)@),
        forall|s: State| #[trigger]
            cell_at(after, p).contains(s) ==> rules.supported(s, neighborhood(before, p)),
        entropy_at(before, p) > 0,
        entropy_of(origin[Sp::position(before.extent(), p)]@) > 0,
        rules.symmetric_over(Sp::all_directions()) ==> consistent(before, rules, origin),
    ensures
        stable_at(after, rules, p),
        accepted_at(after, rules, p),
        rules.symmetric_over(Sp::all_directions()) ==> consistent(after, rules, origin),
        forall|c: Sp::Coordinate|
            #![trigger stable_at(after, rules, c)]
            Sp::contains(before.extent(), c) && c != p && stable_at(before, rules, c) && (!beside::<
                Sp,
            >(before.extent(), c, p) || cell_at(after, p)@ == cell_at(before, p)@) ==> stable_at(
                after,
                rules,
                c,
            ),
        forall|c: Sp::Coordinate|
            #![trigger accepted_at(after, rules, c)]
            Sp::contains(before.extent(), c) && c != p && accepted_at(before, rules, c)
                ==> accepted_at(after, rules, c),
{
    let dimensions = before.extent();
    let directions = Sp::all_directions();
    let at = Sp::position(dimensions, p);
    before.lemma_wf();
    Sp::lemma_enumeration(dimensions);
    Sp::lemma_directions();
    rules.lemma_entries();
    // the replaced cell finds beside it what it found before
    if beside::<Sp>(dimensions, p, p) {
        lemma_beside::<Sp>(dimensions, p, p);
    }
    lemma_neighborhood_kept(before, after, p, p);
    assert(neighborhood(after, p) == neighborhood(before, p));
    assert forall|s: State, i: int|
        cell_at(after, p).contains(s) && 0 <= i < directions.len() && Sp::step(
            after.extent(),
            p,
            directions[i],
        ) is Some implies #[trigger] accepts_some(rules, s, i) by {
        assert(rules.supported(s, neighborhood(before, p)));
        let present = neighborhood(before, p)[i].unwrap();
        let set = rules.entry(s, i).unwrap();
        let k = choose|k: int|
            0 <= k < set.len() && k < present@.len() && set[k] && #[trigger] present@[k];
        assert(rules.allows(s, i, State(k as u32)));
    }
    // every other cell is the cell it was
    assert forall|c: Sp::Coordinate| Sp::contains(dimensions, c) && c != p implies #[trigger] cell_at(
        after,
        c,
    ) == cell_at(before, c) by {
        assert(Sp::position(dimensions, c) != at);
    }
    assert forall|c: Sp::Coordinate|
        #![trigger stable_at(after, rules, c)]
        Sp::contains(dimensions, c) && c != p && stable_at(before, rules, c) && (!beside::<Sp>(
            dimensions,
            c,
            p,
        ) || cell_at(after, p)@ == cell_at(before, p)@) implies stable_at(after, rules, c) by {
        lemma_neighborhood_kept(before, after, p, c);
        assert(cell_at(after, c) == cell_at(before, c));
        assert forall|s: State| #[trigger] cell_at(after, c).contains(s) implies rules.supported(
            s,
            neighborhood(after, c),
        ) by {
            assert(rules.supported(s, neighborhood(before, c)));
            if beside::<Sp>(dimensions, c, p) {
                lemma_same_views(
                    |i: int| rules.entry(s, i),
                    neighborhood(after, c),
                    neighborhood(before, c),
                );
            }
        }
    }
    assert forall|c: Sp::Coordinate|
        #![trigger accepted_at(after, rules, c)]
        Sp::contains(dimensions, c) && c != p && accepted_at(before, rules, c) implies accepted_at(
        after,
        rules,
        c,
    ) by {
        assert(cell_at(after, c) == cell_at(before, c));
    }
    if rules.symmetric_over(directions) {
        // the replaced cell agrees with each of its neighbors
        assert forall|j: int| 0 <= j < directions.len() implies #[trigger] agrees(
            after,
            rules,
            origin,
            p,
            j,
        ) by {
            assert(directions.contains(directions[j]));
            Sp::lemma_step(dimensions, p, directions[j]);
            if let Some(n) = Sp::step(dimensions, p, directions[j]) {
                assert(cell_at(after, n) == cell_at(before, n));
                if count_true(cell_at(after, p)@) == 1 && count_true(cell_at(after, n)@) == 1 {
                    assert forall|s: State, t: State|
                        cell_at(after, p).contains(s) && cell_at(after, n).contains(
                            t,
                        ) implies #[trigger] rules.allows(s, j, t) by {
                        assert(rules.supported(s, neighborhood(before, p)));
                        let present = neighborhood(before, p)[j].unwrap();
                        assert(present == cell_at(before, n));
                        let set = rules.entry(s, j).unwrap();
                        let k = choose|k: int|
                            0 <= k < set.len() && k < present@.len() && set[k]
                                && #[trigger] present@[k];
                        lemma_count_one(present@, t.0 as int);
                    }
                }
            }
        }
        assert forall|c: Sp::Coordinate, i: int|
            #![trigger agrees(after, rules, origin, c, i)]
            Sp::contains(dimensions, c) && 0 <= i < directions.len() implies agrees(
            after,
            rules,
            origin,
            c,
            i,
        ) by {
            assert(directions.contains(directions[i]));
            Sp::lemma_step(dimensions, c, directions[i]);
            if let Some(n) = Sp::step(dimensions, c, directions[i]) {
                if c == p {
                    assert(agrees(after, rules, origin, p, i));
                } else if n == p {
                    let back = directions[i].inverted();
                    let j = choose|j: int| 0 <= j < directions.len() && directions[j] == back;
                    assert(agrees(after, rules, origin, p, j));
                    assert(directions[i] == directions[j].inverted());
                    if count_true(cell_at(after, c)@) == 1 && count_true(cell_at(after, p)@) == 1 {
                        assert forall|s: State, t: State|
                            cell_at(after, c).contains(s) && cell_at(after, p).contains(
                                t,
                            ) implies #[trigger] rules.allows(s, i, t) by {
                            assert(rules.allows(t, j, s));
                        }
                    }
                } else {
                    assert(agrees(before, rules, origin, c, i));
                    assert(cell_at(after, c) == cell_at(before, c));
                    assert(cell_at(after, n) == cell_at(before, n));
                }
            }
        }
    }
}

/// Whether the space is in order with regard to `since`, where that holds
/// the cells that a solve began with: no cell has gained a state since, the
/// undecided cells outside `queue` are stable, the cells that were
/// undecided to begin with hold accepted states only or wait in `queue`,
/// and under symmetric rules every cell agrees with its neighbors.
pub open spec fn kept<Sp: Space<StateSet>, O: SetCollapseObserver>(
    space: &Sp,
    rules: &SetCollapseRules<O>,
    since: Option<Seq<StateSet>>,
    queue: Seq<Sp::Coordinate>,
) -> bool {
    since matches Some(origin) ==> {
        &&& origin.len() == space.view().len()
        &&& forall|i: int|
            0 <= i < origin.len() ==> subset((#[trigger] space.view()[i])@, origin[i]@)
        &&& settled(space, rules, queue)
        &&& screened(space, rules, origin, queue)
        &&& rules.symmetric_over(Sp::all_directions()) ==> consistent(space, rules, origin)
    }
}

/// The states of each cell.
pub open spec fn views(cells: Seq<StateSet>) -> Seq<Seq<bool>> {
    Seq::new(cells.len(), |i: int| cells[i]@)
}

/// Whether every cell of `keep` holds states of the same cell of `cells`
/// only.
pub open spec fn within(keep: Seq<Seq<bool>>, cells: Seq<Seq<bool>>) -> bool {
    &&& keep.len() == cells.len()
    &&& forall|i: int| 0 <= i < keep.len() ==> subset(#[trigger] keep[i], cells[i])
}

/// The superposition of `state` alone, over `state_count` states.
pub open spec fn single(state_count: nat, state: State) -> Seq<bool> {
    Seq::new(state_count, |i: int| i == state.0)
}

/// Whether `state`, in the cell at `coordinate`, finds in each neighbor of
/// the cell a state of `keep` that it accepts there.
pub open spec fn upheld<Sp: Space<StateSet>, O: SetCollapseObserver>(
    dimensions: Sp::Coordinate,
    rules: &SetCollapseRules<O>,
    keep: Seq<Seq<bool>>,
    coordinate: Sp::Coordinate,
    state: State,
) -> bool {
    forall|i: int|
        0 <= i < Sp::all_directions().len() ==> (#[trigger] Sp::step(
            dimensions,
            coordinate,
            Sp::all_directions()[i],
        ) matches Some(n) ==> (rules.entry(state, i) matches Some(set) && exists|b: int|
            0 <= b < set.len() && b < keep[Sp::position(dimensions, n)].len() && set[b]
                && #[trigger] keep[Sp::position(dimensions, n)][b]))
}

/// Whether the states of `keep` hold each other up wherever `cells` is
/// undecided: every state of `keep` in a cell that has more than one state
/// in `cells` finds in each neighbor of the cell a state of `keep` that it
/// accepts there.
pub open spec fn self_supporting<Sp: Space<StateSet>, O: SetCollapseObserver>(
    dimensions: Sp::Coordinate,
    rules: &SetCollapseRules<O>,
    keep: Seq<Seq<bool>>,
    cells: Seq<Seq<bool>>,
) -> bool {
    forall|c: Sp::Coordinate, s: State|
        #![trigger upheld::<Sp, O>(dimensions, rules, keep, c, s)]
        Sp::contains(dimensions, c) && entropy_of(cells[Sp::position(dimensions, c)]) > 0 && s.0
            < keep[Sp::position(dimensions, c)].len()
            && keep[Sp::position(dimensions, c)][s.0 as int] ==> upheld::<Sp, O>(
            dimensions,
            rules,
            keep,
            c,
            s,
        )
}

/// Whether `after` is what propagation may make of `before`: no cell gains
/// a state, a cell with one state or none is left as it was, and a state
/// leaves a cell only for want of support, so that states which hold each
/// other up in the undecided cells all stay.
pub open spec fn propagated<Sp: Space<StateSet>, O: SetCollapseObserver>(
    dimensions: Sp::Coordinate,
    rules: &SetCollapseRules<O>,
    before: Seq<Seq<bool>>,
    after: Seq<Seq<bool>>,
) -> bool {
    &&& within(after, before)
    &&& forall|i: int|
        0 <= i < before.len() && entropy_of(before[i]) == 0 ==> #[trigger] after[i] == before[i]
    &&& forall|keep: Seq<Seq<bool>>|
        #![trigger within(keep, after)]
        within(keep, before) && self_supporting::<Sp, O>(dimensions, rules, keep, before)
            ==> within(keep, after)
}

/// Whether `after` is what may come of `before` when the cell at
/// `coordinate`, which holds `state`, is decided for it: the cell is left
/// with `state` alone, and the rules are propagated from there.
pub open spec fn decided<Sp: Space<StateSet>, O: SetCollapseObserver>(
    dimensions: Sp::Coordinate,
    rules: &SetCollapseRules<O>,
    before: Seq<Seq<bool>>,
    coordinate: Sp::Coordinate,
    state: State,
    after: Seq<Seq<bool>>,
) -> bool {
    let at = Sp::position(dimensions, coordinate);
    &&& Sp::contains(dimensions, coordinate)
    &&& state.0 < before[at].len()
    &&& before[at][state.0 as int]
    &&& propagated::<Sp, O>(
        dimensions,
        rules,
        before.update(at, single(before[at].len(), state)),
        after,
    )
}

/// Whether the cell at `at` has more than one state, and no other cell has
/// more than one and fewer than it.
pub open spec fn least_undecided(cells: Seq<Seq<bool>>, at: int) -> bool {
    &&& 0 <= at < cells.len()
    &&& entropy_of(cells[at]) > 0
    &&& forall|i: int|
        0 <= i < cells.len() ==> entropy_of(#[trigger] cells[i]) == 0 || entropy_of(cells[i])
            >= entropy_of(cells[at])
}

/// Whether `spaces` is a course that a solve may take from `start` by the
/// `choices`: the first is what propagation makes of `start`, and each next
/// is what comes of the one before when a cell of least entropy among the
/// undecided is decided for one of its states as the choice of that step
/// says. In each of them the states of the undecided cells hold each other
/// up: propagation has come to its end.
pub open spec fn solved<Sp: Space<StateSet>, O: SetCollapseObserver>(
    dimensions: Sp::Coordinate,
    rules: &SetCollapseRules<O>,
    start: Seq<Seq<bool>>,
    choices: Seq<(Sp::Coordinate, State)>,
    spaces: Seq<Seq<Seq<bool>>>,
) -> bool {
    &&& spaces.len() == choices.len() + 1
    &&& propagated::<Sp, O>(dimensions, rules, start, spaces[0])
    &&& forall|k: int|
        0 <= k < spaces.len() ==> self_supporting::<Sp, O>(
            dimensions,
            rules,
            #[trigger] spaces[k],
            spaces[k],
        )
    &&& forall|k: int|
        0 <= k < choices.len() ==> least_undecided(
            spaces[k],
            Sp::position(dimensions, (#[trigger] choices[k]).0),
        ) && decided::<Sp, O>(
            dimensions,
            rules,
            spaces[k],
            choices[k].0,
            choices[k].1,
            spaces[k + 1],
        )
}

/// Whether the neighbor that `beside` shows in the direction of number `i`,
/// if there is one, holds a state that `accepted` accepts there.
pub open spec fn supported_from(
    accepted: spec_fn(int) -> Option<Seq<bool>>,
    beside: Seq<Option<StateSet>>,
    i: int,
) -> bool {
    beside[i] matches Some(present) ==> (accepted(i) matches Some(set) && exists|b: int|
        0 <= b < set.len() && b < present@.len() && set[b] && #[trigger] present@[b])
}

/// A state that is upheld by states within the cells of a space finds
/// support in the neighbor of its cell in each direction.
proof fn lemma_upheld_from<Sp: Space<StateSet>, O: SetCollapseObserver>(
    space: &Sp,
    rules: &SetCollapseRules<O>,
    keep: Seq<Seq<bool>>,
    coordinate: Sp::Coordinate,
    state: State,
    i: int,
)
    requires
        space.wf(),
        Sp::contains(space.extent(), coordinate),
        within(keep, views(space.view())),
        upheld::<Sp, O>(space.extent(), rules, keep, coordinate, state),
        0 <= i < Sp::all_directions().len(),
    ensures
        supported_from(|i: int| rules.entry(state, i), neighborhood(space, coordinate), i),
{
    let dimensions = space.extent();
    let directions = Sp::all_directions();
    let beside = neighborhood(space, coordinate);
    space.lemma_wf();
    Sp::lemma_enumeration(dimensions);
    Sp::lemma_directions();
    assert(directions.contains(directions[i]));
    Sp::lemma_step(dimensions, coordinate, directions[i]);
    if let Some(n) = Sp::step(dimensions, coordinate, directions[i]) {
        let at = Sp::position(dimensions, n);
        let set = rules.entry(state, i).unwrap();
        let b = choose|b: int|
            0 <= b < set.len() && b < keep[at].len() && set[b] && #[trigger] keep[at][b];
        let present = cell_at(space, n);
        assert(beside[i] == Some(present));
        assert(0 <= at < space.view().len());
        assert(subset(keep[at], views(space.view())[at]));
        assert(views(space.view())[at] == present@);
        assert(0 <= b < set.len() && b < present@.len() && set[b] && present@[b]);
        let accepted = |i: int| rules.entry(state, i);
        assert(accepted(i) == Some(set));
        assert(exists|k: int|
            0 <= k < set.len() && k < present@.len() && set[k] && #[trigger] present@[k]);
        assert(beside[i] is Some && beside[i].unwrap() == present);
        assert(accepted(i) is Some && accepted(i).unwrap() == set);
        assert(beside[i] matches Some(p) ==> p == present);
        assert(beside[i] matches Some(p) ==> (accepted(i) matches Some(st) && st == set));
        assert(beside[i] matches Some(p) ==> (accepted(i) matches Some(st) && exists|k: int|
            0 <= k < st.len() && k < p@.len() && st[k] && #[trigger] p@[k]));
        assert(supported_from(accepted, beside, i));
    } else {
        assert(beside[i] is None);
    }
}

/// A state that is upheld by states within the cells of a space finds
/// support in what its cell finds beside it.
pub proof fn lemma_upheld<Sp: Space<StateSet>, O: SetCollapseObserver>(
    space: &Sp,
    rules: &SetCollapseRules<O>,
    keep: Seq<Seq<bool>>,
    coordinate: Sp::Coordinate,
    state: State,
)
    requires
        space.wf(),
        Sp::contains(space.extent(), coordinate),
        within(keep, views(space.view())),
        upheld::<Sp, O>(space.extent(), rules, keep, coordinate, state),
    ensures
        rules.supported(state, neighborhood(space, coordinate)),
{
    let beside = neighborhood(space, coordinate);
    let accepted = |i: int| rules.entry(state, i);
    assert forall|i: int| 0 <= i < beside.len() implies (#[trigger] beside[i] matches Some(
        present,
    ) ==> (accepted(i) matches Some(set) && exists|b: int|
        0 <= b < set.len() && b < present@.len() && set[b] && #[trigger] present@[b])) by {
        lemma_upheld_from(space, rules, keep, coordinate, state, i);
        assert(supported_from(accepted, beside, i));
    }
    assert(supported_by(accepted, beside));
}

/// Where every undecided cell of a space is stable, the states of the
/// space hold each other up in its undecided cells.
pub proof fn lemma_stable_views<Sp: Space<StateSet>, O: SetCollapseObserver>(
    space: &Sp,
    rules: &SetCollapseRules<O>,
)
    requires
        space.wf(),
        forall|c: Sp::Coordinate|
            #![trigger stable_at(space, rules, c)]
            Sp::contains(space.extent(), c) && entropy_at(space, c) > 0 ==> stable_at(
                space,
                rules,
                c,
            ),
    ensures
        self_supporting::<Sp, O>(
            space.extent(),
            rules,
            views(space.view()),
            views(space.view()),
        ),
{
    let dimensions = space.extent();
    let directions = Sp::all_directions();
    let keep = views(space.view());
    space.lemma_wf();
    Sp::lemma_enumeration(dimensions);
    assert forall|c: Sp::Coordinate, s: State|
        #![trigger upheld::<Sp, O>(dimensions, rules, keep, c, s)]
        Sp::contains(dimensions, c) && entropy_of(keep[Sp::position(dimensions, c)]) > 0 && s.0
            < keep[Sp::position(dimensions, c)].len()
            && keep[Sp::position(dimensions, c)][s.0 as int] implies upheld::<Sp, O>(
        dimensions,
        rules,
        keep,
        c,
        s,
    ) by {
        assert(stable_at(space, rules, c));
        assert(cell_at(space, c).contains(s));
        let beside = neighborhood(space, c);
        assert(supported_by(|i: int| rules.entry(s, i), beside));
        assert forall|i: int| 0 <= i < directions.len() implies (#[trigger] Sp::step(
            dimensions,
            c,
            directions[i],
        ) matches Some(n) ==> (rules.entry(s, i) matches Some(set) && exists|b: int|
            0 <= b < set.len() && b < keep[Sp::position(dimensions, n)].len() && set[b]
                && #[trigger] keep[Sp::position(dimensions, n)][b])) by {
            assert(directions.contains(directions[i]));
            Sp::lemma_step(dimensions, c, directions[i]);
            if let Some(n) = Sp::step(dimensions, c, directions[i]) {
                let present = cell_at(space, n);
                assert(beside[i] == Some(present));
                let set = rules.entry(s, i).unwrap();
                let b = choose|b: int|
                    0 <= b < set.len() && b < present@.len() && set[b] && #[trigger] present@[b];
                assert(keep[Sp::position(dimensions, n)] == present@);
                assert(keep[Sp::position(dimensions, n)][b]);
            }
        }
    }
}

/// Propagation leaves a space as it is where each of its undecided cells
/// is stable.
pub proof fn lemma_stable_space_is_left<Sp: Space<StateSet>, O: SetCollapseObserver>(
    space: &Sp,
    rules: &SetCollapseRules<O>,
    after: Seq<Seq<bool>>,
)
    requires
        space.wf(),
        forall|c: Sp::Coordinate|
            #![trigger stable_at(space, rules, c)]
            Sp::contains(space.extent(), c) && entropy_at(space, c) > 0 ==> stable_at(
                space,
                rules,
                c,
            ),
        propagated::<Sp, O>(space.extent(), rules, views(space.view()), after),
    ensures
        after == views(space.view()),
{
    let keep = views(space.view());
    lemma_stable_views(space, rules);
    assert(within(keep, keep));
    assert(within(keep, after));
    assert forall|i: int| 0 <= i < keep.len() implies #[trigger] after[i] == keep[i] by {
        assert(subset(keep[i], after[i]));
        assert(subset(after[i], keep[i]));
        assert(after[i] =~= keep[i]);
    }
    assert(after =~= keep);
}

/// A space whose undecided cells outside `queue` are stable is in order
/// with regard to itself.
pub proof fn lemma_kept_from_settled<Sp: Space<StateSet>, O: SetCollapseObserver>(
    space: &Sp,
    rules: &SetCollapseRules<O>,
    queue: Seq<Sp::Coordinate>,
)
    requires
        space.wf(),
        rules.wf(),
        settled(space, rules, queue),
    ensures
        kept(space, rules, Some(space.view()), queue),
{
    let dimensions = space.extent();
    let directions = Sp::all_directions();
    let origin = space.view();
    space.lemma_wf();
    Sp::lemma_enumeration(dimensions);
    Sp::lemma_directions();
    rules.lemma_entries();
    assert forall|c: Sp::Coordinate|
        #![trigger accepted_at(space, rules, c)]
        Sp::contains(dimensions, c) && entropy_of(
            origin[Sp::position(dimensions, c)]@,
        ) > 0 implies accepted_at(space, rules, c) || (queue.contains(c) && entropy_at(space, c)
        > 0) by {
        if !queue.contains(c) {
            assert(stable_at(space, rules, c));
            assert forall|s: State, i: int|
                cell_at(space, c).contains(s) && 0 <= i < directions.len() && Sp::step(
                    dimensions,
                    c,
                    directions[i],
                ) is Some implies #[trigger] accepts_some(rules, s, i) by {
                assert(rules.supported(s, neighborhood(space, c)));
                let present = neighborhood(space, c)[i].unwrap();
                let set = rules.entry(s, i).unwrap();
                let k = choose|k: int|
                    0 <= k < set.len() && k < present@.len() && set[k] && #[trigger] present@[k];
                assert(rules.allows(s, i, State(k as u32)));
            }
        }
    }
    assert forall|c: Sp::Coordinate, i: int|
        #![trigger agrees(space, rules, origin, c, i)]
        Sp::contains(dimensions, c) && 0 <= i < directions.len() implies agrees(
        space,
        rules,
        origin,
        c,
        i,
    ) by {
        assert(directions.contains(directions[i]));
        Sp::lemma_step(dimensions, c, directions[i]);
    }
}

/// Whatever the choices of a course, no space of the course holds a state
/// that the start did not hold, and states that hold each other up in the
/// undecided cells of the start stay throughout, as long as every choice
/// falls on a state among them: where `keep` holds a state in a cell that
/// is chosen, it is the state chosen.
pub proof fn lemma_course_keeps<Sp: Space<StateSet>, O: SetCollapseObserver>(
    dimensions: Sp::Coordinate,
    rules: &SetCollapseRules<O>,
    start: Seq<Seq<bool>>,
    choices: Seq<(Sp::Coordinate, State)>,
    spaces: Seq<Seq<Seq<bool>>>,
    keep: Seq<Seq<bool>>,
    k: int,
)
    requires
        solved::<Sp, O>(dimensions, rules, start, choices, spaces),
        start.len() == Sp::volume(dimensions),
        within(keep, start),
        self_supporting::<Sp, O>(dimensions, rules, keep, start),
        forall|j: int, b: int|
            0 <= j < choices.len() && 0 <= b < keep[Sp::position(
                dimensions,
                (#[trigger] choices[j]).0,
            )].len() && #[trigger] keep[Sp::position(dimensions, choices[j].0)][b] ==> b
                == choices[j].1.0,
        0 <= k < spaces.len(),
    ensures
        within(spaces[k], start),
        within(keep, spaces[k]),
    decreases k,
{
    if k == 0 {
        assert(within(keep, spaces[0]));
    } else {
        lemma_course_keeps::<Sp, O>(dimensions, rules, start, choices, spaces, keep, k - 1);
        let before = spaces[k - 1];
        let after = spaces[k];
        let c = choices[k - 1].0;
        let s = choices[k - 1].1;
        let at = Sp::position(dimensions, c);
        assert(decided::<Sp, O>(dimensions, rules, before, c, s, after));
        assert(least_undecided(before, at));
        let begun = before.update(at, single(before[at].len(), s));
        assert(subset(keep[at], before[at]));
        assert(within(begun, before)) by {
            assert forall|i: int| 0 <= i < begun.len() implies subset(
                #[trigger] begun[i],
                before[i],
            ) by {}
        }
        assert(within(keep, begun)) by {
            assert forall|i: int| 0 <= i < keep.len() implies subset(
                #[trigger] keep[i],
                begun[i],
            ) by {
                assert(subset(keep[i], before[i]));
                if i == at {
                    assert forall|b: int| 0 <= b < keep[i].len() && keep[i][b] implies begun[i][b] by {
                        assert(b == choices[k - 1].1.0);
                    }
                }
            }
        }
        assert forall|i: int| 0 <= i < begun.len() implies subset(#[trigger] begun[i], start[i]) by {
            assert(subset(begun[i], before[i]));
            assert(subset(before[i], start[i]));
        }
        assert(self_supporting::<Sp, O>(dimensions, rules, keep, begun)) by {
            assert forall|x: Sp::Coordinate, t: State|
                #![trigger upheld::<Sp, O>(dimensions, rules, keep, x, t)]
                Sp::contains(dimensions, x) && entropy_of(begun[Sp::position(dimensions, x)]) > 0
                    && t.0 < keep[Sp::position(dimensions, x)].len()
                    && keep[Sp::position(dimensions, x)][t.0 as int] implies upheld::<Sp, O>(
                dimensions,
                rules,
                keep,
                x,
                t,
            ) by {
                let i = Sp::position(dimensions, x);
                Sp::lemma_enumeration(dimensions);
                assert(keep.len() == start.len());
                assert(0 <= i < begun.len());
                assert(subset(begun[i], start[i]));
                lemma_count_subset(begun[i], start[i]);
            }
        }
        assert(within(keep, after));
        assert forall|i: int| 0 <= i < after.len() implies subset(#[trigger] after[i], start[i]) by {
            assert(subset(after[i], begun[i]));
            assert(subset(begun[i], start[i]));
        }
    }
}

} // verus!
