//! What a depth-first traversal has behind it while it is under way.
//!
//! The traversal stands on a trail of states, one for each open level, and
//! for each level keeps the choice it considers there: for the levels
//! below the top the choice that led one level up, for the top the choice
//! it tries next. Everything that such a cursor has passed is on record.
//! The records only grow, and no state of the trail was on record when the
//! traversal came to it.

use crate::route::closed_but;
use crate::route::covers;
use crate::route::first_out;
use crate::route::leads_out;
use crate::route::is_route;
use crate::route::is_simple;
use crate::route::lemma_stop_next;
use crate::route::lemma_stop_shared;
use crate::route::parts_at;
use crate::route::precedes;
use crate::route::stop;
use crate::route::walk;
use crate::search::SearchSpace;
use vstd::prelude::*;

verus! {

/// What is on record for level `i` of a traversal with `cursor` that
/// stands on `trail`: the trail up to that level, every successor of the
/// state at level `i` that comes before the choice considered there, and
/// with each state off that trail all its successors. A level below the
/// top considers a successor that exists and that was not on record, and
/// the record of the top level holds what is on record there.
pub open spec fn level_swept<S: SearchSpace + ?Sized>(
    space: &S,
    start: S::State,
    cursor: Seq<int>,
    trail: Seq<S::State>,
    seen_at: Seq<Set<S::State>>,
    i: int,
) -> bool {
    &&& trail[i] == stop(space, start, cursor, i)
    &&& forall|j: int| 0 <= j <= i ==> seen_at[i].contains(#[trigger] trail[j])
    &&& closed_but(space, seen_at[i], trail.take(i + 1))
    &&& forall|e: int|
        0 <= e < cursor[i] ==> seen_at[i].contains(#[trigger] space.successors(trail[i])[e].1)
    &&& 0 <= cursor[i] <= space.successors(trail[i]).len()
    &&& seen_at[i].subset_of(seen_at.last())
    &&& i < cursor.len() - 1 ==> {
        &&& cursor[i] < space.successors(trail[i]).len()
        &&& !seen_at[i].contains(trail[i + 1])
    }
}

/// The traversal with `cursor` stands on `trail`, and `seen_at` holds the
/// record of each of its levels.
pub open spec fn swept<S: SearchSpace + ?Sized>(
    space: &S,
    start: S::State,
    cursor: Seq<int>,
    trail: Seq<S::State>,
    seen_at: Seq<Set<S::State>>,
) -> bool {
    &&& trail.len() == cursor.len()
    &&& seen_at.len() == cursor.len()
    &&& forall|i: int|
        0 <= i < cursor.len() ==> #[trigger] level_swept(space, start, cursor, trail, seen_at, i)
}

/// A simple route that has left the trail at level `k` for a state on
/// record there stays among the states on record at that level.
proof fn lemma_stays_seen<S: SearchSpace + ?Sized>(
    space: &S,
    start: S::State,
    seen: Set<S::State>,
    open: Seq<S::State>,
    other: Seq<int>,
    k: int,
    m: int,
)
    requires
        closed_but(space, seen, open),
        is_route(space, start, other),
        is_simple(space, start, other),
        0 <= k < m <= other.len(),
        open.len() == k + 1,
        forall|j: int| 0 <= j <= k ==> #[trigger] open[j] == stop(space, start, other, j),
        seen.contains(stop(space, start, other, k + 1)),
    ensures
        seen.contains(stop(space, start, other, m)),
    decreases m,
{
    if m > k + 1 {
        lemma_stays_seen(space, start, seen, open, other, k, m - 1);
        let at = stop(space, start, other, m - 1);
        assert(!open.contains(at)) by {
            if open.contains(at) {
                let j = choose|j: int| 0 <= j < open.len() && open[j] == at;
                assert(stop(space, start, other, j) != stop(space, start, other, m - 1));
            }
        }
        lemma_stop_next(space, start, other, m - 1);
        assert(0 <= other[m - 1] < space.successors(at).len());
        assert(seen.contains(space.successors(at)[other[m - 1]].1));
    }
}

/// A simple route that precedes the cursor ends in a state on record.
pub proof fn lemma_behind_is_seen<S: SearchSpace + ?Sized>(
    space: &S,
    start: S::State,
    cursor: Seq<int>,
    trail: Seq<S::State>,
    seen_at: Seq<Set<S::State>>,
    other: Seq<int>,
)
    requires
        swept(space, start, cursor, trail, seen_at),
        is_route(space, start, other),
        is_simple(space, start, other),
        precedes(other, cursor),
    ensures
        seen_at.last().contains(walk(space, start, other)),
{
    let k = choose|k: int| parts_at(other, cursor, k);
    assert(parts_at(other, cursor, k));
    assert(level_swept(space, start, cursor, trail, seen_at, k));
    lemma_stop_shared(space, start, other, cursor, k, k);
    assert(seen_at[k].contains(trail[k]));
    if k == other.len() {
        assert(other.take(k) =~= other);
    } else {
        let open = trail.take(k + 1);
        assert forall|j: int| 0 <= j <= k implies #[trigger] open[j] == stop(
            space,
            start,
            other,
            j,
        ) by {
            lemma_stop_shared(space, start, other, cursor, k, j);
            assert(level_swept(space, start, cursor, trail, seen_at, j));
        }
        lemma_stop_next(space, start, other, k);
        assert(0 <= other[k] < cursor[k]);
        assert(seen_at[k].contains(space.successors(trail[k])[other[k]].1));
        lemma_stays_seen(space, start, seen_at[k], open, other, k, other.len() as int);
        assert(other.take(other.len() as int) =~= other);
    }
}

/// Where the successor that the cursor considers is not on record, the
/// cursor is the first route that leads out of the record, and ends in
/// that successor.
pub proof fn lemma_cursor_first_out<S: SearchSpace + ?Sized>(
    space: &S,
    start: S::State,
    cursor: Seq<int>,
    trail: Seq<S::State>,
    seen_at: Seq<Set<S::State>>,
)
    requires
        swept(space, start, cursor, trail, seen_at),
        cursor.len() > 0,
        cursor.last() < space.successors(trail.last()).len(),
        !seen_at.last().contains(space.successors(trail.last())[cursor.last()].1),
    ensures
        first_out(space, start, seen_at.last(), cursor),
        walk(space, start, cursor) == space.successors(trail.last())[cursor.last()].1,
{
    let n = cursor.len() as int;
    let seen = seen_at.last();
    lemma_stop_next(space, start, cursor, n - 1);
    assert(level_swept(space, start, cursor, trail, seen_at, n - 1));
    assert forall|k: int| 0 <= k < n implies 0 <= #[trigger] cursor[k] < space.successors(
        stop(space, start, cursor, k),
    ).len() by {
        assert(level_swept(space, start, cursor, trail, seen_at, k));
    }
    assert forall|i: int, j: int| 0 <= i < j <= n implies #[trigger] stop(space, start, cursor, i)
        != #[trigger] stop(space, start, cursor, j) by {
        assert(level_swept(space, start, cursor, trail, seen_at, i));
        assert(level_swept(space, start, cursor, trail, seen_at, j - 1));
        assert(seen_at[j - 1].contains(trail[i]));
        if j < n {
            assert(level_swept(space, start, cursor, trail, seen_at, j));
        }
    }
    assert forall|other: Seq<int>| #[trigger] leads_out(space, start, seen, other) implies !precedes(
        other,
        cursor,
    ) by {
        if precedes(other, cursor) {
            lemma_behind_is_seen(space, start, cursor, trail, seen_at, other);
        }
    }
}

/// A change of the cursor at or above level `i` leaves the first `i` stops
/// where they were.
proof fn lemma_stop_kept<S: SearchSpace + ?Sized>(
    space: &S,
    start: S::State,
    cursor: Seq<int>,
    changed: Seq<int>,
    i: int,
)
    requires
        0 <= i <= cursor.len(),
        i <= changed.len(),
        forall|j: int| 0 <= j < i ==> cursor[j] == changed[j],
    ensures
        stop(space, start, changed, i) == stop(space, start, cursor, i),
{
    assert(changed.take(i) =~= cursor.take(i));
}

/// The cursor without its last choice is the route on which the traversal
/// stands: a simple route along the trail, whose every stop is on record.
pub proof fn lemma_trail_is_route<S: SearchSpace + ?Sized>(
    space: &S,
    start: S::State,
    cursor: Seq<int>,
    trail: Seq<S::State>,
    seen_at: Seq<Set<S::State>>,
)
    requires
        swept(space, start, cursor, trail, seen_at),
        cursor.len() > 0,
    ensures
        is_route(space, start, cursor.drop_last()),
        is_simple(space, start, cursor.drop_last()),
        walk(space, start, cursor.drop_last()) == trail.last(),
        forall|k: int|
            0 <= k < cursor.len() ==> seen_at.last().contains(
                #[trigger] stop(space, start, cursor.drop_last(), k),
            ),
{
    let route = cursor.drop_last();
    let n = cursor.len() as int;
    assert forall|k: int| 0 <= k < n implies #[trigger] stop(space, start, route, k) == trail[k]
        && seen_at.last().contains(trail[k]) by {
        assert(level_swept(space, start, cursor, trail, seen_at, k));
        lemma_stop_kept(space, start, cursor, route, k);
        assert(seen_at[k].contains(trail[k]));
    }
    assert forall|k: int| 0 <= k < route.len() implies 0 <= #[trigger] route[k]
        < space.successors(stop(space, start, route, k)).len() by {
        assert(level_swept(space, start, cursor, trail, seen_at, k));
        assert(stop(space, start, route, k) == trail[k]);
    }
    assert forall|i: int, j: int| 0 <= i < j <= route.len() implies #[trigger] stop(
        space,
        start,
        route,
        i,
    ) != #[trigger] stop(space, start, route, j) by {
        assert(stop(space, start, route, i) == trail[i]);
        assert(stop(space, start, route, j) == trail[j]);
        assert(level_swept(space, start, cursor, trail, seen_at, j - 1));
        assert(seen_at[j - 1].contains(trail[i]));
    }
    assert(route.take(n - 1) =~= route);
    assert(stop(space, start, route, n - 1) == trail[n - 1]);
}

/// The traversal passes over a successor that is on record.
pub proof fn lemma_swept_pass<S: SearchSpace + ?Sized>(
    space: &S,
    start: S::State,
    cursor: Seq<int>,
    trail: Seq<S::State>,
    seen_at: Seq<Set<S::State>>,
)
    requires
        swept(space, start, cursor, trail, seen_at),
        cursor.len() > 0,
        cursor.last() < space.successors(trail.last()).len(),
        seen_at.last().contains(space.successors(trail.last())[cursor.last()].1),
    ensures
        swept(space, start, cursor.update(cursor.len() - 1, cursor.last() + 1), trail, seen_at),
{
    let top = cursor.len() - 1;
    let next = cursor.update(top, cursor.last() + 1);
    assert forall|i: int| 0 <= i < next.len() implies #[trigger] level_swept(
        space,
        start,
        next,
        trail,
        seen_at,
        i,
    ) by {
        assert(level_swept(space, start, cursor, trail, seen_at, i));
        lemma_stop_kept(space, start, cursor, next, i);
    }
}

/// The traversal goes down to a successor that was not on record.
pub proof fn lemma_swept_descend<S: SearchSpace + ?Sized>(
    space: &S,
    start: S::State,
    cursor: Seq<int>,
    trail: Seq<S::State>,
    seen_at: Seq<Set<S::State>>,
)
    requires
        swept(space, start, cursor, trail, seen_at),
        cursor.len() > 0,
        cursor.last() < space.successors(trail.last()).len(),
        !seen_at.last().contains(space.successors(trail.last())[cursor.last()].1),
    ensures
        ({
            let found = space.successors(trail.last())[cursor.last()].1;
            swept(
                space,
                start,
                cursor.push(0),
                trail.push(found),
                seen_at.push(seen_at.last().insert(found)),
            )
        }),
{
    let n = cursor.len() as int;
    let found = space.successors(trail.last())[cursor.last()].1;
    let cursor2 = cursor.push(0);
    let trail2 = trail.push(found);
    let seen2 = seen_at.push(seen_at.last().insert(found));
    assert(level_swept(space, start, cursor, trail, seen_at, n - 1));
    assert forall|i: int| 0 <= i < cursor2.len() implies #[trigger] level_swept(
        space,
        start,
        cursor2,
        trail2,
        seen2,
        i,
    ) by {
        if i < n {
            assert(level_swept(space, start, cursor, trail, seen_at, i));
            lemma_stop_kept(space, start, cursor, cursor2, i);
            assert(trail2.take(i + 1) =~= trail.take(i + 1));
        } else {
            assert(cursor2.take(n) =~= cursor);
            lemma_stop_next(space, start, cursor, n - 1);
            assert(trail.take(n) =~= trail);
            assert(trail2.take(n + 1) =~= trail2);
            assert forall|j: int| 0 <= j <= n implies seen2[n].contains(#[trigger] trail2[j]) by {
                if j < n {
                    assert(seen_at[n - 1].contains(trail[j]));
                }
            }
            assert forall|s: S::State, k: int|
                seen2[n].contains(s) && !trail2.contains(s) && 0 <= k < space.successors(s).len()
                implies seen2[n].contains(#[trigger] space.successors(s)[k].1) by {
                assert(trail2[n] == found);
                if trail.contains(s) {
                    let j = choose|j: int| 0 <= j < trail.len() && trail[j] == s;
                    assert(trail2[j] == s);
                }
                assert(seen_at[n - 1].contains(space.successors(s)[k].1));
            }
        }
    }
}

/// The traversal has tried every successor at the top level, and goes back
/// to the level below to consider the next choice there.
pub proof fn lemma_swept_retreat<S: SearchSpace + ?Sized>(
    space: &S,
    start: S::State,
    cursor: Seq<int>,
    trail: Seq<S::State>,
    seen_at: Seq<Set<S::State>>,
)
    requires
        swept(space, start, cursor, trail, seen_at),
        cursor.len() > 1,
        cursor.last() == space.successors(trail.last()).len(),
    ensures
        ({
            let below = cursor.len() - 2;
            swept(
                space,
                start,
                cursor.drop_last().update(below, cursor[below] + 1),
                trail.drop_last(),
                seen_at.drop_last().update(below, seen_at.last()),
            )
        }),
{
    let n = cursor.len() as int;
    let below = n - 2;
    let cursor2 = cursor.drop_last().update(below, cursor[below] + 1);
    let trail2 = trail.drop_last();
    let seen2 = seen_at.drop_last().update(below, seen_at.last());
    let seen = seen_at.last();
    assert(level_swept(space, start, cursor, trail, seen_at, n - 1));
    assert(level_swept(space, start, cursor, trail, seen_at, below));
    lemma_stop_next(space, start, cursor, below);
    assert forall|i: int| 0 <= i < cursor2.len() implies #[trigger] level_swept(
        space,
        start,
        cursor2,
        trail2,
        seen2,
        i,
    ) by {
        assert(level_swept(space, start, cursor, trail, seen_at, i));
        lemma_stop_kept(space, start, cursor, cursor2, i);
        assert(trail2.take(i + 1) =~= trail.take(i + 1));
        if i == below {
            lemma_retreat_closed(space, seen, trail, cursor.last());
            assert(trail.take(n) =~= trail);
            assert(trail.take(below + 1) =~= trail.drop_last());
            assert forall|j: int| 0 <= j <= below implies seen.contains(#[trigger] trail2[j]) by {
                assert(seen.contains(trail[j]));
            }
            assert forall|e: int| 0 <= e < cursor2[below] implies seen.contains(
                #[trigger] space.successors(trail2[below])[e].1,
            ) by {
                if e < cursor[below] {
                    assert(seen_at[below].contains(space.successors(trail[below])[e].1));
                } else {
                    assert(seen.contains(trail[n - 1]));
                }
            }
        }
    }
}

/// A record that is closed but for the trail, and holds every successor of
/// the last state of the trail, is closed but for the trail without its
/// last state.
proof fn lemma_retreat_closed<S: SearchSpace + ?Sized>(
    space: &S,
    seen: Set<S::State>,
    trail: Seq<S::State>,
    tried: int,
)
    requires
        trail.len() > 0,
        closed_but(space, seen, trail),
        tried == space.successors(trail.last()).len(),
        forall|e: int|
            0 <= e < tried ==> seen.contains(#[trigger] space.successors(trail.last())[e].1),
    ensures
        closed_but(space, seen, trail.drop_last()),
{
    let shorter = trail.drop_last();
    assert forall|s: S::State, k: int|
        seen.contains(s) && !shorter.contains(s) && 0 <= k < space.successors(s).len()
        implies seen.contains(#[trigger] space.successors(s)[k].1) by {
        if s != trail.last() {
            if trail.contains(s) {
                let j = choose|j: int| 0 <= j < trail.len() && trail[j] == s;
                assert(shorter[j] == s);
            }
        }
    }
}

/// A record that holds `start` and, with each of its states, all the
/// successors of that state, holds every state in reach.
pub proof fn lemma_closed_covers<S: SearchSpace + ?Sized>(
    space: &S,
    start: S::State,
    seen: Set<S::State>,
)
    requires
        seen.contains(start),
        closed_but(space, seen, Seq::empty()),
    ensures
        covers(space, start, seen),
{
    assert forall|route: Seq<int>| #[trigger] is_route(space, start, route) implies seen.contains(
        walk(space, start, route),
    ) by {
        lemma_closed_holds(space, start, seen, route, route.len() as int);
        assert(route.take(route.len() as int) =~= route);
    }
}

proof fn lemma_closed_holds<S: SearchSpace + ?Sized>(
    space: &S,
    start: S::State,
    seen: Set<S::State>,
    route: Seq<int>,
    k: int,
)
    requires
        seen.contains(start),
        closed_but(space, seen, Seq::empty()),
        is_route(space, start, route),
        0 <= k <= route.len(),
    ensures
        seen.contains(stop(space, start, route, k)),
    decreases k,
{
    if k > 0 {
        lemma_closed_holds(space, start, seen, route, k - 1);
        lemma_stop_next(space, start, route, k - 1);
        let at = stop(space, start, route, k - 1);
        assert(!Seq::<S::State>::empty().contains(at));
        assert(0 <= route[k - 1] < space.successors(at).len());
    } else {
        assert(route.take(0) =~= Seq::<int>::empty());
    }
}

/// When the bottom level has no successor left to try, the record holds
/// with each of its states all the successors of that state, and so every
/// state in reach.
pub proof fn lemma_swept_out<S: SearchSpace + ?Sized>(
    space: &S,
    start: S::State,
    cursor: Seq<int>,
    trail: Seq<S::State>,
    seen_at: Seq<Set<S::State>>,
)
    requires
        swept(space, start, cursor, trail, seen_at),
        cursor.len() == 1,
        cursor[0] == space.successors(trail[0]).len(),
    ensures
        seen_at[0].contains(start),
        closed_but(space, seen_at[0], Seq::empty()),
        covers(space, start, seen_at[0]),
{
    assert(level_swept(space, start, cursor, trail, seen_at, 0));
    assert(seen_at[0].contains(trail[0]));
    assert(cursor.take(0) =~= Seq::<int>::empty());
    assert(trail.take(1) =~= trail);
    lemma_retreat_closed(space, seen_at[0], trail, cursor[0]);
    assert(trail.drop_last() =~= Seq::<S::State>::empty());
    lemma_closed_covers(space, start, seen_at[0]);
}

} // verus!
