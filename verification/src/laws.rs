//! What holds of every search.

use crate::route::first_hit;
use crate::route::hits;
use crate::route::is_outcome;
use crate::route::is_route;
use crate::route::labels;
use crate::route::lemma_covers_no_goal;
use crate::route::out_of_reach;
use crate::route::parts_at;
use crate::route::precedes;
use crate::route::sealed;
use crate::route::walk;
use crate::search::SearchGoal;
use crate::search::SearchSpace;
use crate::sweep::lemma_closed_covers;
use vstd::prelude::*;

verus! {

proof fn lemma_order_total_from(a: Seq<int>, b: Seq<int>, k: int)
    requires
        0 <= k <= a.len(),
        k <= b.len(),
        a.take(k) == b.take(k),
        a != b,
    ensures
        precedes(a, b) || precedes(b, a),
    decreases a.len() - k,
{
    if k == a.len() {
        if k == b.len() {
            assert(a.take(k) =~= a);
            assert(b.take(k) =~= b);
        } else {
            assert(parts_at(a, b, k));
        }
    } else if k == b.len() {
        assert(parts_at(b, a, k));
    } else if a[k] < b[k] {
        assert(parts_at(a, b, k));
    } else if b[k] < a[k] {
        assert(parts_at(b, a, k));
    } else {
        assert(a.take(k + 1) =~= a.take(k).push(a[k]));
        assert(b.take(k + 1) =~= b.take(k).push(b[k]));
        lemma_order_total_from(a, b, k + 1);
    }
}

/// Of two different routes a depth-first traversal comes to the end of one
/// before the other.
pub proof fn lemma_order_total(a: Seq<int>, b: Seq<int>)
    requires
        a != b,
    ensures
        precedes(a, b) || precedes(b, a),
{
    assert(a.take(0) =~= b.take(0));
    lemma_order_total_from(a, b, 0);
}

/// A search space holds at most one first route to a goal.
pub proof fn lemma_first_hit_unique<S: SearchSpace + ?Sized, G: SearchGoal<S::State>>(
    space: &S,
    start: S::State,
    goal: &G,
    a: Seq<int>,
    b: Seq<int>,
)
    requires
        first_hit(space, start, goal, a),
        first_hit(space, start, goal, b),
    ensures
        a == b,
{
    if a != b {
        lemma_order_total(a, b);
        assert(hits(space, start, goal, a));
        assert(hits(space, start, goal, b));
    }
}

/// A search has one outcome: two searches of one space from one start for
/// one goal come to the same path, or both to none.
pub proof fn law_outcome_unique<S: SearchSpace + ?Sized, G: SearchGoal<S::State>>(
    space: &S,
    start: S::State,
    goal: &G,
    first: Option<Seq<S::Action>>,
    second: Option<Seq<S::Action>>,
)
    requires
        is_outcome(space, start, goal, first),
        is_outcome(space, start, goal, second),
    ensures
        first == second,
{
    match (first, second) {
        (Some(p), Some(q)) => {
            let a = choose|a: Seq<int>| #[trigger]
                first_hit(space, start, goal, a) && p == labels(space, start, a);
            let b = choose|b: Seq<int>| #[trigger]
                first_hit(space, start, goal, b) && q == labels(space, start, b);
            lemma_first_hit_unique(space, start, goal, a, b);
        },
        (Some(p), None) => {
            let a = choose|a: Seq<int>| #[trigger]
                first_hit(space, start, goal, a) && p == labels(space, start, a);
            assert(is_route(space, start, a));
        },
        (None, Some(q)) => {
            let b = choose|b: Seq<int>| #[trigger]
                first_hit(space, start, goal, b) && q == labels(space, start, b);
            assert(is_route(space, start, b));
        },
        (None, None) => {},
    }
}

/// The path that a search comes to can be replayed: there is a route from
/// the start whose steps carry the actions of the path, one by one, and
/// that ends in a state that the goal accepts.
pub proof fn law_path_replays<S: SearchSpace + ?Sized, G: SearchGoal<S::State>>(
    space: &S,
    start: S::State,
    goal: &G,
    path: Seq<S::Action>,
)
    requires
        is_outcome(space, start, goal, Some(path)),
    ensures
        exists|route: Seq<int>|
            {
                &&& #[trigger] is_route(space, start, route)
                &&& labels(space, start, route) == path
                &&& goal.accepts(walk(space, start, route))
            },
{
    let route = choose|route: Seq<int>| #[trigger]
        first_hit(space, start, goal, route) && path == labels(space, start, route);
    assert(is_route(space, start, route));
}

/// A search that has met `start`, has met every successor of every state
/// it has met, and has met no state that the goal accepts, has skipped
/// nothing: no state in reach is accepted.
pub proof fn law_failure_sound<S: SearchSpace + ?Sized, G: SearchGoal<S::State>>(
    space: &S,
    start: S::State,
    goal: &G,
    met: Set<S::State>,
)
    requires
        sealed(space, start, goal, met),
    ensures
        out_of_reach(space, start, goal),
        is_outcome(space, start, goal, None),
{
    lemma_closed_covers(space, start, met);
    lemma_covers_no_goal(space, start, goal, met);
}

} // verus!
