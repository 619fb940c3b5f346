//! Routes through a search space, and the order in which a depth-first
//! traversal tries them.
//!
//! A route is the sequence of choices made along a walk: its `k`-th entry
//! is the position, among the successors of the `k`-th state of the walk,
//! of the successor that the walk moves to.

use crate::search::SearchGoal;
use crate::search::SearchSpace;
use vstd::prelude::*;

verus! {

/// The state in which the walk along `route` from `start` ends.
pub open spec fn walk<S: SearchSpace + ?Sized>(space: &S, start: S::State, route: Seq<int>) -> S::State
    decreases route.len(),
{
    if route.len() == 0 {
        start
    } else {
        space.successors(walk(space, start, route.drop_last()))[route.last()].1
    }
}

/// The state that the walk along `route` is in after `k` steps.
pub open spec fn stop<S: SearchSpace + ?Sized>(
    space: &S,
    start: S::State,
    route: Seq<int>,
    k: int,
) -> S::State {
    walk(space, start, route.take(k))
}

/// Every choice of `route` names a successor that exists.
pub open spec fn is_route<S: SearchSpace + ?Sized>(space: &S, start: S::State, route: Seq<int>) -> bool {
    forall|k: int|
        0 <= k < route.len() ==> 0 <= #[trigger] route[k] < space.successors(
            stop(space, start, route, k),
        ).len()
}

/// The walk along `route` is in no state twice.
pub open spec fn is_simple<S: SearchSpace + ?Sized>(space: &S, start: S::State, route: Seq<int>) -> bool {
    forall|i: int, j: int|
        0 <= i < j <= route.len() ==> #[trigger] stop(space, start, route, i) != #[trigger] stop(
            space,
            start,
            route,
            j,
        )
}

/// The actions that label the steps of `route`, in the order taken.
pub open spec fn labels<S: SearchSpace + ?Sized>(space: &S, start: S::State, route: Seq<int>) -> Seq<
    S::Action,
> {
    Seq::new(
        route.len(),
        |k: int| space.successors(stop(space, start, route, k))[route[k]].0,
    )
}

/// `a` and `b` agree on their first `k` choices, and there `a` either ends
/// while `b` goes on, or turns to an earlier successor than `b` does.
pub open spec fn parts_at(a: Seq<int>, b: Seq<int>, k: int) -> bool {
    &&& 0 <= k <= a.len()
    &&& k < b.len()
    &&& a.take(k) == b.take(k)
    &&& k < a.len() ==> a[k] < b[k]
}

/// A depth-first traversal comes to the end of `a` before it comes to the
/// end of `b`: a state is met before anything below it, and the successors
/// of a state are tried in the order in which they are listed.
pub open spec fn precedes(a: Seq<int>, b: Seq<int>) -> bool {
    exists|k: int| parts_at(a, b, k)
}

/// `route` is a simple route that ends outside `seen`.
pub open spec fn leads_out<S: SearchSpace + ?Sized>(
    space: &S,
    start: S::State,
    seen: Set<S::State>,
    route: Seq<int>,
) -> bool {
    &&& is_route(space, start, route)
    &&& is_simple(space, start, route)
    &&& !seen.contains(walk(space, start, route))
}

/// `route` is the first, in depth-first order, of the simple routes that
/// end outside `seen`.
pub open spec fn first_out<S: SearchSpace + ?Sized>(
    space: &S,
    start: S::State,
    seen: Set<S::State>,
    route: Seq<int>,
) -> bool {
    &&& leads_out(space, start, seen, route)
    &&& forall|other: Seq<int>| #[trigger]
        leads_out(space, start, seen, other) ==> !precedes(other, route)
}

/// Every state that can be reached from `start` is in `seen`.
pub open spec fn covers<S: SearchSpace + ?Sized>(space: &S, start: S::State, seen: Set<S::State>) -> bool {
    forall|route: Seq<int>| #[trigger]
        is_route(space, start, route) ==> seen.contains(walk(space, start, route))
}

/// With each state of `seen` that is not in `open`, `seen` holds all its
/// successors.
pub open spec fn closed_but<S: SearchSpace + ?Sized>(
    space: &S,
    seen: Set<S::State>,
    open: Seq<S::State>,
) -> bool {
    forall|s: S::State, i: int|
        seen.contains(s) && !open.contains(s) && 0 <= i < space.successors(s).len()
            ==> seen.contains(#[trigger] space.successors(s)[i].1)
}

/// `route` is a simple route that ends in a state that `goal` accepts.
pub open spec fn hits<S: SearchSpace + ?Sized, G: SearchGoal<S::State>>(
    space: &S,
    start: S::State,
    goal: &G,
    route: Seq<int>,
) -> bool {
    &&& is_route(space, start, route)
    &&& is_simple(space, start, route)
    &&& goal.accepts(walk(space, start, route))
}

/// No route that hits the goal comes before `route`.
pub open spec fn unbeaten<S: SearchSpace + ?Sized, G: SearchGoal<S::State>>(
    space: &S,
    start: S::State,
    goal: &G,
    route: Seq<int>,
) -> bool {
    forall|other: Seq<int>| #[trigger] hits(space, start, goal, other) ==> !precedes(other, route)
}

/// `route` is the first, in depth-first order, of the simple routes that
/// end in a state that `goal` accepts.
pub open spec fn first_hit<S: SearchSpace + ?Sized, G: SearchGoal<S::State>>(
    space: &S,
    start: S::State,
    goal: &G,
    route: Seq<int>,
) -> bool {
    &&& hits(space, start, goal, route)
    &&& unbeaten(space, start, goal, route)
}

/// No state that can be reached from `start` is accepted by `goal`.
pub open spec fn out_of_reach<S: SearchSpace + ?Sized, G: SearchGoal<S::State>>(
    space: &S,
    start: S::State,
    goal: &G,
) -> bool {
    forall|route: Seq<int>| #[trigger]
        is_route(space, start, route) ==> !goal.accepts(walk(space, start, route))
}

/// `met` is what a search that found nothing has met: `start`, with each
/// state all the successors of that state, and no state that `goal`
/// accepts.
pub open spec fn sealed<S: SearchSpace + ?Sized, G: SearchGoal<S::State>>(
    space: &S,
    start: S::State,
    goal: &G,
    met: Set<S::State>,
) -> bool {
    &&& met.contains(start)
    &&& closed_but(space, met, Seq::empty())
    &&& forall|s: S::State| met.contains(s) ==> !goal.accepts(s)
}

/// What a depth-first search from `start` for `goal` comes to: the labels
/// of the first route that hits the goal, or nothing where no state in
/// reach is accepted.
pub open spec fn is_outcome<S: SearchSpace + ?Sized, G: SearchGoal<S::State>>(
    space: &S,
    start: S::State,
    goal: &G,
    path: Option<Seq<S::Action>>,
) -> bool {
    match path {
        Some(actions) => exists|route: Seq<int>| #[trigger]
            first_hit(space, start, goal, route) && actions == labels(space, start, route),
        None => out_of_reach(space, start, goal),
    }
}

/// `region` holds, with each of its states that `goal` does not accept,
/// all the successors of that state.
pub open spec fn confines<S: SearchSpace + ?Sized, G: SearchGoal<S::State>>(
    space: &S,
    goal: &G,
    region: Set<S::State>,
) -> bool {
    forall|s: S::State, i: int|
        region.contains(s) && !goal.accepts(s) && 0 <= i < space.successors(s).len()
            ==> region.contains(#[trigger] space.successors(s)[i].1)
}

/// `region` holds every state that a search from `start` for `goal` can
/// come to: the end of every simple route that no hit comes before.
pub open spec fn bounds<S: SearchSpace + ?Sized, G: SearchGoal<S::State>>(
    space: &S,
    start: S::State,
    goal: &G,
    region: Set<S::State>,
) -> bool {
    forall|route: Seq<int>|
        is_route(space, start, route) && is_simple(space, start, route) && #[trigger] unbeaten(
            space,
            start,
            goal,
            route,
        ) ==> region.contains(walk(space, start, route))
}

/// A search from `start` for `goal` comes to finitely many states.
pub open spec fn explorable<S: SearchSpace + ?Sized, G: SearchGoal<S::State>>(
    space: &S,
    start: S::State,
    goal: &G,
) -> bool {
    exists|region: Set<S::State>| region.finite() && #[trigger] bounds(space, start, goal, region)
}

/// `buffer` ends with `path`.
pub open spec fn carries<A>(buffer: Seq<A>, path: Seq<A>) -> bool {
    &&& path.len() <= buffer.len()
    &&& buffer.skip(buffer.len() - path.len()) == path
}

/// What `buffer` holds before its last `n` items.
pub open spec fn beneath<A>(buffer: Seq<A>, n: nat) -> Seq<A> {
    buffer.take(buffer.len() - n)
}

/// The walk gets from each stop to the next by the choice made there.
pub proof fn lemma_stop_next<S: SearchSpace + ?Sized>(space: &S, start: S::State, route: Seq<int>, k: int)
    requires
        0 <= k < route.len(),
    ensures
        stop(space, start, route, k + 1) == space.successors(stop(space, start, route, k))[route[k]].1,
        stop(space, start, route, 0) == start,
        stop(space, start, route, route.len() as int) == walk(space, start, route),
{
    assert(route.take(k + 1).drop_last() =~= route.take(k));
    assert(route.take(route.len() as int) =~= route);
}

/// Routes that agree on their first `k` choices pass the same first `k`
/// stops.
pub proof fn lemma_stop_shared<S: SearchSpace + ?Sized>(
    space: &S,
    start: S::State,
    a: Seq<int>,
    b: Seq<int>,
    k: int,
    j: int,
)
    requires
        0 <= j <= k <= a.len(),
        k <= b.len(),
        a.take(k) == b.take(k),
    ensures
        stop(space, start, a, j) == stop(space, start, b, j),
{
    assert(a.take(j) =~= a.take(k).take(j));
    assert(b.take(j) =~= b.take(k).take(j));
}

/// The labels of a route with one more choice are those of the route, and
/// then the label of the step chosen.
pub proof fn lemma_labels_push<S: SearchSpace + ?Sized>(
    space: &S,
    start: S::State,
    route: Seq<int>,
    i: int,
)
    ensures
        labels(space, start, route.push(i)) == labels(space, start, route).push(
            space.successors(walk(space, start, route))[i].0,
        ),
{
    let longer = route.push(i);
    assert forall|k: int| 0 <= k <= route.len() implies stop(space, start, longer, k) == stop(
        space,
        start,
        route,
        k,
    ) by {
        assert(longer.take(k) =~= route.take(k));
    }
    assert(route.take(route.len() as int) =~= route);
    assert(labels(space, start, longer) =~= labels(space, start, route).push(
        space.successors(walk(space, start, route))[i].0,
    ));
}

/// The labels of a route without its last choice are those of the route
/// without the last.
pub proof fn lemma_labels_drop_last<S: SearchSpace + ?Sized>(
    space: &S,
    start: S::State,
    route: Seq<int>,
)
    requires
        route.len() > 0,
    ensures
        labels(space, start, route.drop_last()) == labels(space, start, route).drop_last(),
{
    let shorter = route.drop_last();
    assert forall|k: int| 0 <= k < route.len() implies stop(space, start, shorter, k) == stop(
        space,
        start,
        route,
        k,
    ) by {
        assert(shorter.take(k) =~= route.take(k));
    }
    assert(labels(space, start, shorter) =~= labels(space, start, route).drop_last());
}

/// A search comes to its start before anything else: the route without a
/// step is a simple route that no hit comes before.
pub proof fn lemma_start_first<S: SearchSpace + ?Sized, G: SearchGoal<S::State>>(
    space: &S,
    start: S::State,
    goal: &G,
)
    ensures
        is_route(space, start, Seq::<int>::empty()),
        is_simple(space, start, Seq::<int>::empty()),
        unbeaten(space, start, goal, Seq::<int>::empty()),
        walk(space, start, Seq::<int>::empty()) == start,
{
    let none = Seq::<int>::empty();
    assert forall|other: Seq<int>| #[trigger] hits(space, start, goal, other) implies !precedes(
        other,
        none,
    ) by {
        assert forall|k: int| !parts_at(other, none, k) by {}
    }
}

/// Where `goal` accepts `start`, the search is over before the first
/// step.
pub proof fn lemma_start_hit<S: SearchSpace + ?Sized, G: SearchGoal<S::State>>(
    space: &S,
    start: S::State,
    goal: &G,
)
    requires
        goal.accepts(start),
    ensures
        first_hit(space, start, goal, Seq::<int>::empty()),
        labels(space, start, Seq::<int>::empty()) == Seq::<S::Action>::empty(),
        is_outcome(space, start, goal, Some(Seq::<S::Action>::empty())),
{
    let none = Seq::<int>::empty();
    assert(labels(space, start, none) =~= Seq::<S::Action>::empty());
    lemma_start_first(space, start, goal);
    assert(first_hit(space, start, goal, none));
}

/// A prefix of a route is a route, and simple where the route is.
pub proof fn lemma_prefix<S: SearchSpace + ?Sized>(space: &S, start: S::State, route: Seq<int>, k: int)
    requires
        is_route(space, start, route),
        0 <= k <= route.len(),
    ensures
        is_route(space, start, route.take(k)),
        is_simple(space, start, route) ==> is_simple(space, start, route.take(k)),
        k < route.len() ==> precedes(route.take(k), route),
{
    let prefix = route.take(k);
    assert forall|j: int| 0 <= j <= k implies stop(space, start, prefix, j) == stop(
        space,
        start,
        route,
        j,
    ) by {
        assert(prefix.take(j) =~= route.take(j));
    }
    assert forall|j: int| 0 <= j < prefix.len() implies 0 <= #[trigger] prefix[j]
        < space.successors(stop(space, start, prefix, j)).len() by {
        assert(0 <= route[j] < space.successors(stop(space, start, route, j)).len());
    }
    if is_simple(space, start, route) {
        assert forall|i: int, j: int| 0 <= i < j <= prefix.len() implies #[trigger] stop(
            space,
            start,
            prefix,
            i,
        ) != #[trigger] stop(space, start, prefix, j) by {
            assert(stop(space, start, route, i) != stop(space, start, route, j));
        }
    }
    if k < route.len() {
        assert(prefix.take(k) =~= route.take(k));
        assert(parts_at(prefix, route, k));
    }
}

/// Where `goal` accepts no state of `seen`, no hit comes before the first
/// route that leads out of `seen`.
pub proof fn lemma_first_out_unbeaten<S: SearchSpace + ?Sized, G: SearchGoal<S::State>>(
    space: &S,
    start: S::State,
    goal: &G,
    seen: Set<S::State>,
    route: Seq<int>,
)
    requires
        first_out(space, start, seen, route),
        forall|s: S::State| seen.contains(s) ==> !goal.accepts(s),
    ensures
        unbeaten(space, start, goal, route),
        goal.accepts(walk(space, start, route)) ==> first_hit(space, start, goal, route),
{
    assert forall|other: Seq<int>| #[trigger] hits(space, start, goal, other) implies !precedes(
        other,
        route,
    ) by {
        assert(leads_out(space, start, seen, other));
    }
}

/// Where `seen` holds every state in reach and `goal` accepts none of
/// them, the goal is out of reach.
pub proof fn lemma_covers_no_goal<S: SearchSpace + ?Sized, G: SearchGoal<S::State>>(
    space: &S,
    start: S::State,
    goal: &G,
    seen: Set<S::State>,
)
    requires
        covers(space, start, seen),
        forall|s: S::State| seen.contains(s) ==> !goal.accepts(s),
    ensures
        out_of_reach(space, start, goal),
{
}

/// A route that meets no accepted state before its end stays within a
/// region that confines the search.
pub proof fn lemma_confined<S: SearchSpace + ?Sized, G: SearchGoal<S::State>>(
    space: &S,
    start: S::State,
    goal: &G,
    region: Set<S::State>,
    route: Seq<int>,
    k: int,
)
    requires
        confines(space, goal, region),
        region.contains(start),
        is_route(space, start, route),
        0 <= k <= route.len(),
        forall|j: int| 0 <= j < k ==> !goal.accepts(#[trigger] stop(space, start, route, j)),
    ensures
        region.contains(stop(space, start, route, k)),
    decreases k,
{
    if k > 0 {
        lemma_confined(space, start, goal, region, route, k - 1);
        lemma_stop_next(space, start, route, k - 1);
        let at = stop(space, start, route, k - 1);
        assert(!goal.accepts(at));
        assert(0 <= route[k - 1] < space.successors(at).len());
    } else {
        assert(route.take(0) =~= Seq::<int>::empty());
    }
}

/// A search stays within a finite region that holds `start` and, with
/// each of its states that the goal does not accept, the successors of
/// that state.
pub proof fn lemma_confined_explorable<S: SearchSpace + ?Sized, G: SearchGoal<S::State>>(
    space: &S,
    start: S::State,
    goal: &G,
    region: Set<S::State>,
)
    requires
        region.finite(),
        region.contains(start),
        confines(space, goal, region),
    ensures
        bounds(space, start, goal, region),
        explorable(space, start, goal),
{
    assert forall|route: Seq<int>|
        is_route(space, start, route) && is_simple(space, start, route) && #[trigger] unbeaten(
            space,
            start,
            goal,
            route,
        ) implies region.contains(walk(space, start, route)) by {
        assert forall|j: int| 0 <= j < route.len() implies !goal.accepts(
            #[trigger] stop(space, start, route, j),
        ) by {
            lemma_prefix(space, start, route, j);
            if goal.accepts(stop(space, start, route, j)) {
                assert(hits(space, start, goal, route.take(j)));
            }
        }
        lemma_confined(space, start, goal, region, route, route.len() as int);
        assert(route.take(route.len() as int) =~= route);
    }
    assert(bounds(space, start, goal, region));
}

} // verus!
