//! Depth-first search over a space of states that is given by its
//! transitions alone.

use crate::frontier::Frontier;
use crate::route::beneath;
use crate::route::bounds;
use crate::route::carries;
use crate::route::closed_but;
use crate::route::covers;
use crate::route::explorable;
use crate::route::first_hit;
use crate::route::first_out;
use crate::route::is_outcome;
use crate::route::is_route;
use crate::route::labels;
use crate::route::lemma_covers_no_goal;
use crate::route::lemma_first_out_unbeaten;
use crate::route::lemma_start_first;
use crate::route::lemma_start_hit;
use crate::route::sealed;
use crate::route::walk;
use std::collections::HashSet;
use std::hash::Hash;
use vstd::prelude::*;
use vstd::std_specs::cmp::PartialEqSpec;
use vstd::std_specs::hash::*;
use vstd::std_specs::iter::IteratorSpec;

verus! {

/// A clone of a `T` is the value that was cloned.
pub open spec fn clone_is_exact<T: Clone>() -> bool {
    forall|a: T, b: T| #[trigger] call_ensures(T::clone, (&a,), b) ==> a == b
}

/// The states that a traversal has met.
pub struct Visited<T> {
    hash_set: HashSet<T>,
}

impl<T> Visited<T> where T: Hash + Clone + Eq {
    pub closed spec fn view(&self) -> Set<T> {
        self.hash_set@
    }

    pub fn new() -> (visited: Visited<T>)
        ensures
            visited@ == Set::<T>::empty(),
    {
        Visited { hash_set: HashSet::new() }
    }

    /// Says whether `value` was on record already, and puts it there if it
    /// was not.
    pub fn insert(&mut self, value: &T) -> (known: bool)
        requires
            obeys_key_model::<T>(),
            clone_is_exact::<T>(),
        ensures
            known == old(self)@.contains(*value),
            final(self)@ == old(self)@.insert(*value),
    {
        broadcast use group_hash_axioms;

        !self.hash_set.insert(value.clone())
    }
}

/// What a search looks for.
pub trait SearchGoal<T> {
    /// Whether `is_goal` keeps to `accepts`.
    open spec fn obeys_goal_spec() -> bool {
        false
    }

    /// The states that the goal is met in.
    open spec fn accepts(&self, state: T) -> bool {
        false
    }

    fn is_goal(&self, state: &T) -> (hit: bool)
        ensures
            Self::obeys_goal_spec() ==> hit == self.accepts(*state),
    ;
}

/// A state is the goal of a search for the states that are equal to it.
impl<T> SearchGoal<T> for T where T: PartialEq {
    open spec fn obeys_goal_spec() -> bool {
        T::obeys_eq_spec()
    }

    open spec fn accepts(&self, state: T) -> bool {
        self.eq_spec(&state)
    }

    fn is_goal(&self, state: &T) -> (hit: bool) {
        *self == *state
    }
}

/// A space of states, given by the transitions that lead on from each.
pub trait SearchSpace {
    type State: Hash + Clone + Eq;

    type Action;

    type Iterator: Iterator<Item = (Self::Action, Self::State)>;

    /// Whether `expand` keeps to `successors`.
    open spec fn obeys_space_spec() -> bool {
        false
    }

    /// The transitions that lead on from `state`, each with the action
    /// that labels it and the state it leads to, in the order in which a
    /// search is to try them.
    open spec fn successors(&self, state: Self::State) -> Seq<(Self::Action, Self::State)> {
        Seq::empty()
    }

    fn expand(&self, state: &Self::State) -> (it: Self::Iterator)
        ensures
            Self::obeys_space_spec() ==> {
                &&& it.obeys_prophetic_iter_laws()
                &&& it.remaining() == self.successors(*state)
            },
    ;
}

/// A depth-first traversal that is under way: the stack of iterators that
/// yield the successors still to be tried, the buffer that holds the
/// actions of the route, and the frontier that keeps the two in step.
pub struct DfsIter<'s, 't, S: ?Sized> where S: SearchSpace + 's, <S as SearchSpace>::Action: 't {
    pub stack: Vec<S::Iterator>,
    pub actions: &'t mut Vec<S::Action>,
    pub frontier: Frontier<'s, S>,
}

impl<'s, 't, S: ?Sized> DfsIter<'s, 't, S> where S: SearchSpace + 's {
    /// The actions along the route to where the traversal stands.
    pub open spec fn path(&self) -> Seq<S::Action> {
        labels(self.frontier.space(), self.frontier.start(), self.frontier.route())
    }

    /// The frontier is in order, the stack has one iterator for each of
    /// its levels, and the buffer ends with the path.
    pub open spec fn wf(&self) -> bool {
        &&& self.frontier.wf()
        &&& self.stack@.len() == self.frontier.depth()
        &&& carries(self.actions@, self.path())
    }

    pub fn new(search_space: &'s S, actions: &'t mut Vec<S::Action>, start: &S::State) -> (it:
        DfsIter<'s, 't, S>)
        requires
            obeys_key_model::<S::State>(),
            clone_is_exact::<S::State>(),
            S::obeys_space_spec(),
        ensures
            it.wf(),
            forall|i: int|
                0 <= i < it.stack@.len() ==> {
                    &&& (#[trigger] it.stack@[i]).obeys_prophetic_iter_laws()
                    &&& it.stack@[i].remaining() == it.frontier.pending(i)
                },
            it.frontier.space() == search_space,
            it.frontier.start() == *start,
            it.frontier.visited() == Set::<S::State>::empty().insert(*start),
            it.frontier.route() == Seq::<int>::empty(),
            !it.frontier.exhausted(),
            it.actions@ == old(actions)@,
            *final(it.actions) == *final(actions),
    {
        let (frontier, stack) = Frontier::new(search_space, start);
        proof {
            assert(labels(search_space, *start, Seq::<int>::empty()) =~= Seq::<S::Action>::empty());
            assert(actions@.skip(actions@.len() - 0) =~= Seq::<S::Action>::empty());
        }
        DfsIter { stack, actions, frontier }
    }

    /// The next state that the traversal meets, if there is one left. Each
    /// iterator of the stack is to yield what the frontier has pending at
    /// its level, before and after.
    pub fn next(&mut self) -> (found: Option<S::State>)
        requires
            old(self).wf(),
            forall|i: int|
                0 <= i < old(self).stack@.len() ==> {
                    &&& (#[trigger] old(self).stack@[i]).obeys_prophetic_iter_laws()
                    &&& old(self).stack@[i].remaining() == old(self).frontier.pending(i)
                },
        ensures
            final(self).wf(),
            forall|i: int|
                0 <= i < final(self).stack@.len() ==> {
                    &&& (#[trigger] final(self).stack@[i]).obeys_prophetic_iter_laws()
                    &&& final(self).stack@[i].remaining() == final(self).frontier.pending(i)
                },
            final(self).frontier.space() == old(self).frontier.space(),
            final(self).frontier.start() == old(self).frontier.start(),
            final(self).actions@ == beneath(old(self).actions@, old(self).path().len())
                + final(self).path(),
            *final(final(self).actions) == *final(old(self).actions),
            match found {
                Some(state) => {
                    &&& !old(self).frontier.visited().contains(state)
                    &&& first_out(
                        old(self).frontier.space(),
                        old(self).frontier.start(),
                        old(self).frontier.visited(),
                        final(self).frontier.route(),
                    )
                    &&& state == walk(
                        old(self).frontier.space(),
                        old(self).frontier.start(),
                        final(self).frontier.route(),
                    )
                    &&& final(self).frontier.visited() == old(self).frontier.visited().insert(state)
                    &&& !final(self).frontier.exhausted()
                },
                None => {
                    &&& closed_but(
                        old(self).frontier.space(),
                        old(self).frontier.visited(),
                        Seq::empty(),
                    )
                    &&& covers(
                        old(self).frontier.space(),
                        old(self).frontier.start(),
                        old(self).frontier.visited(),
                    )
                    &&& final(self).frontier.visited() == old(self).frontier.visited()
                    &&& final(self).frontier.route() == Seq::<int>::empty()
                    &&& final(self).frontier.exhausted()
                },
            },
    {
        let found = self.frontier.advance(&mut self.stack, self.actions);
        proof {
            let kept = beneath(old(self).actions@, old(self).path().len());
            assert((kept + self.path()).skip(kept.len() as int) =~= self.path());
        }
        found
    }
}

/// The path of a search as a sequence, where there is one.
pub open spec fn listed<A>(path: Option<Vec<A>>) -> Option<Seq<A>> {
    match path {
        Some(actions) => Some(actions@),
        None => None,
    }
}

/// Depth-first search, for every search space.
pub trait DepthFirst: SearchSpace {
    /// The actions along the first route, in depth-first order, from
    /// `start` to a state that `goal` accepts; nothing where there is no
    /// such state in reach. A search that finds nothing has met `start`
    /// and every successor of every state it has met, and no state that
    /// `goal` accepts.
    fn dfs<G>(&self, start: &Self::State, goal: &G) -> (path: Option<Vec<Self::Action>>) where
        G: SearchGoal<Self::State>,

        requires
            obeys_key_model::<Self::State>(),
            clone_is_exact::<Self::State>(),
            Self::obeys_space_spec(),
            G::obeys_goal_spec(),
            explorable(self, *start, goal),
        ensures
            is_outcome(self, *start, goal, listed(path)),
            goal.accepts(*start) ==> listed(path) == Some(Seq::<Self::Action>::empty()),
            path is None ==> exists|met: Set<Self::State>| #[trigger] sealed(self, *start, goal, met),
    ;

    /// A traversal that sets out from `state` and keeps the actions of its
    /// route at the end of `actions`.
    fn dfs_iter<'s, 't>(
        &'s self,
        actions: &'t mut Vec<Self::Action>,
        state: &'s Self::State,
    ) -> (it: DfsIter<'s, 't, Self>)
        requires
            obeys_key_model::<Self::State>(),
            clone_is_exact::<Self::State>(),
            Self::obeys_space_spec(),
        ensures
            it.wf(),
            forall|i: int|
                0 <= i < it.stack@.len() ==> {
                    &&& (#[trigger] it.stack@[i]).obeys_prophetic_iter_laws()
                    &&& it.stack@[i].remaining() == it.frontier.pending(i)
                },
            it.frontier.space() == self,
            it.frontier.start() == *state,
            it.frontier.visited() == Set::<Self::State>::empty().insert(*state),
            it.frontier.route() == Seq::<int>::empty(),
            !it.frontier.exhausted(),
            it.actions@ == old(actions)@,
            *final(it.actions) == *final(actions),
    ;
}

impl<S: SearchSpace + ?Sized> DepthFirst for S {
    fn dfs<G>(&self, start: &Self::State, goal: &G) -> (path: Option<Vec<Self::Action>>) where
        G: SearchGoal<Self::State>,
     {
        let mut actions = Vec::new();
        if goal.is_goal(start) {
            proof {
                lemma_start_hit(self, *start, goal);
            }
            return Some(actions);
        }
        let ghost region = choose|region: Set<Self::State>|
            region.finite() && #[trigger] bounds(self, *start, goal, region);
        let mut it = self.dfs_iter(&mut actions, start);
        proof {
            assert(it.path() =~= Seq::<Self::Action>::empty());
            assert(it.actions@ =~= it.path());
            lemma_start_first(self, *start, goal);
        }
        loop
            invariant_except_break
                forall|s: Self::State| it.frontier.visited().contains(s) ==> !goal.accepts(s),
                it.frontier.visited().subset_of(region),
            invariant
                !goal.accepts(*start),
                it.wf(),
                forall|i: int|
                    0 <= i < it.stack@.len() ==> {
                        &&& (#[trigger] it.stack@[i]).obeys_prophetic_iter_laws()
                        &&& it.stack@[i].remaining() == it.frontier.pending(i)
                    },
                it.frontier.space() == self,
                it.frontier.start() == *start,
                it.actions@ == it.path(),
                after_borrow(actions) == *final(it.actions),
                G::obeys_goal_spec(),
                region.finite(),
                bounds(self, *start, goal, region),
            ensures
                first_hit(self, *start, goal, it.frontier.route()),
            decreases region.difference(it.frontier.visited()).len(),
        {
            let ghost seen = it.frontier.visited();
            let ghost held = it.actions@;
            match it.next() {
                None => {
                    proof {
                        lemma_covers_no_goal(self, *start, goal, seen);
                        assert(is_route(self, *start, Seq::<int>::empty()));
                        assert(seen.contains(walk(self, *start, Seq::<int>::empty())));
                        assert(sealed(self, *start, goal, seen));
                    }
                    return None;
                },
                Some(state) => {
                    proof {
                        assert(beneath(held, held.len()) =~= Seq::<Self::Action>::empty());
                        assert(it.actions@ =~= it.path());
                    }
                    proof {
                        lemma_first_out_unbeaten(self, *start, goal, seen, it.frontier.route());
                    }
                    if goal.is_goal(&state) {
                        break ;
                    }
                    proof {
                        let left = region.difference(seen);
                        let now = region.difference(it.frontier.visited());
                        assert(left.contains(state));
                        assert(now.subset_of(left.remove(state)));
                        vstd::set_lib::lemma_len_subset(now, left.remove(state));
                    }
                },
            }
        }
        Some(actions)
    }

    fn dfs_iter<'s, 't>(
        &'s self,
        actions: &'t mut Vec<Self::Action>,
        state: &'s Self::State,
    ) -> (it: DfsIter<'s, 't, Self>) {
        DfsIter::new(self, actions, state)
    }
}

} // verus!
