//! The frontier of a depth-first traversal: for each state on the way from
//! the start to where the traversal stands, the successors of that state
//! that are still to be tried, and the states met so far.
//!
//! The successors are not made before they are tried: whoever drives the
//! traversal holds, beside the frontier, the stack of iterators that yield
//! them, and hands it to each step. A frontier and a stack are in step
//! where the stack has one iterator for each level of the frontier, and
//! each iterator yields what the frontier has pending at its level.

use crate::route::beneath;
use crate::route::carries;
use crate::route::closed_but;
use crate::route::covers;
use crate::route::first_out;
use crate::route::is_route;
use crate::route::is_simple;
use crate::route::labels;
use crate::route::lemma_labels_drop_last;
use crate::route::lemma_labels_push;
use crate::route::stop;
use crate::route::walk;
use crate::search::clone_is_exact;
use crate::search::SearchSpace;
use crate::search::Visited;
use crate::sweep::lemma_closed_covers;
use crate::sweep::lemma_cursor_first_out;
use crate::sweep::lemma_swept_descend;
use crate::sweep::lemma_swept_out;
use crate::sweep::lemma_swept_pass;
use crate::sweep::lemma_swept_retreat;
use crate::sweep::lemma_trail_is_route;
use crate::sweep::level_swept;
use crate::sweep::swept;
use vstd::prelude::*;
use vstd::std_specs::hash::*;
use vstd::std_specs::iter::IteratorSpec;

verus! {

/// Where a depth-first traversal of a search space stands.
pub struct Frontier<'s, S: ?Sized> where S: SearchSpace + 's {
    search_space: &'s S,
    visited: Visited<S::State>,
    /// The state that the traversal set out from.
    start: Ghost<S::State>,
    /// For each level, the choice considered there: below the top the one
    /// that led up, at the top the one to be tried next.
    cursor: Ghost<Seq<int>>,
    /// For each level, the state whose successors are tried there.
    trail: Ghost<Seq<S::State>>,
    /// For each level, what had been met when it was last on top.
    seen_at: Ghost<Seq<Set<S::State>>>,
}

impl<'s, S: ?Sized> Frontier<'s, S> where S: SearchSpace + 's {
    /// The space that is searched.
    pub closed spec fn space(&self) -> &S {
        self.search_space
    }

    /// The state from which the traversal set out.
    pub closed spec fn start(&self) -> S::State {
        self.start@
    }

    /// The states met so far.
    pub closed spec fn visited(&self) -> Set<S::State> {
        self.visited@
    }

    /// The route from the start to the state met last, as far as the
    /// traversal has not gone back on it.
    pub closed spec fn route(&self) -> Seq<int> {
        if self.cursor@.len() > 0 {
            self.cursor@.drop_last()
        } else {
            Seq::empty()
        }
    }

    /// The number of levels that are open: one for the start, and one for
    /// each step of the route.
    pub closed spec fn depth(&self) -> nat {
        self.cursor@.len()
    }

    /// Nothing is left to try.
    pub open spec fn exhausted(&self) -> bool {
        self.depth() == 0
    }

    /// The successors that level `i` has still to try, in order.
    pub closed spec fn pending(&self, i: int) -> Seq<(S::Action, S::State)> {
        let all = self.search_space.successors(self.trail@[i]);
        if i < self.cursor@.len() - 1 {
            all.skip(self.cursor@[i] + 1)
        } else {
            all.skip(self.cursor@[i])
        }
    }

    /// Every level stands on a state of a simple route from the start, and
    /// everything that the traversal has passed has been met.
    pub closed spec fn wf(&self) -> bool {
        &&& obeys_key_model::<S::State>()
        &&& clone_is_exact::<S::State>()
        &&& S::obeys_space_spec()
        &&& swept(self.search_space, self.start@, self.cursor@, self.trail@, self.seen_at@)
        &&& self.visited@.contains(self.start@)
        &&& self.cursor@.len() > 0 ==> self.seen_at@.last() == self.visited@
        &&& self.cursor@.len() == 0 ==> closed_but(self.search_space, self.visited@, Seq::empty())
    }

    /// The traversal stands at the end of a simple route from the start,
    /// and has met every state along it.
    pub proof fn lemma_route_met(&self)
        requires
            self.wf(),
        ensures
            is_route(self.space(), self.start(), self.route()),
            is_simple(self.space(), self.start(), self.route()),
            forall|k: int|
                0 <= k <= self.route().len() ==> self.visited().contains(
                    #[trigger] stop(self.space(), self.start(), self.route(), k),
                ),
    {
        if self.cursor@.len() > 0 {
            lemma_trail_is_route(
                self.search_space,
                self.start@,
                self.cursor@,
                self.trail@,
                self.seen_at@,
            );
        } else {
            assert(Seq::<int>::empty().take(0) =~= Seq::<int>::empty());
        }
    }

    /// A frontier that has met `start`, with the stack that yields the
    /// successors of `start`.
    pub fn new(search_space: &'s S, start: &S::State) -> (made: (Frontier<'s, S>, Vec<S::Iterator>))
        requires
            obeys_key_model::<S::State>(),
            clone_is_exact::<S::State>(),
            S::obeys_space_spec(),
        ensures
            made.0.wf(),
            made.0.space() == search_space,
            made.0.start() == *start,
            made.0.visited() == Set::<S::State>::empty().insert(*start),
            made.0.route() == Seq::<int>::empty(),
            made.0.depth() == 1,
            made.1@.len() == 1,
            forall|i: int|
                0 <= i < made.1@.len() ==> {
                    &&& (#[trigger] made.1@[i]).obeys_prophetic_iter_laws()
                    &&& made.1@[i].remaining() == made.0.pending(i)
                },
    {
        let mut visited = Visited::new();
        visited.insert(start);
        let mut stack = Vec::new();
        stack.push(search_space.expand(start));
        let ghost cursor = seq![0int];
        let ghost trail = seq![*start];
        let ghost seen_at = seq![visited@];
        proof {
            assert(cursor.take(0) =~= Seq::<int>::empty());
            assert(search_space.successors(*start).skip(0) =~= search_space.successors(*start));
            assert(trail.take(1)[0] == *start);
            assert(level_swept(search_space, *start, cursor, trail, seen_at, 0));
            assert(cursor.drop_last() =~= Seq::<int>::empty());
        }
        let frontier = Frontier {
            search_space,
            visited,
            start: Ghost(*start),
            cursor: Ghost(cursor),
            trail: Ghost(trail),
            seen_at: Ghost(seen_at),
        };
        (frontier, stack)
    }

    /// Goes on to the next state that has not been met, in depth-first
    /// order: pulls one successor at a time from the top of `stack`, and
    /// keeps the last items of `actions` in step with the route to where
    /// the traversal stands. No state is met twice. Where nothing is found,
    /// every successor of every state met has been met.
    pub fn advance(&mut self, stack: &mut Vec<S::Iterator>, actions: &mut Vec<S::Action>) -> (found:
        Option<S::State>)
        requires
            old(self).wf(),
            old(stack)@.len() == old(self).depth(),
            forall|i: int|
                0 <= i < old(stack)@.len() ==> {
                    &&& (#[trigger] old(stack)@[i]).obeys_prophetic_iter_laws()
                    &&& old(stack)@[i].remaining() == old(self).pending(i)
                },
            carries(
                old(actions)@,
                labels(old(self).space(), old(self).start(), old(self).route()),
            ),
        ensures
            final(self).wf(),
            final(stack)@.len() == final(self).depth(),
            forall|i: int|
                0 <= i < final(stack)@.len() ==> {
                    &&& (#[trigger] final(stack)@[i]).obeys_prophetic_iter_laws()
                    &&& final(stack)@[i].remaining() == final(self).pending(i)
                },
            final(self).space() == old(self).space(),
            final(self).start() == old(self).start(),
            final(actions)@ == beneath(old(actions)@, old(self).route().len()) + labels(
                old(self).space(),
                old(self).start(),
                final(self).route(),
            ),
            match found {
                Some(state) => {
                    &&& !old(self).visited().contains(state)
                    &&& first_out(
                        old(self).space(),
                        old(self).start(),
                        old(self).visited(),
                        final(self).route(),
                    )
                    &&& state == walk(old(self).space(), old(self).start(), final(self).route())
                    &&& final(self).visited() == old(self).visited().insert(state)
                    &&& !final(self).exhausted()
                },
                None => {
                    &&& closed_but(old(self).space(), old(self).visited(), Seq::empty())
                    &&& covers(old(self).space(), old(self).start(), old(self).visited())
                    &&& final(self).visited() == old(self).visited()
                    &&& final(self).route() == Seq::<int>::empty()
                    &&& final(self).exhausted()
                },
            },
    {
        let ghost base = beneath(old(actions)@, old(self).route().len());
        proof {
            assert(actions@ =~= base + labels(self.search_space, self.start@, self.route()));
        }
        loop
            invariant
                base == beneath(old(actions)@, old(self).route().len()),
                self.wf(),
                stack@.len() == self.cursor@.len(),
                forall|i: int|
                    0 <= i < stack@.len() ==> {
                        &&& (#[trigger] stack@[i]).obeys_prophetic_iter_laws()
                        &&& stack@[i].remaining() == self.pending(i)
                    },
                self.search_space == old(self).search_space,
                self.start@ == old(self).start@,
                self.visited@ == old(self).visited@,
                actions@ == base + labels(self.search_space, self.start@, self.route()),
            decreases
                self.cursor@.len(),
                (if self.cursor@.len() > 0 {
                    self.pending(self.cursor@.len() - 1).len()
                } else {
                    0
                }),
        {
            let n = stack.len();
            if n == 0 {
                proof {
                    assert(labels(self.search_space, self.start@, self.route()) =~= Seq::<
                        S::Action,
                    >::empty());
                    assert(actions@ =~= base);
                    assert(base + Seq::<S::Action>::empty() =~= base);
                    lemma_closed_covers(self.search_space, self.start@, self.visited@);
                }
                return None;
            }
            let ghost space = self.search_space;
            let ghost start = self.start@;
            let ghost cursor = self.cursor@;
            let ghost trail = self.trail@;
            let ghost seen_at = self.seen_at@;
            let ghost top = n - 1;
            let ghost all = space.successors(trail[top]);
            let ghost before = *self;
            let ghost frames = stack@;
            proof {
                assert(frames[top].remaining() == self.pending(top));
                assert(level_swept(space, start, cursor, trail, seen_at, top));
            }
            match stack[n - 1].next() {
                Some((action, state)) => {
                    proof {
                        assert((action, state) == all[cursor[top]]);
                        assert(stack@[top].remaining() =~= all.skip(cursor[top] + 1));
                    }
                    if self.visited.insert(&state) {
                        proof {
                            lemma_swept_pass(space, start, cursor, trail, seen_at);
                            self.cursor@ = cursor.update(top, cursor[top] + 1);
                            assert(self.visited@ =~= old(self).visited@);
                            assert(self.route() =~= cursor.drop_last());
                            assert forall|i: int| 0 <= i < stack@.len() implies {
                                &&& (#[trigger] stack@[i]).obeys_prophetic_iter_laws()
                                &&& stack@[i].remaining() == self.pending(i)
                            } by {
                                if i < top {
                                    assert(frames[i].remaining() == before.pending(i));
                                }
                            }
                        }
                        continue ;
                    }
                    stack.push(self.search_space.expand(&state));
                    actions.push(action);
                    proof {
                        lemma_cursor_first_out(space, start, cursor, trail, seen_at);
                        lemma_swept_descend(space, start, cursor, trail, seen_at);
                        assert(cursor.drop_last().push(cursor.last()) =~= cursor);
                        lemma_labels_push(space, start, cursor.drop_last(), cursor.last());
                        assert(trail[top] == walk(space, start, cursor.drop_last()));
                        self.cursor@ = cursor.push(0);
                        self.trail@ = trail.push(state);
                        self.seen_at@ = seen_at.push(seen_at.last().insert(state));
                        assert(self.route() =~= cursor);
                        assert(space.successors(state).skip(0) =~= space.successors(state));
                        assert(actions@ =~= base + labels(space, start, cursor));
                        assert forall|i: int| 0 <= i < stack@.len() implies {
                            &&& (#[trigger] stack@[i]).obeys_prophetic_iter_laws()
                            &&& stack@[i].remaining() == self.pending(i)
                        } by {
                            if i < top {
                                assert(frames[i].remaining() == before.pending(i));
                            }
                        }
                    }
                    return Some(state);
                },
                None => {
                    proof {
                        assert(all.skip(cursor[top]).len() == 0);
                        assert(cursor[top] == all.len());
                    }
                    if n > 1 {
                        actions.pop();
                    }
                    stack.pop();
                    proof {
                        if n > 1 {
                            let below = n - 2;
                            lemma_swept_retreat(space, start, cursor, trail, seen_at);
                            lemma_labels_drop_last(space, start, cursor.drop_last());
                            self.cursor@ = cursor.drop_last().update(below, cursor[below] + 1);
                            self.trail@ = trail.drop_last();
                            self.seen_at@ = seen_at.drop_last().update(below, seen_at.last());
                            assert(self.route() =~= cursor.drop_last().drop_last());
                            assert(actions@ =~= base + labels(space, start, self.route()));
                        } else {
                            lemma_swept_out(space, start, cursor, trail, seen_at);
                            self.cursor@ = Seq::empty();
                            self.trail@ = Seq::empty();
                            self.seen_at@ = Seq::empty();
                            assert(cursor.drop_last() =~= Seq::<int>::empty());
                        }
                        assert forall|i: int| 0 <= i < stack@.len() implies {
                            &&& (#[trigger] stack@[i]).obeys_prophetic_iter_laws()
                            &&& stack@[i].remaining() == self.pending(i)
                        } by {
                            assert(frames[i].remaining() == before.pending(i));
                        }
                    }
                },
            }
        }
    }
}

} // verus!
