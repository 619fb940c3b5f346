use chappie::frontier::Frontier;
use chappie::search::{DepthFirst, SearchGoal, SearchSpace, Visited};
use std::cell::Cell;
use std::cell::RefCell;
use std::vec::IntoIter;

#[derive(Debug, PartialEq, Clone, Copy)]
enum Dir {
    Left,
    Right,
}

/// States `0, 1, 2, ...`: 0 branches to 1 and 2, 1 to 3 and 4, 2 leads back
/// to itself, and nothing leads on from any other state. Keeps the states
/// that were expanded, in order.
struct Tree {
    expanded: RefCell<Vec<i32>>,
}

impl Tree {
    fn new() -> Tree {
        Tree {
            expanded: RefCell::new(vec![]),
        }
    }

    fn edges(state: i32) -> Vec<(Dir, i32)> {
        match state {
            0 => vec![(Dir::Left, 1), (Dir::Right, 2)],
            1 => vec![(Dir::Left, 3), (Dir::Right, 4)],
            2 => vec![(Dir::Left, 2)],
            _ => vec![],
        }
    }
}

impl SearchSpace for Tree {
    type State = i32;
    type Action = Dir;
    type Iterator = IntoIter<(Dir, i32)>;

    fn expand(&self, state: &i32) -> Self::Iterator {
        self.expanded.borrow_mut().push(*state);
        Tree::edges(*state).into_iter()
    }
}

/// A ring of `n` states with a chord from each state to the one two on.
struct Ring {
    n: u32,
}

impl SearchSpace for Ring {
    type State = u32;
    type Action = u32;
    type Iterator = IntoIter<(u32, u32)>;

    fn expand(&self, state: &u32) -> Self::Iterator {
        vec![(1, (*state + 1) % self.n), (2, (*state + 2) % self.n)].into_iter()
    }
}

/// Accepts the states from a bound on, and keeps the states it was asked
/// about, in order.
struct AtLeast {
    bound: i32,
    asked: RefCell<Vec<i32>>,
}

impl AtLeast {
    fn new(bound: i32) -> AtLeast {
        AtLeast {
            bound,
            asked: RefCell::new(vec![]),
        }
    }
}

impl SearchGoal<i32> for AtLeast {
    fn is_goal(&self, state: &i32) -> bool {
        self.asked.borrow_mut().push(*state);
        *state >= self.bound
    }
}

fn replay(start: i32, path: &[Dir]) -> i32 {
    let mut state = start;
    for action in path {
        state = Tree::edges(state)
            .into_iter()
            .find(|(a, _)| a == action)
            .unwrap()
            .1;
    }
    state
}

#[test]
fn visited_tells_known_from_new() {
    let mut visited: Visited<i32> = Visited::new();
    assert!(!visited.insert(&7));
    assert!(!visited.insert(&8));
    assert!(visited.insert(&7));
    assert!(visited.insert(&8));
    assert!(!visited.insert(&-7));
    assert!(visited.insert(&-7));
}

#[test]
fn a_state_is_the_goal_of_equal_states() {
    assert!(5.is_goal(&5));
    assert!(!5.is_goal(&6));
    assert!("a".to_string().is_goal(&"a".to_string()));
    assert!(!"a".to_string().is_goal(&"b".to_string()));
}

#[test]
fn scenarios_on_the_tree() {
    let tree = Tree::new();
    assert_eq!(tree.dfs(&0, &0), Some(vec![]));
    assert_eq!(tree.dfs(&0, &1), Some(vec![Dir::Left]));
    assert_eq!(tree.dfs(&0, &4), Some(vec![Dir::Left, Dir::Right]));
    assert_eq!(tree.dfs(&2, &2), Some(vec![]));
    assert_eq!(tree.dfs(&2, &0), None);
}

#[test]
fn a_start_without_successors_is_all_that_is_met() {
    let tree = Tree::new();
    let goal = AtLeast::new(100);
    assert_eq!(tree.dfs(&99, &goal), None);
    assert_eq!(*goal.asked.borrow(), vec![99]);
    assert_eq!(*tree.expanded.borrow(), vec![99]);
}

#[test]
fn search_is_repeatable() {
    let tree = Tree::new();
    for start in 0..6 {
        for goal in 0..6 {
            assert_eq!(tree.dfs(&start, &goal), tree.dfs(&start, &goal));
        }
    }
    let ring = Ring { n: 9 };
    for goal in 0..9 {
        assert_eq!(ring.dfs(&0, &goal), ring.dfs(&0, &goal));
    }
}

#[test]
fn a_start_that_is_the_goal_is_not_expanded() {
    let tree = Tree::new();
    let goal = AtLeast::new(0);
    assert_eq!(tree.dfs(&0, &goal), Some(vec![]));
    assert_eq!(*goal.asked.borrow(), vec![0]);
    assert!(tree.expanded.borrow().is_empty());
}

#[test]
fn each_state_is_met_and_expanded_once() {
    let tree = Tree::new();
    let goal = AtLeast::new(100);
    assert_eq!(tree.dfs(&0, &goal), None);
    assert_eq!(*goal.asked.borrow(), vec![0, 1, 3, 4, 2]);
    assert_eq!(*tree.expanded.borrow(), vec![0, 1, 3, 4, 2]);

    let ring = Ring { n: 7 };
    let mut actions = Vec::new();
    let mut met = vec![];
    let mut states = ring.dfs_iter(&mut actions, &0);
    while let Some(state) = states.next() {
        assert!(!met.contains(&state));
        assert_ne!(state, 0);
        met.push(state);
    }
    assert_eq!(met, vec![1, 2, 3, 4, 5, 6]);
}

#[test]
fn the_path_replays_to_the_goal() {
    let tree = Tree::new();
    for start in 0..6 {
        for goal in 0..6 {
            if let Some(path) = tree.dfs(&start, &goal) {
                assert_eq!(replay(start, &path), goal);
            }
        }
    }
}

#[test]
fn a_failed_search_has_skipped_nothing() {
    let tree = Tree::new();
    for start in 0..6 {
        let goal = AtLeast::new(100);
        assert_eq!(tree.dfs(&start, &goal), None);
        let met = goal.asked.borrow().clone();
        assert!(met.contains(&start));
        for state in &met {
            assert!(*state < 100);
            for (_, next) in Tree::edges(*state) {
                assert!(met.contains(&next));
            }
        }
    }
}

#[test]
fn the_first_goal_in_the_order_of_the_successors_wins() {
    let tree = Tree::new();
    assert_eq!(tree.dfs(&0, &AtLeast::new(2)), Some(vec![Dir::Left, Dir::Left]));
    assert_eq!(tree.dfs(&0, &AtLeast::new(1)), Some(vec![Dir::Left]));
    assert_eq!(tree.dfs(&0, &AtLeast::new(4)), Some(vec![Dir::Left, Dir::Right]));
    assert_eq!(tree.dfs(&0, &AtLeast::new(5)), None);

    let ring = Ring { n: 5 };
    assert_eq!(ring.dfs(&0, &2), Some(vec![1, 1]));
    assert_eq!(ring.dfs(&0, &4), Some(vec![1, 1, 1, 1]));
    assert_eq!(ring.dfs(&3, &0), Some(vec![1, 1]));
}

#[test]
fn the_goal_is_asked_once_about_each_state_met() {
    let ring = Ring { n: 6 };
    struct Never {
        asked: RefCell<Vec<u32>>,
    }
    impl SearchGoal<u32> for Never {
        fn is_goal(&self, state: &u32) -> bool {
            self.asked.borrow_mut().push(*state);
            false
        }
    }
    let goal = Never {
        asked: RefCell::new(vec![]),
    };
    assert_eq!(ring.dfs(&2, &goal), None);
    assert_eq!(*goal.asked.borrow(), vec![2, 3, 4, 5, 0, 1]);
}

#[test]
fn the_buffer_follows_the_route() {
    let tree = Tree::new();
    let mut actions = Vec::new();
    let mut states = tree.dfs_iter(&mut actions, &0);
    assert!(states.actions.is_empty());
    assert_eq!(states.next(), Some(1));
    assert_eq!(*states.actions, vec![Dir::Left]);
    assert_eq!(states.next(), Some(3));
    assert_eq!(*states.actions, vec![Dir::Left, Dir::Left]);
    assert_eq!(states.next(), Some(4));
    assert_eq!(*states.actions, vec![Dir::Left, Dir::Right]);
    assert_eq!(states.next(), Some(2));
    assert_eq!(*states.actions, vec![Dir::Right]);
    assert_eq!(states.next(), None);
    assert!(states.actions.is_empty());
    assert_eq!(states.next(), None);
    assert!(actions.is_empty());
}

#[test]
fn the_buffer_is_left_with_the_path_when_the_traversal_is_dropped() {
    let tree = Tree::new();
    let mut actions = Vec::new();
    {
        let mut states = tree.dfs_iter(&mut actions, &0);
        assert_eq!(states.next(), Some(1));
        assert_eq!(states.next(), Some(3));
    }
    assert_eq!(actions, vec![Dir::Left, Dir::Left]);
}

#[test]
fn what_the_buffer_held_before_stays_beneath_the_path() {
    let tree = Tree::new();
    let mut actions = vec![Dir::Right, Dir::Right];
    let mut states = tree.dfs_iter(&mut actions, &1);
    assert_eq!(states.next(), Some(3));
    assert_eq!(*states.actions, vec![Dir::Right, Dir::Right, Dir::Left]);
    assert_eq!(states.next(), Some(4));
    assert_eq!(*states.actions, vec![Dir::Right, Dir::Right, Dir::Right]);
    assert_eq!(states.next(), None);
    assert_eq!(actions, vec![Dir::Right, Dir::Right]);
}

#[test]
fn the_start_is_not_met_again() {
    let tree = Tree::new();
    let mut actions = Vec::new();
    let mut states = tree.dfs_iter(&mut actions, &2);
    assert_eq!(states.next(), None);
    assert_eq!(*tree.expanded.borrow(), vec![2]);
}

#[test]
fn a_frontier_advances_with_a_buffer_of_the_caller() {
    let tree = Tree::new();
    let (mut frontier, mut stack) = Frontier::new(&tree, &1);
    let mut actions = Vec::new();
    assert_eq!(stack.len(), 1);
    assert_eq!(frontier.advance(&mut stack, &mut actions), Some(3));
    assert_eq!(actions, vec![Dir::Left]);
    assert_eq!(stack.len(), 2);
    assert_eq!(frontier.advance(&mut stack, &mut actions), Some(4));
    assert_eq!(actions, vec![Dir::Right]);
    assert_eq!(stack.len(), 2);
    assert_eq!(frontier.advance(&mut stack, &mut actions), None);
    assert!(actions.is_empty());
    assert!(stack.is_empty());
    assert_eq!(frontier.advance(&mut stack, &mut actions), None);
    assert!(actions.is_empty());
    assert!(stack.is_empty());
}

/// Counts up from a state, and keeps count of the successors it has made.
struct Fan<'a> {
    made: &'a Cell<u32>,
}

struct Spokes<'a> {
    from: u64,
    next: u64,
    made: &'a Cell<u32>,
}

impl<'a> Iterator for Spokes<'a> {
    type Item = (u64, u64);

    fn next(&mut self) -> Option<(u64, u64)> {
        if self.next < 1000 {
            let i = self.next;
            self.next += 1;
            self.made.set(self.made.get() + 1);
            Some((i, self.from * 1000 + i + 1))
        } else {
            None
        }
    }
}

impl<'a> SearchSpace for Fan<'a> {
    type State = u64;
    type Action = u64;
    type Iterator = Spokes<'a>;

    fn expand(&self, state: &u64) -> Spokes<'a> {
        Spokes {
            from: *state,
            next: if *state < 1000 { 0 } else { 1000 },
            made: self.made,
        }
    }
}

#[test]
fn a_successor_is_not_made_before_it_is_tried() {
    let made = Cell::new(0);
    let fan = Fan { made: &made };
    assert_eq!(fan.dfs(&0, &1), Some(vec![0]));
    assert_eq!(made.get(), 1);

    made.set(0);
    assert_eq!(fan.dfs(&0, &1002), Some(vec![0, 1]));
    assert_eq!(made.get(), 3);

    made.set(0);
    let mut actions = Vec::new();
    let mut states = fan.dfs_iter(&mut actions, &0);
    assert_eq!(made.get(), 0);
    assert_eq!(states.next(), Some(1));
    assert_eq!(made.get(), 1);
    assert_eq!(states.next(), Some(1001));
    assert_eq!(made.get(), 2);
    assert_eq!(*states.actions, vec![0, 0]);
    assert_eq!(states.next(), Some(1002));
    assert_eq!(made.get(), 3);
    assert_eq!(*states.actions, vec![0, 1]);
}

#[test]
fn a_deep_chain_is_searched_without_recursion() {
    struct Chain;
    impl SearchSpace for Chain {
        type State = u64;
        type Action = ();
        type Iterator = IntoIter<((), u64)>;

        fn expand(&self, state: &u64) -> Self::Iterator {
            vec![((), *state + 1)].into_iter()
        }
    }
    let path = Chain.dfs(&0, &200_000).unwrap();
    assert_eq!(path.len(), 200_000);
}
