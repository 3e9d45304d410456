//! Behaviour of the step engine and session orchestration, end to end.

use astar_grid::engine::{SearchState, Session};
use astar_grid::node::Node;
use astar_grid::SessionError;

fn coords(nodes: &Vec<Node>) -> Vec<(usize, usize)> {
    nodes.iter().map(|n| (n.x, n.y)).collect()
}

fn run_to_terminal(s: &mut Session, cap: usize) -> SearchState {
    let mut ticks = 0;
    loop {
        let st = s.state();
        if st == SearchState::Found || st == SearchState::Failed {
            return st;
        }
        assert!(ticks < cap, "search did not terminate within the tick budget");
        s.step();
        ticks += 1;
    }
}

#[test]
fn new_session_validates_dimensions() {
    assert!(Session::new(5, 5).is_ok());
    assert!(matches!(Session::new(0, 5), Err(SessionError::OutOfBounds)));
    assert!(matches!(Session::new(5, 0), Err(SessionError::OutOfBounds)));
    assert!(matches!(Session::new(2000, 5), Err(SessionError::OutOfBounds)));
}

#[test]
fn start_and_goal_are_set_once() {
    let mut s = Session::new(5, 5).unwrap();
    assert_eq!(s.state(), SearchState::Idle);
    assert_eq!(s.set_goal(4, 4), Err(SessionError::NotReady));
    assert_eq!(s.set_start(9, 0), Err(SessionError::OutOfBounds));
    assert_eq!(s.set_start(0, 0), Ok(()));
    assert_eq!(s.set_start(1, 1), Err(SessionError::AlreadySet));
    assert_eq!(s.state(), SearchState::Idle);
    assert_eq!(s.set_goal(0, 9), Err(SessionError::OutOfBounds));
    assert_eq!(s.set_goal(4, 4), Ok(()));
    assert_eq!(s.set_goal(3, 3), Err(SessionError::AlreadySet));
    assert_eq!(s.state(), SearchState::Searching);
}

#[test]
fn start_seeds_open_set_and_current() {
    let mut s = Session::new(5, 5).unwrap();
    s.set_start(2, 3).unwrap();
    assert_eq!(coords(&s.open_set.nodes), vec![(2, 3)]);
    let cur = s.current.node.unwrap();
    assert_eq!((cur.x, cur.y, cur.g, cur.hsq), (2, 3, 0, 0));
    assert_eq!(s.start.node.unwrap(), cur);
    assert!(s.closed_set.nodes.is_empty());
}

#[test]
fn first_step_expands_the_start_corner() {
    // 5x5, all accessible, start (0,0), goal (4,4): the first step closes
    // the start and scores its three corner neighbours with g = 1 and
    // hsq = (4-x)^2 + (4-y)^2.
    let mut s = Session::new(5, 5).unwrap();
    s.set_start(0, 0).unwrap();
    s.set_goal(4, 4).unwrap();
    s.step();
    let cur = s.current.node.unwrap();
    assert_eq!((cur.x, cur.y), (0, 0));
    assert_eq!(coords(&s.closed_set.nodes), vec![(0, 0)]);
    assert_eq!(coords(&s.open_set.nodes), vec![(1, 1), (1, 0), (0, 1)]);
    for n in s.open_set.nodes.iter() {
        assert_eq!(n.g, 1);
        let dx = (4 - n.x as i64) as u64;
        let dy = (4 - n.y as i64) as u64;
        assert_eq!(n.hsq, dx * dx + dy * dy);
        assert!(n.accessible);
    }
}

#[test]
fn full_run_reaches_the_goal_without_duplicate_closures() {
    let mut s = Session::new(5, 5).unwrap();
    s.set_start(0, 0).unwrap();
    s.set_goal(4, 4).unwrap();
    let st = run_to_terminal(&mut s, 200);
    assert_eq!(st, SearchState::Found);
    let cur = s.current.node.unwrap();
    assert_eq!((cur.x, cur.y), (4, 4));
    // No coordinate is finalized twice.
    let cs = coords(&s.closed_set.nodes);
    for i in 0..cs.len() {
        for j in 0..i {
            assert_ne!(cs[i], cs[j]);
        }
    }
}

#[test]
fn found_immediately_when_start_equals_goal() {
    // Start == goal before any step: the first step call lands in Found
    // without touching the frontier sets.
    let mut s = Session::new(5, 5).unwrap();
    s.set_start(0, 0).unwrap();
    s.set_goal(0, 0).unwrap();
    let open_before = coords(&s.open_set.nodes);
    s.step();
    assert_eq!(s.state(), SearchState::Found);
    assert_eq!(coords(&s.open_set.nodes), open_before);
    assert!(s.closed_set.nodes.is_empty());
    let cur = s.current.node.unwrap();
    assert_eq!((cur.x, cur.y), (0, 0));
}

#[test]
fn terminal_states_are_idempotent() {
    let mut s = Session::new(5, 5).unwrap();
    s.set_start(1, 1).unwrap();
    s.set_goal(3, 3).unwrap();
    let st = run_to_terminal(&mut s, 200);
    assert_eq!(st, SearchState::Found);
    let open = coords(&s.open_set.nodes);
    let closed = coords(&s.closed_set.nodes);
    let cur = s.current.node.unwrap();
    for _ in 0..3 {
        s.step();
        assert_eq!(s.state(), SearchState::Found);
        assert_eq!(coords(&s.open_set.nodes), open);
        assert_eq!(coords(&s.closed_set.nodes), closed);
        assert_eq!(s.current.node.unwrap(), cur);
    }
}

#[test]
fn failed_when_the_frontier_exhausts() {
    // Wall the start corner of a 6x6 grid off, then search: the frontier
    // dies and the engine fails, idempotently.
    let mut s = Session::new(6, 6).unwrap();
    s.set_start(0, 0).unwrap();
    s.set_goal(5, 5).unwrap();
    // These two splashes make (1,1), (1,0) and (0,1) all inaccessible.
    assert_eq!(s.block(1, 1), Ok(()));
    assert_eq!(s.block(1, 2), Ok(()));
    let st = run_to_terminal(&mut s, 200);
    assert_eq!(st, SearchState::Failed);
    assert!(s.open_set.nodes.is_empty());
    let closed = coords(&s.closed_set.nodes);
    for _ in 0..3 {
        s.step();
        assert_eq!(s.state(), SearchState::Failed);
        assert!(s.open_set.nodes.is_empty());
        assert_eq!(coords(&s.closed_set.nodes), closed);
    }
}

#[test]
fn blocking_applies_the_whole_splash_or_nothing() {
    let mut s = Session::new(6, 6).unwrap();
    assert_eq!(s.block(2, 2), Ok(()));
    let blocked = [(2, 2), (3, 2), (3, 3), (1, 1), (2, 1)];
    for x in 0..6 {
        for y in 0..6 {
            let n = s.graph.get(x, y).unwrap();
            assert_eq!(n.accessible, !blocked.contains(&(x, y)), "cell ({x},{y})");
        }
    }
    // Any out-of-range target rejects the whole gesture.
    assert_eq!(s.block(0, 3), Err(SessionError::OutOfBounds));
    assert_eq!(s.block(3, 0), Err(SessionError::OutOfBounds));
    assert_eq!(s.block(5, 3), Err(SessionError::OutOfBounds));
    let n = s.graph.get(0, 2).unwrap();
    assert!(n.accessible);
}

#[test]
fn obstacle_in_open_set_is_pruned_into_closed() {
    // After the first expansion (1,0) sits in the open set; blocking around
    // (2,1) makes it inaccessible, and the next step touching it as a
    // neighbour moves it from the open set into the closed set.
    let mut s = Session::new(5, 5).unwrap();
    s.set_start(0, 0).unwrap();
    s.set_goal(4, 4).unwrap();
    s.step();
    assert!(coords(&s.open_set.nodes).contains(&(1, 0)));
    assert_eq!(s.block(2, 1), Ok(()));
    s.step();
    assert!(!coords(&s.open_set.nodes).contains(&(1, 0)));
    assert!(coords(&s.closed_set.nodes).contains(&(1, 0)));
}

#[test]
fn reset_restores_the_initial_state() {
    let mut s = Session::new(5, 5).unwrap();
    s.set_start(0, 0).unwrap();
    s.set_goal(4, 4).unwrap();
    s.block(2, 2).unwrap();
    s.step();
    s.step();
    s.reset();
    assert_eq!(s.state(), SearchState::Idle);
    assert!(s.open_set.nodes.is_empty());
    assert!(s.closed_set.nodes.is_empty());
    assert!(s.start.node.is_none());
    assert!(s.goal.node.is_none());
    assert!(s.current.node.is_none());
    for x in 0..5 {
        for y in 0..5 {
            assert!(s.graph.get(x, y).unwrap().accessible);
        }
    }
}

#[test]
fn goal_after_reset_needs_a_fresh_start() {
    // A reset clears the start, so choosing a goal first fails with
    // NotReady until a start is chosen again.
    let mut s = Session::new(5, 5).unwrap();
    s.set_start(0, 0).unwrap();
    s.reset();
    assert_eq!(s.set_goal(4, 4), Err(SessionError::NotReady));
    assert_eq!(s.set_start(1, 1), Ok(()));
    assert_eq!(s.set_goal(4, 4), Ok(()));
}

#[test]
fn identical_runs_close_identical_sequences() {
    // Determinism: the same grid, start, goal and obstacles give the same
    // closed-set sequence, snapshot for snapshot and in the same order.
    let mut runs: Vec<Vec<(usize, usize, u64, u64)>> = Vec::new();
    for _ in 0..2 {
        let mut s = Session::new(8, 8).unwrap();
        s.set_start(0, 7).unwrap();
        s.set_goal(7, 0).unwrap();
        s.block(3, 3).unwrap();
        s.block(4, 5).unwrap();
        let st = run_to_terminal(&mut s, 500);
        assert_eq!(st, SearchState::Found);
        runs.push(
            s.closed_set.nodes.iter().map(|n| (n.x, n.y, n.g, n.hsq)).collect(),
        );
    }
    assert_eq!(runs[0], runs[1]);
}
