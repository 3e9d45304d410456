//! The search step engine and the session that owns all mutable state.
//!
//! A [`Session`] owns the grid, the open/closed frontier sets and the
//! start/goal/current snapshots as one mutable unit.  The host calls
//! [`Session::step`] once per tick; everything a step does is pinned down by
//! the specification function [`step_spec`], so a whole run is a function of
//! the initial configuration alone.

use vstd::prelude::*;

verus! {

use crate::frontier::{
    has_cell,
    first_cell_index,
    lemma_first_cell_index,
    lemma_distinct_cells_bounded,
    find_same_cell,
    contains_cell,
    scan_best,
    find_best_open,
    cost_ok,
    OpenSet,
    ClosedSet,
    Start,
    Goal,
    Current,
};
use crate::grid::{
    Graph,
    GridModel,
    grid_wf,
    cell_ok,
    neighbours_spec,
    get_neighbours,
    lemma_neighbours_wf,
};
use crate::node::{same_cell, dist_sq, heuristic, Node};
use crate::{SessionError, MAX_DIM};

/// The four derived states of the step engine.
#[derive(Clone, Copy, Debug, PartialEq, Eq, Structural)]
pub enum SearchState {
    /// Start, goal or current is unset; stepping is a no-op.
    Idle,
    /// The frontier is live and the goal has not been reached.
    Searching,
    /// The current node occupies the goal cell; terminal.
    Found,
    /// The open set is exhausted without reaching the goal; terminal.
    Failed,
}

/// Mathematical model of a whole session.
#[verifier::ext_equal]
pub ghost struct SessionModel {
    pub grid: GridModel,
    pub open: Seq<Node>,
    pub closed: Seq<Node>,
    pub start: Option<Node>,
    pub goal: Option<Node>,
    pub current: Option<Node>,
}

/// A frontier snapshot the engine could actually have produced: an in-bounds
/// cell whose accumulated cost never outgrew the closed set and whose squared
/// heuristic fits the grid's diagonal.
pub open spec fn snapshot_ok(m: SessionModel, n: Node) -> bool {
    &&& (n.x as int) < m.grid.width
    &&& (n.y as int) < m.grid.height
    &&& n.g <= m.closed.len()
    &&& n.hsq <= 2 * (MAX_DIM as int) * (MAX_DIM as int)
}

/// Well-formedness of a session.  Besides bounds, the load-bearing clauses
/// are that the open and closed sets hold pairwise distinct cells and never
/// share a cell: together with the grid extent this bounds the closed set,
/// and with it every accumulated cost.
pub open spec fn wf_model(m: SessionModel) -> bool {
    &&& grid_wf(m.grid)
    &&& forall|i: int| 0 <= i < m.open.len() ==> snapshot_ok(m, #[trigger] m.open[i])
    &&& forall|i: int, j: int|
        0 <= i < j < m.open.len() ==> !same_cell(#[trigger] m.open[i], #[trigger] m.open[j])
    &&& forall|i: int|
        0 <= i < m.closed.len() ==> ((#[trigger] m.closed[i]).x as int) < m.grid.width && (
        m.closed[i].y as int) < m.grid.height
    &&& forall|i: int, j: int|
        0 <= i < j < m.closed.len() ==> !same_cell(#[trigger] m.closed[i], #[trigger] m.closed[j])
    &&& forall|i: int, j: int|
        0 <= i < m.open.len() && 0 <= j < m.closed.len() ==> !same_cell(
            #[trigger] m.open[i],
            #[trigger] m.closed[j],
        )
    &&& match m.start {
        Some(n) => (n.x as int) < m.grid.width && (n.y as int) < m.grid.height && n.g == 0
            && n.hsq == 0,
        None => true,
    }
    &&& match m.goal {
        Some(n) => (n.x as int) < m.grid.width && (n.y as int) < m.grid.height && n.g == 0
            && n.hsq == 0,
        None => true,
    }
    &&& match m.current {
        Some(n) => snapshot_ok(m, n),
        None => true,
    }
    &&& m.start is None ==> m.open.len() == 0 && m.closed.len() == 0 && m.goal is None
        && m.current is None
    &&& m.current is Some <==> m.start is Some
    &&& m.goal is Some ==> m.start is Some
}

/// The derived engine state.
pub open spec fn state_spec(m: SessionModel) -> SearchState {
    match (m.start, m.goal, m.current) {
        (Some(_), Some(goal), Some(cur)) => if same_cell(cur, goal) {
            SearchState::Found
        } else if m.open.len() == 0 {
            SearchState::Failed
        } else {
            SearchState::Searching
        },
        _ => SearchState::Idle,
    }
}

/// The selection phase of one step: the chosen node becomes current, its
/// first coordinate match leaves the open set, and the chosen snapshot is
/// appended to the closed set.
pub open spec fn select_spec(m: SessionModel, cur: Node) -> SessionModel {
    let i = first_cell_index(m.open, cur);
    if i >= 0 {
        SessionModel {
            open: m.open.remove(i),
            closed: m.closed.push(cur),
            current: Some(cur),
            ..m
        }
    } else {
        SessionModel { current: Some(cur), ..m }
    }
}

/// How one neighbour snapshot is treated.  An inaccessible neighbour is
/// pruned: its first open-set match (if any) moves to the closed set.  An
/// accessible one is scored against the goal and pushed unless the skip rule
/// fires: a coordinate match in the closed set — or failing that in the open
/// set — while the tentative cost exceeds the cost stored in the live grid
/// cell (which stays zero, so the skip fires on any coordinate match).
pub open spec fn process_one(m: SessionModel, nb: Node, cur: Node, goal: Node) -> SessionModel {
    if !nb.accessible {
        let i = first_cell_index(m.open, nb);
        if i >= 0 {
            SessionModel { open: m.open.remove(i), closed: m.closed.push(nb), ..m }
        } else {
            m
        }
    } else {
        let g2 = (cur.g + 1) as u64;
        let h2 = dist_sq(nb.x as int, nb.y as int, goal.x as int, goal.y as int) as u64;
        let cand = Node { x: nb.x, y: nb.y, g: g2, hsq: h2, accessible: true };
        if has_cell(m.closed, cand) && g2 > nb.g {
            m
        } else if has_cell(m.open, cand) && g2 > nb.g {
            m
        } else {
            SessionModel { open: m.open.push(cand), ..m }
        }
    }
}

/// Folds [`process_one`] over the neighbour list, left to right.
pub open spec fn process_neighbours(
    m: SessionModel,
    ns: Seq<Node>,
    cur: Node,
    goal: Node,
) -> SessionModel
    decreases ns.len(),
{
    if ns.len() == 0 {
        m
    } else {
        process_neighbours(process_one(m, ns[0], cur, goal), ns.drop_first(), cur, goal)
    }
}

/// One full expansion step.  In `Idle`, `Found` and `Failed` the session is
/// left exactly as it was; otherwise the best open node (ties resolve to the
/// last equal-or-lower entry scanned) is selected and its neighbours are
/// processed in the fixed generation order.
pub open spec fn step_spec(m: SessionModel) -> SessionModel {
    match (m.start, m.goal, m.current) {
        (Some(_), Some(goal), Some(cur0)) => {
            if same_cell(cur0, goal) {
                m
            } else if m.open.len() == 0 {
                m
            } else {
                let best = scan_best(m.open, m.open.len() as int);
                let cur = m.open[best];
                process_neighbours(
                    select_spec(m, cur),
                    neighbours_spec(m.grid, cur),
                    cur,
                    goal,
                )
            }
        },
        _ => m,
    }
}

/// The session after `k` ticks.
pub open spec fn run_spec(m: SessionModel, k: nat) -> SessionModel
    decreases k,
{
    if k == 0 {
        m
    } else {
        step_spec(run_spec(m, (k - 1) as nat))
    }
}

/// Determinism: every tick, and so the whole closed-set sequence of a run,
/// is a function of the initial configuration alone.
pub proof fn lemma_run_deterministic(m1: SessionModel, m2: SessionModel, k: nat)
    requires
        m1 == m2,
    ensures
        run_spec(m1, k) == run_spec(m2, k),
        run_spec(m1, k).closed == run_spec(m2, k).closed,
{
}

/// Terminal idempotence: once the engine is `Found` or `Failed`, a step
/// leaves the open set, the closed set and the current node unchanged.
pub proof fn lemma_terminal_idempotent(m: SessionModel)
    requires
        state_spec(m) == SearchState::Found || state_spec(m) == SearchState::Failed,
    ensures
        step_spec(m) == m,
{
}

/// Stepping before both start and goal are set is a pure no-op.
pub proof fn lemma_idle_noop(m: SessionModel)
    requires
        state_spec(m) == SearchState::Idle,
    ensures
        step_spec(m) == m,
{
}

/// Obstacle pruning: when the engine touches an inaccessible neighbour that
/// currently sits in the open set, that entry leaves the open set and the
/// neighbour's (unscored) snapshot is appended to the closed set.
pub proof fn lemma_obstacle_pruned(m: SessionModel, nb: Node, cur: Node, goal: Node)
    requires
        !nb.accessible,
        has_cell(m.open, nb),
    ensures
        process_one(m, nb, cur, goal).open == m.open.remove(first_cell_index(m.open, nb)),
        process_one(m, nb, cur, goal).closed == m.closed.push(nb),
{
    lemma_first_cell_index(m.open, nb);
}

/// Processing neighbours never shrinks the closed set.
proof fn lemma_process_monotone(m: SessionModel, ns: Seq<Node>, cur: Node, goal: Node)
    ensures
        process_neighbours(m, ns, cur, goal).closed.len() >= m.closed.len(),
    decreases ns.len(),
{
    if ns.len() > 0 {
        lemma_process_monotone(process_one(m, ns[0], cur, goal), ns.drop_first(), cur, goal);
    }
}

/// The closed set never shrinks: a step either leaves the session unchanged
/// or moves cells into the closed set.
pub proof fn lemma_closed_monotone(m: SessionModel)
    ensures
        step_spec(m).closed.len() >= m.closed.len(),
{
    if m.start is Some && m.goal is Some && m.current is Some {
        let goal = m.goal.unwrap();
        let cur0 = m.current.unwrap();
        if !same_cell(cur0, goal) && m.open.len() > 0 {
            let cur = m.open[scan_best(m.open, m.open.len() as int)];
            lemma_process_monotone(select_spec(m, cur), neighbours_spec(m.grid, cur), cur, goal);
        }
    }
}

/// While the engine is searching, every step closes at least one more cell.
/// With [`lemma_closed_bounded`] this is the termination argument: the
/// closed set grows strictly each searching tick yet never outgrows the
/// grid, so a session cannot search forever.
pub proof fn lemma_searching_closes_a_cell(m: SessionModel)
    requires
        wf_model(m),
        state_spec(m) == SearchState::Searching,
    ensures
        step_spec(m).closed.len() > m.closed.len(),
{
    let goal = m.goal.unwrap();
    let cur = m.open[scan_best(m.open, m.open.len() as int)];
    crate::frontier::lemma_scan_best_in_range(m.open, m.open.len() as int);
    assert(same_cell(cur, cur));
    assert(has_cell(m.open, cur));
    lemma_first_cell_index(m.open, cur);
    lemma_process_monotone(select_spec(m, cur), neighbours_spec(m.grid, cur), cur, goal);
}

/// The closed set of a well-formed session never outgrows the grid: its
/// entries are pairwise distinct in-bounds cells.
pub proof fn lemma_closed_bounded(m: SessionModel)
    requires
        wf_model(m),
    ensures
        m.closed.len() <= m.grid.width * m.grid.height,
{
    lemma_distinct_cells_bounded(m.closed, m.grid.width, m.grid.height);
}

/// The whole searchable state: grid, frontier sets and the start, goal and
/// current snapshots, owned and mutated as a single unit.
pub struct Session {
    pub graph: Graph,
    pub open_set: OpenSet,
    pub closed_set: ClosedSet,
    pub start: Start,
    pub goal: Goal,
    pub current: Current,
}

impl View for Session {
    type V = SessionModel;

    open spec fn view(&self) -> SessionModel {
        SessionModel {
            grid: self.graph@,
            open: self.open_set.nodes@,
            closed: self.closed_set.nodes@,
            start: self.start.node,
            goal: self.goal.node,
            current: self.current.node,
        }
    }
}

impl Session {
    /// The session invariant every method preserves.
    pub open spec fn wf(&self) -> bool {
        wf_model(self@)
    }

    /// Builds a session over a fresh all-accessible grid with an empty
    /// frontier and no start, goal or current node.  Rejects dimensions
    /// outside `[1, MAX_DIM]`.
    pub fn new(width: usize, height: usize) -> (r: Result<Session, SessionError>)
        ensures
            match r {
                Ok(s) => {
                    &&& 1 <= width <= MAX_DIM
                    &&& 1 <= height <= MAX_DIM
                    &&& s.wf()
                    &&& s@.grid.width == width
                    &&& s@.grid.height == height
                    &&& forall|x: int, y: int|
                        0 <= x < width && 0 <= y < height ==> (
                        #[trigger] s@.grid.cells[x][y]).accessible
                    &&& s@.open.len() == 0
                    &&& s@.closed.len() == 0
                    &&& s@.start is None
                    &&& s@.goal is None
                    &&& s@.current is None
                },
                Err(e) => e == SessionError::OutOfBounds && !(1 <= width <= MAX_DIM && 1 <= height
                    <= MAX_DIM),
            },
    {
        if 1 <= width && width <= MAX_DIM && 1 <= height && height <= MAX_DIM {
            Ok(
                Session {
                    graph: Graph::new(width, height),
                    open_set: OpenSet { nodes: Vec::new() },
                    closed_set: ClosedSet { nodes: Vec::new() },
                    start: Start { node: None },
                    goal: Goal { node: None },
                    current: Current { node: None },
                },
            )
        } else {
            Err(SessionError::OutOfBounds)
        }
    }

    /// The engine's derived state.
    pub fn state(&self) -> (r: SearchState)
        ensures
            r == state_spec(self@),
    {
        match (self.start.node, self.goal.node, self.current.node) {
            (Some(_), Some(goal), Some(cur)) => {
                if cur == goal {
                    SearchState::Found
                } else if self.open_set.nodes.len() == 0 {
                    SearchState::Failed
                } else {
                    SearchState::Searching
                }
            },
            _ => SearchState::Idle,
        }
    }

    /// Chooses the start cell: its live snapshot seeds the open set and
    /// becomes both start and current.  The first choice wins: a second call
    /// fails with `AlreadySet` until a reset.
    pub fn set_start(&mut self, x: usize, y: usize) -> (r: Result<(), SessionError>)
        requires
            old(self).wf(),
        ensures
            final(self).wf(),
            ({
                let m = old(self)@;
                if !((x as int) < m.grid.width && (y as int) < m.grid.height) {
                    r == Err::<(), SessionError>(SessionError::OutOfBounds) && final(self)@ == m
                } else if m.start is Some {
                    r == Err::<(), SessionError>(SessionError::AlreadySet) && final(self)@ == m
                } else {
                    let cell = m.grid.cells[x as int][y as int];
                    r == Ok::<(), SessionError>(()) && final(self)@ == SessionModel {
                        open: m.open.push(cell),
                        start: Some(cell),
                        current: Some(cell),
                        ..m
                    }
                }
            }),
    {
        if !(x < self.graph.width && y < self.graph.height) {
            return Err(SessionError::OutOfBounds);
        }
        if self.start.node.is_some() {
            return Err(SessionError::AlreadySet);
        }
        proof {
            assert(self@.grid.cells[x as int] == self.graph.nodes@[x as int]@);
            assert(cell_ok(self@.grid.cells[x as int][y as int], x as int, y as int));
        }
        let cell = self.graph.nodes[x][y];
        self.open_set.nodes.push(cell);
        self.start.node = Some(cell);
        self.current.node = Some(cell);
        Ok(())
    }

    /// Chooses the goal cell.  Requires a start to have been chosen first
    /// (`NotReady` otherwise — after a reset the start must be re-chosen
    /// before a goal), and the first choice wins (`AlreadySet`).
    pub fn set_goal(&mut self, x: usize, y: usize) -> (r: Result<(), SessionError>)
        requires
            old(self).wf(),
        ensures
            final(self).wf(),
            ({
                let m = old(self)@;
                if !((x as int) < m.grid.width && (y as int) < m.grid.height) {
                    r == Err::<(), SessionError>(SessionError::OutOfBounds) && final(self)@ == m
                } else if m.start is None {
                    r == Err::<(), SessionError>(SessionError::NotReady) && final(self)@ == m
                } else if m.goal is Some {
                    r == Err::<(), SessionError>(SessionError::AlreadySet) && final(self)@ == m
                } else {
                    let cell = m.grid.cells[x as int][y as int];
                    r == Ok::<(), SessionError>(()) && final(self)@ == SessionModel {
                        goal: Some(cell),
                        ..m
                    }
                }
            }),
    {
        if !(x < self.graph.width && y < self.graph.height) {
            return Err(SessionError::OutOfBounds);
        }
        if self.start.node.is_none() {
            return Err(SessionError::NotReady);
        }
        if self.goal.node.is_some() {
            return Err(SessionError::AlreadySet);
        }
        proof {
            assert(self@.grid.cells[x as int] == self.graph.nodes@[x as int]@);
            assert(cell_ok(self@.grid.cells[x as int][y as int], x as int, y as int));
        }
        let cell = self.graph.nodes[x][y];
        self.goal.node = Some(cell);
        Ok(())
    }

    /// Marks the splash cell at `(x, y)` and its four companion cells
    /// inaccessible, in this order: the cell itself, its right neighbour,
    /// its top-right neighbour, its bottom-left neighbour and the cell below.
    /// If any target would fall outside the grid the call fails with
    /// `OutOfBounds` and nothing is applied.
    pub fn block(&mut self, x: usize, y: usize) -> (r: Result<(), SessionError>)
        requires
            old(self).wf(),
        ensures
            final(self).wf(),
            ({
                let m = old(self)@;
                if splash_in_bounds(m.grid, x as int, y as int) {
                    r == Ok::<(), SessionError>(()) && final(self)@ == SessionModel {
                        grid: GridModel { cells: splash_spec(m.grid.cells, x as int, y as int), ..m.grid },
                        ..m
                    }
                } else {
                    r == Err::<(), SessionError>(SessionError::OutOfBounds) && final(self)@ == m
                }
            }),
    {
        if !(1 <= x && 1 <= y && x < self.graph.width && y < self.graph.height) {
            return Err(SessionError::OutOfBounds);
        }
        if !(x + 1 < self.graph.width && y + 1 < self.graph.height) {
            return Err(SessionError::OutOfBounds);
        }
        let r0 = self.graph.set_accessible(x, y, false);
        let r1 = self.graph.set_accessible(x + 1, y, false);
        let r2 = self.graph.set_accessible(x + 1, y + 1, false);
        let r3 = self.graph.set_accessible(x - 1, y - 1, false);
        let r4 = self.graph.set_accessible(x, y - 1, false);
        proof {
            let m = old(self)@;
            assert(final(self)@ =~= SessionModel {
                grid: GridModel { cells: splash_spec(m.grid.cells, x as int, y as int), ..m.grid },
                ..m
            });
        }
        Ok(())
    }

    /// Performs one expansion step, exactly as [`step_spec`] describes: a
    /// pure no-op in `Idle`, `Found` and `Failed`; otherwise the best open
    /// node is selected, moved to the closed set, and each of its neighbours
    /// is scored, pruned or skipped in the fixed generation order.
    pub fn step(&mut self)
        requires
            old(self).wf(),
        ensures
            final(self).wf(),
            final(self)@ == step_spec(old(self)@),
    {
        let ghost m0 = old(self)@;
        let goal = match self.goal.node {
            Some(g) => g,
            None => {
                return ;
            },
        };
        let cur0 = match self.current.node {
            Some(c) => c,
            None => {
                return ;
            },
        };
        proof {
            assert(m0.start is Some);
        }
        if cur0 == goal {
            return ;
        }
        if self.open_set.nodes.len() == 0 {
            return ;
        }
        proof {
            lemma_closed_bounded(m0);
            assert(m0.grid.width * m0.grid.height <= (MAX_DIM as int) * (MAX_DIM as int))
                by (nonlinear_arith)
                requires
                    1 <= m0.grid.width <= MAX_DIM as int,
                    1 <= m0.grid.height <= MAX_DIM as int,
            ;
            assert forall|i: int| 0 <= i < m0.open.len() implies cost_ok(
                #[trigger] m0.open[i],
            ) by {
                assert(snapshot_ok(m0, m0.open[i]));
            }
        }
        let best = find_best_open(&self.open_set.nodes);
        let cur = self.open_set.nodes[best];
        proof {
            assert(snapshot_ok(m0, cur));
        }
        self.current.node = Some(cur);
        let neighbours = get_neighbours(cur, &self.graph);
        proof {
            assert(same_cell(cur, cur));
            assert(has_cell(m0.open, cur));
            lemma_first_cell_index(m0.open, cur);
        }
        if let Some(i) = find_same_cell(&self.open_set.nodes, cur) {
            self.closed_set.nodes.push(cur);
            self.open_set.nodes.remove(i);
        }
        let ghost m1 = self@;
        let ghost fci = first_cell_index(m0.open, cur);
        proof {
            m0.open.remove_ensures(fci);
            assert(m1 =~= select_spec(m0, cur));
        }
        let gnew: u64 = cur.g + 1;
        let ghost ns = neighbours@;
        proof {
            assert(ns.skip(0) =~= ns);
            lemma_neighbours_wf(m0.grid, cur);
            assert forall|a: int| 0 <= a < m1.open.len() implies snapshot_ok(
                m1,
                #[trigger] m1.open[a],
            ) by {
                if a < fci {
                    assert(m1.open[a] == m0.open[a]);
                    assert(snapshot_ok(m0, m0.open[a]));
                } else {
                    assert(m1.open[a] == m0.open[a + 1]);
                    assert(snapshot_ok(m0, m0.open[a + 1]));
                }
            }
            assert forall|a: int, b: int| 0 <= a < b < m1.open.len() implies !same_cell(
                #[trigger] m1.open[a],
                #[trigger] m1.open[b],
            ) by {
                let a2: int = if a < fci {
                    a
                } else {
                    a + 1
                };
                let b2: int = if b < fci {
                    b
                } else {
                    b + 1
                };
                assert(m1.open[a] == m0.open[a2]);
                assert(m1.open[b] == m0.open[b2]);
            }
            assert forall|a: int, b: int|
                0 <= a < m1.open.len() && 0 <= b < m1.closed.len() implies !same_cell(
                #[trigger] m1.open[a],
                #[trigger] m1.closed[b],
            ) by {
                let a2: int = if a < fci {
                    a
                } else {
                    a + 1
                };
                assert(m1.open[a] == m0.open[a2]);
                if b < m0.closed.len() {
                    assert(m1.closed[b] == m0.closed[b]);
                } else {
                    assert(m1.closed[b] == cur);
                    assert(a2 != fci);
                    assert(same_cell(m0.open[fci], cur));
                }
            }
            assert forall|a: int, b: int| 0 <= a < b < m1.closed.len() implies !same_cell(
                #[trigger] m1.closed[a],
                #[trigger] m1.closed[b],
            ) by {
                if b == m0.closed.len() {
                    assert(m1.closed[b] == cur);
                    assert(same_cell(m0.open[fci], cur));
                    assert(!same_cell(m0.open[fci], m0.closed[a]));
                }
            }
        }
        let mut k: usize = 0;
        while k < neighbours.len()
            invariant
                k <= ns.len(),
                neighbours@ == ns,
                ns == neighbours_spec(m0.grid, cur),
                wf_model(m0),
                (m0.start is Some),
                m0.goal == Some(goal),
                m0.current == Some(cur0),
                !same_cell(cur0, goal),
                m0.open.len() > 0,
                cur == m0.open[scan_best(m0.open, m0.open.len() as int)],
                m1 == select_spec(m0, cur),
                grid_wf(m0.grid),
                self@.grid == m0.grid,
                self@.start == m0.start,
                self@.goal == m0.goal,
                self@.current == Some(cur),
                (goal.x as int) < m0.grid.width,
                (goal.y as int) < m0.grid.height,
                (cur.x as int) < m0.grid.width,
                (cur.y as int) < m0.grid.height,
                cur.hsq <= 2 * (MAX_DIM as int) * (MAX_DIM as int),
                gnew == cur.g + 1,
                gnew <= self@.closed.len(),
                process_neighbours(m1, ns, cur, goal) == process_neighbours(
                    self@,
                    ns.skip(k as int),
                    cur,
                    goal,
                ),
                forall|i: int|
                    0 <= i < self@.open.len() ==> snapshot_ok(self@, #[trigger] self@.open[i]),
                forall|i: int, j: int|
                    0 <= i < j < self@.open.len() ==> !same_cell(
                        #[trigger] self@.open[i],
                        #[trigger] self@.open[j],
                    ),
                forall|i: int|
                    0 <= i < self@.closed.len() ==> ((#[trigger] self@.closed[i]).x as int)
                        < m0.grid.width && (self@.closed[i].y as int) < m0.grid.height,
                forall|i: int, j: int|
                    0 <= i < j < self@.closed.len() ==> !same_cell(
                        #[trigger] self@.closed[i],
                        #[trigger] self@.closed[j],
                    ),
                forall|i: int, j: int|
                    0 <= i < self@.open.len() && 0 <= j < self@.closed.len() ==> !same_cell(
                        #[trigger] self@.open[i],
                        #[trigger] self@.closed[j],
                    ),
            decreases ns.len() - k,
        {
            let nb = neighbours[k];
            proof {
                lemma_neighbours_wf(m0.grid, cur);
                assert((nb.x as int) < m0.grid.width && (nb.y as int) < m0.grid.height && nb.g == 0
                    && nb.hsq == 0);
            }
            let ghost m_pre = self@;
            if !nb.accessible {
                if let Some(i2) = find_same_cell(&self.open_set.nodes, nb) {
                    self.open_set.nodes.remove(i2);
                    self.closed_set.nodes.push(nb);
                    proof {
                        m_pre.open.remove_ensures(i2 as int);
                        assert forall|a: int| 0 <= a < self@.open.len() implies snapshot_ok(
                            self@,
                            #[trigger] self@.open[a],
                        ) by {
                            if a < i2 {
                                assert(self@.open[a] == m_pre.open[a]);
                                assert(snapshot_ok(m_pre, m_pre.open[a]));
                            } else {
                                assert(self@.open[a] == m_pre.open[a + 1]);
                                assert(snapshot_ok(m_pre, m_pre.open[a + 1]));
                            }
                        }
                        assert forall|a: int, b: int|
                            0 <= a < b < self@.open.len() implies !same_cell(
                            #[trigger] self@.open[a],
                            #[trigger] self@.open[b],
                        ) by {
                            let a2: int = if a < i2 {
                                a
                            } else {
                                a + 1
                            };
                            let b2: int = if b < i2 {
                                b
                            } else {
                                b + 1
                            };
                            assert(self@.open[a] == m_pre.open[a2]);
                            assert(self@.open[b] == m_pre.open[b2]);
                        }
                        assert forall|a: int, b: int|
                            0 <= a < self@.open.len() && 0 <= b < self@.closed.len()
                            implies !same_cell(
                            #[trigger] self@.open[a],
                            #[trigger] self@.closed[b],
                        ) by {
                            let a2: int = if a < i2 {
                                a
                            } else {
                                a + 1
                            };
                            assert(self@.open[a] == m_pre.open[a2]);
                            if b < m_pre.closed.len() {
                                assert(self@.closed[b] == m_pre.closed[b]);
                            } else {
                                assert(self@.closed[b] == nb);
                                assert(a2 != i2);
                                assert(same_cell(m_pre.open[i2 as int], nb));
                            }
                        }
                        assert forall|a: int, b: int|
                            0 <= a < b < self@.closed.len() implies !same_cell(
                            #[trigger] self@.closed[a],
                            #[trigger] self@.closed[b],
                        ) by {
                            if b == m_pre.closed.len() {
                                assert(self@.closed[b] == nb);
                                assert(same_cell(m_pre.open[i2 as int], nb));
                                assert(!same_cell(m_pre.open[i2 as int], m_pre.closed[a]));
                            }
                        }
                    }
                }
            } else {
                let hsq = heuristic(nb, goal);
                let cand = Node { x: nb.x, y: nb.y, g: gnew, hsq, accessible: true };
                let in_closed = contains_cell(&self.closed_set.nodes, cand);
                if in_closed && gnew > nb.g {
                    // skip: a closed coordinate match with a larger tentative cost
                } else {
                    let in_open = contains_cell(&self.open_set.nodes, cand);
                    if in_open && gnew > nb.g {
                        // skip: an open coordinate match with a larger tentative cost
                    } else {
                        self.open_set.nodes.push(cand);
                        proof {
                            assert(!has_cell(m_pre.closed, cand));
                            assert(!has_cell(m_pre.open, cand));
                            assert(snapshot_ok(self@, cand));
                        }
                    }
                }
            }
            proof {
                assert(self@ =~= process_one(m_pre, nb, cur, goal));
                assert(ns.skip(k as int)[0] == ns[k as int]);
                assert(ns.skip(k as int).drop_first() =~= ns.skip(k as int + 1));
                assert(process_neighbours(m_pre, ns.skip(k as int), cur, goal)
                    == process_neighbours(self@, ns.skip(k as int + 1), cur, goal));
            }
            k += 1;
        }
        proof {
            assert(ns.skip(k as int) =~= Seq::<Node>::empty());
            assert(process_neighbours(self@, ns.skip(k as int), cur, goal) == self@);
            assert(step_spec(m0) == process_neighbours(
                select_spec(m0, cur),
                neighbours_spec(m0.grid, cur),
                cur,
                goal,
            ));
            assert(self@ == step_spec(m0));
            assert(snapshot_ok(self@, cur));
            assert(wf_model(self@));
        }
    }

    /// Returns the session to its initial state: start, goal and current are
    /// cleared, both frontier sets are emptied, and every grid cell is made
    /// accessible again, in place.
    pub fn reset(&mut self)
        requires
            old(self).wf(),
        ensures
            final(self).wf(),
            final(self)@.grid.width == old(self)@.grid.width,
            final(self)@.grid.height == old(self)@.grid.height,
            forall|x: int, y: int|
                0 <= x < old(self)@.grid.width && 0 <= y < old(self)@.grid.height ==> (
                #[trigger] final(self)@.grid.cells[x][y]) == (Node {
                    accessible: true,
                    ..old(self)@.grid.cells[x][y]
                }),
            final(self)@.open.len() == 0,
            final(self)@.closed.len() == 0,
            (final(self)@.start is None),
            (final(self)@.goal is None),
            (final(self)@.current is None),
    {
        self.start.node = None;
        self.current.node = None;
        self.goal.node = None;
        self.closed_set.nodes = Vec::new();
        self.open_set.nodes = Vec::new();
        let width = self.graph.width;
        let height = self.graph.height;
        let mut x: usize = 0;
        while x < width
            invariant
                x <= width,
                self.graph.wf(),
                self.graph@.width == width,
                self.graph@.height == height,
                self.graph@.width == old(self)@.grid.width,
                self.graph@.height == old(self)@.grid.height,
                forall|i: int, j: int|
                    0 <= i < x && 0 <= j < height ==> (#[trigger] self.graph@.cells[i][j]) == (Node {
                        accessible: true,
                        ..old(self)@.grid.cells[i][j]
                    }),
                forall|i: int, j: int|
                    x <= i < width && 0 <= j < height ==> (#[trigger] self.graph@.cells[i][j])
                        == old(self)@.grid.cells[i][j],
                self.open_set.nodes@.len() == 0,
                self.closed_set.nodes@.len() == 0,
                (self.start.node is None),
                (self.goal.node is None),
                (self.current.node is None),
            decreases width - x,
        {
            let mut y: usize = 0;
            while y < height
                invariant
                    x < width,
                    y <= height,
                    self.graph.wf(),
                    self.graph@.width == width,
                    self.graph@.height == height,
                    forall|i: int, j: int|
                        0 <= i < x && 0 <= j < height ==> (#[trigger] self.graph@.cells[i][j])
                            == (Node { accessible: true, ..old(self)@.grid.cells[i][j] }),
                    forall|j: int|
                        0 <= j < y ==> (#[trigger] self.graph@.cells[x as int][j]) == (Node {
                            accessible: true,
                            ..old(self)@.grid.cells[x as int][j]
                        }),
                    forall|j: int|
                        y <= j < height ==> (#[trigger] self.graph@.cells[x as int][j]) == old(
                        self)@.grid.cells[x as int][j],
                    forall|i: int, j: int|
                        x < i < width && 0 <= j < height ==> (#[trigger] self.graph@.cells[i][j])
                            == old(self)@.grid.cells[i][j],
                    self.open_set.nodes@.len() == 0,
                    self.closed_set.nodes@.len() == 0,
                    (self.start.node is None),
                    (self.goal.node is None),
                    (self.current.node is None),
                decreases height - y,
            {
                let _ = self.graph.set_accessible(x, y, true);
                y += 1;
            }
            x += 1;
        }
    }
}

/// Whether the whole five-cell splash around `(x, y)` lies inside the grid.
pub open spec fn splash_in_bounds(g: GridModel, x: int, y: int) -> bool {
    1 <= x && 1 <= y && x + 1 < g.width && y + 1 < g.height
}

/// One cell of the splash: `accessible` cleared, everything else kept.
pub open spec fn block_cell(cells: Seq<Seq<Node>>, x: int, y: int) -> Seq<Seq<Node>> {
    cells.update(x, cells[x].update(y, Node { accessible: false, ..cells[x][y] }))
}

/// The five cells a blocking gesture touches, in application order.
pub open spec fn splash_spec(cells: Seq<Seq<Node>>, x: int, y: int) -> Seq<Seq<Node>> {
    let c0 = block_cell(cells, x, y);
    let c1 = block_cell(c0, x + 1, y);
    let c2 = block_cell(c1, x + 1, y + 1);
    let c3 = block_cell(c2, x - 1, y - 1);
    block_cell(c3, x, y - 1)
}

} // verus!
