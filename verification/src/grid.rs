//! The fixed-size grid of cells and the neighbour generator.

use vstd::prelude::*;

verus! {

use crate::node::Node;
use crate::{SessionError, MAX_DIM};

/// Mathematical model of a grid: its two dimensions and its cells, indexed
/// `[x][y]`.
#[verifier::ext_equal]
pub ghost struct GridModel {
    pub width: int,
    pub height: int,
    pub cells: Seq<Seq<Node>>,
}

/// A cell stores its own coordinates and keeps its cost fields at zero: only
/// its `accessible` flag ever changes.
pub open spec fn cell_ok(n: Node, x: int, y: int) -> bool {
    n.x == x && n.y == y && n.g == 0 && n.hsq == 0
}

/// Well-formedness of a grid: both dimensions lie in `[1, MAX_DIM]`, the
/// cell array matches them, and every cell satisfies [`cell_ok`] at its own
/// position.
pub open spec fn grid_wf(g: GridModel) -> bool {
    &&& 1 <= g.width <= MAX_DIM
    &&& 1 <= g.height <= MAX_DIM
    &&& g.cells.len() == g.width
    &&& forall|x: int| 0 <= x < g.width ==> (#[trigger] g.cells[x]).len() == g.height
    &&& forall|x: int, y: int|
        0 <= x < g.width && 0 <= y < g.height ==> cell_ok(#[trigger] g.cells[x][y], x, y)
}

/// The 2D array of cells a session searches over.
pub struct Graph {
    pub nodes: Vec<Vec<Node>>,
    pub width: usize,
    pub height: usize,
}

impl View for Graph {
    type V = GridModel;

    open spec fn view(&self) -> GridModel {
        GridModel {
            width: self.width as int,
            height: self.height as int,
            cells: self.nodes@.map_values(|col: Vec<Node>| col@),
        }
    }
}

impl Graph {
    /// The grid's structural invariant.
    pub open spec fn wf(&self) -> bool {
        grid_wf(self@)
    }

    /// Builds a grid with every cell accessible, its coordinates matching
    /// its array position and its cost fields zeroed.
    pub fn new(width: usize, height: usize) -> (g: Graph)
        requires
            1 <= width <= MAX_DIM,
            1 <= height <= MAX_DIM,
        ensures
            g.wf(),
            g@.width == width,
            g@.height == height,
            forall|x: int, y: int|
                0 <= x < width && 0 <= y < height ==> (#[trigger] g@.cells[x][y]).accessible,
    {
        let mut nodes: Vec<Vec<Node>> = Vec::new();
        let mut x: usize = 0;
        while x < width
            invariant
                x <= width,
                nodes@.len() == x,
                forall|i: int| 0 <= i < x ==> (#[trigger] nodes@[i])@.len() == height,
                forall|i: int, j: int|
                    0 <= i < x && 0 <= j < height ==> cell_ok(#[trigger] nodes@[i]@[j], i, j)
                        && nodes@[i]@[j].accessible,
            decreases width - x,
        {
            let mut col: Vec<Node> = Vec::new();
            let mut y: usize = 0;
            while y < height
                invariant
                    y <= height,
                    col@.len() == y,
                    forall|j: int|
                        0 <= j < y ==> cell_ok(#[trigger] col@[j], x as int, j)
                            && col@[j].accessible,
                decreases height - y,
            {
                col.push(Node { x, y, g: 0u64, hsq: 0u64, accessible: true });
                y += 1;
            }
            nodes.push(col);
            x += 1;
        }
        let g = Graph { nodes, width, height };
        assert forall|i: int| 0 <= i < width implies (#[trigger] g@.cells[i]).len() == height by {
            assert(g@.cells[i] == nodes@[i]@);
        }
        assert forall|i: int, j: int|
            0 <= i < width && 0 <= j < height implies cell_ok(#[trigger] g@.cells[i][j], i, j)
            && g@.cells[i][j].accessible by {
            assert(g@.cells[i] == nodes@[i]@);
        }
        g
    }

    /// Fetches the cell at `(x, y)`, or `OutOfBounds` when the coordinate
    /// lies outside the grid extent.
    pub fn get(&self, x: usize, y: usize) -> (r: Result<Node, SessionError>)
        requires
            self.wf(),
        ensures
            match r {
                Ok(n) => (x as int) < self@.width && (y as int) < self@.height && n
                    == self@.cells[x as int][y as int],
                Err(e) => e == SessionError::OutOfBounds && !((x as int) < self@.width && (
                y as int) < self@.height),
            },
    {
        if x < self.width && y < self.height {
            proof {
                assert(self@.cells.len() == self.nodes@.len());
                assert(self@.cells[x as int] == self.nodes@[x as int]@);
            }
            Ok(self.nodes[x][y])
        } else {
            Err(SessionError::OutOfBounds)
        }
    }

    /// Flips the `accessible` flag of the one cell at `(x, y)`, touching
    /// nothing else; `OutOfBounds` when the coordinate is outside the grid.
    pub fn set_accessible(&mut self, x: usize, y: usize, accessible: bool) -> (r: Result<
        (),
        SessionError,
    >)
        requires
            old(self).wf(),
        ensures
            final(self).wf(),
            final(self)@.width == old(self)@.width,
            final(self)@.height == old(self)@.height,
            if (x as int) < old(self)@.width && (y as int) < old(self)@.height {
                r == Ok::<(), SessionError>(()) && final(self)@.cells == old(self)@.cells.update(
                    x as int,
                    old(self)@.cells[x as int].update(
                        y as int,
                        Node {
                            accessible,
                            ..old(self)@.cells[x as int][y as int]
                        },
                    ),
                )
            } else {
                r == Err::<(), SessionError>(SessionError::OutOfBounds) && final(self)@ == old(
                self)@
            },
    {
        if x < self.width && y < self.height {
            proof {
                assert(self@.cells.len() == self.nodes@.len());
                assert(self@.cells[x as int] == self.nodes@[x as int]@);
            }
            let n = self.nodes[x][y];
            self.nodes[x][y] = Node {
                x: n.x,
                y: n.y,
                g: n.g,
                hsq: n.hsq,
                accessible,
            };
            proof {
                let oldc = old(self)@.cells;
                let newcell = Node { accessible, ..old(self)@.cells[x as int][y as int] };
                assert(self@.cells =~= oldc.update(x as int, oldc[x as int].update(y as int, newcell)));
            }
            Ok(())
        } else {
            assert(self@ =~= old(self)@);
            Err(SessionError::OutOfBounds)
        }
    }
}

/// The in-bounds neighbours of `c`, as live grid snapshots, in the fixed
/// order: top-right, right, top-left, left, top, bottom, bottom-left,
/// bottom-right.
pub open spec fn neighbours_spec(g: GridModel, c: Node) -> Seq<Node> {
    let x = c.x as int;
    let y = c.y as int;
    let s = Seq::<Node>::empty();
    let s = if x + 1 < g.width && y + 1 < g.height {
        s.push(g.cells[x + 1][y + 1])
    } else {
        s
    };
    let s = if x + 1 < g.width {
        s.push(g.cells[x + 1][y])
    } else {
        s
    };
    let s = if x >= 1 && y + 1 < g.height {
        s.push(g.cells[x - 1][y + 1])
    } else {
        s
    };
    let s = if x >= 1 {
        s.push(g.cells[x - 1][y])
    } else {
        s
    };
    let s = if y + 1 < g.height {
        s.push(g.cells[x][y + 1])
    } else {
        s
    };
    let s = if y >= 1 {
        s.push(g.cells[x][y - 1])
    } else {
        s
    };
    let s = if x >= 1 && y >= 1 {
        s.push(g.cells[x - 1][y - 1])
    } else {
        s
    };
    let s = if x + 1 < g.width && y >= 1 {
        s.push(g.cells[x + 1][y - 1])
    } else {
        s
    };
    s
}

/// Collects the in-bounds neighbours of `current` as snapshots of the live
/// grid, in the fixed order above.  No accessibility filtering happens here:
/// that is the step engine's responsibility.
pub fn get_neighbours(current: Node, graph: &Graph) -> (r: Vec<Node>)
    requires
        graph.wf(),
        (current.x as int) < graph@.width,
        (current.y as int) < graph@.height,
    ensures
        r@ == neighbours_spec(graph@, current),
{
    let c = current;
    proof {
        assert(graph@.cells.len() == graph.nodes@.len());
        assert forall|i: int| 0 <= i < graph.nodes@.len() implies (#[trigger] graph.nodes@[i])@
            == graph@.cells[i] by {
            assert(graph@.cells[i] == graph.nodes@[i]@);
        }
    }
    let mut neighbours: Vec<Node> = Vec::new();
    // top right
    if c.x + 1 < graph.width && c.y + 1 < graph.height {
        neighbours.push(graph.nodes[c.x + 1][c.y + 1]);
    }
    // right
    if c.x + 1 < graph.width {
        neighbours.push(graph.nodes[c.x + 1][c.y]);
    }
    // top left
    if c.x >= 1 && c.y + 1 < graph.height {
        neighbours.push(graph.nodes[c.x - 1][c.y + 1]);
    }
    // left
    if c.x >= 1 {
        neighbours.push(graph.nodes[c.x - 1][c.y]);
    }
    // top
    if c.y + 1 < graph.height {
        neighbours.push(graph.nodes[c.x][c.y + 1]);
    }
    // bottom
    if c.y >= 1 {
        neighbours.push(graph.nodes[c.x][c.y - 1]);
    }
    // bottom left
    if c.x >= 1 && c.y >= 1 {
        neighbours.push(graph.nodes[c.x - 1][c.y - 1]);
    }
    // bottom right
    if c.x + 1 < graph.width && c.y >= 1 {
        neighbours.push(graph.nodes[c.x + 1][c.y - 1]);
    }
    neighbours
}

/// Every generated neighbour is an in-bounds live cell, so it carries its
/// own coordinates and zero cost fields.
pub proof fn lemma_neighbours_wf(g: GridModel, c: Node)
    requires
        grid_wf(g),
        (c.x as int) < g.width,
        (c.y as int) < g.height,
    ensures
        forall|i: int|
            0 <= i < neighbours_spec(g, c).len() ==> {
                let n = #[trigger] neighbours_spec(g, c)[i];
                (n.x as int) < g.width && (n.y as int) < g.height && n.g == 0 && n.hsq == 0
            },
        neighbours_spec(g, c).len() <= 8,
{
}

/// How many neighbours a coordinate has, by its position: a corner cell has
/// exactly 3, a non-corner edge cell exactly 5, an interior cell exactly 8.
pub proof fn lemma_neighbour_count(g: GridModel, c: Node)
    requires
        grid_wf(g),
        g.width >= 2,
        g.height >= 2,
        (c.x as int) < g.width,
        (c.y as int) < g.height,
    ensures
        ((c.x == 0 || c.x as int == g.width - 1) && (c.y == 0 || c.y as int == g.height - 1))
            ==> neighbours_spec(g, c).len() == 3,
        ((c.x == 0 || c.x as int == g.width - 1) && !(c.y == 0 || c.y as int == g.height - 1))
            ==> neighbours_spec(g, c).len() == 5,
        (!(c.x == 0 || c.x as int == g.width - 1) && (c.y == 0 || c.y as int == g.height - 1))
            ==> neighbours_spec(g, c).len() == 5,
        (!(c.x == 0 || c.x as int == g.width - 1) && !(c.y == 0 || c.y as int == g.height - 1))
            ==> neighbours_spec(g, c).len() == 8,
{
}

} // verus!
