//! The per-cell search record and its exact cost arithmetic.

use vstd::prelude::*;

verus! {

use crate::MAX_DIM;

/// Bound under which the cost comparison [`f_le`] is exact and overflow-free.
/// Well-formed sessions keep every `g` and `hsq` far below it.
pub const COST_LIMIT: u64 = 0x4000_0000;

/// One grid cell's search state at a point in time.
///
/// `g` is the accumulated cost from the start (every move costs one unit, so
/// it is an integer) and `hsq` is the square of the Euclidean distance to the
/// goal, so the heuristic is `h = sqrt(hsq)` and the total priority is
/// `f = g + sqrt(hsq)`.  Storing the square keeps the value exact.
#[derive(Clone, Copy, Debug)]
pub struct Node {
    pub x: usize,
    pub y: usize,
    pub g: u64,
    pub hsq: u64,
    pub accessible: bool,
}

/// Coordinate-only equality: the comparison that governs every open/closed
/// membership test.  Cost fields are deliberately ignored.
pub open spec fn same_cell(a: Node, b: Node) -> bool {
    a.x == b.x && a.y == b.y
}

impl PartialEq for Node {
    /// Node identity is defined by coordinates only, never by cost fields.
    fn eq(&self, other: &Self) -> (r: bool) {
        self.x == other.x && self.y == other.y
    }
}

impl vstd::std_specs::cmp::PartialEqSpecImpl for Node {
    open spec fn obeys_eq_spec() -> bool {
        true
    }

    open spec fn eq_spec(&self, other: &Self) -> bool {
        same_cell(*self, *other)
    }
}

/// Squared Euclidean distance between two coordinates.
pub open spec fn dist_sq(ax: int, ay: int, bx: int, by: int) -> int {
    (ax - bx) * (ax - bx) + (ay - by) * (ay - by)
}

/// The heuristic, represented exactly: the square of the Euclidean distance
/// between the coordinates of `current` and `goal`.
pub fn heuristic(current: Node, goal: Node) -> (r: u64)
    requires
        current.x <= MAX_DIM,
        current.y <= MAX_DIM,
        goal.x <= MAX_DIM,
        goal.y <= MAX_DIM,
    ensures
        r == dist_sq(current.x as int, current.y as int, goal.x as int, goal.y as int),
        r <= 2 * MAX_DIM * MAX_DIM,
{
    let dx: u64 = if current.x >= goal.x {
        (current.x - goal.x) as u64
    } else {
        (goal.x - current.x) as u64
    };
    let dy: u64 = if current.y >= goal.y {
        (current.y - goal.y) as u64
    } else {
        (goal.y - current.y) as u64
    };
    assert(dx * dx <= 1048576 && dy * dy <= 1048576) by (nonlinear_arith)
        requires
            dx <= 1024,
            dy <= 1024,
    ;
    let r = dx * dx + dy * dy;
    assert(r == dist_sq(current.x as int, current.y as int, goal.x as int, goal.y as int))
        by (nonlinear_arith)
        requires
            dx == if current.x >= goal.x {
                current.x - goal.x
            } else {
                goal.x - current.x
            },
            dy == if current.y >= goal.y {
                current.y - goal.y
            } else {
                goal.y - current.y
            },
            r == dx * dx + dy * dy,
    ;
    r
}

/// Whether `a.g + sqrt(a.hsq) <= b.g + sqrt(b.hsq)`, written over integers
/// alone.  With `e = b.g - a.g` the inequality `sqrt(a.hsq) <= e +
/// sqrt(b.hsq)` is squared out in two steps, watching signs, which leaves
/// only products of the inputs.
pub open spec fn f_le_spec(a: Node, b: Node) -> bool {
    let e = b.g as int - a.g as int;
    let p = a.hsq as int;
    let q = b.hsq as int;
    if e >= 0 {
        let t = p - e * e - q;
        t <= 0 || t * t <= 4 * (e * e) * q
    } else {
        let s = q - e * e - p;
        s >= 0 && s * s >= 4 * (e * e) * p
    }
}

/// Exact comparison of two node priorities: decides
/// `a.g + sqrt(a.hsq) <= b.g + sqrt(b.hsq)` without rounding.
pub fn f_le(a: &Node, b: &Node) -> (r: bool)
    requires
        a.g <= COST_LIMIT,
        b.g <= COST_LIMIT,
        a.hsq <= COST_LIMIT,
        b.hsq <= COST_LIMIT,
    ensures
        r == f_le_spec(*a, *b),
{
    let e: i128 = b.g as i128 - a.g as i128;
    let p: i128 = a.hsq as i128;
    let q: i128 = b.hsq as i128;
    assert(0 <= e * e && e * e <= 0x1000_0000_0000_0000i128) by (nonlinear_arith)
        requires
            -0x4000_0000 <= e <= 0x4000_0000,
    ;
    if e >= 0 {
        let t: i128 = p - e * e - q;
        assert(t * t < 0x4000_0000_0000_0000_0000_0000_0000_0000i128 && 0 <= 4 * (e * e) * q
            < 0x4000_0000_0000_0000_0000_0000_0000_0000i128) by (nonlinear_arith)
            requires
                0 <= e <= 0x4000_0000,
                0 <= p <= 0x4000_0000,
                0 <= q <= 0x4000_0000,
                t == p - e * e - q,
        ;
        t <= 0 || t * t <= 4 * (e * e) * q
    } else {
        let s: i128 = q - e * e - p;
        assert(s * s < 0x4000_0000_0000_0000_0000_0000_0000_0000i128 && 0 <= 4 * (e * e) * p
            < 0x4000_0000_0000_0000_0000_0000_0000_0000i128) by (nonlinear_arith)
            requires
                -0x4000_0000 <= e < 0,
                0 <= p <= 0x4000_0000,
                0 <= q <= 0x4000_0000,
                s == q - e * e - p,
        ;
        s >= 0 && s * s >= 4 * (e * e) * p
    }
}

/// With equal heuristics the priority order is the order of the accumulated
/// costs.
pub proof fn lemma_f_le_same_heuristic(a: Node, b: Node)
    requires
        a.hsq == b.hsq,
    ensures
        f_le_spec(a, b) <==> a.g <= b.g,
{
    let e = b.g as int - a.g as int;
    if e >= 0 {
        assert(a.hsq as int - e * e - b.hsq as int <= 0) by (nonlinear_arith)
            requires
                e >= 0,
                a.hsq == b.hsq,
        ;
    } else {
        assert((b.hsq as int) - e * e - (a.hsq as int) < 0) by (nonlinear_arith)
            requires
                e < 0,
                a.hsq == b.hsq,
        ;
    }
}

/// With equal accumulated costs the priority order is the order of the
/// squared heuristics.
pub proof fn lemma_f_le_same_cost(a: Node, b: Node)
    requires
        a.g == b.g,
    ensures
        f_le_spec(a, b) <==> a.hsq <= b.hsq,
{
    let e = b.g as int - a.g as int;
    let t = a.hsq as int - b.hsq as int;
    assert(e * e == 0 && 4 * e * e * b.hsq as int == 0) by (nonlinear_arith)
        requires
            e == 0,
    ;
    if t > 0 {
        assert(t * t > 0) by (nonlinear_arith)
            requires
                t > 0,
        ;
    }
}

/// The priority order is reflexive, so the best-open scan always accepts the
/// first entry it sees.
pub proof fn lemma_f_le_refl(a: Node)
    ensures
        f_le_spec(a, a),
{
}

/// The priority order is total: of any two nodes, one compares less than or
/// equal to the other, so a best open node always exists.
pub proof fn lemma_f_le_total(a: Node, b: Node)
    ensures
        f_le_spec(a, b) || f_le_spec(b, a),
{
    let e = b.g as int - a.g as int;
    let p = a.hsq as int;
    let q = b.hsq as int;
    if e == 0 {
        lemma_f_le_same_cost(a, b);
        lemma_f_le_same_cost(b, a);
    } else {
        // When one direction fails after squaring, what is left over is
        // literally the mirrored direction's success condition.
        assert((-e) * (-e) == e * e && 4 * ((-e) * (-e)) * p == 4 * (e * e) * p && 4 * ((-e) * (-e))
            * q == 4 * (e * e) * q) by (nonlinear_arith);
    }
}

} // verus!
