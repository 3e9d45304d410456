//! The open/closed frontier sets and the scans the step engine runs on them.
//!
//! Every membership test here uses coordinate-only equality ([`same_cell`]):
//! two snapshots of the same cell with different cost fields are the same
//! element as far as the frontier is concerned.

use vstd::prelude::*;

verus! {

use crate::node::{same_cell, f_le_spec, f_le, Node, COST_LIMIT};

/// The discovered-but-not-finalized frontier, in insertion order.
pub struct OpenSet {
    pub nodes: Vec<Node>,
}

/// The finalized (or pruned) nodes, in the order they were closed.
pub struct ClosedSet {
    pub nodes: Vec<Node>,
}

/// The start cell's snapshot, if one has been chosen.
pub struct Start {
    pub node: Option<Node>,
}

/// The goal cell's snapshot, if one has been chosen.
pub struct Goal {
    pub node: Option<Node>,
}

/// The most recently selected best-open node.
pub struct Current {
    pub node: Option<Node>,
}

/// Whether some snapshot in `s` occupies the same cell as `n`.
pub open spec fn has_cell(s: Seq<Node>, n: Node) -> bool {
    exists|i: int| 0 <= i < s.len() && same_cell(#[trigger] s[i], n)
}

/// Index of the first snapshot in `s` occupying the same cell as `n`, or -1.
pub open spec fn first_cell_index(s: Seq<Node>, n: Node) -> int
    decreases s.len(),
{
    if s.len() == 0 {
        -1
    } else if same_cell(s[0], n) {
        0
    } else {
        let r = first_cell_index(s.drop_first(), n);
        if r < 0 {
            -1
        } else {
            r + 1
        }
    }
}

/// `first_cell_index` finds the earliest coordinate match when one exists,
/// and -1 exactly when none does.
pub proof fn lemma_first_cell_index(s: Seq<Node>, n: Node)
    ensures
        -1 <= first_cell_index(s, n) < s.len(),
        first_cell_index(s, n) >= 0 ==> same_cell(s[first_cell_index(s, n)], n),
        forall|j: int|
            0 <= j < s.len() && same_cell(#[trigger] s[j], n) ==> 0 <= first_cell_index(s, n)
                <= j,
        first_cell_index(s, n) == -1 ==> !has_cell(s, n),
    decreases s.len(),
{
    if s.len() == 0 {
    } else if same_cell(s[0], n) {
    } else {
        let rest = s.drop_first();
        lemma_first_cell_index(rest, n);
        assert(forall|k: int| 0 <= k < rest.len() ==> #[trigger] rest[k] == s[k + 1]);
        if first_cell_index(rest, n) >= 0 {
            assert forall|j: int|
                0 <= j < s.len() && same_cell(#[trigger] s[j], n) implies 0 <= first_cell_index(
                s,
                n,
            ) <= j by {
                assert(j >= 1);
                assert(same_cell(rest[j - 1], n));
            }
        } else {
            assert forall|j: int|
                0 <= j < s.len() implies !same_cell(#[trigger] s[j], n) by {
                if j >= 1 {
                    assert(rest[j - 1] == s[j]);
                }
            }
        }
    }
}

/// Coordinate-only membership ignores cost fields entirely: snapshots of one
/// cell with different costs are interchangeable in every frontier lookup.
pub proof fn lemma_membership_coordinate_only(s: Seq<Node>, a: Node, b: Node)
    requires
        same_cell(a, b),
    ensures
        has_cell(s, a) == has_cell(s, b),
        first_cell_index(s, a) == first_cell_index(s, b),
    decreases s.len(),
{
    if s.len() > 0 {
        lemma_membership_coordinate_only(s.drop_first(), a, b);
    }
}

/// First index of a coordinate match, scanning left to right.
pub fn find_same_cell(nodes: &Vec<Node>, n: Node) -> (r: Option<usize>)
    ensures
        match r {
            Some(i) => i == first_cell_index(nodes@, n) && i < nodes@.len() && same_cell(
                nodes@[i as int],
                n,
            ),
            None => first_cell_index(nodes@, n) == -1 && !has_cell(nodes@, n),
        },
{
    proof {
        lemma_first_cell_index(nodes@, n);
    }
    let mut i: usize = 0;
    while i < nodes.len()
        invariant
            i <= nodes@.len(),
            forall|j: int| 0 <= j < i ==> !same_cell(#[trigger] nodes@[j], n),
            -1 <= first_cell_index(nodes@, n) < nodes@.len(),
            first_cell_index(nodes@, n) >= 0 ==> same_cell(nodes@[first_cell_index(nodes@, n)], n),
            forall|j: int|
                0 <= j < nodes@.len() && same_cell(#[trigger] nodes@[j], n) ==> 0
                    <= first_cell_index(nodes@, n) <= j,
        decreases nodes@.len() - i,
    {
        if nodes[i].x == n.x && nodes[i].y == n.y {
            return Some(i);
        }
        i += 1;
    }
    None
}

/// Whether any entry occupies the same cell as `n`.
pub fn contains_cell(nodes: &Vec<Node>, n: Node) -> (r: bool)
    ensures
        r == has_cell(nodes@, n),
{
    let mut i: usize = 0;
    while i < nodes.len()
        invariant
            i <= nodes@.len(),
            forall|j: int| 0 <= j < i ==> !same_cell(#[trigger] nodes@[j], n),
        decreases nodes@.len() - i,
    {
        if nodes[i].x == n.x && nodes[i].y == n.y {
            return true;
        }
        i += 1;
    }
    false
}

/// Index the best-open scan has tracked after looking at the first `k`
/// entries: the scan keeps the latest entry whose priority is less than or
/// equal to the tracked one, so ties resolve to the highest index.
pub open spec fn scan_best(s: Seq<Node>, k: int) -> int
    decreases k,
{
    if k <= 1 {
        0
    } else if f_le_spec(s[k - 1], s[scan_best(s, k - 1)]) {
        k - 1
    } else {
        scan_best(s, k - 1)
    }
}

/// The tracked index stays inside the scanned prefix.
pub proof fn lemma_scan_best_in_range(s: Seq<Node>, k: int)
    requires
        k >= 1,
    ensures
        0 <= scan_best(s, k) < k,
    decreases k,
{
    if k > 1 {
        lemma_scan_best_in_range(s, k - 1);
    }
}

/// Costs small enough for the exact priority comparison.
pub open spec fn cost_ok(n: Node) -> bool {
    n.g <= COST_LIMIT && n.hsq <= COST_LIMIT
}

/// Selects the node the step engine expands next: the scan tracks the
/// lowest-priority node seen so far, and an entry equal to the tracked best
/// replaces it, so among ties the last one scanned wins.
pub fn find_best_open(nodes: &Vec<Node>) -> (r: usize)
    requires
        nodes@.len() >= 1,
        forall|i: int| 0 <= i < nodes@.len() ==> cost_ok(#[trigger] nodes@[i]),
    ensures
        r < nodes@.len(),
        r == scan_best(nodes@, nodes@.len() as int),
{
    let mut best: usize = 0;
    let mut i: usize = 1;
    while i < nodes.len()
        invariant
            1 <= i <= nodes@.len(),
            best < i,
            best == scan_best(nodes@, i as int),
            forall|j: int| 0 <= j < nodes@.len() ==> cost_ok(#[trigger] nodes@[j]),
        decreases nodes@.len() - i,
    {
        let a = nodes[i];
        let b = nodes[best];
        if f_le(&a, &b) {
            best = i;
        }
        i += 1;
    }
    best
}

/// A sequence of pairwise distinct in-bounds cells cannot outgrow the grid:
/// encoding each cell as `x * h + y` maps it injectively into `[0, w * h)`.
pub proof fn lemma_distinct_cells_bounded(s: Seq<Node>, w: int, h: int)
    requires
        1 <= w,
        1 <= h,
        forall|i: int| 0 <= i < s.len() ==> (#[trigger] s[i]).x < w && s[i].y < h,
        forall|i: int, j: int| 0 <= i < j < s.len() ==> !same_cell(#[trigger] s[i], #[trigger] s[j]),
    ensures
        s.len() <= w * h,
{
    broadcast use vstd::set::group_set_axioms;
    broadcast use vstd::seq_lib::group_seq_properties;

    let t = Seq::new(s.len(), |i: int| s[i].x * h + s[i].y);
    assert forall|i: int, j: int| 0 <= i < j < t.len() implies t[i] != t[j] by {
        lemma_cell_encoding_injective(s[i].x as int, s[i].y as int, s[j].x as int, s[j].y as int, h);
    }
    assert(t.no_duplicates());
    t.unique_seq_to_set();
    assert forall|e: int| t.to_set().contains(e) implies vstd::set_lib::set_int_range(
        0,
        w * h,
    ).contains(e) by {
        let i = choose|i: int| 0 <= i < t.len() && t[i] == e;
        lemma_cell_encoding_in_range(s[i].x as int, s[i].y as int, w, h);
    }
    assert(t.to_set().subset_of(vstd::set_lib::set_int_range(0, w * h)));
    vstd::set_lib::lemma_int_range(0, w * h);
    vstd::set_lib::lemma_len_subset(t.to_set(), vstd::set_lib::set_int_range(0, w * h));
}

/// Two in-range cells with one encoding are one cell.
proof fn lemma_cell_encoding_injective(x1: int, y1: int, x2: int, y2: int, h: int)
    by (nonlinear_arith)
    requires
        0 <= y1 < h,
        0 <= y2 < h,
    ensures
        x1 * h + y1 == x2 * h + y2 ==> x1 == x2 && y1 == y2,
{
}

/// The encoding of an in-bounds cell lies in `[0, w * h)`.
proof fn lemma_cell_encoding_in_range(x: int, y: int, w: int, h: int)
    by (nonlinear_arith)
    requires
        0 <= x < w,
        0 <= y < h,
    ensures
        0 <= x * h + y < w * h,
{
}

} // verus!
