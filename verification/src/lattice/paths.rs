use vstd::prelude::*;

use crate::lattice::grid::{Cell, GridView};

verus! {

pub proof fn lemma_connected_refl(g: GridView, a: Cell)
    requires
        g.is_open(a),
    ensures
        g.connected(a, a),
{
    let p = seq![a];
    assert(g.is_path(p));
}

pub proof fn lemma_connected_step(g: GridView, a: Cell, b: Cell)
    requires
        g.is_open(a),
        g.is_open(b),
        g.adjacent(a, b),
    ensures
        g.connected(a, b),
{
    let p = seq![a, b];
    assert(g.is_path(p));
}

pub proof fn lemma_adjacent_symmetric(g: GridView, a: Cell, b: Cell)
    requires
        g.adjacent(a, b),
    ensures
        g.adjacent(b, a),
{
}

pub proof fn lemma_connected_symmetric(g: GridView, a: Cell, b: Cell)
    requires
        g.connected(a, b),
    ensures
        g.connected(b, a),
{
    let p = choose|p: Seq<Cell>| g.is_path(p) && p[0] == a && p.last() == b;
    let r = p.reverse();
    assert forall|t: int| 0 <= t < r.len() - 1 implies #[trigger] g.adjacent(r[t], r[t + 1]) by {
        let s = p.len() - 2 - t;
        assert(g.adjacent(p[s], p[s + 1]));
        lemma_adjacent_symmetric(g, p[s], p[s + 1]);
    }
    assert forall|t: int| 0 <= t < r.len() implies #[trigger] g.is_open(r[t]) by {
        assert(g.is_open(p[p.len() - 1 - t]));
    }
    assert(g.is_path(r));
}

pub proof fn lemma_connected_trans(g: GridView, a: Cell, b: Cell, c: Cell)
    requires
        g.connected(a, b),
        g.connected(b, c),
    ensures
        g.connected(a, c),
{
    let p = choose|p: Seq<Cell>| g.is_path(p) && p[0] == a && p.last() == b;
    let q = choose|q: Seq<Cell>| g.is_path(q) && q[0] == b && q.last() == c;
    let r = p + q.drop_first();
    assert forall|t: int| 0 <= t < r.len() implies #[trigger] g.is_open(r[t]) by {
        if t < p.len() {
            assert(g.is_open(p[t]));
        } else {
            assert(g.is_open(q[t - p.len() + 1]));
        }
    }
    assert forall|t: int| 0 <= t < r.len() - 1 implies #[trigger] g.adjacent(r[t], r[t + 1]) by {
        if t < p.len() - 1 {
            assert(g.adjacent(p[t], p[t + 1]));
        } else if t == p.len() - 1 {
            assert(q.len() >= 2);
            assert(r[t] == q[0]);
            assert(r[t + 1] == q[1]);
            assert(g.adjacent(q[0], q[0int + 1]));
        } else {
            let s = t - p.len() + 1;
            assert(g.adjacent(q[s], q[s + 1]));
        }
    }
    assert(g.is_path(r));
    if q.len() == 1 {
        assert(r.last() == p.last());
    } else {
        assert(r.last() == q.last());
    }
}

/// Connectivity depends on which cells are open, not on their labels.
pub proof fn lemma_connected_same_openness(g: GridView, h: GridView, a: Cell, b: Cell)
    requires
        g.connected(a, b),
        g.x_len == h.x_len,
        g.y_len == h.y_len,
        g.z_len == h.z_len,
        forall|c: Cell| g.is_open(c) <==> h.is_open(c),
    ensures
        h.connected(a, b),
{
    let p = choose|p: Seq<Cell>| g.is_path(p) && p[0] == a && p.last() == b;
    assert forall|t: int| 0 <= t < p.len() implies #[trigger] h.is_open(p[t]) by {
        assert(g.is_open(p[t]));
    }
    assert forall|t: int| 0 <= t < p.len() - 1 implies #[trigger] h.adjacent(p[t], p[t + 1]) by {
        assert(g.adjacent(p[t], p[t + 1]));
    }
    assert(h.is_path(p));
}

/// Membership in the listed backward neighbours is [`GridView::is_backward_neighbor`].
pub proof fn lemma_nearest_neighbors_contains(g: GridView, c: Cell, d: Cell)
    ensures
        g.nearest_neighbors(c).contains(d) <==> g.is_backward_neighbor(c, d),
{
    let (i, j, k) = c;
    let s0: Seq<Cell> = if k > 0 { seq![(i, j, (k - 1) as usize)] } else { Seq::empty() };
    let s1: Seq<Cell> = if j > 0 { seq![(i, (j - 1) as usize, k)] } else { Seq::empty() };
    let s2: Seq<Cell> = if i > 0 { seq![((i - 1) as usize, j, k)] } else { Seq::empty() };
    let s3: Seq<Cell> = if k + 1 == g.z_len { seq![(i, j, 0usize)] } else { Seq::empty() };
    let s4: Seq<Cell> = if j + 1 == g.y_len { seq![(i, 0usize, k)] } else { Seq::empty() };
    let s5: Seq<Cell> = if i + 1 == g.x_len { seq![(0usize, j, k)] } else { Seq::empty() };
    let all = s0 + s1 + s2 + s3 + s4 + s5;
    assert(g.nearest_neighbors(c) == all);
    assert forall|e: Cell| (s0 + s1).contains(e) <==> (s0.contains(e) || s1.contains(e)) by {
        vstd::seq_lib::lemma_seq_concat_contains_all_elements(s0, s1, e);
    }
    broadcast use vstd::seq_lib::group_seq_properties;
    assert(all.contains(d) <==> (s0.contains(d) || s1.contains(d) || s2.contains(d)
        || s3.contains(d) || s4.contains(d) || s5.contains(d)));
}

/// A backward neighbour of an in-bounds cell is in bounds, stored before it, and
/// adjacent to it.
pub proof fn lemma_backward_neighbor_props(g: GridView, c: Cell, d: Cell)
    requires
        g.dims_at_least_two(),
        g.in_bounds(c),
        g.is_backward_neighbor(c, d),
    ensures
        g.in_bounds(d),
        g.flat(d) < g.flat(c),
        g.adjacent(c, d),
{
    let x = g.x_len;
    let y = g.y_len;
    let (i, j, k) = c;
    if k > 0 && d == (i, j, (k - 1) as usize) {
        let k1 = (k - 1) as usize;
        assert(k * x * y == k1 * x * y + x * y) by (nonlinear_arith)
            requires
                k1 == k - 1,
        ;
        assert(x * y > 0) by (nonlinear_arith)
            requires
                x >= 2,
                y >= 2,
        ;
        assert(g.flat(d) == k1 * x * y + j * x + i);
    } else if j > 0 && d == (i, (j - 1) as usize, k) {
        let j1 = (j - 1) as usize;
        assert(j * x == j1 * x + x) by (nonlinear_arith)
            requires
                j1 == j - 1,
        ;
        assert(g.flat(d) == k * x * y + j1 * x + i);
    } else if i > 0 && d == ((i - 1) as usize, j, k) {
    } else if k + 1 == g.z_len && d == (i, j, 0usize) {
        assert(k * x * y > 0) by (nonlinear_arith)
            requires
                x >= 2,
                y >= 2,
                k >= 1,
        ;
        assert(0 * x * y == 0) by (nonlinear_arith);
        assert(g.flat(d) == j * x + i);
    } else if j + 1 == g.y_len && d == (i, 0usize, k) {
        assert(j * x > 0) by (nonlinear_arith)
            requires
                x >= 2,
                j >= 1,
        ;
        assert(0 * x == 0) by (nonlinear_arith);
        assert(g.flat(d) == k * x * y + i);
    } else {
        assert(g.flat(d) == k * x * y + j * x);
    }
}

/// Adjacent cells are backward neighbours of one another in one direction.
pub proof fn lemma_adjacent_is_backward_neighbor(g: GridView, a: Cell, b: Cell)
    requires
        g.adjacent(a, b),
    ensures
        g.is_backward_neighbor(a, b) || g.is_backward_neighbor(b, a),
{
}

} // verus!
