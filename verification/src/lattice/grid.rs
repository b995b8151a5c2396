use std::collections::HashMap;
use vstd::prelude::*;
use vstd::string::StringExecFns;

use crate::lattice::cluster::Cluster;
use crate::lattice::{admits, Lattice, LatticeView, ProbeType};
use crate::lattice::index::{
    cell_of_index, flat_index, in_block, lemma_cell_of_flat_index, lemma_cell_of_index,
    lemma_flat_index_bounds, lemma_flat_index_parts, lemma_next_cell, next_cell,
};
use crate::lattice::paths::{
    lemma_backward_neighbor_props, lemma_connected_refl, lemma_connected_same_openness,
    lemma_nearest_neighbors_contains,
};
use crate::lattice::percolation::{
    closed_under_links, has_origin, label_origin, labels_connected, labels_from_starts, labels_of,
    lemma_flat_eq, lemma_in_bounds_flat, lemma_labels_from_starts_step,
    lemma_merge_registry, lemma_path_same_label, lemma_percolate_step, lemma_register_cell,
    registry_exact, registry_ok, relabel, same_openness, same_shape, visited,
};

verus! {

/// A cell of a grid, addressed as `(i, j, k)`.
pub type Cell = (usize, usize, usize);

/// Whether `a` and `b` are neighbours along a periodic axis of length `n`.
pub open spec fn periodic_step(a: usize, b: usize, n: nat) -> bool {
    ||| a + 1 == b
    ||| b + 1 == a
    ||| (a + 1 == n && b == 0)
    ||| (b + 1 == n && a == 0)
}

/// `acc` tracks the running total `running` up to the point where it passes `len`.
pub open spec fn tracks_total(acc: u128, running: nat, len: nat) -> bool {
    (running <= len ==> acc == running) && (running > len ==> acc > len)
}

/// Adds `add` to a running total kept by [`tracks_total`].
fn add_to_total(acc: u128, add: usize, len: usize, Ghost(running): Ghost<nat>) -> (r: u128)
    requires
        tracks_total(acc, running, len as nat),
        add <= len,
    ensures
        tracks_total(r, (running + add) as nat, len as nat),
{
    if acc <= len as u128 {
        acc + add as u128
    } else {
        acc
    }
}

/// Position `q` of grid `g` is the position of some cubelet among the first `p` of
/// `lat` that admits `probe`.
pub open spec fn marked<F>(lat: LatticeView<F>, probe: Option<ProbeType>, g: GridView, p: int, q: int) -> bool {
    exists|c: Cell|
        #![trigger g.flat(c), lat.flat(c)]
        lat.in_bounds(c) && lat.flat(c) < p && admits(probe, lat.at(c)) && g.flat(c) == q
}

/// The mathematical content of a [`Grid`]: one cluster label per cell (0 marks a closed
/// cell), the registry of cells per cluster label, and the three side lengths.
pub struct GridView {
    pub labels: Seq<u32>,
    pub clusters: Map<u32, Seq<Cell>>,
    pub x_len: nat,
    pub y_len: nat,
    pub z_len: nat,
}

impl GridView {
    pub open spec fn wf(self) -> bool {
        self.labels.len() == self.x_len * self.y_len * self.z_len
    }

    pub open spec fn flat(self, c: Cell) -> int {
        flat_index(self.x_len, self.y_len, c)
    }

    pub open spec fn in_bounds(self, c: Cell) -> bool {
        in_block(self.x_len, self.y_len, self.z_len, c)
    }

    pub open spec fn label(self, c: Cell) -> u32 {
        self.labels[self.flat(c)]
    }

    /// A cell is open (may be part of a cluster) when its label is not 0.
    pub open spec fn is_open(self, c: Cell) -> bool {
        self.in_bounds(c) && self.label(c) != 0
    }

    pub open spec fn dims_at_least_two(self) -> bool {
        self.x_len >= 2 && self.y_len >= 2 && self.z_len >= 2
    }

    /// The neighbours of `c` that come before it in storage order, including the
    /// periodic images across the faces, in the order in which they are listed.
    pub open spec fn nearest_neighbors(self, c: Cell) -> Seq<Cell> {
        let (i, j, k) = c;
        (if k > 0 { seq![(i, j, (k - 1) as usize)] } else { Seq::empty() })
            + (if j > 0 { seq![(i, (j - 1) as usize, k)] } else { Seq::empty() })
            + (if i > 0 { seq![((i - 1) as usize, j, k)] } else { Seq::empty() })
            + (if k + 1 == self.z_len { seq![(i, j, 0usize)] } else { Seq::empty() })
            + (if j + 1 == self.y_len { seq![(i, 0usize, k)] } else { Seq::empty() })
            + (if i + 1 == self.x_len { seq![(0usize, j, k)] } else { Seq::empty() })
    }

    /// Membership in [`GridView::nearest_neighbors`], spelled out.
    pub open spec fn is_backward_neighbor(self, c: Cell, d: Cell) -> bool {
        let (i, j, k) = c;
        ||| (k > 0 && d == (i, j, (k - 1) as usize))
        ||| (j > 0 && d == (i, (j - 1) as usize, k))
        ||| (i > 0 && d == ((i - 1) as usize, j, k))
        ||| (k + 1 == self.z_len && d == (i, j, 0usize))
        ||| (j + 1 == self.y_len && d == (i, 0usize, k))
        ||| (i + 1 == self.x_len && d == (0usize, j, k))
    }

    /// The labelling pass starts a new cluster at `c`: it is open, and none of the
    /// neighbours listed before it is.
    pub open spec fn starts_cluster(self, c: Cell) -> bool {
        &&& self.is_open(c)
        &&& forall|d: Cell| #[trigger] self.is_backward_neighbor(c, d) ==> !self.is_open(d)
    }

    /// The cell stored at position `q`.
    pub open spec fn cell_at(self, q: int) -> Cell {
        let (i, j, k) = cell_of_index(self.x_len, self.y_len, q);
        (i as usize, j as usize, k as usize)
    }

    /// How many of the cells stored before position `p` start a cluster: the number
    /// of clusters the labelling pass has opened once it has passed them.
    pub open spec fn cluster_starts(self, p: nat) -> nat
        decreases p,
    {
        if p == 0 {
            0
        } else {
            self.cluster_starts((p - 1) as nat) + if self.starts_cluster(self.cell_at(p - 1)) {
                1nat
            } else {
                0nat
            }
        }
    }

    /// No cell is open.
    pub open spec fn all_closed(self) -> bool {
        forall|q: int| 0 <= q < self.labels.len() ==> #[trigger] self.labels[q] == 0
    }

    /// Face adjacency with periodic boundaries.
    pub open spec fn adjacent(self, a: Cell, b: Cell) -> bool {
        &&& self.in_bounds(a)
        &&& self.in_bounds(b)
        &&& {
            ||| (a.1 == b.1 && a.2 == b.2 && periodic_step(a.0, b.0, self.x_len))
            ||| (a.0 == b.0 && a.2 == b.2 && periodic_step(a.1, b.1, self.y_len))
            ||| (a.0 == b.0 && a.1 == b.1 && periodic_step(a.2, b.2, self.z_len))
        }
    }

    /// `p` is a walk through open cells, each step to an adjacent cell.
    pub open spec fn is_path(self, p: Seq<Cell>) -> bool {
        &&& p.len() >= 1
        &&& forall|t: int| 0 <= t < p.len() ==> #[trigger] self.is_open(p[t])
        &&& forall|t: int| 0 <= t < p.len() - 1 ==> #[trigger] self.adjacent(p[t], p[t + 1])
    }

    /// The coordinate of `c` along `axis` (0 for x, 1 for y, 2 for z).
    pub open spec fn coord(c: Cell, axis: int) -> int {
        if axis == 0 {
            c.0 as int
        } else if axis == 1 {
            c.1 as int
        } else {
            c.2 as int
        }
    }

    /// The side length along `axis`.
    pub open spec fn axis_len(self, axis: int) -> nat {
        if axis == 0 {
            self.x_len
        } else if axis == 1 {
            self.y_len
        } else {
            self.z_len
        }
    }

    /// The coordinate along which a slice perpendicular to `axis` is scanned in its
    /// outer loop: y for the z slices, z otherwise.
    pub open spec fn outer_coord(c: Cell, axis: int) -> int {
        if axis == 2 {
            c.1 as int
        } else {
            c.2 as int
        }
    }

    /// The coordinate scanned in the inner loop: y for the x slices, x otherwise.
    pub open spec fn inner_coord(c: Cell, axis: int) -> int {
        if axis == 0 {
            c.1 as int
        } else {
            c.0 as int
        }
    }

    /// Some cell of the slice `coord(c, axis) == s` carries label `l`.
    pub open spec fn slice_holds(self, l: u32, axis: int, s: int) -> bool {
        exists|c: Cell|
            #![trigger self.label(c)]
            self.in_bounds(c) && GridView::coord(c, axis) == s && self.label(c) == l
    }

    /// How many of the first `n` slices along `axis` hold a cell labelled `l`.
    pub open spec fn slices_holding(self, l: u32, axis: int, n: nat) -> nat
        decreases n,
    {
        if n == 0 {
            0
        } else {
            self.slices_holding(l, axis, (n - 1) as nat) + if self.slice_holds(l, axis, n - 1) {
                1nat
            } else {
                0nat
            }
        }
    }

    /// A registered cluster is examined for spanning when it has at least as many cells
    /// as some side length.
    pub open spec fn is_large(self, l: u32) -> bool {
        let n = self.clusters[l].len();
        n >= self.z_len || n >= self.y_len || n >= self.x_len
    }

    /// Running total, over the first `n` clusters of `order` that are large, of the
    /// slices along `axis` that each of them holds.
    pub open spec fn span_total(self, order: Seq<u32>, axis: int, n: nat) -> nat
        decreases n,
    {
        if n == 0 {
            0
        } else {
            self.span_total(order, axis, (n - 1) as nat) + if self.is_large(order[n - 1]) {
                self.slices_holding(order[n - 1], axis, self.axis_len(axis))
            } else {
                0nat
            }
        }
    }

    /// Walking the clusters in `order`, right after some large cluster the running
    /// total along `axis` equals the side length.
    pub open spec fn spans_along(self, order: Seq<u32>, axis: int) -> bool {
        exists|n: int|
            1 <= n <= order.len() && self.is_large(order[n - 1]) && #[trigger] self.span_total(
                order,
                axis,
                n as nat,
            ) == self.axis_len(axis)
    }

    /// The number of axes along which [`GridView::spans_along`] holds.
    pub open spec fn spanned_axes(self, order: Seq<u32>) -> nat {
        (if self.spans_along(order, 0) {
            1nat
        } else {
            0nat
        }) + (if self.spans_along(order, 1) {
            1nat
        } else {
            0nat
        }) + (if self.spans_along(order, 2) {
            1nat
        } else {
            0nat
        })
    }

    /// The outcome of the spanning test when the clusters are visited in `order`.
    pub open spec fn span_result(self, order: Seq<u32>) -> Option<SpanDimensions> {
        let d = self.spanned_axes(order);
        if d == 0 {
            None
        } else if d == 1 {
            Some(SpanDimensions::One)
        } else if d == 2 {
            Some(SpanDimensions::Two)
        } else {
            Some(SpanDimensions::Three)
        }
    }

    /// `a` and `b` are joined by a walk through open cells.
    pub open spec fn connected(self, a: Cell, b: Cell) -> bool {
        exists|p: Seq<Cell>| #[trigger] self.is_path(p) && p[0] == a && p.last() == b
    }

    /// `m` is the first cell, in storage order, joined to `a` by a walk through open
    /// cells.
    pub open spec fn first_connected(self, m: Cell, a: Cell) -> bool {
        &&& self.connected(m, a)
        &&& forall|b: Cell| #[trigger] self.connected(b, a) ==> self.flat(m) <= self.flat(b)
    }
}

/// Among the cells joined to `a`, one comes first in storage order.
proof fn lemma_first_connected_exists(g: GridView, a: Cell, b: Cell)
    requires
        g.connected(b, a),
    ensures
        exists|m: Cell| g.first_connected(m, a),
    decreases g.flat(b),
{
    let path = choose|q: Seq<Cell>| g.is_path(q) && q[0] == b && q.last() == a;
    assert(g.is_open(path[0]));
    lemma_flat_index_bounds(g.x_len, g.y_len, g.z_len, b);
    if exists|b2: Cell| #[trigger] g.connected(b2, a) && g.flat(b2) < g.flat(b) {
        let b2 = choose|b2: Cell| #[trigger] g.connected(b2, a) && g.flat(b2) < g.flat(b);
        let path2 = choose|q: Seq<Cell>| g.is_path(q) && q[0] == b2 && q.last() == a;
        assert(g.is_open(path2[0]));
        lemma_flat_index_bounds(g.x_len, g.y_len, g.z_len, b2);
        lemma_first_connected_exists(g, a, b2);
    } else {
        assert(g.first_connected(b, a));
    }
}

/// At most one cluster starts per cell.
pub proof fn lemma_cluster_starts_at_most(g: GridView, p: nat)
    ensures
        g.cluster_starts(p) <= p,
    decreases p,
{
    if p > 0 {
        lemma_cluster_starts_at_most(g, (p - 1) as nat);
    }
}

/// The count of cluster starts never falls as the pass moves on.
pub proof fn lemma_cluster_starts_grow(g: GridView, p: nat, n: nat)
    requires
        p <= n,
    ensures
        g.cluster_starts(p) <= g.cluster_starts(n),
    decreases n - p,
{
    if p < n {
        lemma_cluster_starts_grow(g, p, (n - 1) as nat);
    }
}

/// When every one of the first `n` slices along `axis` holds a cell labelled `l`, all
/// `n` of them are counted.
proof fn lemma_all_slices_held(g: GridView, l: u32, axis: int, n: nat)
    requires
        forall|s: int| 0 <= s < n ==> #[trigger] g.slice_holds(l, axis, s),
    ensures
        g.slices_holding(l, axis, n) == n,
    decreases n,
{
    if n > 0 {
        assert(g.slice_holds(l, axis, n - 1));
        lemma_all_slices_held(g, l, axis, (n - 1) as nat);
    }
}

/// A grid whose registry holds a single cluster, listing once each exactly the cells
/// that carry its label, is found to span (in [`Grid::span`], whatever order the
/// registry gives) whenever that cluster has a cell in every slice across some axis:
/// such a cluster has at least as many cells as that side, so it is examined, and it
/// meets every slice.
pub proof fn law_single_cluster_spans(g: GridView, l: u32, axis: int, order: Seq<u32>)
    requires
        g.wf(),
        0 <= axis <= 2,
        g.clusters.dom() == set![l],
        g.clusters[l].no_duplicates(),
        forall|c: Cell| #[trigger] g.clusters[l].contains(c) <==> (g.in_bounds(c) && g.label(c) == l),
        forall|s: int| 0 <= s < g.axis_len(axis) ==> #[trigger] g.slice_holds(l, axis, s),
        order.no_duplicates(),
        order.to_set() == g.clusters.dom(),
    ensures
        g.span_result(order) is Some,
{
    broadcast use vstd::set::group_set_axioms;

    let len = g.axis_len(axis);
    // The registry gives the single label.
    order.unique_seq_to_set();
    assert(set![l].len() == 1);
    assert(order.len() == 1);
    assert(order.to_set().contains(order[0]));
    assert(order[0] == l);
    // One cell per slice, all distinct and all registered.
    let cells = Seq::new(len, |s: int| choose|c: Cell|
        #[trigger] g.label(c) == l && g.in_bounds(c) && GridView::coord(c, axis) == s);
    assert forall|s: int| 0 <= s < len implies #[trigger] g.label(cells[s]) == l && g.in_bounds(cells[s])
        && GridView::coord(cells[s], axis) == s by {
        assert(g.slice_holds(l, axis, s));
    }
    assert(cells.no_duplicates()) by {
        assert forall|a: int, b: int| 0 <= a < cells.len() && 0 <= b < cells.len() && a != b implies cells[a]
            != cells[b] by {
            assert(g.label(cells[a]) == l);
            assert(g.label(cells[b]) == l);
        }
    }
    let list = g.clusters[l];
    assert(cells.to_set().subset_of(list.to_set())) by {
        assert forall|c: Cell| #[trigger] cells.to_set().contains(c) implies list.to_set().contains(c) by {
            assert(cells.contains(c));
            let s = choose|s: int| 0 <= s < cells.len() && cells[s] == c;
            assert(g.label(cells[s]) == l);
            assert(list.contains(c));
        }
    }
    vstd::seq_lib::seq_to_set_is_finite(list);
    vstd::set_lib::lemma_len_subset(cells.to_set(), list.to_set());
    cells.unique_seq_to_set();
    list.unique_seq_to_set();
    assert(list.len() >= len);
    assert(g.is_large(l));
    lemma_all_slices_held(g, l, axis, len);
    assert(g.span_total(order, axis, 0) == 0);
    assert(g.span_total(order, axis, 1) == len);
    let one: int = 1;
    assert(1 <= one <= order.len() && g.is_large(order[one - 1]) && g.span_total(order, axis, one as nat)
        == g.axis_len(axis));
    assert(g.spans_along(order, axis));
    if axis == 0 {
        assert(g.spans_along(order, 0));
    } else if axis == 1 {
        assert(g.spans_along(order, 1));
    } else {
        assert(g.spans_along(order, 2));
    }
}

/// A grid without clusters, as [`Grid::new`] and [`Grid::clear`] leave it, spans in no
/// direction: [`Grid::span`] gives `None`, in whatever order it visits the clusters.
pub proof fn law_no_clusters_no_span(g: GridView, order: Seq<u32>)
    requires
        g.clusters == Map::<u32, Seq<Cell>>::empty(),
        order.to_set() == g.clusters.dom(),
    ensures
        g.span_result(order) == None::<SpanDimensions>,
{
    if order.len() > 0 {
        assert(order.to_set().contains(order[0]));
    }
}

/// In how many directions a cluster of the grid spans it.
#[derive(PartialEq, Eq, Structural, Debug, Clone, Copy)]
pub enum SpanDimensions {
    One,
    Two,
    Three,
}

impl SpanDimensions {
    /// The spanning count from a count of spanned directions between 1 and 3.
    pub fn from_count(value: u8) -> (d: Self)
        requires
            1 <= value <= 3,
        ensures
            d == (if value == 1 {
                SpanDimensions::One
            } else if value == 2 {
                SpanDimensions::Two
            } else {
                SpanDimensions::Three
            }),
    {
        if value == 1 {
            SpanDimensions::One
        } else if value == 2 {
            SpanDimensions::Two
        } else {
            SpanDimensions::Three
        }
    }

    /// The number of spanned directions as a decimal digit.
    pub fn to_string(self) -> (s: String)
        ensures
            s@ == match self {
                SpanDimensions::One => seq!['1'],
                SpanDimensions::Two => seq!['2'],
                SpanDimensions::Three => seq!['3'],
            },
    {
        let digit = match self {
            SpanDimensions::One => "1",
            SpanDimensions::Two => "2",
            SpanDimensions::Three => "3",
        };
        proof {
            reveal_strlit("1");
            reveal_strlit("2");
            reveal_strlit("3");
        }
        String::from_str(digit)
    }
}

/// A grid of cluster labels over the cells of a lattice, with a registry that lists
/// the cells of each cluster.
pub struct Grid {
    labels: Vec<u32>,
    clusters: HashMap<u32, Vec<Cell>>,
    x_len: usize,
    y_len: usize,
    z_len: usize,
}

impl View for Grid {
    type V = GridView;

    closed spec fn view(&self) -> GridView {
        GridView {
            labels: self.labels@,
            clusters: self.clusters@.map_values(|v: Vec<Cell>| v@),
            x_len: self.x_len as nat,
            y_len: self.y_len as nat,
            z_len: self.z_len as nat,
        }
    }
}

impl Grid {
    /// A grid of the given side lengths with every cell closed (label 0) and no clusters.
    pub fn new(x_len: usize, y_len: usize, z_len: usize) -> (g: Self)
        requires
            x_len * y_len <= usize::MAX,
            x_len * y_len * z_len <= usize::MAX,
        ensures
            g@.wf(),
            g@.x_len == x_len,
            g@.y_len == y_len,
            g@.z_len == z_len,
            g@.labels == Seq::new((x_len * y_len * z_len) as nat, |p: int| 0u32),
            g@.clusters == Map::<u32, Seq<Cell>>::empty(),
    {
        let labels = vec![0u32; x_len * y_len * z_len];
        let clusters = HashMap::new();
        let g = Self { labels, clusters, x_len, y_len, z_len };
        assert(g@.labels =~= Seq::new((x_len * y_len * z_len) as nat, |p: int| 0u32));
        assert(g@.clusters =~= Map::<u32, Seq<Cell>>::empty());
        g
    }

    /// Position of `ijk` in the label storage.
    fn flat(&self, ijk: Cell) -> (p: usize)
        requires
            self@.wf(),
            self@.flat(ijk) < self@.labels.len(),
        ensures
            p == self@.flat(ijk),
    {
        let (i, j, k) = ijk;
        proof {
            lemma_flat_index_parts(self@.x_len, self@.y_len, self@.z_len, ijk);
            assert(k * self.x_len <= k * self.x_len * self.y_len);
            assert(k * self.x_len * self.y_len + j * self.x_len + i < self.labels.len());
        }
        k * self.x_len * self.y_len + j * self.x_len + i
    }

    /// The label of cell `ijk`.
    pub fn get(&self, ijk: Cell) -> (c: Cluster)
        requires
            self@.wf(),
            self@.flat(ijk) < self@.labels.len(),
        ensures
            c.id() == self@.labels[self@.flat(ijk)],
    {
        let p = self.flat(ijk);
        Cluster(self.labels[p])
    }

    /// Gives cell `ijk` the label `c`; nothing else changes.
    pub fn set(&mut self, ijk: Cell, c: Cluster)
        requires
            old(self)@.wf(),
            old(self)@.flat(ijk) < old(self)@.labels.len(),
        ensures
            final(self)@ == (GridView {
                labels: old(self)@.labels.update(old(self)@.flat(ijk), c.id()),
                ..old(self)@
            }),
    {
        let p = self.flat(ijk);
        self.labels.set(p, c.0);
    }

    /// Closes every cell (label 0) and forgets every cluster.
    pub fn clear(&mut self)
        requires
            old(self)@.wf(),
        ensures
            final(self)@.wf(),
            final(self)@.x_len == old(self)@.x_len,
            final(self)@.y_len == old(self)@.y_len,
            final(self)@.z_len == old(self)@.z_len,
            final(self)@.labels == Seq::new(old(self)@.labels.len(), |p: int| 0u32),
            final(self)@.clusters == Map::<u32, Seq<Cell>>::empty(),
    {
        let n = self.labels.len();
        for p in 0..n
            invariant
                n == self.labels.len(),
                self@.x_len == old(self)@.x_len,
                self@.y_len == old(self)@.y_len,
                self@.z_len == old(self)@.z_len,
                n == old(self)@.labels.len(),
                forall|q: int| 0 <= q < p ==> self.labels@[q] == 0u32,
        {
            self.labels.set(p, 0);
        }
        self.clusters.clear();
        assert(self@.labels =~= Seq::new(old(self)@.labels.len(), |p: int| 0u32));
        assert(self@.clusters =~= Map::<u32, Seq<Cell>>::empty());
    }

    /// The cells that come before `(i, j, k)` in storage order and touch it across a
    /// face, with periodic images, listed as [`GridView::nearest_neighbors`] lists them.
    fn nearest_neighbors(&self, i: usize, j: usize, k: usize) -> (r: Vec<Cell>)
        requires
            self@.x_len >= 1,
            self@.y_len >= 1,
            self@.z_len >= 1,
        ensures
            r@ == self@.nearest_neighbors((i, j, k)),
    {
        let ghost g = self@;
        let mut neighbors: Vec<Cell> = Vec::new();
        let ghost s0: Seq<Cell> = if k > 0 { seq![(i, j, (k - 1) as usize)] } else { Seq::empty() };
        let ghost s1: Seq<Cell> = if j > 0 { seq![(i, (j - 1) as usize, k)] } else { Seq::empty() };
        let ghost s2: Seq<Cell> = if i > 0 { seq![((i - 1) as usize, j, k)] } else { Seq::empty() };
        let ghost s3: Seq<Cell> = if k + 1 == g.z_len { seq![(i, j, 0usize)] } else { Seq::empty() };
        let ghost s4: Seq<Cell> = if j + 1 == g.y_len { seq![(i, 0usize, k)] } else { Seq::empty() };
        let ghost s5: Seq<Cell> = if i + 1 == g.x_len { seq![(0usize, j, k)] } else { Seq::empty() };
        if k > 0 {
            neighbors.push((i, j, k - 1));
        }
        assert(neighbors@ =~= s0);
        if j > 0 {
            neighbors.push((i, j - 1, k));
        }
        assert(neighbors@ =~= s0 + s1);
        if i > 0 {
            neighbors.push((i - 1, j, k));
        }
        assert(neighbors@ =~= s0 + s1 + s2);
        if k == self.z_len - 1 {
            neighbors.push((i, j, 0));
        }
        assert(neighbors@ =~= s0 + s1 + s2 + s3);
        if j == self.y_len - 1 {
            neighbors.push((i, 0, k));
        }
        assert(neighbors@ =~= s0 + s1 + s2 + s3 + s4);
        if i == self.x_len - 1 {
            neighbors.push((0, j, k));
        }
        assert(neighbors@ =~= s0 + s1 + s2 + s3 + s4 + s5);
        neighbors
    }

    /// Opens (label 1) every cell whose cubelet in `lattice` admits `probe`, addressing
    /// the cell by this grid's side lengths; every other label stays.
    pub fn populate<F: Copy>(&mut self, lattice: &Lattice<F>, probe: Option<ProbeType>)
        requires
            old(self)@.wf(),
            lattice@.wf(),
            forall|c: Cell|
                #![trigger lattice@.at(c)]
                lattice@.in_bounds(c) && admits(probe, lattice@.at(c)) ==> old(self)@.flat(c)
                    < old(self)@.labels.len(),
        ensures
            final(self)@.x_len == old(self)@.x_len,
            final(self)@.y_len == old(self)@.y_len,
            final(self)@.z_len == old(self)@.z_len,
            final(self)@.clusters == old(self)@.clusters,
            final(self)@.labels.len() == old(self)@.labels.len(),
            forall|q: int|
                0 <= q < old(self)@.labels.len() ==> #[trigger] final(self)@.labels[q] == if marked(
                    lattice@,
                    probe,
                    old(self)@,
                    lattice@.cubelets.len() as int,
                    q,
                ) {
                    1u32
                } else {
                    old(self)@.labels[q]
                },
    {
        let ghost g0 = self@;
        let ghost lat = lattice@;
        let dims = lattice.dimensions();
        let lx = dims[0];
        let ly = dims[1];
        let n = lattice.cubelets().len();
        let mut i: usize = 0;
        let mut j: usize = 0;
        let mut k: usize = 0;
        let mut p: usize = 0;
        proof {
            if n > 0 {
                assert(0 * lat.x * lat.y == 0) by (nonlinear_arith);
                assert(lat.flat((0usize, 0usize, 0usize)) == 0);
                assert(lat.x > 0 && lat.y > 0 && lat.z > 0) by (nonlinear_arith)
                    requires
                        lat.x * lat.y * lat.z > 0,
                ;
            }
        }
        while p < n
            invariant
                n == lat.cubelets.len(),
                lat == lattice@,
                lat.wf(),
                lx == lat.x,
                ly == lat.y,
                g0.wf(),
                forall|c: Cell|
                    #![trigger lat.at(c)]
                    lat.in_bounds(c) && admits(probe, lat.at(c)) ==> g0.flat(c) < g0.labels.len(),
                self@.x_len == g0.x_len,
                self@.y_len == g0.y_len,
                self@.z_len == g0.z_len,
                self@.clusters == g0.clusters,
                self@.labels.len() == g0.labels.len(),
                p <= n,
                p < n ==> lat.in_bounds((i, j, k)) && lat.flat((i, j, k)) == p,
                forall|q: int|
                    0 <= q < g0.labels.len() ==> #[trigger] self@.labels[q] == if marked(lat, probe, g0, p as int, q) {
                        1u32
                    } else {
                        g0.labels[q]
                    },
            decreases n - p,
        {
            let c = (i, j, k);
            let open = match probe {
                Some(ProbeType::He) => lattice.is_helium_accessible(i, j, k),
                Some(ProbeType::N) => lattice.is_nitrogen_accessible(i, j, k),
                None => lattice.is_geom_accessible(i, j, k),
            };
            assert(open == admits(probe, lat.at(c)));
            let ghost before = self@;
            if open {
                self.set(c, Cluster(1));
            }
            proof {
                assert forall|q: int|
                    0 <= q < g0.labels.len() implies #[trigger] self@.labels[q] == if marked(lat, probe, g0, p + 1, q) {
                        1u32
                    } else {
                        g0.labels[q]
                    } by {
                    if open && q == g0.flat(c) {
                        assert(lat.in_bounds(c) && lat.flat(c) < p + 1 && admits(probe, lat.at(c)) && g0.flat(c) == q);
                    } else {
                        assert(self@.labels[q] == before.labels[q]);
                        if marked(lat, probe, g0, p + 1, q) {
                            let d = choose|d: Cell|
                                #![trigger g0.flat(d), lat.flat(d)]
                                lat.in_bounds(d) && lat.flat(d) < p + 1 && admits(probe, lat.at(d)) && g0.flat(d) == q;
                            if lat.flat(d) == p {
                                crate::lattice::index::lemma_flat_index_injective(lat.x, lat.y, lat.z, d, c);
                            }
                            assert(marked(lat, probe, g0, p as int, q));
                        }
                    }
                }
                crate::lattice::index::lemma_next_cell(lat.x, lat.y, lat.z, c);
            }
            p += 1;
            if i + 1 < lx {
                i += 1;
            } else {
                i = 0;
                if j + 1 < ly {
                    j += 1;
                } else {
                    j = 0;
                    k += 1;
                }
            }
        }
    }

    /// Labels every open cell with its cluster: two open cells end up with the same label
    /// exactly when a walk through open, face-adjacent cells (periodic in all three
    /// directions) joins them. Closed cells stay closed; the registry lists, once each,
    /// the cells of every label in use, keeps no label without cells, and keeps the
    /// entries it held before under other labels. Clusters are numbered 1, 2, ... in the
    /// order in which they start in the scan, and a merge keeps the smaller number, so a
    /// cell's label is one more than the number of clusters started before the first cell
    /// joined to it. Every side must be at least two cells
    /// long unless no cell is open, and at most `u32::MAX` clusters may be started (see
    /// [`GridView::cluster_starts`], counted by [`Grid::count_cluster_starts`]).
    pub fn percolate(&mut self)
        requires
            old(self)@.wf(),
            old(self)@.dims_at_least_two() || old(self)@.all_closed(),
            old(self)@.labels.len() <= u32::MAX || old(self)@.cluster_starts(old(self)@.labels.len())
                <= u32::MAX,
        ensures
            same_shape(old(self)@, final(self)@),
            forall|q: int|
                0 <= q < old(self)@.labels.len() ==> (#[trigger] final(self)@.labels[q] == 0) == (
                old(self)@.labels[q] == 0),
            forall|a: Cell, b: Cell|
                #![trigger final(self)@.connected(a, b)]
                final(self)@.is_open(a) && final(self)@.is_open(b) ==> (final(self)@.label(a)
                    == final(self)@.label(b) <==> final(self)@.connected(a, b)),
            exists|nc: u32|
                registry_ok(
                    final(self)@,
                    final(self)@.labels.len() as int,
                    nc,
                    old(self)@.clusters,
                ),
            forall|a: Cell|
                #![trigger final(self)@.is_open(a)]
                final(self)@.is_open(a) ==> exists|m: Cell| final(self)@.first_connected(m, a),
            forall|a: Cell, m: Cell|
                #![trigger final(self)@.first_connected(m, a)]
                final(self)@.is_open(a) && final(self)@.first_connected(m, a) ==> final(self)@.label(a)
                    == old(self)@.cluster_starts(final(self)@.flat(m) as nat) + 1,
    {
        broadcast use vstd::std_specs::hash::group_hash_axioms;

        let ghost g0 = self@;
        let n = self.labels.len();
        if self.x_len < 2 || self.y_len < 2 || self.z_len < 2 {
            proof {
                assert forall|c: Cell| !#[trigger] g0.is_open(c) by {
                    if g0.in_bounds(c) {
                        lemma_in_bounds_flat(g0, c);
                    }
                }
                assert(registry_ok(g0, n as int, 0, g0.clusters));
            }
            return;
        }
        proof {
            lemma_cluster_starts_at_most(g0, n as nat);
            assert forall|a: Cell| #[trigger] has_origin(g0, g0, 0, a) by {
                if g0.in_bounds(a) {
                    lemma_in_bounds_flat(g0, a);
                }
            }
        }
        let mut n_clusters: u32 = 0;
        let mut i: usize = 0;
        let mut j: usize = 0;
        let mut k: usize = 0;
        let mut p: usize = 0;
        proof {
            if n > 0 {
                assert(0 * self@.x_len * self@.y_len == 0) by (nonlinear_arith);
                assert(g0.flat((0usize, 0usize, 0usize)) == 0);
            }
        }
        while p < n
            invariant
                n == self@.labels.len(),
                n == g0.labels.len(),
                g0.cluster_starts(n as nat) <= u32::MAX,
                g0.wf(),
                g0.dims_at_least_two(),
                self@.wf(),
                same_shape(g0, self@),
                p <= n,
                n_clusters == g0.cluster_starts(p as nat),
                p < n ==> g0.in_bounds((i, j, k)) && g0.flat((i, j, k)) == p,
                same_openness(g0, self@),
                registry_ok(self@, p as int, n_clusters, g0.clusters),
                labels_from_starts(self@, g0, p as int),
                closed_under_links(self@, p as int),
                labels_connected(self@, g0, p as int),
            decreases n - p,
        {
            let ghost v = self@;
            let c = (i, j, k);
            proof {
                lemma_in_bounds_flat(v, c);
            }
            if self.labels[p] != 0 {
                assert(v.is_open(c));
                let nbrs = self.nearest_neighbors(i, j, k);
                let mut kept: Vec<Cell> = Vec::new();
                let nn = nbrs.len();
                for t in 0..nn
                    invariant
                        nn == nbrs@.len(),
                        nbrs@ == v.nearest_neighbors(c),
                        self@ == v,
                        v.wf(),
                        v.dims_at_least_two(),
                        v.in_bounds(c),
                        v.flat(c) == p,
                        forall|d: Cell|
                            #[trigger] kept@.contains(d) <==> (nbrs@.take(t as int).contains(d)
                                && v.is_open(d)),
                        forall|s: int| 0 <= s < kept@.len() ==> #[trigger] visited(v, p as int, kept@[s]),
                {
                    let q = nbrs[t];
                    proof {
                        assert(nbrs@.contains(q));
                        lemma_nearest_neighbors_contains(v, c, q);
                        lemma_backward_neighbor_props(v, c, q);
                        lemma_in_bounds_flat(v, q);
                    }
                    let ghost before = kept@;
                    let fq = self.flat(q);
                    if self.labels[fq] != 0 {
                        kept.push(q);
                    }
                    proof {
                        assert(nbrs@.take(t + 1) == nbrs@.take(t as int).push(q));
                        assert forall|d: Cell|
                            #[trigger] kept@.contains(d) <==> (nbrs@.take(t + 1).contains(d)
                                && v.is_open(d)) by {
                            vstd::seq_lib::lemma_seq_contains_after_push(nbrs@.take(t as int), q, d);
                            vstd::seq_lib::lemma_seq_contains_after_push(before, q, d);
                        }
                    }
                }
                assert(nbrs@.take(nn as int) == nbrs@);
                let ghost kept_cells = kept@;
                assert forall|d: Cell|
                    #[trigger] kept_cells.contains(d) <==> (v.is_backward_neighbor(c, d) && v.is_open(d)) by {
                    lemma_nearest_neighbors_contains(v, c, d);
                }
                let ghost nc = n_clusters;
                let ghost mut after_union = self@;
                proof {
                    lemma_cell_of_flat_index(g0.x_len, g0.y_len, g0.z_len, c);
                    assert(g0.cell_at(p as int) == c);
                    if kept_cells.len() == 0 {
                        assert forall|d: Cell| #[trigger] g0.is_backward_neighbor(c, d) implies !g0.is_open(d) by {
                            assert(!kept_cells.contains(d));
                            assert(v.is_backward_neighbor(c, d));
                        }
                        assert(g0.starts_cluster(c));
                        lemma_cluster_starts_grow(g0, (p + 1) as nat, n as nat);
                    } else {
                        let d = kept_cells[0];
                        assert(kept_cells.contains(d));
                        assert(g0.is_backward_neighbor(c, d) && g0.is_open(d));
                        assert(!g0.starts_cluster(c));
                    }
                }
                let cell: u32 = if kept.len() == 0 {
                    n_clusters += 1;
                    let mut members: Vec<Cell> = Vec::new();
                    members.push(c);
                    self.clusters.insert(n_clusters, members);
                    n_clusters
                } else {
                    let m = self.union(kept, Ghost(p as int), Ghost(n_clusters), Ghost(g0.clusters));
                    proof {
                        let s = labels_of(v, kept_cells);
                        let t0 = choose|t: int| 0 <= t < s.len() && s[t] == m;
                        assert(visited(v, p as int, kept_cells[t0]));
                        assert(self@.label(kept_cells[t0]) == relabel(v, p as int, s, m, kept_cells[t0]));
                        assert(visited(self@, p as int, kept_cells[t0]));
                    }
                    let ghost uu = self@;
                    proof {
                        after_union = uu;
                    }
                    let mut members = self.clusters.remove(&m).unwrap();
                    members.push(c);
                    self.clusters.insert(m, members);
                    proof {
                        let s = labels_of(v, kept_cells);
                        assert(self@.labels == uu.labels);
                        assert forall|d: Cell| #![trigger self@.label(d)] v.in_bounds(d) implies self@.label(
                            d,
                        ) == relabel(v, p as int, s, m, d) by {
                            assert(uu.label(d) == relabel(v, p as int, s, m, d));
                        }
                    }
                    m
                };
                let ghost u = self@;
                self.labels.set(p, cell);
                proof {
                    let w = self@;
                    let s = labels_of(v, kept_cells);
                    assert forall|d: Cell| #![trigger w.label(d)] v.in_bounds(d) && d != c implies w.label(d)
                        == relabel(v, p as int, s, cell, d) by {
                        lemma_flat_eq(v, d, c);
                        lemma_in_bounds_flat(v, d);
                        assert(w.label(d) == u.label(d));
                        if kept_cells.len() == 0 {
                            assert(u.labels == v.labels);
                            assert(s.len() == 0);
                            assert(!s.contains(v.label(d)));
                        } else {
                            assert(u.label(d) == relabel(v, p as int, s, cell, d));
                        }
                    }
                    assert forall|d: Cell| #![trigger v.is_open(d)] #![trigger w.is_open(d)]
                        v.is_open(d) <==> w.is_open(d) by {
                        if v.in_bounds(d) && d != c {
                            assert(w.label(d) == relabel(v, p as int, s, cell, d));
                            if visited(v, p as int, d) && s.contains(v.label(d)) {
                                if kept_cells.len() > 0 {
                                    let t = choose|t: int| 0 <= t < s.len() && s[t] == cell;
                                    assert(visited(v, p as int, kept_cells[t]));
                                }
                            }
                        }
                    }
                    if kept_cells.len() == 0 {
                        assert(u.labels == v.labels);
                        assert(w.clusters =~= v.clusters.insert(cell, seq![c])) by {
                            assert(seq![c] =~= Seq::<Cell>::empty().push(c));
                        }
                        lemma_register_cell(v, w, p as int, nc, n_clusters, g0.clusters, c, cell);
                        assert forall|d: Cell| #[trigger] visited(v, p as int, d) implies v.label(d) != cell by {
                        }
                    } else {
                        let t0 = choose|t: int| 0 <= t < s.len() && s[t] == cell;
                        assert(visited(v, p as int, kept_cells[t0]));
                        assert(u.label(kept_cells[t0]) == relabel(v, p as int, s, cell, kept_cells[t0]));
                        assert(visited(u, p as int, kept_cells[t0]));
                        assert(u.is_open(c)) by {
                            assert(u.label(c) == relabel(v, p as int, s, cell, c));
                        }
                        let au = after_union;
                        assert(au.labels == u.labels);
                        assert(visited(au, p as int, kept_cells[t0]));
                        assert(au.is_open(c));
                        assert(w.clusters =~= au.clusters.insert(cell, au.clusters[cell].push(c)));
                        assert forall|d: Cell| #![trigger w.label(d)] au.in_bounds(d) && d != c implies w.label(d)
                            == au.label(d) by {
                            lemma_flat_eq(v, d, c);
                        }
                        lemma_register_cell(au, w, p as int, nc, n_clusters, g0.clusters, c, cell);
                    }
                    lemma_percolate_step(g0, v, w, p as int, c, kept_cells, cell);
                    lemma_labels_from_starts_step(g0, v, w, p as int, c, kept_cells, cell);
                }
            } else {
                proof {
                    lemma_cell_of_flat_index(g0.x_len, g0.y_len, g0.z_len, c);
                    assert(g0.cell_at(p as int) == c);
                    assert(!g0.is_open(c));
                    assert forall|a: Cell| #[trigger] has_origin(v, g0, p + 1, a) by {
                        if visited(v, p + 1, a) {
                            lemma_flat_eq(v, a, c);
                            assert(has_origin(v, g0, p as int, a));
                            let r = choose|r: Cell| #[trigger] label_origin(v, g0, p as int, a, r);
                            assert(label_origin(v, g0, p + 1, a, r));
                        }
                    }
                    assert forall|d: Cell| #[trigger] visited(v, p + 1, d) <==> visited(v, p as int, d) by {
                        if v.in_bounds(d) {
                            lemma_flat_eq(v, d, c);
                        }
                    }
                    assert forall|l: u32|
                        #![trigger v.clusters.contains_key(l)]
                        1 <= l <= n_clusters && v.clusters.contains_key(l) implies registry_exact(v, p + 1, l) by {
                        assert(registry_exact(v, p as int, l));
                    }
                }
            }
            proof {
                lemma_next_cell(g0.x_len, g0.y_len, g0.z_len, c);
            }
            p += 1;
            if i + 1 < self.x_len {
                i += 1;
            } else {
                i = 0;
                if j + 1 < self.y_len {
                    j += 1;
                } else {
                    j = 0;
                    k += 1;
                }
            }
        }
        proof {
            let g = self@;
            assert forall|d: Cell| g.in_bounds(d) implies (#[trigger] visited(g, n as int, d) <==> g.is_open(d)) by {
                lemma_in_bounds_flat(g, d);
            }
            assert forall|a: Cell, b: Cell|
                #![trigger g.connected(a, b)]
                g.is_open(a) && g.is_open(b) implies (g.label(a) == g.label(b) <==> g.connected(a, b)) by {
                assert(visited(g, n as int, a) && visited(g, n as int, b));
                if g.label(a) == g.label(b) {
                    assert(g0.connected(a, b));
                    lemma_connected_same_openness(g0, g, a, b);
                }
                if g.connected(a, b) {
                    let path = choose|path: Seq<Cell>| g.is_path(path) && path[0] == a && path.last() == b;
                    lemma_path_same_label(g, path);
                    assert(g.label(path[path.len() - 1]) == g.label(path[0]));
                }
            }
            assert forall|a: Cell| #![trigger g.is_open(a)] g.is_open(a) implies exists|m: Cell|
                g.first_connected(m, a) by {
                lemma_connected_refl(g, a);
                lemma_first_connected_exists(g, a, a);
            }
            assert forall|a: Cell, m: Cell|
                #![trigger g.first_connected(m, a)]
                g.is_open(a) && g.first_connected(m, a) implies g.label(a) == g0.cluster_starts(
                g.flat(m) as nat,
            ) + 1 by {
                let path = choose|q: Seq<Cell>| g.is_path(q) && q[0] == m && q.last() == a;
                assert(g.is_open(path[0]));
                assert(g.label(m) == g.label(a));
                assert(visited(g, n as int, m));
                assert(has_origin(g, g0, n as int, m));
                let r = choose|r: Cell| #[trigger] label_origin(g, g0, n as int, m, r);
                assert(g.is_open(r));
                assert(g.connected(r, a));
                assert(g.flat(m) <= g.flat(r));
            }
            assert forall|q: int| 0 <= q < n implies (#[trigger] g.labels[q] == 0) == (g0.labels[q] == 0) by {
                lemma_cell_of_index(g0.x_len, g0.y_len, g0.z_len, q);
                let (ci, cj, ck) = cell_of_index(g0.x_len, g0.y_len, q);
                let d = (ci as usize, cj as usize, ck as usize);
                assert(g0.is_open(d) <==> g.is_open(d));
            }
        }
    }

    /// Whether some neighbour of `(i, j, k)` listed before it is open.
    fn has_open_backward_neighbor(&self, i: usize, j: usize, k: usize) -> (r: bool)
        requires
            self@.wf(),
            self@.dims_at_least_two(),
            self@.in_bounds((i, j, k)),
        ensures
            r <==> exists|d: Cell| #[trigger] self@.is_backward_neighbor((i, j, k), d) && self@.is_open(d),
    {
        let ghost g = self@;
        let c = (i, j, k);
        let nbrs = self.nearest_neighbors(i, j, k);
        let nn = nbrs.len();
        proof {
            assert forall|s: int| 0 <= s < nn implies #[trigger] g.is_backward_neighbor(c, nbrs@[s])
                && g.in_bounds(nbrs@[s]) && g.flat(nbrs@[s]) < g.labels.len() by {
                assert(nbrs@.contains(nbrs@[s]));
                lemma_nearest_neighbors_contains(g, c, nbrs@[s]);
                lemma_backward_neighbor_props(g, c, nbrs@[s]);
                lemma_in_bounds_flat(g, nbrs@[s]);
            }
        }
        let mut found = false;
        let mut t: usize = 0;
        while t < nn && !found
            invariant
                self@ == g,
                g.wf(),
                t <= nn,
                nn == nbrs@.len(),
                forall|s: int| 0 <= s < nn ==> #[trigger] g.is_backward_neighbor(c, nbrs@[s])
                    && g.in_bounds(nbrs@[s]) && g.flat(nbrs@[s]) < g.labels.len(),
                found ==> g.is_backward_neighbor(c, nbrs@[t - 1]) && g.is_open(nbrs@[t - 1]),
                !found ==> forall|s: int| 0 <= s < t ==> !g.is_open(#[trigger] nbrs@[s]),
            decreases nn - t,
        {
            let q = nbrs[t];
            assert(g.is_backward_neighbor(c, nbrs@[t as int]));
            let fq = self.flat(q);
            if self.labels[fq] != 0 {
                found = true;
            }
            t += 1;
        }
        proof {
            if found {
                let d = nbrs@[t - 1];
                assert(g.is_backward_neighbor(c, d) && g.is_open(d));
            } else {
                assert forall|d: Cell| #[trigger] g.is_backward_neighbor(c, d) implies !g.is_open(d) by {
                    lemma_nearest_neighbors_contains(g, c, d);
                    let s = choose|s: int| 0 <= s < nn && nbrs@[s] == d;
                    assert(!g.is_open(nbrs@[s]));
                }
            }
        }
        found
    }

    /// The number of cells at which [`Grid::percolate`] would open a new cluster: open
    /// cells none of whose neighbours listed before them is open.
    pub fn count_cluster_starts(&self) -> (r: usize)
        requires
            self@.wf(),
            self@.dims_at_least_two(),
        ensures
            r == self@.cluster_starts(self@.labels.len()),
    {
        let ghost g = self@;
        let n = self.labels.len();
        let mut count: usize = 0;
        let mut i: usize = 0;
        let mut j: usize = 0;
        let mut k: usize = 0;
        let mut p: usize = 0;
        proof {
            if n > 0 {
                assert(0 * g.x_len * g.y_len == 0) by (nonlinear_arith);
                assert(g.flat((0usize, 0usize, 0usize)) == 0);
            }
        }
        while p < n
            invariant
                self@ == g,
                n == g.labels.len(),
                g.wf(),
                g.dims_at_least_two(),
                p <= n,
                count <= p,
                count == g.cluster_starts(p as nat),
                p < n ==> g.in_bounds((i, j, k)) && g.flat((i, j, k)) == p,
            decreases n - p,
        {
            let c = (i, j, k);
            proof {
                lemma_in_bounds_flat(g, c);
                lemma_cell_of_flat_index(g.x_len, g.y_len, g.z_len, c);
                assert(g.cell_at(p as int) == c);
            }
            if self.labels[p] != 0 {
                let any = self.has_open_backward_neighbor(i, j, k);
                if !any {
                    count += 1;
                }
            } else {
                assert(!g.is_open(c));
            }
            proof {
                lemma_next_cell(g.x_len, g.y_len, g.z_len, c);
            }
            p += 1;
            if i + 1 < self.x_len {
                i += 1;
            } else {
                i = 0;
                if j + 1 < self.y_len {
                    j += 1;
                } else {
                    j = 0;
                    k += 1;
                }
            }
        }
        count
    }

    /// Whether some cell of slice `s` along `axis` carries label `l`.
    fn slice_holds(&self, l: u32, axis: usize, s: usize) -> (r: bool)
        requires
            self@.wf(),
            axis <= 2,
            s < self@.axis_len(axis as int),
        ensures
            r == self@.slice_holds(l, axis as int, s as int),
    {
        let ghost g = self@;
        let ghost ax = axis as int;
        let na = if axis == 0 {
            self.y_len
        } else {
            self.x_len
        };
        let nb = if axis == 2 {
            self.y_len
        } else {
            self.z_len
        };
        let mut found = false;
        let mut b: usize = 0;
        while b < nb && !found
            invariant
                self@ == g,
                g.wf(),
                ax == axis,
                axis <= 2,
                s < g.axis_len(ax),
                na == (if axis == 0 { g.y_len } else { g.x_len }),
                nb == (if axis == 2 { g.y_len } else { g.z_len }),
                b <= nb,
                found ==> g.slice_holds(l, ax, s as int),
                !found ==> forall|c: Cell|
                    #![trigger g.label(c)]
                    g.in_bounds(c) && GridView::coord(c, ax) == s && GridView::outer_coord(c, ax) < b
                        ==> g.label(c) != l,
            decreases nb - b + (if found { 0int } else { 1int }),
        {
            let mut a: usize = 0;
            while a < na && !found
                invariant
                    self@ == g,
                    g.wf(),
                    ax == axis,
                    axis <= 2,
                    s < g.axis_len(ax),
                    na == (if axis == 0 { g.y_len } else { g.x_len }),
                    nb == (if axis == 2 { g.y_len } else { g.z_len }),
                    b < nb,
                    a <= na,
                    found ==> g.slice_holds(l, ax, s as int),
                    !found ==> forall|c: Cell|
                        #![trigger g.label(c)]
                        g.in_bounds(c) && GridView::coord(c, ax) == s && (GridView::outer_coord(c, ax) < b
                            || (GridView::outer_coord(c, ax) == b && GridView::inner_coord(c, ax) < a))
                            ==> g.label(c) != l,
                decreases na - a + (if found { 0int } else { 1int }),
            {
                let c: Cell = if axis == 2 {
                    (a, b, s)
                } else if axis == 1 {
                    (a, s, b)
                } else {
                    (s, a, b)
                };
                proof {
                    lemma_in_bounds_flat(g, c);
                }
                let q = self.flat(c);
                if self.labels[q] == l {
                    assert(g.in_bounds(c) && GridView::coord(c, ax) == s && g.label(c) == l);
                    found = true;
                } else {
                    a += 1;
                }
            }
            if !found {
                b += 1;
            }
        }
        found
    }

    /// How many slices along `axis` hold a cell labelled `l`.
    fn slices_holding(&self, l: u32, axis: usize) -> (n: usize)
        requires
            self@.wf(),
            axis <= 2,
        ensures
            n == self@.slices_holding(l, axis as int, self@.axis_len(axis as int)),
            n <= self@.axis_len(axis as int),
    {
        let len = if axis == 0 {
            self.x_len
        } else if axis == 1 {
            self.y_len
        } else {
            self.z_len
        };
        let mut count: usize = 0;
        for s in 0..len
            invariant
                len == self@.axis_len(axis as int),
                axis <= 2,
                self@.wf(),
                count == self@.slices_holding(l, axis as int, s as nat),
                count <= s,
        {
            if self.slice_holds(l, axis, s) {
                count += 1;
            }
        }
        count
    }

    /// The spanning test with the clusters visited in `order`: walking the clusters,
    /// each one with at least as many cells as some side length adds, per direction, the
    /// number of slices across that direction that it touches to a running total kept
    /// over all such clusters; a direction is spanned when, right after some such
    /// cluster, its total equals the side length.
    pub fn span_in_order(&self, order: &Vec<u32>) -> (r: Option<SpanDimensions>)
        requires
            self@.wf(),
            forall|t: int| 0 <= t < order@.len() ==> self@.clusters.contains_key(#[trigger] order@[t]),
        ensures
            r == self@.span_result(order@),
    {
        broadcast use vstd::std_specs::hash::group_hash_axioms;

        let ghost g = self@;
        let mut total_x: u128 = 0;
        let mut total_y: u128 = 0;
        let mut total_z: u128 = 0;
        let mut spans_x = false;
        let mut spans_y = false;
        let mut spans_z = false;
        let n = order.len();
        for t in 0..n
            invariant
                self@ == g,
                g.wf(),
                n == order@.len(),
                forall|s: int| 0 <= s < order@.len() ==> g.clusters.contains_key(#[trigger] order@[s]),
                tracks_total(total_x, g.span_total(order@, 0, t as nat), g.x_len),
                tracks_total(total_y, g.span_total(order@, 1, t as nat), g.y_len),
                tracks_total(total_z, g.span_total(order@, 2, t as nat), g.z_len),
                spans_x == exists|m: int|
                    1 <= m <= t && g.is_large(order@[m - 1]) && #[trigger] g.span_total(order@, 0, m as nat)
                        == g.x_len,
                spans_y == exists|m: int|
                    1 <= m <= t && g.is_large(order@[m - 1]) && #[trigger] g.span_total(order@, 1, m as nat)
                        == g.y_len,
                spans_z == exists|m: int|
                    1 <= m <= t && g.is_large(order@[m - 1]) && #[trigger] g.span_total(order@, 2, m as nat)
                        == g.z_len,
        {
            let cluster = order[t];
            assert(g.clusters.contains_key(cluster));
            assert(self.clusters@.contains_key(cluster));
            let ncells = self.clusters.get(&cluster).unwrap().len();
            assert(ncells == g.clusters[cluster].len());
            let ghost t1 = (t + 1) as nat;
            if ncells >= self.z_len || ncells >= self.y_len || ncells >= self.x_len {
                assert(g.is_large(cluster));
                let cz = self.slices_holding(cluster, 2);
                total_z = add_to_total(total_z, cz, self.z_len, Ghost(g.span_total(order@, 2, t as nat)));
                if total_z == self.z_len as u128 {
                    spans_z = true;
                }
                let cy = self.slices_holding(cluster, 1);
                total_y = add_to_total(total_y, cy, self.y_len, Ghost(g.span_total(order@, 1, t as nat)));
                if total_y == self.y_len as u128 {
                    spans_y = true;
                }
                let cx = self.slices_holding(cluster, 0);
                total_x = add_to_total(total_x, cx, self.x_len, Ghost(g.span_total(order@, 0, t as nat)));
                if total_x == self.x_len as u128 {
                    spans_x = true;
                }
                assert(g.span_total(order@, 2, t1) == g.span_total(order@, 2, t as nat) + cz);
                assert(g.span_total(order@, 1, t1) == g.span_total(order@, 1, t as nat) + cy);
                assert(g.span_total(order@, 0, t1) == g.span_total(order@, 0, t as nat) + cx);
            } else {
                assert(!g.is_large(cluster));
                assert(g.span_total(order@, 2, t1) == g.span_total(order@, 2, t as nat));
                assert(g.span_total(order@, 1, t1) == g.span_total(order@, 1, t as nat));
                assert(g.span_total(order@, 0, t1) == g.span_total(order@, 0, t as nat));
            }
        }
        let mut d: u8 = 0;
        if spans_x {
            d += 1;
        }
        if spans_y {
            d += 1;
        }
        if spans_z {
            d += 1;
        }
        if d == 0 {
            None
        } else if d == 1 {
            Some(SpanDimensions::One)
        } else if d == 2 {
            Some(SpanDimensions::Two)
        } else {
            Some(SpanDimensions::Three)
        }
    }

    /// The spanning test of [`Grid::span_in_order`], with the clusters visited in the
    /// order in which the registry (a `HashMap`) hands out its keys. That order is not
    /// fixed; the result is the outcome for some order that lists every registered
    /// label once.
    pub fn span(&self) -> (r: Option<SpanDimensions>)
        requires
            self@.wf(),
        ensures
            exists|order: Seq<u32>|
                order.no_duplicates() && order.to_set() == self@.clusters.dom() && r
                    == #[trigger] self@.span_result(order),
    {
        let order = self.cluster_ids();
        assert forall|t: int| 0 <= t < order@.len() implies self@.clusters.contains_key(#[trigger] order@[t]) by {
            assert(order@.to_set().contains(order@[t]));
        }
        self.span_in_order(&order)
    }

    fn cluster_ids(&self) -> (order: Vec<u32>)
        ensures
            order@.no_duplicates(),
            order@.to_set() == self@.clusters.dom(),
    {
        broadcast use vstd::std_specs::hash::group_hash_axioms;
        let mut order: Vec<u32> = Vec::new();
        let ghost keys = vstd::std_specs::iter::IteratorSpec::remaining(&vstd::std_specs::hash::spec_keys_iter(&self.clusters)).unref();
        for key in it: self.clusters.keys()
            invariant
                it.seq().unref() == keys,
                order@ == keys.take(it.index()),
        {
            order.push(*key);
        }
        assert(order@ =~= keys);
        assert(self@.clusters.dom() =~= self.clusters@.dom());
        order
    }

    /// Merges the clusters of `cells` into the smallest of their labels and returns it.
    /// `p` is the position the labelling pass has reached; the registry holds exactly the
    /// visited cells under labels `1..=nc`.
    fn union(
        &mut self,
        cells: Vec<Cell>,
        Ghost(p): Ghost<int>,
        Ghost(nc): Ghost<u32>,
        Ghost(base): Ghost<Map<u32, Seq<Cell>>>,
    ) -> (m: u32)
        requires
            old(self)@.wf(),
            cells@.len() >= 1,
            forall|t: int| 0 <= t < cells@.len() ==> #[trigger] visited(old(self)@, p, cells@[t]),
            registry_ok(old(self)@, p, nc, base),
        ensures
            same_shape(old(self)@, final(self)@),
            labels_of(old(self)@, cells@).contains(m),
            forall|t: int| 0 <= t < cells@.len() ==> m <= #[trigger] old(self)@.label(cells@[t]),
            forall|d: Cell|
                #![trigger final(self)@.label(d)]
                old(self)@.in_bounds(d) ==> final(self)@.label(d) == relabel(
                    old(self)@,
                    p,
                    labels_of(old(self)@, cells@),
                    m,
                    d,
                ),
            registry_ok(final(self)@, p, nc, base),
    {
        broadcast use vstd::std_specs::hash::group_hash_axioms;

        let ghost g = self@;
        let n = cells.len();
        proof {
            assert(visited(g, p, cells@[0]));
            lemma_in_bounds_flat(g, cells@[0]);
        }
        let first = self.flat(cells[0]);
        let mut m = self.labels[first];
        for t in 1..n
            invariant
                n == cells@.len(),
                self@ == g,
                g.wf(),
                forall|s: int| 0 <= s < n ==> #[trigger] visited(g, p, cells@[s]),
                t <= n,
                exists|s: int| 0 <= s < t && g.label(cells@[s]) == m,
                forall|s: int| 0 <= s < t ==> m <= #[trigger] g.label(cells@[s]),
        {
            proof {
                assert(visited(g, p, cells@[t as int]));
                lemma_in_bounds_flat(g, cells@[t as int]);
            }
            let q = self.flat(cells[t]);
            if self.labels[q] < m {
                m = self.labels[q];
            }
        }
        let ghost all = labels_of(g, cells@);
        proof {
            let s = choose|s: int| 0 <= s < n && g.label(cells@[s]) == m;
            assert(all[s] == m);
        }
        for t in 0..n
            invariant
                n == cells@.len(),
                self@.wf(),
                same_shape(g, self@),
                forall|s: int| 0 <= s < n ==> #[trigger] visited(g, p, cells@[s]),
                all == labels_of(g, cells@),
                all.contains(m),
                registry_ok(self@, p, nc, base),
                forall|d: Cell|
                    #![trigger self@.label(d)]
                    g.in_bounds(d) ==> self@.label(d) == relabel(
                        g,
                        p,
                        labels_of(g, cells@.take(t as int)),
                        m,
                        d,
                    ),
        {
            let ghost cur = self@;
            let ghost st = labels_of(g, cells@.take(t as int));
            let ghost st1 = labels_of(g, cells@.take(t + 1));
            let cell = cells[t];
            assert(st1 == st.push(g.label(cell))) by {
                assert(cells@.take(t + 1) == cells@.take(t as int).push(cell));
            }
            proof {
                assert(visited(g, p, cell));
                lemma_in_bounds_flat(self@, cell);
            }
            let q = self.flat(cell);
            let cluster = self.labels[q];
            assert(visited(g, p, cell));
            assert(self@.label(cell) == cluster);
            assert(cluster == relabel(g, p, st, m, cell));
            if cluster == m {
                assert forall|d: Cell|
                    #![trigger self@.label(d)]
                    g.in_bounds(d) implies self@.label(d) == relabel(g, p, st1, m, d) by {
                    vstd::seq_lib::lemma_seq_contains_after_push(st, g.label(cell), g.label(d));
                }
            } else {
                assert(!st.contains(g.label(cell)));
                assert(cluster == g.label(cell));
                // `m` is the label of a visited cell of `cur`
                proof {
                    let s = choose|s: int| 0 <= s < all.len() && all[s] == m;
                    let cs = cells@[s];
                    assert(visited(g, p, cs));
                    assert(self@.label(cs) == relabel(g, p, st, m, cs));
                    assert(visited(cur, p, cs));
                    assert(cur.label(cs) == m);
                }
                assert(visited(cur, p, cell));
                let old_cells = self.clusters.remove(&cluster).unwrap();
                assert(registry_exact(cur, p, cluster));
                assert(old_cells@ == cur.clusters[cluster]);
                let ghost removed = self.clusters@;
                let k = old_cells.len();
                for u in 0..k
                    invariant
                        k == old_cells@.len(),
                        old_cells@ == cur.clusters[cluster],
                        registry_exact(cur, p, cluster),
                        self.clusters@ == removed,
                        self@.wf(),
                        same_shape(cur, self@),
                        forall|d: Cell|
                            #![trigger self@.label(d)]
                            cur.in_bounds(d) ==> self@.label(d) == if old_cells@.take(u as int).contains(d) {
                                m
                            } else {
                                cur.label(d)
                            },
                {
                    let e = old_cells[u];
                    assert(cur.clusters[cluster].contains(e));
                    assert(visited(cur, p, e));
                    let ghost before = self@;
                    proof {
                        lemma_in_bounds_flat(self@, e);
                    }
                    let qe = self.flat(e);
                    self.labels.set(qe, m);
                    assert forall|d: Cell|
                        #![trigger self@.label(d)]
                        cur.in_bounds(d) implies self@.label(d) == if old_cells@.take(u + 1).contains(d) {
                            m
                        } else {
                            cur.label(d)
                        } by {
                        assert(old_cells@.take(u + 1) == old_cells@.take(u as int).push(e));
                        vstd::seq_lib::lemma_seq_contains_after_push(old_cells@.take(u as int), e, d);
                        lemma_flat_eq(cur, d, e);
                        lemma_flat_index_bounds(cur.x_len, cur.y_len, cur.z_len, d);
                        assert(before.label(d) == if old_cells@.take(u as int).contains(d) {
                            m
                        } else {
                            cur.label(d)
                        });
                    }
                }
                assert(old_cells@.take(k as int) == old_cells@);
                let ghost relabeled = self@;
                assert(old_cells@.contains(cell));
                proof {
                    lemma_in_bounds_flat(cur, cell);
                }
                assert(relabeled.label(cell) == m);
                let mut min_cells = self.clusters.remove(&m).unwrap();
                assert(min_cells@ == cur.clusters[m]);
                for u in 0..k
                    invariant
                        k == old_cells@.len(),
                        cur.clusters.contains_key(m),
                        min_cells@ == cur.clusters[m] + old_cells@.take(u as int),
                {
                    min_cells.push(old_cells[u]);
                    assert(old_cells@.take(u + 1) == old_cells@.take(u as int).push(old_cells@[u as int]));
                }
                assert(old_cells@.take(k as int) == old_cells@);
                self.clusters.insert(m, min_cells);
                let ghost merged = self@;
                assert(merged.labels == relabeled.labels);
                assert(merged.clusters =~= cur.clusters.remove(cluster).insert(
                    m,
                    cur.clusters[m] + cur.clusters[cluster],
                ));
                self.labels.set(q, m);
                assert(self@.labels =~= merged.labels);
                proof {
                    assert forall|d: Cell|
                        #![trigger merged.label(d)]
                        cur.in_bounds(d) implies merged.label(d) == if visited(cur, p, d) && cur.label(d) == cluster {
                            m
                        } else {
                            cur.label(d)
                        } by {
                        assert(cur.clusters[cluster].contains(d) <==> (visited(cur, p, d) && cur.label(d) == cluster));
                        assert(relabeled.label(d) == if old_cells@.contains(d) {
                            m
                        } else {
                            cur.label(d)
                        });
                    }
                    lemma_merge_registry(cur, merged, p, nc, base, cluster, m);
                    assert forall|d: Cell|
                        #![trigger self@.label(d)]
                        g.in_bounds(d) implies self@.label(d) == relabel(g, p, st1, m, d) by {
                        vstd::seq_lib::lemma_seq_contains_after_push(st, g.label(cell), g.label(d));
                        assert(cur.label(d) == relabel(g, p, st, m, d));
                        assert(visited(cur, p, d) <==> visited(g, p, d));
                    }
                }
            }
        }
        assert(cells@.take(n as int) == cells@);
        proof {
            assert forall|t: int| 0 <= t < cells@.len() implies m <= #[trigger] g.label(cells@[t]) by {
            }
        }
        m
    }
}

} // verus!
