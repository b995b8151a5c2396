pub mod cluster;
pub mod grid;
pub mod index;
pub mod paths;
pub mod percolation;

pub use cluster::Cluster;
pub use grid::{marked, Cell, Grid, GridView, SpanDimensions};

use vstd::prelude::*;

use vstd::arithmetic::div_mod::{lemma_fundamental_div_mod, lemma_mod_pos_bound};

use crate::lattice::index::{
    cell_of_index, flat_index, in_block, lemma_cell_of_flat_index, lemma_cell_of_index,
    lemma_flat_index_bounds, lemma_flat_index_parts,
};

verus! {

/// What a cubelet of the lattice admits. `F` is the number type of the distances and
/// energies carried along.
#[derive(Copy, Clone)]
pub enum Cubelet<F> {
    HeliumAccessible { min_dist2: F, lj_energy: F },
    NitrogenAccessible { min_dist2: F, lj_energy: F },
    GeomAccessible { min_dist2: F },
    InsideAtom,
}

impl<F: Copy> Cubelet<F> {
    /// The squared distance to the nearest atom surface, for a cubelet outside every atom.
    pub fn minimum_distance2(self) -> (r: Option<F>)
        ensures
            r == match self {
                Cubelet::HeliumAccessible { min_dist2, .. } => Some(min_dist2),
                Cubelet::NitrogenAccessible { min_dist2, .. } => Some(min_dist2),
                Cubelet::GeomAccessible { min_dist2 } => Some(min_dist2),
                Cubelet::InsideAtom => None,
            },
    {
        match self {
            Cubelet::HeliumAccessible { min_dist2, .. } => Some(min_dist2),
            Cubelet::NitrogenAccessible { min_dist2, .. } => Some(min_dist2),
            Cubelet::GeomAccessible { min_dist2 } => Some(min_dist2),
            Cubelet::InsideAtom => None,
        }
    }
}

/// The probe molecule whose accessible volume is asked about.
#[derive(Copy, Clone)]
pub enum ProbeType {
    He,
    N,
}

/// A cubelet admits the probe: any cubelet outside the atoms when there is no probe,
/// helium- or nitrogen-accessible ones for helium, nitrogen-accessible ones for
/// nitrogen.
pub open spec fn admits<F>(probe: Option<ProbeType>, c: Cubelet<F>) -> bool {
    match probe {
        None => !(c is InsideAtom),
        Some(ProbeType::He) => c is HeliumAccessible || c is NitrogenAccessible,
        Some(ProbeType::N) => c is NitrogenAccessible,
    }
}

/// The mathematical content of a [`Lattice`].
pub struct LatticeView<F> {
    pub cubelets: Seq<Cubelet<F>>,
    pub cubesize: F,
    pub x: nat,
    pub y: nat,
    pub z: nat,
}

impl<F> LatticeView<F> {
    /// The cubelets fill the block, whose sides are machine-sized.
    pub open spec fn wf(self) -> bool {
        &&& self.cubelets.len() == self.x * self.y * self.z
        &&& self.x <= usize::MAX
        &&& self.y <= usize::MAX
        &&& self.z <= usize::MAX
    }

    pub open spec fn in_bounds(self, c: Cell) -> bool {
        in_block(self.x, self.y, self.z, c)
    }

    pub open spec fn flat(self, c: Cell) -> int {
        flat_index(self.x, self.y, c)
    }

    pub open spec fn at(self, c: Cell) -> Cubelet<F> {
        self.cubelets[self.flat(c)]
    }
}

/// Positions, in increasing order, of the first `n` cubelets that are outside every atom.
pub open spec fn open_positions<F>(cubelets: Seq<Cubelet<F>>, n: nat) -> Seq<usize>
    decreases n,
{
    if n == 0 {
        Seq::empty()
    } else if cubelets[n - 1] is InsideAtom {
        open_positions(cubelets, (n - 1) as nat)
    } else {
        open_positions(cubelets, (n - 1) as nat).push((n - 1) as usize)
    }
}

/// The positions [`open_positions`] lists are below `n`, increasing, and exactly those
/// of the cubelets outside every atom.
pub proof fn lemma_open_positions<F>(cubelets: Seq<Cubelet<F>>, n: nat)
    requires
        n <= cubelets.len(),
        n <= usize::MAX,
    ensures
        forall|t: int|
            0 <= t < open_positions(cubelets, n).len() ==> #[trigger] open_positions(cubelets, n)[t]
                < n && !(cubelets[open_positions(cubelets, n)[t] as int] is InsideAtom),
        forall|q: int|
            0 <= q < n && !(#[trigger] cubelets[q] is InsideAtom) ==> open_positions(
                cubelets,
                n,
            ).contains(q as usize),
        open_positions(cubelets, n).len() <= n,
    decreases n,
{
    if n > 0 {
        lemma_open_positions(cubelets, (n - 1) as nat);
        let prev = open_positions(cubelets, (n - 1) as nat);
        assert forall|q: int| 0 <= q < n && !(#[trigger] cubelets[q] is InsideAtom) implies open_positions(
            cubelets,
            n,
        ).contains(q as usize) by {
            if q < n - 1 {
                assert(prev.contains(q as usize));
                if !(cubelets[n - 1] is InsideAtom) {
                    vstd::seq_lib::lemma_seq_contains_after_push(prev, (n - 1) as usize, q as usize);
                }
            } else {
                vstd::seq_lib::lemma_seq_contains_after_push(prev, (n - 1) as usize, q as usize);
            }
        }
    }
}

/// `g` has the shape of `lat`, no clusters, and its cells are open (label 1) exactly
/// where the cubelet admits `probe`.
pub open spec fn is_probe_grid<F>(lat: LatticeView<F>, probe: Option<ProbeType>, g: GridView) -> bool {
    &&& g.wf()
    &&& g.x_len == lat.x
    &&& g.y_len == lat.y
    &&& g.z_len == lat.z
    &&& g.clusters == Map::<u32, Seq<Cell>>::empty()
    &&& g.labels.len() == lat.cubelets.len()
    &&& forall|q: int|
        0 <= q < g.labels.len() ==> #[trigger] g.labels[q] == if admits(probe, lat.cubelets[q]) {
            1u32
        } else {
            0u32
        }
}

/// The storage positions listed as outside every atom (what
/// [`Lattice::geom_accessible_cubelets`] returns) strictly increase, so each open
/// cubelet is listed exactly once; they are all below `n`, outside every atom, and
/// every open cubelet among the first `n` is listed.
pub proof fn law_open_positions_once_each<F>(cubelets: Seq<Cubelet<F>>, n: nat)
    requires
        n <= cubelets.len(),
        n <= usize::MAX,
    ensures
        forall|a: int, b: int|
            0 <= a < b < open_positions(cubelets, n).len() ==> open_positions(cubelets, n)[a]
                < open_positions(cubelets, n)[b],
        forall|t: int|
            0 <= t < open_positions(cubelets, n).len() ==> #[trigger] open_positions(cubelets, n)[t]
                < n && !(cubelets[open_positions(cubelets, n)[t] as int] is InsideAtom),
        forall|q: int|
            0 <= q < n && !(#[trigger] cubelets[q] is InsideAtom) ==> open_positions(
                cubelets,
                n,
            ).contains(q as usize),
    decreases n,
{
    lemma_open_positions(cubelets, n);
    if n > 0 {
        law_open_positions_once_each(cubelets, (n - 1) as nat);
        let prev = open_positions(cubelets, (n - 1) as nat);
        let cur = open_positions(cubelets, n);
        assert forall|a: int, b: int| 0 <= a < b < cur.len() implies cur[a] < cur[b] by {
            if b == prev.len() {
                assert(cur[a] == prev[a]);
                assert(prev[a] < n - 1);
            } else {
                assert(cur[a] == prev[a] && cur[b] == prev[b]);
            }
        }
    }
}

/// A folded cell count lies in `0..d` and differs from the count by a whole number of
/// periods: it is the count's remainder modulo `d`.
pub proof fn law_wrapped_count_residue(u0: int, d: int)
    requires
        0 <= u0,
        d > 0,
        wrap_defined(u0, d),
    ensures
        0 <= wrapped_count(u0, d) < d,
        wrapped_count(u0, d) == u0 % d,
{
    lemma_fundamental_div_mod(u0, d);
    lemma_mod_pos_bound(u0, d);
    lemma_fundamental_div_mod(u0 + 1, d);
    lemma_mod_pos_bound(u0 + 1, d);
    if u0 + 1 <= d {
        vstd::arithmetic::div_mod::lemma_small_mod(u0 as nat, d as nat);
    } else {
        let r = (u0 + 1) % d;
        assert(r >= 1);
        assert(u0 == (u0 + 1) / d * d + (r - 1)) by (nonlinear_arith)
            requires
                u0 + 1 == d * ((u0 + 1) / d) + r,
        ;
        vstd::arithmetic::div_mod::lemma_fundamental_div_mod_converse(
            u0,
            d,
            (u0 + 1) / d,
            r - 1,
        );
    }
}

/// The grid of cells open to a probe opens a cell exactly where its cubelet lets the
/// probe in: with no probe, every cubelet outside the atoms, whatever its kind; for
/// helium, the helium- and nitrogen-accessible ones; for nitrogen, the
/// nitrogen-accessible ones. So every cell open to nitrogen is open to helium, and
/// every cell open to helium is open with no probe.
pub proof fn law_probe_grid_cells<F>(lat: LatticeView<F>, probe: Option<ProbeType>, g: GridView)
    requires
        is_probe_grid(lat, probe, g),
    ensures
        forall|q: int|
            0 <= q < g.labels.len() ==> (#[trigger] g.labels[q] != 0 <==> match probe {
                None => !(lat.cubelets[q] is InsideAtom),
                Some(ProbeType::He) => lat.cubelets[q] is HeliumAccessible
                    || lat.cubelets[q] is NitrogenAccessible,
                Some(ProbeType::N) => lat.cubelets[q] is NitrogenAccessible,
            }),
        forall|q: int|
            0 <= q < g.labels.len() && #[trigger] g.labels[q] != 0 ==> !(
            lat.cubelets[q] is InsideAtom),
{
}

/// Cells and storage positions of a lattice determine each other: the cell that
/// [`Lattice::ijk_from_index`] gives for a position below `x * y * z` lies in the
/// lattice and [`Lattice::index_from_ijk`] stores it at that position, and the cell it
/// gives for the position of an in-bounds cell is that cell.
pub proof fn law_index_round_trip<F>(lat: LatticeView<F>, c: Cell, p: int)
    requires
        lat.x <= usize::MAX,
        lat.y <= usize::MAX,
        lat.z <= usize::MAX,
        0 <= p < lat.x * lat.y * lat.z,
        lat.in_bounds(c),
    ensures
        ({
            let d = cell_of_index(lat.x, lat.y, p);
            let dc = (d.0 as usize, d.1 as usize, d.2 as usize);
            lat.in_bounds(dc) && lat.flat(dc) == p
        }),
        cell_of_index(lat.x, lat.y, lat.flat(c)) == (c.0 as int, c.1 as int, c.2 as int),
{
    lemma_cell_of_index(lat.x, lat.y, lat.z, p);
    lemma_cell_of_flat_index(lat.x, lat.y, lat.z, c);
}

/// Counts one sample whose bin is `bin` in a cumulative distribution: every counter up
/// to `bin` goes up by one, `bin` being taken as the last counter when it lies beyond.
pub fn count_cumulative(counts: &mut Vec<u64>, bin: usize)
    requires
        old(counts)@.len() > 0,
        forall|m: int| 0 <= m < old(counts)@.len() ==> #[trigger] old(counts)@[m] < u64::MAX,
    ensures
        final(counts)@.len() == old(counts)@.len(),
        forall|m: int|
            0 <= m < old(counts)@.len() ==> #[trigger] final(counts)@[m] == old(counts)@[m] + (
            if m <= bin {
                1int
            } else {
                0int
            }),
{
    let n = counts.len();
    let last = if bin >= n {
        n - 1
    } else {
        bin
    };
    for m in 0..last + 1
        invariant
            n == old(counts)@.len(),
            counts@.len() == n,
            last < n,
            last == (if bin >= n { (n - 1) as usize } else { bin }),
            forall|q: int| 0 <= q < n ==> old(counts)@[q] < u64::MAX,
            forall|q: int|
                0 <= q < n ==> #[trigger] counts@[q] == old(counts)@[q] + (if q < m {
                    1int
                } else {
                    0int
                }),
    {
        let v = counts[m];
        counts.set(m, v + 1);
    }
}

/// A position drawn by `rand::random_range(0..n)`, which draws uniformly from `0..n`
/// with the thread-local generator and panics on an empty range. Only the range of
/// the result is stated.
#[verifier::external_body]
fn random_below(n: usize) -> (r: usize)
    requires
        n > 0,
    ensures
        r < n,
{
    rand::random_range(0..n)
}

/// The cell count `u0` along an axis of `d` cubelets, folded back into `0..d`: kept
/// when `u0 + 1 <= d`, else `(u0 + 1) % d - 1`.
pub open spec fn wrapped_count(u0: int, d: int) -> int {
    if u0 + 1 <= d {
        u0
    } else {
        (u0 + 1) % d - 1
    }
}

/// [`wrapped_count`] is defined without division by zero or a negative result.
pub open spec fn wrap_defined(u0: int, d: int) -> bool {
    u0 + 1 <= d || (d > 0 && (u0 + 1) % d != 0)
}

/// Folds a cell count back into the lattice along an axis of `d` cubelets.
fn wrap_count(u0: usize, d: usize) -> (r: usize)
    requires
        u0 < usize::MAX,
        wrap_defined(u0 as int, d as int),
    ensures
        r == wrapped_count(u0 as int, d as int),
        d > 0 ==> r < d,
{
    let mut u = u0 + 1;
    if u > d {
        proof {
            lemma_fundamental_div_mod(u as int, d as int);
            lemma_mod_pos_bound(u as int, d as int);
            vstd::arithmetic::mul::lemma_mul_is_commutative((u / d) as int, d as int);
        }
        u -= (u / d) * d;
    } else if u < 1 {
        u += (1 - (u / d)) * d;
    }
    u - 1
}

/// A block of `x * y * z` cubelets of side `cubesize`, stored with `i` varying fastest.
pub struct Lattice<F> {
    cubelets: Vec<Cubelet<F>>,
    cubesize: F,
    x: usize,
    y: usize,
    z: usize,
}

impl<F> View for Lattice<F> {
    type V = LatticeView<F>;

    closed spec fn view(&self) -> LatticeView<F> {
        LatticeView {
            cubelets: self.cubelets@,
            cubesize: self.cubesize,
            x: self.x as nat,
            y: self.y as nat,
            z: self.z as nat,
        }
    }
}

impl<F: Copy> Lattice<F> {
    /// A lattice from its cubelets, listed with `i` varying fastest, then `j`, then `k`.
    pub fn from_cubelets(cubelets: Vec<Cubelet<F>>, cubesize: F, x: usize, y: usize, z: usize) -> (l: Self)
        requires
            cubelets@.len() == x * y * z,
        ensures
            l@ == (LatticeView { cubelets: cubelets@, cubesize, x: x as nat, y: y as nat, z: z as nat }),
            l@.wf(),
    {
        Lattice { cubelets, cubesize, x, y, z }
    }

    /// Storage positions of the cubelets outside every atom, in increasing order.
    pub fn geom_accessible_cubelets(&self) -> (r: Vec<usize>)
        ensures
            r@ == open_positions(self@.cubelets, self@.cubelets.len()),
    {
        let mut r: Vec<usize> = Vec::new();
        let n = self.cubelets.len();
        for p in 0..n
            invariant
                n == self@.cubelets.len(),
                r@ == open_positions(self@.cubelets, p as nat),
        {
            if let Cubelet::InsideAtom = self.cubelets[p] {
            } else {
                r.push(p);
            }
        }
        r
    }

    pub fn cubelets(&self) -> (r: &[Cubelet<F>])
        ensures
            r@ == self@.cubelets,
    {
        self.cubelets.as_slice()
    }

    pub fn cubesize(&self) -> (r: F)
        ensures
            r == self@.cubesize,
    {
        self.cubesize
    }

    pub fn dimensions(&self) -> (r: [usize; 3])
        ensures
            r@ == seq![self@.x as usize, self@.y as usize, self@.z as usize],
    {
        let r = [self.x, self.y, self.z];
        assert(r@ =~= seq![self@.x as usize, self@.y as usize, self@.z as usize]);
        r
    }

    /// The cubelet at `ijk`.
    pub fn get(&self, ijk: Cell) -> (r: &Cubelet<F>)
        requires
            self@.wf(),
            self@.flat(ijk) < self@.cubelets.len(),
        ensures
            *r == self@.cubelets[self@.flat(ijk)],
    {
        let n = self.cubelets.len();
        proof {
            lemma_flat_index_parts(self@.x, self@.y, self@.z, ijk);
            assert(self@.flat(ijk) < n);
        }
        let p = self.index_from_ijk(ijk);
        &self.cubelets[p]
    }

    /// Whether the cubelet at `(i, j, k)` lies outside every atom.
    pub fn is_geom_accessible(&self, i: usize, j: usize, k: usize) -> (r: bool)
        requires
            self@.wf(),
            self@.flat((i, j, k)) < self@.cubelets.len(),
        ensures
            r == !(self@.at((i, j, k)) is InsideAtom),
    {
        if let Cubelet::InsideAtom = self.get((i, j, k)) {
            false
        } else {
            true
        }
    }

    /// Whether the cubelet at `(i, j, k)` admits nitrogen.
    pub fn is_nitrogen_accessible(&self, i: usize, j: usize, k: usize) -> (r: bool)
        requires
            self@.wf(),
            self@.flat((i, j, k)) < self@.cubelets.len(),
        ensures
            r == self@.at((i, j, k)) is NitrogenAccessible,
    {
        if let Cubelet::NitrogenAccessible { .. } = self.get((i, j, k)) {
            true
        } else {
            false
        }
    }

    /// Whether the cubelet at `(i, j, k)` admits helium, which nitrogen-accessible
    /// cubelets do too.
    pub fn is_helium_accessible(&self, i: usize, j: usize, k: usize) -> (r: bool)
        requires
            self@.wf(),
            self@.flat((i, j, k)) < self@.cubelets.len(),
        ensures
            r == (self@.at((i, j, k)) is HeliumAccessible || self@.at((i, j, k)) is NitrogenAccessible),
    {
        match self.get((i, j, k)) {
            Cubelet::HeliumAccessible { .. } => true,
            Cubelet::NitrogenAccessible { .. } => true,
            _ => false,
        }
    }

    /// Storage position of `ijk`: `k * x * y + j * x + i`.
    pub fn index_from_ijk(&self, ijk: Cell) -> (p: usize)
        requires
            ijk.2 * self@.x <= usize::MAX,
            self@.flat(ijk) <= usize::MAX,
        ensures
            p == self@.flat(ijk),
    {
        let (i, j, k) = ijk;
        proof {
            let x = self@.x;
            let y = self@.y;
            assert(0 <= k * x * y && 0 <= j * x) by (nonlinear_arith);
        }
        k * self.x * self.y + j * self.x + i
    }

    /// The cell stored at position `index`: `k = index / (x * y)`, then `j` and `i`
    /// from the remainder.
    pub fn ijk_from_index(&self, index: usize) -> (c: Cell)
        requires
            0 < self@.x * self@.y <= usize::MAX,
        ensures
            (c.0 as int, c.1 as int, c.2 as int) == cell_of_index(self@.x, self@.y, index as int),
            index < self@.x * self@.y * self@.z ==> self@.in_bounds(c) && self@.flat(c) == index,
    {
        let ghost x = self@.x as int;
        let ghost y = self@.y as int;
        let mut i = index;
        let xy = self.x * self.y;
        let k = i / xy;
        proof {
            lemma_fundamental_div_mod(index as int, xy as int);
            lemma_mod_pos_bound(index as int, xy as int);
        }
        i -= xy * k;
        let ghost r = i as int;
        assert(r == index as int % (x * y));
        assert(x > 0) by (nonlinear_arith)
            requires
                0 < x * y,
                x >= 0,
                y >= 0,
        ;
        let j = i / self.x;
        proof {
            lemma_fundamental_div_mod(r, x);
            lemma_mod_pos_bound(r, x);
            vstd::arithmetic::mul::lemma_mul_is_commutative(j as int, x);
        }
        i -= j * self.x;
        proof {
            assert(i == r % x);
            assert((i as int, j as int, k as int) == cell_of_index(self@.x, self@.y, index as int));
            if index < self@.x * self@.y * self@.z {
                lemma_cell_of_index(self@.x, self@.y, self@.z, index as int);
            }
        }
        (i, j, k)
    }

    /// A grid of this lattice's shape whose cells are open (label 1) exactly where the
    /// cubelet admits `probe`, and closed (label 0) elsewhere, with no clusters yet.
    fn probe_grid(&self, probe: Option<ProbeType>) -> (g: Grid)
        requires
            self@.wf(),
            self@.x * self@.y <= usize::MAX,
        ensures
            is_probe_grid(self@, probe, g@),
    {
        let n = self.cubelets.len();
        let mut grid = Grid::new(self.x, self.y, self.z);
        let ghost g0 = grid@;
        proof {
            assert forall|c: Cell|
                #![trigger self@.at(c)]
                self@.in_bounds(c) && admits(probe, self@.at(c)) implies g0.flat(c) < g0.labels.len() by {
                lemma_flat_index_bounds(self@.x, self@.y, self@.z, c);
            }
        }
        grid.populate(self, probe);
        proof {
            let g = grid@;
            let lat = self@;
            assert forall|q: int| 0 <= q < g.labels.len() implies #[trigger] g.labels[q] == if admits(
                probe,
                lat.cubelets[q],
            ) {
                1u32
            } else {
                0u32
            } by {
                assert(g0.labels[q] == 0u32);
                lemma_cell_of_index(lat.x, lat.y, lat.z, q);
                let (ci, cj, ck) = cell_of_index(lat.x, lat.y, q);
                let c = (ci as usize, cj as usize, ck as usize);
                if admits(probe, lat.cubelets[q]) {
                    assert(lat.in_bounds(c) && lat.flat(c) < n && admits(probe, lat.at(c)) && g0.flat(c) == q);
                    assert(marked(lat, probe, g0, n as int, q));
                } else if marked(lat, probe, g0, n as int, q) {
                    let d = choose|d: Cell|
                        #![trigger g0.flat(d), lat.flat(d)]
                        lat.in_bounds(d) && lat.flat(d) < n && admits(probe, lat.at(d)) && g0.flat(d) == q;
                    assert(lat.at(d) == lat.cubelets[q]);
                }
            }
        }
        grid
    }

    /// The grid of cubelets outside every atom.
    pub fn geom_accessible_grid(&self) -> (g: Grid)
        requires
            self@.wf(),
            self@.x * self@.y <= usize::MAX,
        ensures
            is_probe_grid(self@, None, g@),
    {
        self.probe_grid(None)
    }

    /// The grid of cubelets that admit helium.
    pub fn helium_accessible_grid(&self) -> (g: Grid)
        requires
            self@.wf(),
            self@.x * self@.y <= usize::MAX,
        ensures
            is_probe_grid(self@, Some(ProbeType::He), g@),
    {
        self.probe_grid(Some(ProbeType::He))
    }

    /// The grid of cubelets that admit nitrogen.
    pub fn nitrogen_accessible_grid(&self) -> (g: Grid)
        requires
            self@.wf(),
            self@.x * self@.y <= usize::MAX,
        ensures
            is_probe_grid(self@, Some(ProbeType::N), g@),
    {
        self.probe_grid(Some(ProbeType::N))
    }

    /// The cubelet at the cell reached by folding the three cell counts (a coordinate
    /// divided by the cubelet size, rounded down) back into the lattice.
    pub fn get_from_cell_counts(&self, counts: [usize; 3]) -> (r: &Cubelet<F>)
        requires
            self@.wf(),
            counts[0] < usize::MAX,
            counts[1] < usize::MAX,
            counts[2] < usize::MAX,
            wrap_defined(counts[0] as int, self@.x as int),
            wrap_defined(counts[1] as int, self@.y as int),
            wrap_defined(counts[2] as int, self@.z as int),
        ensures
            *r == self@.at(
                (
                    wrapped_count(counts[0] as int, self@.x as int) as usize,
                    wrapped_count(counts[1] as int, self@.y as int) as usize,
                    wrapped_count(counts[2] as int, self@.z as int) as usize,
                ),
            ),
    {
        let nx = wrap_count(counts[0], self.x);
        let ny = wrap_count(counts[1], self.y);
        let nz = wrap_count(counts[2], self.z);
        proof {
            lemma_flat_index_bounds(self@.x, self@.y, self@.z, (nx, ny, nz));
        }
        self.get((nx, ny, nz))
    }

    /// A cubelet outside every atom, drawn uniformly from the lattice, with its cell.
    pub fn rand_avail_cubelet(&self) -> (r: (&Cubelet<F>, Cell))
        requires
            self@.wf(),
            0 < self@.x * self@.y <= usize::MAX,
            exists|q: int| 0 <= q < self@.cubelets.len() && !(#[trigger] self@.cubelets[q] is InsideAtom),
        ensures
            self@.in_bounds(r.1),
            *r.0 == self@.at(r.1),
            !(*r.0 is InsideAtom),
    {
        let avail = self.geom_accessible_cubelets();
        let n = self.cubelets.len();
        proof {
            lemma_open_positions(self@.cubelets, n as nat);
            let q = choose|q: int| 0 <= q < self@.cubelets.len() && !(#[trigger] self@.cubelets[q] is InsideAtom);
            assert(avail@.contains(q as usize));
        }
        self.rand_avail_cubelet_among(&avail)
    }

    /// A cubelet drawn uniformly from the positions `avail`, all outside every atom
    /// (as [`Lattice::geom_accessible_cubelets`] lists them), with its cell.
    pub fn rand_avail_cubelet_among(&self, avail: &Vec<usize>) -> (r: (&Cubelet<F>, Cell))
        requires
            self@.wf(),
            0 < self@.x * self@.y <= usize::MAX,
            avail@.len() > 0,
            forall|t: int|
                0 <= t < avail@.len() ==> #[trigger] avail@[t] < self@.cubelets.len()
                    && !(self@.cubelets[avail@[t] as int] is InsideAtom),
        ensures
            self@.in_bounds(r.1),
            *r.0 == self@.at(r.1),
            !(*r.0 is InsideAtom),
            exists|t: int| 0 <= t < avail@.len() && self@.flat(r.1) == avail@[t],
    {
        let t = random_below(avail.len());
        let i = avail[t];
        let ijk = self.ijk_from_index(i);
        (&self.cubelets[i], ijk)
    }

    /// The number of cubelets, `x * y * z`.
    pub fn ntot_cubelets(&self) -> (n: usize)
        requires
            self@.x * self@.y <= usize::MAX,
            self@.x * self@.y * self@.z <= usize::MAX,
        ensures
            n == self@.x * self@.y * self@.z,
    {
        self.x * self.y * self.z
    }
}

} // verus!
