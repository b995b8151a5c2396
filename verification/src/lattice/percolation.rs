use vstd::prelude::*;

use crate::lattice::grid::{lemma_cluster_starts_grow, Cell, GridView};
use crate::lattice::index::lemma_flat_index_injective;
use crate::lattice::paths::{
    lemma_adjacent_is_backward_neighbor, lemma_adjacent_symmetric, lemma_backward_neighbor_props, lemma_connected_refl,
    lemma_connected_step, lemma_connected_symmetric, lemma_connected_trans,
};

verus! {

/// `c` is open and stored before position `p`: the labelling pass has reached it.
pub open spec fn visited(g: GridView, p: int, c: Cell) -> bool {
    g.is_open(c) && g.flat(c) < p
}

/// The labels of `cells`, in order.
pub open spec fn labels_of(g: GridView, cells: Seq<Cell>) -> Seq<u32> {
    cells.map_values(|c: Cell| g.label(c))
}

/// The registry entry of `l` lists, once each, exactly the visited cells labelled `l`.
pub open spec fn registry_exact(g: GridView, p: int, l: u32) -> bool {
    &&& g.clusters.contains_key(l)
    &&& g.clusters[l].no_duplicates()
    &&& forall|c: Cell|
        #![trigger g.clusters[l].contains(c)]
        #![trigger visited(g, p, c)]
        g.clusters[l].contains(c) <==> (visited(g, p, c) && g.label(c) == l)
}

/// Visited cells carry labels `1..=nc`, each registered exactly; no label of `1..=nc`
/// is registered without cells; registry entries outside `1..=nc` are those of `base`.
pub open spec fn registry_ok(g: GridView, p: int, nc: u32, base: Map<u32, Seq<Cell>>) -> bool {
    &&& forall|l: u32|
        #![trigger g.clusters.contains_key(l)]
        1 <= l <= nc && g.clusters.contains_key(l) ==> g.clusters[l].len() > 0
    &&& forall|c: Cell|
        #![trigger visited(g, p, c)]
        visited(g, p, c) ==> 1 <= g.label(c) <= nc && g.clusters.contains_key(g.label(c))
    &&& forall|l: u32|
        #![trigger g.clusters.contains_key(l)]
        1 <= l <= nc && g.clusters.contains_key(l) ==> registry_exact(g, p, l)
    &&& forall|l: u32|
        #![trigger g.clusters.contains_key(l)]
        #![trigger base.contains_key(l)]
        !(1 <= l <= nc) ==> (g.clusters.contains_key(l) <==> base.contains_key(l)) && (
        base.contains_key(l) ==> g.clusters[l] == base[l])
}

/// Visited cells joined by a backward link carry the same label.
pub open spec fn closed_under_links(g: GridView, p: int) -> bool {
    forall|a: Cell, b: Cell|
        #![trigger g.is_backward_neighbor(a, b), visited(g, p, a), visited(g, p, b)]
        visited(g, p, a) && visited(g, p, b) && g.is_backward_neighbor(a, b) ==> g.label(a)
            == g.label(b)
}

/// Visited cells that carry the same label are connected in `g0`.
pub open spec fn labels_connected(g: GridView, g0: GridView, p: int) -> bool {
    forall|a: Cell, b: Cell|
        #![trigger visited(g, p, a), visited(g, p, b)]
        visited(g, p, a) && visited(g, p, b) && g.label(a) == g.label(b) ==> g0.connected(a, b)
}

/// Every visited cell carries one more than the number of clusters that `g0` starts
/// before some visited cell, at or before it, that carries the same label.
pub open spec fn labels_from_starts(g: GridView, g0: GridView, p: int) -> bool {
    forall|a: Cell| #[trigger] has_origin(g, g0, p, a)
}

/// A visited cell `a` has a [`label_origin`].
pub open spec fn has_origin(g: GridView, g0: GridView, p: int, a: Cell) -> bool {
    visited(g, p, a) ==> exists|r: Cell| #[trigger] label_origin(g, g0, p, a, r)
}

/// `r` is visited, carries the label of `a`, comes no later than `a`, and the label is
/// one more than the number of clusters `g0` starts before `r`.
pub open spec fn label_origin(g: GridView, g0: GridView, p: int, a: Cell, r: Cell) -> bool {
    &&& visited(g, p, r)
    &&& g.label(r) == g.label(a)
    &&& g.flat(r) <= g.flat(a)
    &&& g0.cluster_starts(g.flat(r) as nat) + 1 == g.label(a)
}

pub open spec fn same_shape(g: GridView, h: GridView) -> bool {
    g.x_len == h.x_len && g.y_len == h.y_len && g.z_len == h.z_len && g.labels.len()
        == h.labels.len()
}

pub open spec fn same_openness(g: GridView, h: GridView) -> bool {
    forall|c: Cell| #![trigger g.is_open(c)] #![trigger h.is_open(c)] g.is_open(c) <==> h.is_open(c)
}

/// The cells stored at positions `p` and `q` of a well-formed grid are the same cell
/// exactly when the positions agree.
pub proof fn lemma_flat_eq(g: GridView, a: Cell, b: Cell)
    requires
        g.in_bounds(a),
        g.in_bounds(b),
    ensures
        g.flat(a) == g.flat(b) <==> a == b,
{
    if g.flat(a) == g.flat(b) {
        lemma_flat_index_injective(g.x_len, g.y_len, g.z_len, a, b);
    }
}

/// An in-bounds cell of a well-formed grid has a storage position.
pub proof fn lemma_in_bounds_flat(g: GridView, c: Cell)
    requires
        g.wf(),
        g.in_bounds(c),
    ensures
        0 <= g.flat(c) < g.labels.len(),
{
    crate::lattice::index::lemma_flat_index_bounds(g.x_len, g.y_len, g.z_len, c);
}

/// One step of the labelling pass keeps labels closed under links and makes every
/// label class connected.
pub proof fn lemma_percolate_step(
    g0: GridView,
    v: GridView,
    w: GridView,
    p: int,
    c: Cell,
    kept: Seq<Cell>,
    m: u32,
)
    requires
        v.dims_at_least_two(),
        same_shape(g0, v),
        same_shape(v, w),
        same_openness(g0, v),
        same_openness(v, w),
        v.in_bounds(c),
        v.flat(c) == p,
        v.is_open(c),
        closed_under_links(v, p),
        labels_connected(v, g0, p),
        forall|d: Cell| #[trigger]
            kept.contains(d) <==> (v.is_backward_neighbor(c, d) && v.is_open(d)),
        kept.len() == 0 ==> forall|d: Cell| #[trigger] visited(v, p, d) ==> v.label(d) != m,
        kept.len() > 0 ==> labels_of(v, kept).contains(m),
        w.label(c) == m,
        forall|d: Cell|
            #![trigger w.label(d)]
            v.in_bounds(d) && d != c ==> w.label(d) == if visited(v, p, d) && labels_of(
                v,
                kept,
            ).contains(v.label(d)) {
                m
            } else {
                v.label(d)
            },
    ensures
        closed_under_links(w, p + 1),
        labels_connected(w, g0, p + 1),
{
    let s = labels_of(v, kept);
    assert forall|d: Cell| #[trigger] visited(w, p + 1, d) implies visited(v, p, d) || d == c by {
        if d != c {
            lemma_flat_eq(v, d, c);
        }
    }
    assert forall|d: Cell| visited(v, p, d) implies #[trigger] visited(w, p + 1, d) by {
        assert(v.is_open(d));
    }
    // every cell that now carries `m` is connected to `c`
    assert forall|a: Cell| visited(w, p + 1, a) && w.label(a) == m implies g0.connected(a, c) by {
        assert(g0.is_open(c));
        if a == c {
            lemma_connected_refl(g0, c);
        } else {
            assert(visited(v, p, a));
            if s.contains(v.label(a)) {
                let t = choose|t: int| 0 <= t < s.len() && s[t] == v.label(a);
                let n = kept[t];
                assert(kept.contains(n));
                assert(v.is_backward_neighbor(c, n) && v.is_open(n));
                lemma_backward_neighbor_props(v, c, n);
                assert(visited(v, p, n));
                assert(v.label(n) == v.label(a));
                assert(g0.connected(a, n));
                assert(g0.is_open(n));
                lemma_adjacent_symmetric(g0, c, n);
                lemma_connected_step(g0, n, c);
                lemma_connected_trans(g0, a, n, c);
            } else {
                assert(w.label(a) == v.label(a));
                if kept.len() == 0 {
                    assert(v.label(a) != m);
                } else {
                    assert(s.contains(m));
                }
            }
        }
    }
    assert forall|a: Cell, b: Cell|
        #![trigger visited(w, p + 1, a), visited(w, p + 1, b)]
        visited(w, p + 1, a) && visited(w, p + 1, b) && w.label(a) == w.label(b) implies g0.connected(
        a,
        b,
    ) by {
        if w.label(a) == m {
            assert(g0.connected(a, c));
            assert(g0.connected(b, c));
            lemma_connected_symmetric(g0, b, c);
            lemma_connected_trans(g0, a, c, b);
        } else {
            assert(a != c && b != c);
            assert(visited(v, p, a) && visited(v, p, b));
            if s.contains(v.label(a)) {
            } else if s.contains(v.label(b)) {
            } else {
                assert(v.label(a) == v.label(b));
            }
        }
    }
    assert forall|a: Cell, b: Cell|
        #![trigger w.is_backward_neighbor(a, b), visited(w, p + 1, a), visited(w, p + 1, b)]
        visited(w, p + 1, a) && visited(w, p + 1, b) && w.is_backward_neighbor(
            a,
            b,
        ) implies w.label(a) == w.label(b) by {
        lemma_backward_neighbor_props(v, a, b);
        if a == c {
            assert(b != c);
            assert(visited(v, p, b));
            assert(kept.contains(b));
            let t = choose|t: int| 0 <= t < kept.len() && kept[t] == b;
            assert(s[t] == v.label(b));
            assert(s.contains(v.label(b)));
        } else if b == c {
            assert(visited(v, p, a));
            assert(false);
        } else {
            assert(visited(v, p, a) && visited(v, p, b));
            assert(v.is_backward_neighbor(a, b));
            assert(v.label(a) == v.label(b));
        }
    }
}

/// The label a cell carries once the labels in `s` of visited cells have been merged
/// into `m`.
pub open spec fn relabel(g: GridView, p: int, s: Seq<u32>, m: u32, d: Cell) -> u32 {
    if visited(g, p, d) && s.contains(g.label(d)) {
        m
    } else {
        g.label(d)
    }
}

/// One step of the labelling pass keeps every label tied to the cluster start it came
/// from: a new cluster gets the count of starts before it plus one, and a merge keeps
/// the smallest label, whose start comes first.
pub proof fn lemma_labels_from_starts_step(
    g0: GridView,
    v: GridView,
    w: GridView,
    p: int,
    c: Cell,
    kept: Seq<Cell>,
    m: u32,
)
    requires
        same_shape(g0, v),
        same_shape(v, w),
        same_openness(v, w),
        v.in_bounds(c),
        v.flat(c) == p,
        v.is_open(c),
        labels_from_starts(v, g0, p),
        forall|t: int| 0 <= t < kept.len() ==> #[trigger] visited(v, p, kept[t]),
        kept.len() == 0 ==> m == g0.cluster_starts(p as nat) + 1,
        kept.len() > 0 ==> labels_of(v, kept).contains(m),
        forall|t: int| 0 <= t < kept.len() ==> m <= #[trigger] v.label(kept[t]),
        w.label(c) == m,
        forall|d: Cell|
            #![trigger w.label(d)]
            v.in_bounds(d) && d != c ==> w.label(d) == if visited(v, p, d) && labels_of(
                v,
                kept,
            ).contains(v.label(d)) {
                m
            } else {
                v.label(d)
            },
    ensures
        labels_from_starts(w, g0, p + 1),
{
    assert forall|a: Cell| #[trigger] has_origin(w, g0, p + 1, a) by {
        if visited(w, p + 1, a) {
            let r = lemma_label_origin_one(g0, v, w, p, c, kept, m, a);
            assert(label_origin(w, g0, p + 1, a, r));
        }
    }
}

/// The witness of [`lemma_labels_from_starts_step`] for one cell `a`.
proof fn lemma_label_origin_one(
    g0: GridView,
    v: GridView,
    w: GridView,
    p: int,
    c: Cell,
    kept: Seq<Cell>,
    m: u32,
    a: Cell,
) -> (r: Cell)
    requires
        same_shape(g0, v),
        same_shape(v, w),
        same_openness(v, w),
        v.in_bounds(c),
        v.flat(c) == p,
        v.is_open(c),
        labels_from_starts(v, g0, p),
        forall|t: int| 0 <= t < kept.len() ==> #[trigger] visited(v, p, kept[t]),
        kept.len() == 0 ==> m == g0.cluster_starts(p as nat) + 1,
        kept.len() > 0 ==> labels_of(v, kept).contains(m),
        forall|t: int| 0 <= t < kept.len() ==> m <= #[trigger] v.label(kept[t]),
        w.label(c) == m,
        forall|d: Cell|
            #![trigger w.label(d)]
            v.in_bounds(d) && d != c ==> w.label(d) == if visited(v, p, d) && labels_of(
                v,
                kept,
            ).contains(v.label(d)) {
                m
            } else {
                v.label(d)
            },
        visited(w, p + 1, a),
    ensures
        label_origin(w, g0, p + 1, a, r),
{
    let s = labels_of(v, kept);
    if a != c {
        lemma_flat_eq(v, a, c);
        assert(v.is_open(a));
        assert(visited(v, p, a));
    }
    if kept.len() > 0 && (a == c || s.contains(v.label(a))) {
        let t0 = choose|t: int| 0 <= t < s.len() && s[t] == m;
        let b0 = kept[t0];
        assert(visited(v, p, b0));
        assert(has_origin(v, g0, p, b0));
        let r0 = choose|r: Cell| #[trigger] label_origin(v, g0, p, b0, r);
        assert(r0 != c);
        assert(w.label(r0) == m);
        assert(w.is_open(r0));
        if a == c {
            r0
        } else {
            let l = v.label(a);
            let ta = choose|t: int| 0 <= t < s.len() && s[t] == l;
            assert(m <= v.label(kept[ta]));
            assert(has_origin(v, g0, p, a));
            let ra = choose|r: Cell| #[trigger] label_origin(v, g0, p, a, r);
            assert(ra != c);
            assert(w.label(ra) == m);
            assert(w.is_open(ra));
            if m == l {
                ra
            } else {
                if v.flat(ra) <= v.flat(r0) {
                    lemma_cluster_starts_grow(g0, v.flat(ra) as nat, v.flat(r0) as nat);
                }
                r0
            }
        }
    } else if a == c {
        c
    } else {
        assert(has_origin(v, g0, p, a));
        let ra = choose|r: Cell| #[trigger] label_origin(v, g0, p, a, r);
        assert(ra != c);
        assert(w.label(ra) == v.label(ra));
        assert(w.is_open(ra));
        ra
    }
}

/// Merging the registered cluster `l` into the registered cluster `m` keeps the
/// registry exact.
pub proof fn lemma_merge_registry(
    cur: GridView,
    new: GridView,
    p: int,
    nc: u32,
    base: Map<u32, Seq<Cell>>,
    l: u32,
    m: u32,
)
    requires
        registry_ok(cur, p, nc, base),
        1 <= l <= nc,
        1 <= m <= nc,
        l != m,
        cur.clusters.contains_key(l),
        cur.clusters.contains_key(m),
        same_shape(cur, new),
        forall|d: Cell|
            #![trigger new.label(d)]
            cur.in_bounds(d) ==> new.label(d) == if visited(cur, p, d) && cur.label(d) == l {
                m
            } else {
                cur.label(d)
            },
        new.clusters == cur.clusters.remove(l).insert(m, cur.clusters[m] + cur.clusters[l]),
    ensures
        registry_ok(new, p, nc, base),
        same_openness(cur, new),
        forall|d: Cell| #[trigger] visited(new, p, d) <==> visited(cur, p, d),
{
    assert forall|d: Cell| #![trigger cur.is_open(d)] #![trigger new.is_open(d)]
        cur.is_open(d) <==> new.is_open(d) by {
        if cur.in_bounds(d) {
            assert(new.label(d) == if visited(cur, p, d) && cur.label(d) == l {
                m
            } else {
                cur.label(d)
            });
        }
    }
    assert forall|d: Cell| #[trigger] visited(new, p, d) <==> visited(cur, p, d) by {
        assert(cur.is_open(d) <==> new.is_open(d));
    }
    assert(registry_exact(cur, p, l));
    assert(registry_exact(cur, p, m));
    let lm = cur.clusters[m];
    let ll = cur.clusters[l];
    assert forall|i: int, j: int| 0 <= i < lm.len() && 0 <= j < ll.len() implies lm[i] != ll[j] by {
        assert(lm.contains(lm[i]));
        assert(ll.contains(ll[j]));
    }
    vstd::seq_lib::lemma_no_dup_in_concat(lm, ll);
    assert forall|d: Cell|
        #![trigger new.clusters[m].contains(d)]
        #![trigger visited(new, p, d)]
        new.clusters[m].contains(d) <==> (visited(new, p, d) && new.label(d) == m) by {
        vstd::seq_lib::lemma_seq_concat_contains_all_elements(lm, ll, d);
        assert(new.clusters[m] == lm + ll);
        if visited(cur, p, d) {
            assert(lm.contains(d) <==> cur.label(d) == m);
            assert(ll.contains(d) <==> cur.label(d) == l);
        } else {
            assert(!lm.contains(d));
            assert(!ll.contains(d));
        }
    }
    assert(registry_exact(new, p, m));
    assert forall|k: u32|
        #![trigger new.clusters.contains_key(k)]
        1 <= k <= nc && new.clusters.contains_key(k) implies new.clusters[k].len() > 0 by {
        if k != m {
            assert(cur.clusters.contains_key(k));
        }
    }
    assert forall|k: u32|
        #![trigger new.clusters.contains_key(k)]
        1 <= k <= nc && new.clusters.contains_key(k) implies registry_exact(new, p, k) by {
        if k != m {
            assert(k != l);
            assert(cur.clusters.contains_key(k));
            assert(registry_exact(cur, p, k));
            assert(new.clusters[k] == cur.clusters[k]);
            assert forall|d: Cell|
                #![trigger new.clusters[k].contains(d)]
                #![trigger visited(new, p, d)]
                new.clusters[k].contains(d) <==> (visited(new, p, d) && new.label(d) == k) by {
                if visited(cur, p, d) {
                    assert(new.label(d) == if cur.label(d) == l {
                        m
                    } else {
                        cur.label(d)
                    });
                }
            }
        }
    }
    assert forall|d: Cell| #![trigger visited(new, p, d)] visited(new, p, d) implies 1 <= new.label(
        d,
    ) <= nc && new.clusters.contains_key(new.label(d)) by {
        assert(visited(cur, p, d));
        assert(new.label(d) == if cur.label(d) == l {
            m
        } else {
            cur.label(d)
        });
    }
    assert forall|k: u32|
        #![trigger new.clusters.contains_key(k)]
        #![trigger base.contains_key(k)]
        !(1 <= k <= nc) implies (new.clusters.contains_key(k) <==> base.contains_key(k)) && (
        base.contains_key(k) ==> new.clusters[k] == base[k]) by {
        assert(cur.clusters.contains_key(k) <==> base.contains_key(k));
    }
}

/// Registering the cell at position `p` under label `m` (a new label `nc + 1`, or a
/// registered one) keeps the registry exact one position further.
pub proof fn lemma_register_cell(
    cur: GridView,
    new: GridView,
    p: int,
    nc: u32,
    nc2: u32,
    base: Map<u32, Seq<Cell>>,
    c: Cell,
    m: u32,
)
    requires
        cur.wf(),
        registry_ok(cur, p, nc, base),
        cur.in_bounds(c),
        cur.flat(c) == p,
        cur.is_open(c),
        same_shape(cur, new),
        new.label(c) == m,
        forall|d: Cell| #![trigger new.label(d)] cur.in_bounds(d) && d != c ==> new.label(d) == cur.label(d),
        (nc2 == nc + 1 && m == nc2 && new.clusters == cur.clusters.insert(m, seq![c])) || (nc2
            == nc && 1 <= m <= nc && cur.clusters.contains_key(m) && new.clusters
            == cur.clusters.insert(m, cur.clusters[m].push(c))),
    ensures
        registry_ok(new, p + 1, nc2, base),
        forall|d: Cell| #[trigger] visited(new, p + 1, d) <==> (visited(cur, p, d) || d == c),
        same_openness(cur, new),
{
    assert forall|d: Cell| #![trigger cur.is_open(d)] #![trigger new.is_open(d)]
        cur.is_open(d) <==> new.is_open(d) by {
        if cur.in_bounds(d) && d != c {
            assert(new.label(d) == cur.label(d));
        }
    }
    assert forall|d: Cell| #[trigger] visited(new, p + 1, d) <==> (visited(cur, p, d) || d == c) by {
        if cur.in_bounds(d) {
            lemma_flat_eq(cur, d, c);
        }
        assert(cur.is_open(d) <==> new.is_open(d));
    }
    assert forall|d: Cell| #![trigger visited(new, p + 1, d)] visited(new, p + 1, d) implies 1
        <= new.label(d) <= nc2 && new.clusters.contains_key(new.label(d)) by {
        if d != c {
            assert(visited(cur, p, d));
            assert(new.label(d) == cur.label(d));
        }
    }
    assert forall|l: u32|
        #![trigger new.clusters.contains_key(l)]
        1 <= l <= nc2 && new.clusters.contains_key(l) implies new.clusters[l].len() > 0 by {
        if l != m {
            assert(cur.clusters.contains_key(l));
        }
    }
    assert forall|l: u32|
        #![trigger new.clusters.contains_key(l)]
        1 <= l <= nc2 && new.clusters.contains_key(l) implies registry_exact(new, p + 1, l) by {
        if l == m {
            if nc2 == nc + 1 {
                assert forall|d: Cell|
                    #![trigger new.clusters[l].contains(d)]
                    #![trigger visited(new, p + 1, d)]
                    new.clusters[l].contains(d) <==> (visited(new, p + 1, d) && new.label(d) == l) by {
                    vstd::seq_lib::lemma_seq_contains_after_push(Seq::<Cell>::empty(), c, d);
                    assert(seq![c] == Seq::<Cell>::empty().push(c));
                    if visited(cur, p, d) {
                        assert(cur.label(d) <= nc);
                        assert(new.label(d) == cur.label(d));
                    }
                }
            } else {
                let old_list = cur.clusters[m];
                assert(registry_exact(cur, p, m));
                assert(!old_list.contains(c));
                assert forall|a: int, b: int|
                    0 <= a < old_list.push(c).len() && 0 <= b < old_list.push(c).len() && a != b implies
                    old_list.push(c)[a] != old_list.push(c)[b] by {
                    if a < old_list.len() && b < old_list.len() {
                    } else if a < old_list.len() {
                        assert(old_list.contains(old_list[a]));
                    } else if b < old_list.len() {
                        assert(old_list.contains(old_list[b]));
                    }
                }
                assert forall|d: Cell|
                    #![trigger new.clusters[l].contains(d)]
                    #![trigger visited(new, p + 1, d)]
                    new.clusters[l].contains(d) <==> (visited(new, p + 1, d) && new.label(d) == l) by {
                    vstd::seq_lib::lemma_seq_contains_after_push(old_list, c, d);
                    if d != c && cur.in_bounds(d) {
                        assert(new.label(d) == cur.label(d));
                    }
                }
            }
        } else {
            assert(l <= nc);
            assert(cur.clusters.contains_key(l));
            assert(registry_exact(cur, p, l));
            assert forall|d: Cell|
                #![trigger new.clusters[l].contains(d)]
                #![trigger visited(new, p + 1, d)]
                new.clusters[l].contains(d) <==> (visited(new, p + 1, d) && new.label(d) == l) by {
                if d != c && cur.in_bounds(d) {
                    assert(new.label(d) == cur.label(d));
                }
            }
        }
    }
    assert forall|l: u32|
        #![trigger new.clusters.contains_key(l)]
        #![trigger base.contains_key(l)]
        !(1 <= l <= nc2) implies (new.clusters.contains_key(l) <==> base.contains_key(l)) && (
        base.contains_key(l) ==> new.clusters[l] == base[l]) by {
        assert(!(1 <= l <= nc));
        assert(cur.clusters.contains_key(l) <==> base.contains_key(l));
    }
}

/// Along a walk through open cells of a grid whose labels are closed under links, every
/// cell carries the label of the first one.
pub proof fn lemma_path_same_label(g: GridView, path: Seq<Cell>)
    requires
        g.wf(),
        g.dims_at_least_two(),
        closed_under_links(g, g.labels.len() as int),
        g.is_path(path),
    ensures
        forall|t: int| 0 <= t < path.len() ==> #[trigger] g.label(path[t]) == g.label(path[0]),
    decreases path.len(),
{
    let n = g.labels.len() as int;
    if path.len() > 1 {
        let front = path.drop_last();
        assert forall|t: int| 0 <= t < front.len() implies #[trigger] g.is_open(front[t]) by {
            assert(g.is_open(path[t]));
        }
        assert forall|t: int| 0 <= t < front.len() - 1 implies #[trigger] g.adjacent(
            front[t],
            front[t + 1],
        ) by {
            assert(g.adjacent(path[t], path[t + 1]));
        }
        lemma_path_same_label(g, front);
        let a = path[path.len() - 2];
        let b = path[path.len() - 1];
        assert(g.adjacent(path[path.len() - 2], path[path.len() - 2 + 1]));
        assert(g.is_open(a) && g.is_open(b));
        lemma_in_bounds_flat(g, a);
        lemma_in_bounds_flat(g, b);
        assert(visited(g, n, a) && visited(g, n, b));
        lemma_adjacent_is_backward_neighbor(g, a, b);
        if g.is_backward_neighbor(a, b) {
            assert(g.label(a) == g.label(b));
        } else {
            assert(g.label(b) == g.label(a));
        }
        assert forall|t: int| 0 <= t < path.len() implies #[trigger] g.label(path[t]) == g.label(
            path[0],
        ) by {
            assert(front[0] == path[0]);
            if t < path.len() - 1 {
                assert(g.label(front[t]) == g.label(front[0]));
            } else {
                assert(front[front.len() - 1] == a);
                assert(g.label(front[front.len() - 1]) == g.label(front[0]));
            }
        }
    }
}

} // verus!
