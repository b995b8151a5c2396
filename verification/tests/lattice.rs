use porecrusher::lattice::{
    count_cumulative, Cluster, Cubelet, Grid, Lattice, ProbeType, SpanDimensions,
};

#[test]
fn compare_clusters() {
    let a = Cluster::from(0);
    let b = Cluster::from(1);

    assert!(a < b);
    assert!(b != 0.into());
    assert!(b > 0.into());
}

#[test]
fn cluster_add_counts_up() {
    let c = Cluster::from(4) + 3;
    assert_eq!(c, Cluster::from(7));
}

fn open_cells(grid: &mut Grid, cells: &[(usize, usize, usize)]) {
    for &c in cells {
        grid.set(c, Cluster::from(1));
    }
}

#[test]
fn new_grid_is_closed() {
    let g = Grid::new(2, 3, 4);
    for k in 0..4 {
        for j in 0..3 {
            for i in 0..2 {
                assert_eq!(g.get((i, j, k)), Cluster::from(0));
            }
        }
    }
    assert!(g.span().is_none());
}

#[test]
fn set_then_get() {
    let mut g = Grid::new(3, 3, 3);
    g.set((1, 2, 0), Cluster::from(9));
    assert_eq!(g.get((1, 2, 0)), Cluster::from(9));
    assert_eq!(g.get((2, 1, 0)), Cluster::from(0));
    assert_eq!(g.get((1, 2, 1)), Cluster::from(0));
}

#[test]
fn clear_closes_every_cell() {
    let mut g = Grid::new(3, 3, 3);
    open_cells(&mut g, &[(0, 0, 0), (1, 0, 0), (2, 2, 2)]);
    g.percolate();
    g.clear();
    for k in 0..3 {
        for j in 0..3 {
            for i in 0..3 {
                assert_eq!(g.get((i, j, k)), Cluster::from(0));
            }
        }
    }
    assert!(g.span().is_none());
}

#[test]
fn percolate_joins_neighbours_and_separates_the_rest() {
    let mut g = Grid::new(5, 5, 5);
    open_cells(&mut g, &[(1, 1, 1), (2, 1, 1), (2, 2, 1), (1, 3, 3), (1, 3, 2)]);
    g.percolate();
    let a = g.get((1, 1, 1));
    let b = g.get((1, 3, 3));
    assert_ne!(a, Cluster::from(0));
    assert_ne!(b, Cluster::from(0));
    assert_eq!(g.get((2, 1, 1)), a);
    assert_eq!(g.get((2, 2, 1)), a);
    assert_eq!(g.get((1, 3, 2)), b);
    assert_ne!(a, b);
    assert_eq!(g.get((0, 0, 0)), Cluster::from(0));
}

#[test]
fn percolate_wraps_around_the_edges() {
    let mut g = Grid::new(4, 4, 4);
    open_cells(&mut g, &[(0, 1, 1), (3, 1, 1), (2, 0, 2), (2, 3, 2)]);
    g.percolate();
    assert_eq!(g.get((0, 1, 1)), g.get((3, 1, 1)));
    assert_eq!(g.get((2, 0, 2)), g.get((2, 3, 2)));
    assert_ne!(g.get((0, 1, 1)), g.get((2, 0, 2)));
}

#[test]
fn percolate_merges_two_labels_into_one() {
    // Two arms that only meet at the last cell visited.
    let mut g = Grid::new(5, 5, 5);
    open_cells(&mut g, &[(1, 1, 1), (1, 2, 1), (3, 1, 1), (3, 2, 1), (1, 3, 1), (2, 3, 1), (3, 3, 1)]);
    g.percolate();
    let a = g.get((1, 1, 1));
    assert_eq!(a, Cluster::from(1));
    for c in [(1, 2, 1), (3, 1, 1), (3, 2, 1), (1, 3, 1), (2, 3, 1), (3, 3, 1)] {
        assert_eq!(g.get(c), a);
    }
}

#[test]
fn span_of_a_line_along_x_is_one() {
    let mut g = Grid::new(3, 3, 3);
    open_cells(&mut g, &[(0, 0, 0), (1, 0, 0), (2, 0, 0)]);
    g.percolate();
    assert_eq!(g.span(), Some(SpanDimensions::One));
}

#[test]
fn span_of_a_plane_is_two() {
    let mut g = Grid::new(3, 3, 3);
    for j in 0..3 {
        for i in 0..3 {
            g.set((i, j, 1), Cluster::from(1));
        }
    }
    g.percolate();
    assert_eq!(g.span(), Some(SpanDimensions::Two));
}

#[test]
fn span_of_a_full_grid_is_three() {
    let mut g = Grid::new(3, 3, 3);
    for k in 0..3 {
        for j in 0..3 {
            for i in 0..3 {
                g.set((i, j, k), Cluster::from(1));
            }
        }
    }
    g.percolate();
    assert_eq!(g.span(), Some(SpanDimensions::Three));
}

#[test]
fn span_of_a_small_blob_is_none() {
    let mut g = Grid::new(4, 4, 4);
    open_cells(&mut g, &[(1, 1, 1), (2, 1, 1)]);
    g.percolate();
    assert_eq!(g.span(), None);
}

#[test]
fn span_dimensions_from_count_and_to_string() {
    assert_eq!(SpanDimensions::from_count(1), SpanDimensions::One);
    assert_eq!(SpanDimensions::from_count(2), SpanDimensions::Two);
    assert_eq!(SpanDimensions::from_count(3), SpanDimensions::Three);
    assert_eq!(SpanDimensions::One.to_string(), "1");
    assert_eq!(SpanDimensions::Two.to_string(), "2");
    assert_eq!(SpanDimensions::Three.to_string(), "3");
}

fn sample_lattice() -> Lattice<f64> {
    // 2 x 2 x 2 cubelets, i varying fastest.
    let cubelets = vec![
        Cubelet::InsideAtom,
        Cubelet::GeomAccessible { min_dist2: 1.0 },
        Cubelet::HeliumAccessible { min_dist2: 2.0, lj_energy: -1.0 },
        Cubelet::NitrogenAccessible { min_dist2: 4.0, lj_energy: -2.0 },
        Cubelet::InsideAtom,
        Cubelet::InsideAtom,
        Cubelet::GeomAccessible { min_dist2: 0.5 },
        Cubelet::NitrogenAccessible { min_dist2: 3.0, lj_energy: -0.5 },
    ];
    Lattice::from_cubelets(cubelets, 0.2, 2, 2, 2)
}

#[test]
fn lattice_accessors() {
    let lat = sample_lattice();
    assert_eq!(lat.dimensions(), [2, 2, 2]);
    assert_eq!(lat.ntot_cubelets(), 8);
    assert_eq!(lat.cubesize(), 0.2);
    assert_eq!(lat.cubelets().len(), 8);
    assert_eq!(lat.geom_accessible_cubelets(), vec![1, 2, 3, 6, 7]);
    assert!(!lat.is_geom_accessible(0, 0, 0));
    assert!(lat.is_geom_accessible(1, 0, 0));
    assert!(lat.is_helium_accessible(0, 1, 0));
    assert!(lat.is_helium_accessible(1, 1, 0));
    assert!(!lat.is_helium_accessible(1, 0, 0));
    assert!(lat.is_nitrogen_accessible(1, 1, 0));
    assert!(!lat.is_nitrogen_accessible(0, 1, 0));
    assert!(matches!(lat.get((1, 1, 1)), Cubelet::NitrogenAccessible { .. }));
}

#[test]
fn minimum_distance2_of_each_kind() {
    let lat = sample_lattice();
    assert_eq!(lat.get((0, 0, 0)).minimum_distance2(), None);
    assert_eq!(lat.get((1, 0, 0)).minimum_distance2(), Some(1.0));
    assert_eq!(lat.get((0, 1, 0)).minimum_distance2(), Some(2.0));
    assert_eq!(lat.get((1, 1, 0)).minimum_distance2(), Some(4.0));
}

#[test]
fn index_and_cell_round_trip() {
    let cubelets = vec![Cubelet::GeomAccessible { min_dist2: 1.0 }; 24];
    let lat = Lattice::from_cubelets(cubelets, 1.0, 2, 3, 4);
    assert_eq!(lat.index_from_ijk((1, 2, 3)), 23);
    assert_eq!(lat.ijk_from_index(5), (1, 2, 0));
    assert_eq!(lat.ijk_from_index(23), (1, 2, 3));
    for p in 0..24 {
        let c = lat.ijk_from_index(p);
        assert_eq!(lat.index_from_ijk(c), p);
    }
}

#[test]
fn cell_counts_wrap_around() {
    let lat = sample_lattice();
    // Along an axis of 2 cubelets, 1 stays 1 and 4 folds back to (4 + 1) % 2 - 1 = 0.
    assert!(matches!(lat.get_from_cell_counts([1, 1, 1]), Cubelet::NitrogenAccessible { min_dist2, .. } if *min_dist2 == 3.0));
    assert!(matches!(lat.get_from_cell_counts([4, 1, 0]), Cubelet::HeliumAccessible { .. }));
}

#[test]
fn probe_grids_open_the_admitted_cubelets() {
    let lat = sample_lattice();
    let geom = lat.geom_accessible_grid();
    let he = lat.helium_accessible_grid();
    let n = lat.nitrogen_accessible_grid();
    let open = |g: &Grid, c| g.get(c) != Cluster::from(0);
    assert!(!open(&geom, (0, 0, 0)));
    assert!(open(&geom, (1, 0, 0)));
    assert!(open(&geom, (0, 1, 1)));
    assert!(!open(&he, (1, 0, 0)));
    assert!(open(&he, (0, 1, 0)));
    assert!(open(&he, (1, 1, 1)));
    assert!(!open(&n, (0, 1, 0)));
    assert!(open(&n, (1, 1, 0)));
    assert!(open(&n, (1, 1, 1)));
}

#[test]
fn populate_marks_cells_for_the_probe() {
    let lat = sample_lattice();
    let mut g = Grid::new(2, 2, 2);
    g.populate(&lat, Some(ProbeType::He));
    assert_eq!(g.get((0, 1, 0)), Cluster::from(1));
    assert_eq!(g.get((1, 1, 1)), Cluster::from(1));
    assert_eq!(g.get((1, 0, 0)), Cluster::from(0));
    g.populate(&lat, None);
    assert_eq!(g.get((1, 0, 0)), Cluster::from(1));
    assert_eq!(g.get((0, 0, 0)), Cluster::from(0));
}

#[test]
fn random_cubelets_lie_outside_the_atoms() {
    let lat = sample_lattice();
    let mut seen = [false; 8];
    for _ in 0..400 {
        let (c, ijk) = lat.rand_avail_cubelet();
        assert!(!matches!(c, Cubelet::InsideAtom));
        seen[lat.index_from_ijk(ijk)] = true;
    }
    // Every open cubelet is drawn sooner or later; the closed ones never.
    assert_eq!(seen, [false, true, true, true, false, false, true, true]);
}

#[test]
fn random_cubelets_among_given_positions() {
    let lat = sample_lattice();
    let avail = vec![3];
    for _ in 0..20 {
        let (_, ijk) = lat.rand_avail_cubelet_among(&avail);
        assert_eq!(ijk, (1, 1, 0));
    }
}

#[test]
fn cumulative_counts() {
    let mut counts = vec![0u64; 5];
    count_cumulative(&mut counts, 2);
    assert_eq!(counts, vec![1, 1, 1, 0, 0]);
    count_cumulative(&mut counts, 0);
    assert_eq!(counts, vec![2, 1, 1, 0, 0]);
    count_cumulative(&mut counts, 17);
    assert_eq!(counts, vec![3, 2, 2, 1, 1]);
}

#[test]
fn cluster_labels_order_by_number() {
    assert_eq!(Cluster::from(3).partial_cmp(&Cluster::from(4)), Some(std::cmp::Ordering::Less));
    assert_eq!(Cluster::from(4).partial_cmp(&Cluster::from(4)), Some(std::cmp::Ordering::Equal));
    assert!(Cluster::from(9) > Cluster::from(2));
    assert_eq!(Cluster::from(6).0, 6);
}

#[test]
fn periodic_neighbours_share_a_label_in_a_flat_grid() {
    let mut g = Grid::new(4, 2, 2);
    open_cells(&mut g, &[(0, 0, 0), (3, 0, 0), (2, 1, 1)]);
    assert_eq!(g.count_cluster_starts(), 2);
    g.percolate();
    assert_eq!(g.get((0, 0, 0)), g.get((3, 0, 0)));
    assert_ne!(g.get((0, 0, 0)), g.get((2, 1, 1)));
    assert_ne!(g.get((2, 1, 1)), Cluster::from(0));
    assert_eq!(g.get((1, 0, 0)), Cluster::from(0));
    assert_eq!(g.get((0, 0, 0)), Cluster::from(1));
    assert_eq!(g.get((3, 0, 0)), Cluster::from(1));
    assert_eq!(g.get((2, 1, 1)), Cluster::from(2));
}

#[test]
fn a_filled_plane_spans_two_directions() {
    let mut g = Grid::new(4, 2, 2);
    open_cells(&mut g, &[(0, 0, 0), (0, 1, 0), (0, 0, 1), (0, 1, 1)]);
    assert_eq!(g.count_cluster_starts(), 1);
    g.percolate();
    let s = g.span();
    assert_eq!(s, Some(SpanDimensions::Two));
    assert_eq!(s.unwrap().to_string(), "2");
}

#[test]
fn cluster_starts_of_scattered_cells() {
    let mut g = Grid::new(5, 5, 5);
    open_cells(&mut g, &[(1, 1, 1), (3, 3, 3), (1, 3, 1), (3, 1, 3), (2, 1, 1)]);
    assert_eq!(g.count_cluster_starts(), 4);
    assert_eq!(Grid::new(3, 3, 3).count_cluster_starts(), 0);
}

#[test]
fn a_thin_closed_grid_percolates_to_nothing() {
    let mut g = Grid::new(1, 3, 3);
    g.percolate();
    assert_eq!(g.get((0, 1, 2)), Cluster::from(0));
    assert!(g.span().is_none());
}

#[test]
fn random_cubelets_come_from_the_given_positions() {
    let lat = sample_lattice();
    let avail = vec![2, 7];
    for _ in 0..50 {
        let (_, ijk) = lat.rand_avail_cubelet_among(&avail);
        let p = lat.index_from_ijk(ijk);
        assert!(p == 2 || p == 7);
    }
}
