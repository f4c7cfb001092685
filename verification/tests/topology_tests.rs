//! Topology provider: lattice neighborhoods, index conversions, and the
//! cube-surface manifold's neighbor counts and symmetry.
use sweeper_engine::topology::build_cube_adjacency;
use sweeper_engine::topology::build_lattice_adjacency;
use sweeper_engine::topology::coords_to_index;
use sweeper_engine::topology::count_cells;
use sweeper_engine::topology::cube_cells_adjacent;
use sweeper_engine::topology::index_to_coords;

#[test]
fn lattice_adjacency_two_dim_counts() {
    let dims: Vec<usize> = vec![3, 3];
    let adj = build_lattice_adjacency(&dims);
    assert_eq!(adj.len(), 9);
    // center has all eight neighbors, corners three, edges five
    assert_eq!(adj[4].len(), 8);
    assert_eq!(adj[0].len(), 3);
    assert_eq!(adj[1].len(), 5);
    assert_eq!(adj[4], vec![0, 1, 2, 3, 5, 6, 7, 8]);
    assert_eq!(adj[0], vec![1, 3, 4]);
}

#[test]
fn lattice_adjacency_three_dim_counts() {
    let dims: Vec<usize> = vec![3, 3, 3];
    let adj = build_lattice_adjacency(&dims);
    assert_eq!(adj.len(), 27);
    // the center of a 3-cube touches everything else
    assert_eq!(adj[13].len(), 26);
    // a corner touches the seven cells of its octant
    assert_eq!(adj[0].len(), 7);
}

#[test]
fn lattice_adjacency_is_symmetric() {
    let dims: Vec<usize> = vec![4, 3];
    let adj = build_lattice_adjacency(&dims);
    for a in 0..adj.len() {
        for &b in &adj[a] {
            assert!(adj[b].contains(&a));
        }
    }
}

#[test]
fn index_coordinate_round_trip() {
    let dims: Vec<usize> = vec![4, 3, 2];
    let total = count_cells(&dims);
    assert_eq!(total, 24);
    for idx in 0..total {
        let coords = index_to_coords(idx, &dims);
        assert_eq!(coords.len(), 3);
        for t in 0..3 {
            assert!(coords[t] < dims[t]);
        }
        assert_eq!(coords_to_index(&coords, &dims), idx);
    }
}

/// On the cube manifold every cell has 8 neighbors minus 0, 1 or 3,
/// by face-interior, edge or corner position.
#[test]
fn cube_neighbor_counts_follow_position() {
    for n in [3usize, 4] {
        let adj = build_cube_adjacency(n);
        assert_eq!(adj.len(), 6 * n * n);
        for a in 0..adj.len() {
            let r = (a % (n * n)) / n;
            let c = (a % (n * n)) % n;
            let on_r = r == 0 || r == n - 1;
            let on_c = c == 0 || c == n - 1;
            let expected = if on_r && on_c {
                5
            } else if on_r || on_c {
                7
            } else {
                8
            };
            assert_eq!(adj[a].len(), expected, "cell {} of cube side {}", a, n);
        }
    }
}

#[test]
fn cube_two_by_two_is_all_corners() {
    let adj = build_cube_adjacency(2);
    assert_eq!(adj.len(), 24);
    for a in 0..adj.len() {
        assert_eq!(adj[a].len(), 5);
    }
}

/// Adjacency on the cube is symmetric for every pair of cells.
#[test]
fn cube_adjacency_is_symmetric() {
    for n in [2usize, 3] {
        let total = 6 * n * n;
        for a in 0..total {
            for b in 0..total {
                assert_eq!(
                    cube_cells_adjacent(n, a, b),
                    cube_cells_adjacent(n, b, a),
                    "pair ({}, {}) on cube side {}",
                    a,
                    b,
                    n
                );
            }
        }
    }
}

#[test]
fn cube_adjacency_lists_match_pair_test() {
    let n = 3usize;
    let adj = build_cube_adjacency(n);
    for a in 0..adj.len() {
        for b in 0..adj.len() {
            assert_eq!(adj[a].contains(&b), cube_cells_adjacent(n, a, b));
        }
    }
}
