//! The solver strategies end to end on hand-enumerated puzzles, the
//! deterministic reducer, and the risk estimator.
use sweeper_engine::algorithms::Algorithm;
use sweeper_engine::algorithms::WasmAlgorithmType;
use sweeper_engine::algorithms::metaheuristic::MetaHeuristicRunner;
use sweeper_engine::algorithms::sat_global::GlobalSatSolver;
use sweeper_engine::algorithms::sat_partitioned::PartitionedSatSolver;
use sweeper_engine::algorithms::sat_solver::SATSolver;
use sweeper_engine::algorithms::sat_solver_4d::SatSolver4D;
use sweeper_engine::algorithms::exact_solver::ExactSolver;
use sweeper_engine::algorithms::greedy::GreedyAlgorithm;
use sweeper_engine::algorithms::sat_utils::get_frontier;
use sweeper_engine::algorithms::sat_utils::get_probabilistic_fallback;
use sweeper_engine::board::Board;
use sweeper_engine::constraints::Constraint;
use sweeper_engine::constraints::collect_constraints;
use sweeper_engine::reducer::apply_zero_full_rules;
use sweeper_engine::reducer::reduce_constraints;

/// A 3x3 puzzle with one hidden mine at the bottom-right corner and one
/// more hidden cell: every cell but indices 2 and 8 is revealed, and the
/// clue at index 7 pins the mine, leaving index 2 as the one safe cell.
fn three_by_three_puzzle() -> Board {
    let mut b = Board::new(3, 3, 1);
    b.cells[8].is_mine = true;
    b.calculate_adjacent_mines();
    for i in [0usize, 1, 3, 4, 5, 6, 7] {
        b.cells[i].is_revealed = true;
    }
    b.total_revealed = 7;
    b.total_clicks = 7;
    b
}

/// On the hand-enumerated puzzle the refutation stage returns exactly the
/// one known safe cell.
#[test]
fn dpll_stage_finds_the_unique_safe_cell() {
    let b = three_by_three_puzzle();
    let mut solver = GlobalSatSolver::new(3, 3, 1);
    let r = solver.find_candidates(&b);
    assert!(!r.is_guess);
    assert_eq!(r.candidates, vec![2]);
}

#[test]
fn partitioned_solver_agrees_on_the_unique_safe_cell() {
    let b = three_by_three_puzzle();
    let mut solver = PartitionedSatSolver::new(3, 3, 1);
    let r = solver.find_candidates(&b);
    assert!(!r.is_guess);
    assert_eq!(r.candidates, vec![2]);
}

/// Brute-force soundness: every mine assignment consistent with the
/// clues has its mine away from every cell the engine marks safe.
#[test]
fn safe_marks_survive_brute_force_enumeration() {
    let b = three_by_three_puzzle();
    let mut solver = GlobalSatSolver::new(3, 3, 1);
    let r = solver.find_candidates(&b);
    assert!(!r.is_guess);
    let hidden: Vec<usize> = (0..9).filter(|&i| !b.cells[i].is_revealed).collect();
    // enumerate every placement of the one mine over the hidden cells
    let mut consistent_found = 0;
    for &mine in &hidden {
        let consistent = (0..9).all(|i| {
            if !b.cells[i].is_revealed || b.cells[i].adjacent_mines == 0 {
                return true;
            }
            let count = b.adjacency_map[i]
                .iter()
                .filter(|&&n| !b.cells[n].is_revealed && n == mine)
                .count();
            count == b.cells[i].adjacent_mines as usize
        });
        if consistent {
            consistent_found += 1;
            for &s in &r.candidates {
                assert_ne!(s, mine, "engine marked a possible mine as safe");
            }
        }
    }
    assert_eq!(consistent_found, 1);
}

/// Two overlapping one-mine clues sharing exactly one unknown neighbor:
/// the subset-difference rule frees the larger clue's private cell.
#[test]
fn subset_difference_frees_private_cells() {
    let b = three_by_three_puzzle();
    let solver = SatSolver4D::new(3, 3, 1);
    let safe = solver.perform_subset_deduction(&b);
    assert_eq!(safe, vec![2]);
}

#[test]
fn sat_lite_layers_return_the_safe_cell_without_guessing() {
    let b = three_by_three_puzzle();
    let mut solver = SatSolver4D::new(3, 3, 1);
    let r = solver.find_candidates(&b);
    assert!(!r.is_guess);
    assert_eq!(r.candidates, vec![2]);
}

/// The full rule marks the pinned cell as a mine, and the partition
/// keeps safe and mine sides disjoint.
#[test]
fn full_rule_marks_the_pinned_mine() {
    let b = three_by_three_puzzle();
    let cs = collect_constraints(&b);
    let (reduced, capped) = reduce_constraints(cs);
    assert!(!capped);
    let (safe, mines) = apply_zero_full_rules(&reduced);
    assert_eq!(safe, vec![2]);
    assert_eq!(mines, vec![8]);
}

/// Re-running the reducer on its own uncapped output changes nothing.
#[test]
fn reducer_run_twice_is_identical() {
    let b = three_by_three_puzzle();
    let cs = collect_constraints(&b);
    let (once, capped1) = reduce_constraints(cs);
    assert!(!capped1);
    let copy: Vec<Constraint> = once
        .iter()
        .map(|c| Constraint { cells: c.cells.clone(), mines: c.mines })
        .collect();
    let (twice, capped2) = reduce_constraints(copy);
    assert!(!capped2);
    assert_eq!(once.len(), twice.len());
    for k in 0..once.len() {
        assert_eq!(once[k].cells, twice[k].cells);
        assert_eq!(once[k].mines, twice[k].mines);
    }
    let p1 = apply_zero_full_rules(&once);
    let p2 = apply_zero_full_rules(&twice);
    assert_eq!(p1.0, p2.0);
    assert_eq!(p1.1, p2.1);
}

#[test]
fn frontier_lists_hidden_cells_touching_clues() {
    let b = three_by_three_puzzle();
    assert_eq!(get_frontier(&b), vec![2, 8]);
}

/// The conservative estimator prefers the cell under the weakest
/// constraint pressure: a cell in a 1-of-3 clue beats a cell in 1-of-1.
#[test]
fn estimator_prefers_lowest_ratio() {
    let mut b = Board::new(4, 1, 1);
    // four cells in a row with the mine next to the left end
    b.cells[1].is_mine = true;
    b.calculate_adjacent_mines();
    b.cells[0].is_revealed = true;
    b.cells[2].is_revealed = true;
    b.total_revealed = 2;
    b.total_clicks = 2;
    // the left clue demands its single hidden neighbor, so that cell
    // scores one; the middle clue spreads one mine over two cells, so
    // the right cell scores one half and wins
    let picks = get_probabilistic_fallback(&b, 4, 1, 1);
    assert_eq!(picks, vec![3]);
}

#[test]
fn fallback_on_untouched_board_returns_all_cells() {
    let b = Board::new(2, 2, 1);
    let picks = get_probabilistic_fallback(&b, 2, 2, 1);
    // no constraints: every hidden cell carries the same global density
    assert_eq!(picks, vec![0, 1, 2, 3]);
}

#[test]
fn exact_solver_finds_safe_cell_by_pair_analysis() {
    let b = three_by_three_puzzle();
    let mut solver = ExactSolver::new(3, 3, 1);
    // skip the canned first move
    let first = solver.next_move(&b);
    assert_eq!(first, Some((1, 1)));
    let second = solver.next_move(&b);
    assert_eq!(second, Some((2, 0)));
}

#[test]
fn greedy_uses_met_clue_after_flagging() {
    let b = {
        let mut b = three_by_three_puzzle();
        // flag the pinned mine: clue 7 is now fully met
        b.toggle_flag(2, 2);
        b
    };
    let mut solver = GreedyAlgorithm::new(3, 3, 1);
    solver.first_move = false;
    let r = solver.find_candidates(&b);
    assert!(!r.is_guess);
    assert_eq!(r.candidates, vec![2]);
}

#[test]
fn lattice_solver_applies_zero_rule_in_any_rank() {
    let b = three_by_three_puzzle();
    let mut solver = SATSolver::new(vec![3, 3], 1);
    solver.first_move = false;
    // flag the mine so a clue becomes fully met
    let mut b2 = b;
    b2.toggle_flag(2, 2);
    let r = solver.find_candidates(&b2);
    assert!(!r.is_guess);
    assert_eq!(r.candidates, vec![2]);
}

#[test]
fn lattice_solver_simple_rules_report_coordinates() {
    let mut b = three_by_three_puzzle();
    b.toggle_flag(2, 2);
    let solver = SATSolver::new(vec![3, 3], 1);
    let safe = solver.apply_simple_rules(&b);
    assert_eq!(safe, Some(vec![2, 0]));
}

#[test]
fn strategy_names_and_roster() {
    assert_eq!(WasmAlgorithmType::Greedy.as_str(), "greedy");
    assert_eq!(WasmAlgorithmType::ExactSolver.as_str(), "exact_solver");
    assert_eq!(WasmAlgorithmType::all().len(), 5);
}

#[test]
fn benchmark_runner_configuration() {
    let r = MetaHeuristicRunner::new(30);
    assert_eq!(r.iterations, 30);
    assert_eq!(r.board_sizes, vec![(3, 3), (5, 5), (8, 8), (10, 10)]);
}

/// Brute-force soundness on a 4x4 board with three mines: over every
/// mine placement consistent with the clue constraints, no cell the
/// engine marks safe carries a mine.
#[test]
fn four_by_four_three_mines_brute_force() {
    let mut b = Board::new(4, 4, 3);
    for &m in &[3usize, 12, 15] {
        b.cells[m].is_mine = true;
    }
    b.calculate_adjacent_mines();
    let hidden: Vec<usize> = vec![3, 7, 11, 12, 15];
    for i in 0..16 {
        if !hidden.contains(&i) {
            b.cells[i].is_revealed = true;
        }
    }
    b.total_revealed = 11;
    b.total_clicks = 11;

    let consistent = |mines: &Vec<usize>| -> bool {
        (0..16).all(|i| {
            if !b.cells[i].is_revealed || b.cells[i].adjacent_mines == 0 {
                return true;
            }
            let count = b.adjacency_map[i]
                .iter()
                .filter(|&&n| !b.cells[n].is_revealed && mines.contains(&n))
                .count();
            count == b.cells[i].adjacent_mines as usize
        })
    };

    let mut solver = GlobalSatSolver::new(4, 4, 3);
    let r = solver.find_candidates(&b);
    let mut consistent_count = 0;
    for mask in 0u32..(1 << hidden.len()) {
        let mines: Vec<usize> = hidden
            .iter()
            .enumerate()
            .filter(|(t, _)| mask & (1 << t) != 0)
            .map(|(_, &c)| c)
            .collect();
        if consistent(&mines) {
            consistent_count += 1;
            if !r.is_guess {
                for &s in &r.candidates {
                    assert!(!mines.contains(&s), "safe mark on a possible mine");
                }
            }
        }
    }
    assert!(consistent_count >= 1);

    // the reduction pipeline agrees, with the global count folded in
    let lite = SatSolver4D::new(4, 4, 3);
    let safe = lite.perform_subset_deduction(&b);
    for mask in 0u32..(1 << hidden.len()) {
        let mines: Vec<usize> = hidden
            .iter()
            .enumerate()
            .filter(|(t, _)| mask & (1 << t) != 0)
            .map(|(_, &c)| c)
            .collect();
        if mines.len() == 3 && consistent(&mines) {
            for &s in &safe {
                assert!(!mines.contains(&s), "subset rule marked a possible mine safe");
            }
        }
    }
}

/// The frontier partition: every frontier cell lands in exactly one
/// cluster, and cells sharing a clue share a cluster.
#[test]
fn components_partition_the_frontier() {
    // a 5x1 row with two separated clue regions: two clusters expected
    let mut b = Board::new(5, 1, 2);
    b.cells[1].is_mine = true;
    b.cells[3].is_mine = true;
    b.calculate_adjacent_mines();
    b.cells[0].is_revealed = true;
    b.cells[2].is_revealed = true;
    b.cells[4].is_revealed = true;
    b.total_revealed = 3;
    b.total_clicks = 3;
    let frontier = get_frontier(&b);
    assert_eq!(frontier, vec![1, 3]);
    let solver = PartitionedSatSolver::new(5, 1, 2);
    let clusters = solver.get_connected_components(&frontier, &b);
    // cover and disjointness
    let mut seen = vec![0usize; 5];
    for cl in &clusters {
        for &c in cl {
            assert!(frontier.contains(&c));
            seen[c] += 1;
        }
    }
    for &f in &frontier {
        assert_eq!(seen[f], 1, "frontier cell {} in exactly one cluster", f);
    }
    // cells 1 and 3 share clue 2, so they must share a cluster
    let c1 = clusters.iter().position(|cl| cl.contains(&1)).unwrap();
    let c3 = clusters.iter().position(|cl| cl.contains(&3)).unwrap();
    assert_eq!(c1, c3);
}

/// The reducer never reports a closed set as capped, and leaves it alone.
#[test]
fn reducer_accepts_closed_set_unchanged() {
    let cs = vec![
        Constraint { cells: vec![0, 1], mines: 1 },
        Constraint { cells: vec![0], mines: 1 },
        Constraint { cells: vec![1], mines: 0 },
    ];
    let (out, capped) = reduce_constraints(cs);
    assert!(!capped);
    assert_eq!(out.len(), 3);
}
