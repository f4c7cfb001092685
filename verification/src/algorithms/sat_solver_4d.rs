//! The SAT-lite solver: layered inference without a full satisfiability
//! search. Simple zero-rule scans first, then subset-difference reduction
//! to a fixed point over the clue constraints plus the global mine-count
//! constraint, and a conservative probabilistic ranking as the last layer.
use vstd::prelude::*;
use crate::algorithms::Algorithm;
use crate::algorithms::SolverResult;
use crate::algorithms::sat_utils::get_probabilistic_fallback;
use crate::algorithms::sat_utils::lemma_collected_sat;
use crate::board::Board;
use crate::constraints::Constraint;
use crate::constraints::all_sat;
use crate::constraints::board_consistent;
use crate::constraints::board_consistent_global;
use crate::constraints::collect_constraints;
use crate::constraints::constraint_sat;
use crate::constraints::global_constraint;
use crate::constraints::lemma_hidden_filter;
use crate::constraints::range_seq;
use crate::estimator::hidden_unflagged;
use crate::reducer::apply_zero_full_rules;
use crate::reducer::lemma_zero_marked_safe;
use crate::reducer::reduce_constraints;
use crate::reducer::zero_marked;

verus! {

/// Logical SAT-lite solver: constraint reduction without a full DPLL run.
pub struct SatSolver4D {
    pub mines: usize,
}

impl SatSolver4D {
    pub fn new(_w: usize, _h: usize, mines: usize) -> (r: SatSolver4D)
        ensures
            r.mines == mines,
    {
        SatSolver4D { mines }
    }

    /// Basic flag/number deduction: every clue whose demand is already met
    /// marks its hidden neighbors safe.
    pub fn perform_simple_deduction(&self, board: &Board) -> (r: Vec<usize>)
        requires
            board.wf(),
        ensures
            forall|m: Set<int>, q: int|
                #![trigger board_consistent(*board, m), r@[q]]
                board_consistent(*board, m) && 0 <= q < r@.len() ==> !m.contains(r@[q] as int),
            forall|q: int| 0 <= q < r@.len() ==> (#[trigger] r@[q] as int) < board.cells@.len(),
            forall|s: int, t: int| 0 <= s < t < r@.len() ==> r@[s] < r@[t],
            forall|x: usize| #[trigger] r@.contains(x) <==> crate::constraints::simple_safe(*board, x),
    {
        let cs = collect_constraints(board);
        let parts = apply_zero_full_rules(&cs);
        let safe = parts.0;
        proof {
            assert forall|m: Set<int>, q: int|
                #![trigger board_consistent(*board, m), safe@[q]]
                board_consistent(*board, m) && 0 <= q < safe@.len() implies !m.contains(
                safe@[q] as int,
            ) by {
                lemma_collected_sat(*board, cs@, m);
                assert(safe@.contains(safe@[q]));
                assert(zero_marked(cs@, safe@[q]));
                lemma_zero_marked_safe(m, cs@, safe@[q]);
            }
            assert forall|q: int| 0 <= q < safe@.len() implies (#[trigger] safe@[q] as int)
                < board.cells@.len() by {
                assert(safe@.contains(safe@[q]));
                assert(zero_marked(cs@, safe@[q]));
                let k = choose|k: int|
                    0 <= k < cs@.len() && (#[trigger] cs@[k]).mines == 0
                        && cs@[k].cells@.contains(safe@[q]);
                let i = choose|i: int|
                    crate::constraints::is_clue(*board, i) && (#[trigger] cs@[k]).cells@
                        == crate::constraints::clue_hidden_cells(*board, i) && cs@[k].mines
                        == crate::constraints::clue_remaining(*board, i);
                lemma_hidden_filter(*board, board.adjacency_map@[i]@);
            }
            assert forall|x: usize|
                #[trigger] safe@.contains(x) <==> crate::constraints::simple_safe(*board, x) by {
                if safe@.contains(x) {
                    assert(zero_marked(cs@, x));
                    let k = choose|k: int|
                        0 <= k < cs@.len() && (#[trigger] cs@[k]).mines == 0
                            && cs@[k].cells@.contains(x);
                    let i = choose|i: int|
                        crate::constraints::is_clue(*board, i) && (#[trigger] cs@[k]).cells@
                            == crate::constraints::clue_hidden_cells(*board, i) && cs@[k].mines
                            == crate::constraints::clue_remaining(*board, i);
                    assert(crate::constraints::clue_hidden_cells(*board, i).contains(x));
                }
                if crate::constraints::simple_safe(*board, x) {
                    let i = choose|i: int|
                        crate::constraints::is_clue(*board, i) && crate::constraints::clue_remaining(
                            *board,
                            i,
                        ) == 0 && (#[trigger] crate::constraints::clue_hidden_cells(
                            *board,
                            i,
                        )).contains(x);
                    assert(crate::constraints::clue_hidden_cells(*board, i).len() > 0);
                    let k = choose|k: int|
                        0 <= k < cs@.len() && crate::constraints::clue_hidden_cells(*board, i) == (
                        #[trigger] cs@[k]).cells@ && cs@[k].mines
                            == crate::constraints::clue_remaining(*board, i);
                    assert(cs@[k].mines == 0 && cs@[k].cells@.contains(x));
                    assert(zero_marked(cs@, x));
                }
            }
        }
        safe
    }

    /// Subset-difference inference over the clue constraints plus the
    /// global mine-count constraint, driven to a fixed point.
    pub fn perform_subset_deduction(&self, board: &Board) -> (r: Vec<usize>)
        requires
            board.wf(),
        ensures
            forall|m: Set<int>, q: int|
                #![trigger board_consistent_global(*board, m, self.mines as nat), r@[q]]
                board_consistent_global(*board, m, self.mines as nat) && 0 <= q < r@.len()
                    ==> !m.contains(r@[q] as int),
            forall|q: int| 0 <= q < r@.len() ==> (#[trigger] r@[q] as int) < board.cells@.len(),
            forall|s: int, t: int| 0 <= s < t < r@.len() ==> r@[s] < r@[t],
            forall|x: usize| crate::constraints::simple_safe(*board, x) ==> r@.contains(x),
    {
        let mut cs = collect_constraints(board);
        let ghost clue_part = cs@;
        let g = global_constraint(board, self.mines);
        cs.push(g);
        let ghost with_global = cs@;
        proof {
            assert forall|k: int| 0 <= k < cs@.len() implies (#[trigger] cs@[k]).wf() by {
                if k < clue_part.len() {
                    assert(cs@[k] == clue_part[k]);
                } else {
                    assert(cs@[k] == g);
                }
            }
        }
        let reduced = reduce_constraints(cs);
        let out = reduced.0;
        let parts = apply_zero_full_rules(&out);
        let safe = parts.0;
        proof {
            assert forall|m: Set<int>, q: int|
                #![trigger board_consistent_global(*board, m, self.mines as nat), safe@[q]]
                board_consistent_global(*board, m, self.mines as nat) && 0 <= q < safe@.len()
                implies !m.contains(safe@[q] as int) by {
                lemma_collected_sat(*board, clue_part, m);
                assert(constraint_sat(m, g)) by {
                    assert(cell_set_of_global(*board, m, self.mines as nat));
                }
                assert(all_sat(m, with_global)) by {
                    assert forall|k: int| 0 <= k < with_global.len() implies constraint_sat(
                        m,
                        #[trigger] with_global[k],
                    ) by {
                        if k < clue_part.len() {
                            assert(with_global[k] == clue_part[k]);
                        } else {
                            assert(with_global[k] == g);
                        }
                    }
                }
                assert(all_sat(m, out@));
                assert(safe@.contains(safe@[q]));
                assert(zero_marked(out@, safe@[q]));
                lemma_zero_marked_safe(m, out@, safe@[q]);
            }
            assert forall|x: usize|
                crate::constraints::simple_safe(*board, x) implies safe@.contains(x) by {
                let i = choose|i: int|
                    crate::constraints::is_clue(*board, i) && crate::constraints::clue_remaining(
                        *board,
                        i,
                    ) == 0 && (#[trigger] crate::constraints::clue_hidden_cells(
                        *board,
                        i,
                    )).contains(x);
                assert(crate::constraints::clue_hidden_cells(*board, i).len() > 0);
                let k = choose|k: int|
                    0 <= k < clue_part.len() && crate::constraints::clue_hidden_cells(*board, i)
                        == (#[trigger] clue_part[k]).cells@ && clue_part[k].mines
                        == crate::constraints::clue_remaining(*board, i);
                assert(with_global[k] == clue_part[k]);
                assert(out@[k] == with_global[k]);
                assert(out@[k].mines == 0 && out@[k].cells@.contains(x));
                assert(zero_marked(out@, x));
            }
            assert forall|q: int| 0 <= q < safe@.len() implies (#[trigger] safe@[q] as int)
                < board.cells@.len() by {
                assert(safe@.contains(safe@[q]));
                assert(zero_marked(out@, safe@[q]));
                let x = safe@[q];
                let k = choose|k: int|
                    0 <= k < out@.len() && (#[trigger] out@[k]).mines == 0
                        && out@[k].cells@.contains(x);
                let q1 = choose|q1: int| 0 <= q1 < out@[k].cells@.len() && out@[k].cells@[q1] == x;
                assert(crate::reducer::cell_from_base(with_global, out@[k].cells@[q1]));
                let (k0, q0) = choose|k0: int, q0: int|
                    0 <= k0 < with_global.len() && 0 <= q0 < with_global[k0].cells@.len() && (
                    #[trigger] with_global[k0].cells@[q0]) == x;
                if k0 < clue_part.len() {
                    assert(with_global[k0] == clue_part[k0]);
                    let i = choose|i: int|
                        crate::constraints::is_clue(*board, i) && (
                        #[trigger] clue_part[k0]).cells@ == crate::constraints::clue_hidden_cells(
                            *board,
                            i,
                        ) && clue_part[k0].mines == crate::constraints::clue_remaining(*board, i);
                    lemma_hidden_filter(*board, board.adjacency_map@[i]@);
                    assert(clue_part[k0].cells@.contains(x));
                } else {
                    assert(with_global[k0] == g);
                    assert(g.cells@.contains(x));
                    lemma_hidden_filter(*board, range_seq(board.cells@.len() as int));
                }
            }
        }
        safe
    }

    /// The last layer: reduction again, then conservative risk ranking if
    /// nothing certain emerged.
    pub fn run_complex_sat_probabilistic(&self, board: &Board) -> (r: SolverResult)
        requires
            board.wf(),
        ensures
            crate::algorithms::candidates_safe(*board, self.mines as nat, r),
            forall|q: int|
                0 <= q < r.candidates@.len() ==> (#[trigger] r.candidates@[q] as int)
                    < board.cells@.len(),
            r.is_guess ==> crate::estimator::fallback_matches(
                *board,
                self.mines as nat,
                r.candidates@,
            ),
            !r.is_guess ==> r.candidates@.len() > 0 && (forall|x: usize|
                crate::constraints::simple_safe(*board, x) ==> r.candidates@.contains(x)),
    {
        let safe = self.perform_subset_deduction(board);
        if safe.len() > 0 {
            return SolverResult { candidates: safe, is_guess: false };
        }
        let candidates = get_probabilistic_fallback(board, 0, 0, self.mines);
        SolverResult { candidates, is_guess: true }
    }
}

/// The global constraint holds under a globally consistent mine set.
spec fn cell_set_of_global(board: Board, m: Set<int>, mines: nat) -> bool {
    crate::algorithms::sat_utils::cell_set(crate::constraints::all_hidden_cells(board)).intersect(
        m,
    ).len() == crate::constraints::sat_sub(mines, crate::constraints::board_flag_count(board))
}

impl Algorithm for SatSolver4D {
    open spec fn compatible(&self, board: Board) -> bool {
        true
    }

    open spec fn assumed_mines(&self) -> nat {
        self.mines as nat
    }

    /// A guess is returned only when no clue's zero rule fires anywhere,
    /// and is then the exact risk ranking; a non-guess answer is nonempty
    /// and covers every directly zero-rule-safe cell.
    open spec fn result_ok(&self, board: Board, r: SolverResult) -> bool {
        &&& (r.is_guess ==> (forall|x: usize| !crate::constraints::simple_safe(board, x))
            && crate::estimator::fallback_matches(board, self.mines as nat, r.candidates@))
        &&& (!r.is_guess ==> r.candidates@.len() > 0 && (forall|x: usize|
            crate::constraints::simple_safe(board, x) ==> r.candidates@.contains(x)))
    }

    /// Primary entry point: simple scan, then subset reduction, then the
    /// probabilistic layer.
    fn find_candidates(&mut self, board: &Board) -> (r: SolverResult) {
        let simple = self.perform_simple_deduction(board);
        if simple.len() > 0 {
            proof {
                assert forall|x: usize|
                    crate::constraints::simple_safe(*board, x) implies simple@.contains(x) by {}
            }
            return SolverResult { candidates: simple, is_guess: false };
        }
        proof {
            assert forall|x: usize| !crate::constraints::simple_safe(*board, x) by {
                if crate::constraints::simple_safe(*board, x) {
                    assert(simple@.contains(x));
                }
            }
        }
        let subset_safe = self.perform_subset_deduction(board);
        if subset_safe.len() > 0 {
            return SolverResult { candidates: subset_safe, is_guess: false };
        }
        self.run_complex_sat_probabilistic(board)
    }
}

} // verus!
