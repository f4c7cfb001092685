//! The global SAT solver: one CNF over every clue constraint, and a
//! refutation run per frontier cell — a cell forced to be a mine that
//! makes the formula unsatisfiable is provably safe.
use vstd::prelude::*;
use crate::algorithms::Algorithm;
use crate::algorithms::SolverResult;
use crate::algorithms::sat_utils::Clause;
use crate::algorithms::sat_utils::append_clue_encoding;
use crate::algorithms::sat_utils::cnf_sat;
use crate::algorithms::sat_utils::cnf_view;
use crate::algorithms::sat_utils::cnf_wf;
use crate::algorithms::sat_utils::board_cnf;
use crate::algorithms::sat_utils::cell_is_safe;
use crate::algorithms::sat_utils::get_probabilistic_fallback;
use crate::algorithms::sat_utils::get_frontier;
use crate::algorithms::sat_utils::in_frontier;
use crate::algorithms::sat_utils::mine_hypothesis_refuted;
use crate::board::Board;
use crate::constraints::board_consistent;
use crate::constraints::board_consistent_global;
use crate::estimator::fallback_matches;

verus! {

/// Builds the base CNF from every clue cell of the board.
fn build_base_clauses(board: &Board) -> (r: Vec<Clause>)
    requires
        board.wf(),
        board.cells@.len() <= isize::MAX as usize,
    ensures
        cnf_wf(cnf_view(r@)),
        cnf_view(r@) == board_cnf(*board, board.cells@.len() as int),
        forall|m: Set<int>|
            board_consistent(*board, m) ==> #[trigger] cnf_sat(m, cnf_view(r@)),
{
    let total = board.cells.len();
    let mut clauses: Vec<Clause> = Vec::new();
    let mut i: usize = 0;
    proof {
        assert(cnf_view(clauses@) =~= Seq::<Seq<int>>::empty());
    }
    while i < total
        invariant
            0 <= i <= total,
            board.wf(),
            total == board.cells@.len(),
            board.cells@.len() <= isize::MAX as usize,
            cnf_wf(cnf_view(clauses@)),
            cnf_view(clauses@) == board_cnf(*board, i as int),
            forall|m: Set<int>|
                board_consistent(*board, m) ==> #[trigger] cnf_sat(m, cnf_view(clauses@)),
        decreases total - i,
    {
        append_clue_encoding(&mut clauses, board, i);
        i += 1;
    }
    clauses
}

/// The global SAT strategy: encode every clue, then prove frontier cells
/// safe by contradiction; fall back to risk ranking when logic is silent.
pub struct GlobalSatSolver {
    pub _width: usize,
    pub _height: usize,
    pub mines: usize,
}

impl GlobalSatSolver {
    pub fn new(width: usize, height: usize, mines: usize) -> (r: GlobalSatSolver)
        ensures
            r._width == width && r._height == height && r.mines == mines,
    {
        GlobalSatSolver { _width: width, _height: height, mines }
    }
}

impl Algorithm for GlobalSatSolver {
    open spec fn compatible(&self, board: Board) -> bool {
        true
    }

    open spec fn assumed_mines(&self) -> nat {
        self.mines as nat
    }

    /// A safe answer is owed exactly when some frontier cell's mine
    /// hypothesis is refutable against the whole clue CNF, and the answer
    /// then holds exactly those cells; safety also holds against the clue
    /// constraints alone; a guess is the exact risk ranking.
    open spec fn result_ok(&self, board: Board, r: SolverResult) -> bool {
        &&& (!r.is_guess ==> forall|m: Set<int>, q: int|
            #![trigger board_consistent(board, m), r.candidates@[q]]
            board_consistent(board, m) && 0 <= q < r.candidates@.len() ==> !m.contains(
                r.candidates@[q] as int,
            ))
        &&& (board.cells@.len() + 1 <= isize::MAX as usize ==> {
            &&& (!r.is_guess <==> exists|x: usize|
                in_frontier(board, x) && #[trigger] mine_hypothesis_refuted(board, x))
            &&& (!r.is_guess ==> forall|x: usize|
                #[trigger] r.candidates@.contains(x) <==> (in_frontier(board, x)
                    && mine_hypothesis_refuted(board, x)))
            &&& (r.is_guess ==> fallback_matches(board, self.mines as nat, r.candidates@))
        })
    }

    fn find_candidates(&mut self, board: &Board) -> (r: SolverResult) {
        if board.cells.len() > isize::MAX as usize - 1 {
            let candidates = get_probabilistic_fallback(board, self._width, self._height, self.mines);
            return SolverResult { candidates, is_guess: true };
        }
        let frontier = get_frontier(board);
        if frontier.len() == 0 {
            let candidates = get_probabilistic_fallback(board, self._width, self._height, self.mines);
            proof {
                assert forall|x: usize| !(in_frontier(*board, x)
                    && #[trigger] mine_hypothesis_refuted(*board, x)) by {
                    if in_frontier(*board, x) {
                        assert(frontier@.contains(x));
                    }
                }
            }
            return SolverResult { candidates, is_guess: true };
        }
        let base = build_base_clauses(board);
        let mut safe: Vec<usize> = Vec::new();
        let mut t: usize = 0;
        while t < frontier.len()
            invariant
                0 <= t <= frontier@.len(),
                board.wf(),
                board.cells@.len() <= isize::MAX as usize,
                cnf_wf(cnf_view(base@)),
                forall|m: Set<int>|
                    board_consistent(*board, m) ==> #[trigger] cnf_sat(m, cnf_view(base@)),
                forall|q: int|
                    0 <= q < frontier@.len() ==> (#[trigger] frontier@[q] as int)
                        < board.cells@.len(),
                forall|q: int| 0 <= q < safe@.len() ==> (#[trigger] safe@[q] as int)
                    < board.cells@.len(),
                forall|m: Set<int>, q: int|
                    #![trigger board_consistent(*board, m), safe@[q]]
                    board_consistent(*board, m) && 0 <= q < safe@.len() ==> !m.contains(
                        safe@[q] as int,
                    ),
                cnf_view(base@) == board_cnf(*board, board.cells@.len() as int),
                forall|x: usize| #[trigger] frontier@.contains(x) <==> in_frontier(*board, x),
                forall|x: usize|
                    #[trigger] safe@.contains(x) <==> (mine_hypothesis_refuted(*board, x)
                        && exists|q: int| 0 <= q < t && frontier@[q] == x),
            decreases frontier@.len() - t,
        {
            let cell = frontier[t];
            let ghost safe0 = safe@;
            let verdict = cell_is_safe(&base, board, cell);
            proof {
                assert(verdict == mine_hypothesis_refuted(*board, cell));
            }
            if verdict {
                safe.push(cell);
            }
            proof {
                assert forall|x: usize|
                    #[trigger] safe@.contains(x) <==> (mine_hypothesis_refuted(*board, x)
                        && exists|q: int| 0 <= q < t + 1 && frontier@[q] == x) by {
                    if safe@ != safe0 {
                        if safe@.contains(x) {
                            let w = choose|w: int| 0 <= w < safe@.len() && safe@[w] == x;
                            if w < safe@.len() - 1 {
                                assert(safe0[w] == x);
                                assert(safe0.contains(x));
                            } else {
                                assert(x == cell);
                                assert(frontier@[t as int] == x);
                            }
                        }
                        if safe0.contains(x) {
                            let w = choose|w: int| 0 <= w < safe0.len() && safe0[w] == x;
                            assert(safe@[w] == x);
                        }
                        if x == cell {
                            assert(safe@[safe@.len() - 1] == x);
                        }
                    } else {
                        if mine_hypothesis_refuted(*board, x) && (exists|q: int|
                            0 <= q < t + 1 && frontier@[q] == x) {
                            let q = choose|q: int| 0 <= q < t + 1 && frontier@[q] == x;
                            assert(q != t as int);
                        }
                    }
                }
            }
            t += 1;
        }
        proof {
            assert forall|x: usize|
                #[trigger] safe@.contains(x) <==> (in_frontier(*board, x)
                    && mine_hypothesis_refuted(*board, x)) by {
                if in_frontier(*board, x) && mine_hypothesis_refuted(*board, x) {
                    assert(frontier@.contains(x));
                    let q = choose|q: int| 0 <= q < frontier@.len() && frontier@[q] == x;
                }
                if safe@.contains(x) {
                    let q = choose|q: int| 0 <= q < frontier@.len() && frontier@[q] == x;
                    assert(frontier@.contains(x));
                }
            }
        }
        if safe.len() == 0 {
            proof {
                assert forall|x: usize| !(in_frontier(*board, x)
                    && #[trigger] mine_hypothesis_refuted(*board, x)) by {
                    if in_frontier(*board, x) && mine_hypothesis_refuted(*board, x) {
                        assert(safe@.contains(x));
                    }
                }
            }
            let candidates = get_probabilistic_fallback(board, self._width, self._height, self.mines);
            SolverResult { candidates, is_guess: true }
        } else {
            proof {
                assert(safe@.contains(safe@[0]));
                assert(in_frontier(*board, safe@[0]) && mine_hypothesis_refuted(*board, safe@[0]));
            }
            SolverResult { candidates: safe, is_guess: false }
        }
    }
}

} // verus!
