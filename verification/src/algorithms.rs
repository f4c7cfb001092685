//! Solver strategies over a board. Every strategy answers one question —
//! given the current board, which cells should be clicked next, and is
//! that a guess — through one capability interface; the variants differ
//! in how much deduction they attempt before falling back to risk ranking.
pub mod exact_solver;
pub mod greedy;
pub mod metaheuristic;
pub mod sat_global;
pub mod sat_partitioned;
pub mod sat_solver;
pub mod sat_solver_4d;
pub mod sat_utils;

use vstd::prelude::*;
use crate::board::Board;
use crate::constraints::board_consistent_global;

verus! {

/// Candidate cells for the next move; when `is_guess` is false, every
/// candidate is provably safe under the current constraints.
pub struct SolverResult {
    pub candidates: Vec<usize>,
    pub is_guess: bool,
}

/// No mine set consistent with the board's constraints (clues and global
/// count) places a mine on any of the candidates.
pub open spec fn candidates_safe(board: Board, mines: nat, r: SolverResult) -> bool {
    !r.is_guess ==> forall|m: Set<int>, q: int|
        #![trigger board_consistent_global(board, m, mines), r.candidates@[q]]
        board_consistent_global(board, m, mines) && 0 <= q < r.candidates@.len() ==> !m.contains(
            r.candidates@[q] as int,
        )
}

/// The capability interface of a solver strategy: given the board, return
/// candidate indices and whether they are a guess. Non-guess candidates
/// are sound: no consistent mine assignment places a mine on them.
pub trait Algorithm: Sized {
    /// Does this solver's configuration match the board it is given?
    spec fn compatible(&self, board: Board) -> bool;

    /// The mine total this solver assumes.
    spec fn assumed_mines(&self) -> nat;

    /// The strategy's own answer characterization: when a non-guess answer
    /// is owed, which cells it holds, and what a guess falls back to.
    spec fn result_ok(&self, board: Board, r: SolverResult) -> bool;

    fn find_candidates(&mut self, board: &Board) -> (r: SolverResult)
        requires
            board.wf(),
            old(self).compatible(*board),
        ensures
            candidates_safe(*board, old(self).assumed_mines(), r),
            old(self).result_ok(*board, r),
            forall|q: int|
                0 <= q < r.candidates@.len() ==> (#[trigger] r.candidates@[q] as int)
                    < board.cells@.len(),
    ;
}

/// The strategy variants selectable by configuration.
#[derive(Clone, Copy, Debug, PartialEq, Eq)]
pub enum WasmAlgorithmType {
    Greedy,
    ExactSolver,
    GlobalSat,
    PartitionedSat,
    SatLite,
}

impl WasmAlgorithmType {
    pub fn as_str(&self) -> (r: &'static str)
        ensures
            r@ =~= self.name_spec(),
    {
        proof {
            reveal_strlit("greedy");
            reveal_strlit("exact_solver");
            reveal_strlit("global_sat");
            reveal_strlit("partitioned_sat");
            reveal_strlit("sat_lite");
        }
        match self {
            WasmAlgorithmType::Greedy => "greedy",
            WasmAlgorithmType::ExactSolver => "exact_solver",
            WasmAlgorithmType::GlobalSat => "global_sat",
            WasmAlgorithmType::PartitionedSat => "partitioned_sat",
            WasmAlgorithmType::SatLite => "sat_lite",
        }
    }

    pub open spec fn name_spec(self) -> Seq<char> {
        match self {
            WasmAlgorithmType::Greedy => "greedy"@,
            WasmAlgorithmType::ExactSolver => "exact_solver"@,
            WasmAlgorithmType::GlobalSat => "global_sat"@,
            WasmAlgorithmType::PartitionedSat => "partitioned_sat"@,
            WasmAlgorithmType::SatLite => "sat_lite"@,
        }
    }

    pub fn all() -> (r: Vec<WasmAlgorithmType>)
        ensures
            r@.len() == 5,
    {
        let mut v: Vec<WasmAlgorithmType> = Vec::new();
        v.push(WasmAlgorithmType::Greedy);
        v.push(WasmAlgorithmType::ExactSolver);
        v.push(WasmAlgorithmType::GlobalSat);
        v.push(WasmAlgorithmType::PartitionedSat);
        v.push(WasmAlgorithmType::SatLite);
        v
    }
}

} // verus!
