//! The exact-constraint solver for flat boards: per-clue constraints, the
//! zero rule, and a pairwise overlap analysis that compares two clues'
//! demands over their shared and private cells.
use vstd::prelude::*;
use crate::algorithms::Algorithm;
use crate::algorithms::SolverResult;
use crate::algorithms::sat_utils::get_probabilistic_fallback;
use crate::algorithms::sat_utils::lemma_collected_sat;
use crate::board::Board;
use crate::constraints::Constraint;
use crate::constraints::board_consistent;
use crate::constraints::collect_constraints;
use crate::constraints::lemma_hidden_filter;
use crate::constraints::lemma_overlap_rule;
use crate::constraints::lemma_zero_rule_safe;
use crate::constraints::seq_diff;
use crate::estimator::hidden_unflagged;

verus! {

use crate::constraints::constraints_of_board;

pub struct ExactSolver {
    pub width: usize,
    pub height: usize,
    pub mines: usize,
    pub first_move: bool,
}

impl ExactSolver {
    pub fn new(width: usize, height: usize, mines: usize) -> (r: ExactSolver)
        ensures
            r.width == width && r.height == height && r.mines == mines && r.first_move,
    {
        ExactSolver { width, height, mines, first_move: true }
    }

    pub fn first_click_position(&self) -> (r: (usize, usize))
        ensures
            r.0 == self.width / 2 && r.1 == self.height / 2,
    {
        (self.width / 2, self.height / 2)
    }

    /// The zero rule over the given constraints: the first marked-safe,
    /// still-hidden cell, as board coordinates.
    pub fn find_definitely_safe(&self, constraints: &Vec<Constraint>, board: &Board) -> (r:
        Option<(usize, usize)>)
        requires
            board.wf(),
            board.width == self.width,
            constraints_of_board(*board, constraints@),
        ensures
            match r {
                Some(cell) => {
                    let idx = cell.1 * (self.width as int) + cell.0;
                    &&& 0 <= idx < board.cells@.len()
                    &&& cell.0 < self.width
                    &&& hidden_unflagged(*board, idx as usize)
                    &&& forall|m: Set<int>|
                        #[trigger] board_consistent(*board, m) ==> !m.contains(idx)
                },
                None => forall|k: int|
                    0 <= k < constraints@.len() ==> !((#[trigger] constraints@[k]).mines == 0
                        && constraints@[k].cells@.len() > 0),
            },
    {
        let mut k: usize = 0;
        while k < constraints.len()
            invariant
                0 <= k <= constraints@.len(),
                board.wf(),
                board.width == self.width,
                constraints_of_board(*board, constraints@),
                forall|t: int|
                    0 <= t < k ==> !((#[trigger] constraints@[t]).mines == 0
                        && constraints@[t].cells@.len() > 0),
            decreases constraints@.len() - k,
        {
            if constraints[k].mines == 0 && constraints[k].cells.len() > 0 {
                let cell = constraints[k].cells[0];
                proof {
                    let i = choose|i: int|
                        crate::constraints::is_clue(*board, i) && (
                        #[trigger] constraints@[k as int]).cells@
                            == crate::constraints::clue_hidden_cells(*board, i)
                            && constraints@[k as int].mines
                            == crate::constraints::clue_remaining(*board, i);
                    lemma_hidden_filter(*board, board.adjacency_map@[i]@);
                    assert(constraints@[k as int].cells@.contains(cell));
                    assert((cell as int) < board.cells@.len());
                    assert(hidden_unflagged(*board, cell));
                    assert forall|m: Set<int>| #[trigger] board_consistent(*board, m)
                        implies !m.contains(cell as int) by {
                        lemma_collected_sat(*board, constraints@, m);
                        lemma_zero_rule_safe(m, constraints@[k as int], cell);
                    }
                }
                let rc = self.coords_of(cell, board);
                return Some(rc);
            }
            k += 1;
        }
        None
    }

    /// Pairwise analysis: compares every two constraints with the overlap
    /// rule and returns the first cell proved safe.
    pub fn analyze_constraint_pairs(&self, constraints: &Vec<Constraint>, board: &Board) -> (r:
        Option<(usize, usize)>)
        requires
            board.wf(),
            board.width == self.width,
            constraints_of_board(*board, constraints@),
        ensures
            match r {
                Some(cell) => {
                    let idx = cell.1 * (self.width as int) + cell.0;
                    &&& 0 <= idx < board.cells@.len()
                    &&& cell.0 < self.width
                    &&& hidden_unflagged(*board, idx as usize)
                    &&& forall|m: Set<int>|
                        #[trigger] board_consistent(*board, m) ==> !m.contains(idx)
                },
                None => forall|a: int, b: int|
                    0 <= a < constraints@.len() && 0 <= b < constraints@.len() && a != b
                        ==> !crate::constraints::overlap_fires(
                        ((#[trigger] constraints@[a]).cells@, constraints@[a].mines as nat),
                        ((#[trigger] constraints@[b]).cells@, constraints@[b].mines as nat),
                    ),
            },
    {
        let mut i: usize = 0;
        while i < constraints.len()
            invariant
                0 <= i <= constraints@.len(),
                board.wf(),
                board.width == self.width,
                constraints_of_board(*board, constraints@),
                forall|a: int, b: int|
                    0 <= a < constraints@.len() && 0 <= b < constraints@.len() && a != b && (a < i
                        && b < constraints@.len() || b < i && a < constraints@.len()) && (a < i
                        || b < i) ==> !crate::constraints::overlap_fires(
                        ((#[trigger] constraints@[a]).cells@, constraints@[a].mines as nat),
                        ((#[trigger] constraints@[b]).cells@, constraints@[b].mines as nat),
                    ),
            decreases constraints@.len() - i,
        {
            let mut j: usize = i + 1;
            while j < constraints.len()
                invariant
                    0 <= i < j <= constraints@.len() || j > constraints@.len(),
                    i < constraints@.len(),
                    board.wf(),
                    board.width == self.width,
                    constraints_of_board(*board, constraints@),
                    forall|a: int, b: int|
                        0 <= a < constraints@.len() && 0 <= b < constraints@.len() && a != b && (a
                            < i || b < i) ==> !crate::constraints::overlap_fires(
                            ((#[trigger] constraints@[a]).cells@, constraints@[a].mines as nat),
                            ((#[trigger] constraints@[b]).cells@, constraints@[b].mines as nat),
                        ),
                    forall|b: int|
                        i < b < j ==> !crate::constraints::overlap_fires(
                            ((#[trigger] constraints@[b]).cells@, constraints@[b].mines as nat),
                            (constraints@[i as int].cells@, constraints@[i as int].mines as nat),
                        ) && !crate::constraints::overlap_fires(
                            (constraints@[i as int].cells@, constraints@[i as int].mines as nat),
                            ((#[trigger] constraints@[b]).cells@, constraints@[b].mines as nat),
                        ),
                decreases constraints@.len() - j,
            {
                proof {
                    let ca = constraints@[i as int];
                    let ia = choose|t: int|
                        crate::constraints::is_clue(*board, t) && (
                        #[trigger] constraints@[i as int]).cells@
                            == crate::constraints::clue_hidden_cells(*board, t)
                            && constraints@[i as int].mines
                            == crate::constraints::clue_remaining(*board, t);
                    lemma_hidden_filter(*board, board.adjacency_map@[ia]@);
                    assert forall|q: int| 0 <= q < ca.cells@.len() implies hidden_unflagged(
                        *board,
                        #[trigger] ca.cells@[q],
                    ) by {
                        assert(ca.cells@.contains(ca.cells@[q]));
                    }
                    let cb = constraints@[j as int];
                    let ib = choose|t: int|
                        crate::constraints::is_clue(*board, t) && (
                        #[trigger] constraints@[j as int]).cells@
                            == crate::constraints::clue_hidden_cells(*board, t)
                            && constraints@[j as int].mines
                            == crate::constraints::clue_remaining(*board, t);
                    lemma_hidden_filter(*board, board.adjacency_map@[ib]@);
                    assert forall|q: int| 0 <= q < cb.cells@.len() implies hidden_unflagged(
                        *board,
                        #[trigger] cb.cells@[q],
                    ) by {
                        assert(cb.cells@.contains(cb.cells@[q]));
                    }
                }
                if let Some(cell) = self.compare_two_constraints(
                    &constraints[i],
                    &constraints[j],
                    board,
                ) {
                    proof {
                        assert forall|m: Set<int>| #[trigger] board_consistent(*board, m)
                            implies !m.contains(
                            (cell.1 as int) * (self.width as int) + cell.0,
                        ) by {
                            lemma_collected_sat(*board, constraints@, m);
                            assert(crate::constraints::constraint_sat(
                                m,
                                constraints@[i as int],
                            ));
                            assert(crate::constraints::constraint_sat(
                                m,
                                constraints@[j as int],
                            ));
                        }
                    }
                    return Some(cell);
                }
                j += 1;
            }
            i += 1;
            proof {
                assert forall|a: int, b: int|
                    0 <= a < constraints@.len() && 0 <= b < constraints@.len() && a != b && (a < i
                        || b < i) implies !crate::constraints::overlap_fires(
                    ((#[trigger] constraints@[a]).cells@, constraints@[a].mines as nat),
                    ((#[trigger] constraints@[b]).cells@, constraints@[b].mines as nat),
                ) by {
                    if a == i - 1 && b > a {
                    } else if b == i - 1 && a > b {
                    }
                }
            }
        }
        None
    }

    /// The overlap rule on one ordered pair: if one clue's surplus equals
    /// its private cell count, the other clue's private cells are safe;
    /// checked in both directions.
    pub fn compare_two_constraints(&self, c1: &Constraint, c2: &Constraint, board: &Board) -> (r:
        Option<(usize, usize)>)
        requires
            board.wf(),
            board.width == self.width,
            c1.wf(),
            c2.wf(),
            forall|q: int|
                0 <= q < c1.cells@.len() ==> hidden_unflagged(
                    *board,
                    #[trigger] c1.cells@[q],
                ),
            forall|q: int|
                0 <= q < c2.cells@.len() ==> hidden_unflagged(
                    *board,
                    #[trigger] c2.cells@[q],
                ),
        ensures
            match r {
                Some(cell) => {
                    let idx = cell.1 * (self.width as int) + cell.0;
                    &&& 0 <= idx < board.cells@.len()
                    &&& cell.0 < self.width
                    &&& hidden_unflagged(*board, idx as usize)
                    &&& forall|m: Set<int>|
                        crate::constraints::constraint_sat(m, *c1)
                            && crate::constraints::constraint_sat(m, *c2)
                            ==> !#[trigger] m.contains(idx)
                },
                None => true,
            },
            r.is_some() == (crate::constraints::overlap_fires(
                (c1.cells@, c1.mines as nat),
                (c2.cells@, c2.mines as nat),
            ) || crate::constraints::overlap_fires(
                (c2.cells@, c2.mines as nat),
                (c1.cells@, c1.mines as nat),
            )),
    {
        let only_in_c1 = crate::reducer::cells_diff(&c1.cells, &c2.cells);
        let only_in_c2 = crate::reducer::cells_diff(&c2.cells, &c1.cells);
        if only_in_c2.len() > 0 && c1.mines >= c2.mines && c1.mines - c2.mines
            == only_in_c1.len() {
            let cell = only_in_c2[0];
            proof {
                crate::constraints::lemma_seq_diff(c2.cells@, c1.cells@);
                assert(seq_diff(c2.cells@, c1.cells@).contains(cell));
                assert(c2.cells@.contains(cell));
                let w = choose|w: int| 0 <= w < c2.cells@.len() && c2.cells@[w] == cell;
                assert(hidden_unflagged(*board, cell));
                assert((cell as int) < board.cells@.len());
                assert forall|m: Set<int>|
                    crate::constraints::constraint_sat(m, *c1)
                        && crate::constraints::constraint_sat(m, *c2) implies !#[trigger] m.contains(
                    cell as int,
                ) by {
                    lemma_overlap_rule(m, *c1, *c2, cell);
                }
            }
            return Some(self.coords_of(cell, board));
        }
        if only_in_c1.len() > 0 && c2.mines >= c1.mines && c2.mines - c1.mines
            == only_in_c2.len() {
            let cell = only_in_c1[0];
            proof {
                crate::constraints::lemma_seq_diff(c1.cells@, c2.cells@);
                assert(seq_diff(c1.cells@, c2.cells@).contains(cell));
                assert(c1.cells@.contains(cell));
                let w = choose|w: int| 0 <= w < c1.cells@.len() && c1.cells@[w] == cell;
                assert(hidden_unflagged(*board, cell));
                assert((cell as int) < board.cells@.len());
                assert forall|m: Set<int>|
                    crate::constraints::constraint_sat(m, *c1)
                        && crate::constraints::constraint_sat(m, *c2) implies !#[trigger] m.contains(
                    cell as int,
                ) by {
                    lemma_overlap_rule(m, *c2, *c1, cell);
                }
            }
            return Some(self.coords_of(cell, board));
        }
        None
    }

    fn coords_of(&self, cell: usize, board: &Board) -> (r: (usize, usize))
        requires
            board.wf(),
            board.width == self.width,
            (cell as int) < board.cells@.len(),
        ensures
            (r.1 as int) * (self.width as int) + r.0 == cell as int,
            r.0 < self.width,
    {
        proof {
            assert(self.width >= 1) by (nonlinear_arith)
                requires
                    (board.width as int) * (board.height as int) >= 1,
                    board.width == self.width,
                    board.width >= 0,
            {
            }
        }
        let x = cell % self.width;
        let y = cell / self.width;
        proof {
            broadcast use vstd::arithmetic::div_mod::lemma_fundamental_div_mod;
            broadcast use vstd::arithmetic::div_mod::lemma_mod_bound;

            assert((cell as int) % (self.width as int) == x as int);
            assert((cell as int) / (self.width as int) == y as int);
            assert((self.width as int) * (y as int) == (y as int) * (self.width as int))
                by (nonlinear_arith) {}
        }
        (x, y)
    }

    /// The most promising cell when nothing is certain: every hidden cell
    /// carries the same global density here, so the first hidden unflagged
    /// cell named by the constraints is taken.
    pub fn calculate_best_cell(&self, all_hidden: &Vec<usize>, board: &Board) -> (r: Option<
        (usize, usize),
    >)
        requires
            board.wf(),
            board.width == self.width,
            forall|q: int|
                0 <= q < all_hidden@.len() ==> (#[trigger] all_hidden@[q] as int)
                    < board.cells@.len(),
        ensures
            match r {
                Some(cell) => {
                    let idx = cell.1 * (self.width as int) + cell.0;
                    &&& 0 <= idx < board.cells@.len()
                    &&& cell.0 < self.width
                    &&& hidden_unflagged(*board, (idx) as usize)
                },
                None => forall|t: int|
                    0 <= t < all_hidden@.len() ==> !hidden_unflagged(
                        *board,
                        #[trigger] all_hidden@[t],
                    ),
            },
    {
        let mut t: usize = 0;
        while t < all_hidden.len()
            invariant
                0 <= t <= all_hidden@.len(),
                board.wf(),
                board.width == self.width,
                forall|q: int|
                    0 <= q < all_hidden@.len() ==> (#[trigger] all_hidden@[q] as int)
                        < board.cells@.len(),
                forall|q: int|
                    0 <= q < t ==> !hidden_unflagged(*board, #[trigger] all_hidden@[q]),
            decreases all_hidden@.len() - t,
        {
            let cell = all_hidden[t];
            if !board.cells[cell].is_revealed && !board.cells[cell].is_flagged {
                let rc = self.coords_of(cell, board);
                proof {
                    assert((rc.1 as int) * (self.width as int) + rc.0 == cell as int);
                }
                return Some(rc);
            }
            t += 1;
        }
        None
    }

    /// One full deduction pass: collect constraints, apply the zero rule,
    /// then the pairwise analysis, then settle for the best guess.
    pub fn solve_exact(&self, board: &Board) -> (r: Option<(usize, usize)>)
        requires
            board.wf(),
            board.width == self.width,
        ensures
            match r {
                Some(cell) => {
                    let idx = cell.1 * (self.width as int) + cell.0;
                    0 <= idx < board.cells@.len() && cell.0 < self.width
                },
                None => forall|x: usize| !crate::constraints::simple_safe(*board, x),
            },
    {
        let constraints = collect_constraints(board);
        let mut all_hidden: Vec<usize> = Vec::new();
        let mut k: usize = 0;
        while k < constraints.len()
            invariant
                0 <= k <= constraints@.len(),
                board.wf(),
                constraints_of_board(*board, constraints@),
                forall|q: int|
                    0 <= q < all_hidden@.len() ==> (#[trigger] all_hidden@[q] as int)
                        < board.cells@.len(),
            decreases constraints@.len() - k,
        {
            let mut t: usize = 0;
            while t < constraints[k].cells.len()
                invariant
                    0 <= t <= constraints@[k as int].cells@.len(),
                    0 <= k < constraints@.len(),
                    board.wf(),
                    constraints_of_board(*board, constraints@),
                    forall|q: int|
                        0 <= q < all_hidden@.len() ==> (#[trigger] all_hidden@[q] as int)
                            < board.cells@.len(),
                decreases constraints@[k as int].cells@.len() - t,
            {
                let cell = constraints[k].cells[t];
                proof {
                    let i = choose|i: int|
                        crate::constraints::is_clue(*board, i) && (
                        #[trigger] constraints@[k as int]).cells@
                            == crate::constraints::clue_hidden_cells(*board, i)
                            && constraints@[k as int].mines
                            == crate::constraints::clue_remaining(*board, i);
                    lemma_hidden_filter(*board, board.adjacency_map@[i]@);
                    assert(constraints@[k as int].cells@.contains(cell));
                }
                all_hidden.push(cell);
                t += 1;
            }
            k += 1;
        }
        if let Some(safe) = self.find_definitely_safe(&constraints, board) {
            return Some(safe);
        }
        if let Some(safe) = self.analyze_constraint_pairs(&constraints, board) {
            return Some(safe);
        }
        proof {
            assert forall|x: usize| !crate::constraints::simple_safe(*board, x) by {
                if crate::constraints::simple_safe(*board, x) {
                    let i = choose|i: int|
                        crate::constraints::is_clue(*board, i)
                            && crate::constraints::clue_remaining(*board, i) == 0 && (
                        #[trigger] crate::constraints::clue_hidden_cells(*board, i)).contains(x);
                    assert(crate::constraints::clue_hidden_cells(*board, i).len() > 0);
                    let k = choose|k: int|
                        0 <= k < constraints@.len() && crate::constraints::clue_hidden_cells(
                            *board,
                            i,
                        ) == (#[trigger] constraints@[k]).cells@ && constraints@[k].mines
                            == crate::constraints::clue_remaining(*board, i);
                    assert(constraints@[k].mines == 0 && constraints@[k].cells@.len() > 0);
                }
            }
        }
        self.calculate_best_cell(&all_hidden, board)
    }

    /// The next move as coordinates: center first, then a deduction pass.
    pub fn next_move(&mut self, board: &Board) -> (r: Option<(usize, usize)>)
        requires
            board.wf(),
            board.width == old(self).width,
            board.height == old(self).height,
        ensures
            match r {
                Some(cell) => {
                    let idx = cell.1 * (final(self).width as int) + cell.0;
                    0 <= idx < board.cells@.len() && cell.0 < final(self).width
                },
                None => true,
            },
            final(self).width == old(self).width && final(self).height == old(self).height
                && final(self).mines == old(self).mines,
            old(self).first_move ==> r == Some(
                (old(self).width / 2, old(self).height / 2),
            ) && !final(self).first_move,
    {
        if self.first_move {
            self.first_move = false;
            let c = self.first_click_position();
            proof {
                assert(board.width >= 1 && board.height >= 1) by (nonlinear_arith)
                    requires
                        (board.width as int) * (board.height as int) >= 1,
                        board.width >= 0,
                        board.height >= 0,
                {
                }
                assert((board.height as int / 2) * (board.width as int) + (board.width as int / 2)
                    < (board.height as int) * (board.width as int)) by (nonlinear_arith)
                    requires
                        board.width >= 1,
                        board.height >= 1,
                {
                }
                assert((board.height as int) * (board.width as int) == (board.width as int) * (
                board.height as int)) by (nonlinear_arith) {}
            }
            return Some(c);
        }
        self.solve_exact(board)
    }
}

impl Algorithm for ExactSolver {
    open spec fn compatible(&self, board: Board) -> bool {
        board.width == self.width && board.height == self.height
    }

    open spec fn assumed_mines(&self) -> nat {
        self.mines as nat
    }

    /// The opening click is a single guess; afterwards a safe answer is a
    /// single cell, and a guess means no clue's zero rule fires anywhere
    /// and is the exact risk ranking.
    open spec fn result_ok(&self, board: Board, r: SolverResult) -> bool {
        &&& (self.first_move ==> r.is_guess && r.candidates@.len() == 1)
        &&& (!self.first_move ==> {
            &&& (!r.is_guess ==> r.candidates@.len() == 1)
            &&& (r.is_guess ==> (forall|x: usize| !crate::constraints::simple_safe(board, x))
                && crate::estimator::fallback_matches(board, self.mines as nat, r.candidates@))
        })
    }

    fn find_candidates(&mut self, board: &Board) -> (r: SolverResult) {
        let ncells = board.cells.len();
        if self.first_move {
            self.first_move = false;
            let c = self.first_click_position();
            proof {
                assert(board.width >= 1 && board.height >= 1) by (nonlinear_arith)
                    requires
                        (board.width as int) * (board.height as int) >= 1,
                        board.width >= 0,
                        board.height >= 0,
                {
                }
                assert((board.height as int / 2) * (board.width as int) + (board.width as int / 2)
                    < (board.height as int) * (board.width as int)) by (nonlinear_arith)
                    requires
                        board.width >= 1,
                        board.height >= 1,
                {
                }
                assert((board.height as int) * (board.width as int) == (board.width as int) * (
                board.height as int)) by (nonlinear_arith) {}
            }
            let idx = c.1 * self.width + c.0;
            let mut candidates: Vec<usize> = Vec::new();
            candidates.push(idx);
            return SolverResult { candidates, is_guess: true };
        }
        let constraints = collect_constraints(board);
        if let Some(cell) = self.find_definitely_safe(&constraints, board) {
            let idx = cell.1 * self.width + cell.0;
            let mut candidates: Vec<usize> = Vec::new();
            candidates.push(idx);
            return SolverResult { candidates, is_guess: false };
        }
        if let Some(cell) = self.analyze_constraint_pairs(&constraints, board) {
            let idx = cell.1 * self.width + cell.0;
            let mut candidates: Vec<usize> = Vec::new();
            candidates.push(idx);
            return SolverResult { candidates, is_guess: false };
        }
        proof {
            assert forall|x: usize| !crate::constraints::simple_safe(*board, x) by {
                if crate::constraints::simple_safe(*board, x) {
                    let i = choose|i: int|
                        crate::constraints::is_clue(*board, i)
                            && crate::constraints::clue_remaining(*board, i) == 0 && (
                        #[trigger] crate::constraints::clue_hidden_cells(*board, i)).contains(x);
                    assert(crate::constraints::clue_hidden_cells(*board, i).len() > 0);
                    let k = choose|k: int|
                        0 <= k < constraints@.len() && crate::constraints::clue_hidden_cells(
                            *board,
                            i,
                        ) == (#[trigger] constraints@[k]).cells@ && constraints@[k].mines
                            == crate::constraints::clue_remaining(*board, i);
                    assert(constraints@[k].mines == 0 && constraints@[k].cells@.len() > 0);
                }
            }
        }
        let candidates = get_probabilistic_fallback(board, self.width, self.height, self.mines);
        SolverResult { candidates, is_guess: true }
    }
}

} // verus!
