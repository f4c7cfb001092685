//! The N-dimensional solver: works on lattices of arbitrary rank through
//! the coordinate conversions of the topology provider. Simple zero-rule
//! deduction first, then a cross-constraint heuristic, then an educated
//! guess by risk ranking; coordinates in, coordinates out.
use vstd::prelude::*;
use crate::algorithms::Algorithm;
use crate::algorithms::SolverResult;
use crate::algorithms::sat_utils::get_probabilistic_fallback;
use crate::board::Board;
use crate::constraints::board_consistent;
use crate::constraints::build_clue_constraint;
use crate::constraints::clue_hidden_cells;
use crate::constraints::clue_remaining;
use crate::constraints::lemma_hidden_filter;
use crate::constraints::lemma_zero_rule_safe;
use crate::estimator::hidden_unflagged;
use crate::topology::coords_of_index;
use crate::topology::coords_to_index;
use crate::topology::dims_product;
use crate::topology::index_to_coords;
use crate::topology::valid_coords;

verus! {

pub struct SATSolver {
    pub dimensions: Vec<usize>,
    pub mines: usize,
    pub first_move: bool,
}

impl SATSolver {
    pub fn new(dimensions: Vec<usize>, mines: usize) -> (r: SATSolver)
        ensures
            r.dimensions == dimensions && r.mines == mines && r.first_move,
    {
        SATSolver { dimensions, mines, first_move: true }
    }

    /// Does the solver's lattice shape describe the board?
    pub open spec fn shape_ok(&self, board: Board) -> bool {
        &&& dims_product(self.dimensions@) == board.cells@.len()
        &&& dims_product(self.dimensions@) <= usize::MAX
        &&& forall|t: int| 0 <= t < self.dimensions@.len() ==> #[trigger] self.dimensions@[t] >= 1
    }

    /// The center of the lattice, the canonical first click.
    pub fn first_click_position(&self) -> (r: Vec<usize>)
        ensures
            r@.len() == self.dimensions@.len(),
            forall|t: int|
                0 <= t < r@.len() ==> #[trigger] r@[t] == self.dimensions@[t] / 2,
    {
        let mut out: Vec<usize> = Vec::new();
        let mut t: usize = 0;
        while t < self.dimensions.len()
            invariant
                0 <= t <= self.dimensions@.len(),
                out@.len() == t,
                forall|q: int|
                    0 <= q < t ==> #[trigger] out@[q] == self.dimensions@[q] / 2,
            decreases self.dimensions@.len() - t,
        {
            out.push(self.dimensions[t] / 2);
            t += 1;
        }
        out
    }

    /// The zero rule at one cell index: a clue whose demand is met frees
    /// its first hidden neighbor.
    fn simple_rule_at(&self, board: &Board, idx: usize) -> (r: Option<usize>)
        requires
            board.wf(),
            (idx as int) < board.cells@.len(),
        ensures
            match r {
                Some(cell) => {
                    &&& (cell as int) < board.cells@.len()
                    &&& hidden_unflagged(*board, cell)
                    &&& forall|m: Set<int>|
                        #[trigger] board_consistent(*board, m) ==> !m.contains(cell as int)
                },
                None => true,
            },
            r.is_some() == (crate::constraints::is_clue(*board, idx as int)
                && crate::constraints::clue_remaining(*board, idx as int) == 0
                && crate::constraints::clue_hidden_cells(*board, idx as int).len() > 0),
    {
        if !(board.cells[idx].is_revealed && board.cells[idx].adjacent_mines > 0) {
            return None;
        }
        let c = build_clue_constraint(board, idx);
        if c.mines == 0 && c.cells.len() > 0 {
            let cell = c.cells[0];
            proof {
                lemma_hidden_filter(*board, board.adjacency_map@[idx as int]@);
                assert(c.cells@.contains(cell));
                assert forall|m: Set<int>| #[trigger] board_consistent(*board, m)
                    implies !m.contains(cell as int) by {
                    assert(crate::constraints::is_clue(*board, idx as int));
                    assert(crate::algorithms::sat_utils::cell_set(
                        clue_hidden_cells(*board, idx as int),
                    ).intersect(m).len() == clue_remaining(*board, idx as int));
                    lemma_zero_rule_safe(m, c, cell);
                }
            }
            return Some(cell);
        }
        None
    }

    /// A zero-rule check at one coordinate: rejects out-of-range or
    /// mismatched coordinates, then defers to the index-level rule.
    pub fn check_single_constraint(&self, board: &Board, coords: &Vec<usize>) -> (r: Option<
        Vec<usize>,
    >)
        requires
            board.wf(),
            self.shape_ok(*board),
        ensures
            match r {
                Some(c) => exists|cell: int|
                    0 <= cell < board.cells@.len() && c@ == coords_of_index(
                        cell,
                        self.dimensions@,
                    ) && hidden_unflagged(*board, cell as usize) && (forall|m: Set<int>|
                        #[trigger] board_consistent(*board, m) ==> !m.contains(cell)),
                None => true,
            },
            r.is_some() == (coords@.len() == self.dimensions@.len() && (forall|q: int|
                0 <= q < coords@.len() ==> #[trigger] coords@[q] < self.dimensions@[q])
                && crate::constraints::is_clue(
                *board,
                crate::topology::index_of_coords(coords@, self.dimensions@),
            ) && crate::constraints::clue_remaining(
                *board,
                crate::topology::index_of_coords(coords@, self.dimensions@),
            ) == 0 && crate::constraints::clue_hidden_cells(
                *board,
                crate::topology::index_of_coords(coords@, self.dimensions@),
            ).len() > 0),
    {
        if coords.len() != self.dimensions.len() {
            return None;
        }
        let mut t: usize = 0;
        while t < coords.len()
            invariant
                0 <= t <= coords@.len(),
                coords@.len() == self.dimensions@.len(),
                forall|q: int| 0 <= q < t ==> #[trigger] coords@[q] < self.dimensions@[q],
            decreases coords@.len() - t,
        {
            if coords[t] >= self.dimensions[t] {
                return None;
            }
            t += 1;
        }
        let idx = coords_to_index(coords, &self.dimensions);
        match self.simple_rule_at(board, idx) {
            Some(cell) => {
                let rc = index_to_coords(cell, &self.dimensions);
                proof {
                    assert(rc@ == coords_of_index(cell as int, self.dimensions@));
                }
                Some(rc)
            },
            None => None,
        }
    }

    /// Scans every clue cell with the zero rule; the first hit, as
    /// coordinates.
    pub fn apply_simple_rules(&self, board: &Board) -> (r: Option<Vec<usize>>)
        requires
            board.wf(),
            self.shape_ok(*board),
        ensures
            match r {
                Some(c) => exists|cell: int|
                    0 <= cell < board.cells@.len() && c@ == coords_of_index(
                        cell,
                        self.dimensions@,
                    ) && hidden_unflagged(*board, cell as usize) && (forall|m: Set<int>|
                        #[trigger] board_consistent(*board, m) ==> !m.contains(cell)),
                None => forall|x: usize| !crate::constraints::simple_safe(*board, x),
            },
    {
        let total = board.cells.len();
        let mut i: usize = 0;
        while i < total
            invariant
                0 <= i <= total,
                board.wf(),
                self.shape_ok(*board),
                total == board.cells@.len(),
                forall|t: int|
                    0 <= t < i ==> !(crate::constraints::is_clue(*board, t)
                        && crate::constraints::clue_remaining(*board, t) == 0 && (
                    #[trigger] crate::constraints::clue_hidden_cells(*board, t)).len() > 0),
            decreases total - i,
        {
            match self.simple_rule_at(board, i) {
                Some(cell) => {
                    let rc = index_to_coords(cell, &self.dimensions);
                    proof {
                        assert(rc@ == coords_of_index(cell as int, self.dimensions@));
                    }
                    return Some(rc);
                },
                None => {
                },
            }
            i += 1;
        }
        proof {
            assert forall|x: usize| !crate::constraints::simple_safe(*board, x) by {
                if crate::constraints::simple_safe(*board, x) {
                    let i = choose|i: int|
                        crate::constraints::is_clue(*board, i)
                            && crate::constraints::clue_remaining(*board, i) == 0 && (
                        #[trigger] crate::constraints::clue_hidden_cells(*board, i)).contains(x);
                    assert(crate::constraints::clue_hidden_cells(*board, i).len() > 0);
                }
            }
        }
        None
    }

    /// A cross-constraint heuristic: a hidden cell shared by several clues
    /// each of which could still be met without it. The verdict is a
    /// candidate, not a proof, so callers treat it as a guess.
    pub fn analyze_with_sat(&self, board: &Board) -> (r: Option<Vec<usize>>)
        requires
            board.wf(),
            self.shape_ok(*board),
        ensures
            match r {
                Some(c) => exists|cell: int|
                    0 <= cell < board.cells@.len() && c@ == coords_of_index(
                        cell,
                        self.dimensions@,
                    ) && hidden_unflagged(*board, cell as usize),
                None => true,
            },
    {
        match self.heuristic_pick(board) {
            Some(cell) => {
                let rc = index_to_coords(cell, &self.dimensions);
                proof {
                    assert(rc@ == coords_of_index(cell as int, self.dimensions@));
                }
                Some(rc)
            },
            None => None,
        }
    }

    /// The index-level core of the cross-constraint heuristic.
    fn heuristic_pick(&self, board: &Board) -> (r: Option<usize>)
        requires
            board.wf(),
        ensures
            match r {
                Some(cell) => (cell as int) < board.cells@.len() && hidden_unflagged(
                    *board,
                    cell,
                ),
                None => true,
            },
    {
        let total = board.cells.len();
        let mut x: usize = 0;
        while x < total
            invariant
                0 <= x <= total,
                board.wf(),
                total == board.cells@.len(),
            decreases total - x,
        {
            if !board.cells[x].is_revealed && !board.cells[x].is_flagged {
                let mut touching: usize = 0;
                let mut always_ok = true;
                let mut i: usize = 0;
                while i < total
                    invariant
                        0 <= i <= total,
                        board.wf(),
                        (x as int) < board.cells@.len(),
                        total == board.cells@.len(),
                    decreases total - i,
                {
                    if board.cells[i].is_revealed && board.cells[i].adjacent_mines > 0 {
                        let c = build_clue_constraint(board, i);
                        if crate::reducer::cells_contain(&c.cells, x) {
                            if touching < usize::MAX {
                                touching = touching + 1;
                            }
                            if c.cells.len() < 1 || c.cells.len() - 1 < c.mines {
                                always_ok = false;
                            }
                        }
                    }
                    i += 1;
                }
                if touching >= 2 && always_ok {
                    return Some(x);
                }
            }
            x += 1;
        }
        None
    }

    /// The lowest-risk hidden cell as coordinates.
    pub fn make_educated_guess(&self, board: &Board) -> (r: Option<Vec<usize>>)
        requires
            board.wf(),
            self.shape_ok(*board),
        ensures
            match r {
                Some(c) => exists|cell: int|
                    0 <= cell < board.cells@.len() && c@ == coords_of_index(
                        cell,
                        self.dimensions@,
                    ) && hidden_unflagged(*board, cell as usize),
                None => true,
            },
            r.is_some() == exists|x: usize| hidden_unflagged(*board, x),
    {
        let picks = get_probabilistic_fallback(board, 0, 0, self.mines);
        if picks.len() > 0 {
            let cell = picks[0];
            proof {
                assert(hidden_unflagged(*board, picks@[0]));
                assert(exists|x: usize| hidden_unflagged(*board, x));
            }
            let rc = index_to_coords(cell, &self.dimensions);
            proof {
                assert(rc@ == coords_of_index(cell as int, self.dimensions@));
            }
            return Some(rc);
        }
        None
    }
}

impl Algorithm for SATSolver {
    open spec fn compatible(&self, board: Board) -> bool {
        self.shape_ok(board)
    }

    open spec fn assumed_mines(&self) -> nat {
        self.mines as nat
    }

    /// The opening click is a single guess; afterwards a safe answer is a
    /// single hidden cell from a fired zero rule, and a guess means no
    /// zero rule fires anywhere and holds only hidden unflagged cells.
    open spec fn result_ok(&self, board: Board, r: SolverResult) -> bool {
        &&& (self.first_move ==> r.is_guess && r.candidates@.len() == 1)
        &&& (!self.first_move ==> {
            &&& (!r.is_guess ==> r.candidates@.len() == 1 && hidden_unflagged(
                board,
                r.candidates@[0],
            ))
            &&& (r.is_guess ==> (forall|x: usize| !crate::constraints::simple_safe(board, x)) && (
            forall|q: int|
                0 <= q < r.candidates@.len() ==> hidden_unflagged(
                    board,
                    #[trigger] r.candidates@[q],
                )))
        })
    }

    /// Layered moves: first click at the center, then zero rules, then
    /// the heuristic and the guess, all reported as guesses except the
    /// zero-rule verdicts.
    fn find_candidates(&mut self, board: &Board) -> (r: SolverResult) {
        if self.first_move {
            self.first_move = false;
            let c = self.first_click_position();
            proof {
                assert(valid_coords(c@, self.dimensions@)) by {
                    assert forall|t: int| 0 <= t < c@.len() implies #[trigger] c@[t]
                        < self.dimensions@[t] by {
                        assert(self.dimensions@[t] >= 1);
                    }
                }
            }
            let idx = coords_to_index(&c, &self.dimensions);
            let mut candidates: Vec<usize> = Vec::new();
            candidates.push(idx);
            return SolverResult { candidates, is_guess: true };
        }
        let total = board.cells.len();
        let mut i: usize = 0;
        while i < total
            invariant
                0 <= i <= total,
                board.wf(),
                total == board.cells@.len(),
                !old(self).first_move,
                forall|t: int|
                    0 <= t < i ==> !(crate::constraints::is_clue(*board, t)
                        && crate::constraints::clue_remaining(*board, t) == 0 && (
                    #[trigger] crate::constraints::clue_hidden_cells(*board, t)).len() > 0),
            decreases total - i,
        {
            match self.simple_rule_at(board, i) {
                Some(cell) => {
                    let mut candidates: Vec<usize> = Vec::new();
                    candidates.push(cell);
                    return SolverResult { candidates, is_guess: false };
                },
                None => {
                },
            }
            i += 1;
        }
        proof {
            assert forall|x: usize| !crate::constraints::simple_safe(*board, x) by {
                if crate::constraints::simple_safe(*board, x) {
                    let t = choose|t: int|
                        crate::constraints::is_clue(*board, t)
                            && crate::constraints::clue_remaining(*board, t) == 0 && (
                        #[trigger] crate::constraints::clue_hidden_cells(*board, t)).contains(x);
                    assert(crate::constraints::clue_hidden_cells(*board, t).len() > 0);
                }
            }
        }
        // the cross-constraint heuristic offers a candidate, never a proof
        match self.heuristic_pick(board) {
            Some(cell) => {
                let mut candidates: Vec<usize> = Vec::new();
                candidates.push(cell);
                return SolverResult { candidates, is_guess: true };
            },
            None => {
            },
        }
        let picks = get_probabilistic_fallback(board, 0, 0, self.mines);
        proof {
            assert forall|q: int| 0 <= q < picks@.len() implies (#[trigger] picks@[q] as int)
                < board.cells@.len() by {}
            assert forall|q: int| 0 <= q < picks@.len() implies hidden_unflagged(
                *board,
                #[trigger] picks@[q],
            ) by {}
        }
        SolverResult { candidates: picks, is_guess: true }
    }
}

} // verus!
