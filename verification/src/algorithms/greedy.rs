//! The greedy strategy for flat boards: take any cell a met clue proves
//! safe, otherwise click the cell with the lowest mine probability, judged
//! by the clue numbers around it or by global mine density. Probabilities
//! are exact rationals; ties fall to the first cell in index order.
use vstd::prelude::*;
use crate::algorithms::Algorithm;
use crate::algorithms::SolverResult;
use crate::board::Board;
use crate::board::count_matching;
use crate::constraints::board_consistent;
use crate::constraints::build_clue_constraint;
use crate::constraints::clue_hidden_cells;
use crate::constraints::clue_remaining;
use crate::constraints::lemma_hidden_filter;
use crate::constraints::lemma_zero_rule_safe;
use crate::constraints::sat_sub;
use crate::estimator::hidden_unflagged;
use crate::randomness::pick_in_range;
use crate::topology::entries_below;

verus! {

/// Addition clipped at the machine word, so clue mass can be accumulated
/// without overflow on any board.
pub open spec fn add_cap(a: nat, b: nat) -> nat {
    if a + b <= usize::MAX {
        a + b
    } else {
        usize::MAX as nat
    }
}

/// The sum of the clue numbers on the revealed cells of an adjacency row.
pub open spec fn row_clue_sum(board: Board, row: Seq<usize>) -> nat
    decreases row.len(),
{
    if row.len() == 0 {
        0
    } else {
        add_cap(
            row_clue_sum(board, row.drop_last()),
            if 0 <= row.last() < board.cells@.len()
                && board.cells@[row.last() as int].is_revealed {
                board.cells@[row.last() as int].adjacent_mines as nat
            } else {
                0nat
            },
        )
    }
}

pub open spec fn row_revealed(board: Board, row: Seq<usize>) -> nat {
    count_matching(
        row,
        |n: usize| 0 <= n < board.cells@.len() && board.cells@[n as int].is_revealed,
    )
}

pub open spec fn row_flagged(board: Board, row: Seq<usize>) -> nat {
    count_matching(
        row,
        |n: usize| 0 <= n < board.cells@.len() && board.cells@[n as int].is_flagged,
    )
}

/// The heuristic mine probability of a hidden cell as an exact rational:
/// the surrounding clue mass over the cell's hidden neighbors when clues
/// are nearby, otherwise the board's remaining mine density; an already
/// revealed or flagged cell scores one.
pub open spec fn greedy_score(board: Board, idx: int, mines_total: nat) -> (nat, nat) {
    if !(0 <= idx < board.cells@.len()) || board.cells@[idx].is_revealed
        || board.cells@[idx].is_flagged {
        (1, 1)
    } else {
        let row = board.adjacency_map@[idx]@;
        let rev = row_revealed(board, row);
        let flags = row_flagged(board, row);
        let cluesum = row_clue_sum(board, row);
        let hidden = sat_sub(sat_sub(row.len(), rev), flags);
        if rev > 0 && cluesum > 0 && hidden > 0 {
            (sat_sub(cluesum, flags), hidden)
        } else {
            let remaining_cells = sat_sub(
                board.cells@.len(),
                board.total_revealed as nat,
            );
            let remaining_mines = sat_sub(
                mines_total,
                crate::constraints::board_flag_count(board),
            );
            if remaining_cells > 0 {
                (remaining_mines, remaining_cells)
            } else {
                (1, 1)
            }
        }
    }
}

/// A clue the greedy scan acts on: revealed, unflagged, demand already
/// met, hidden neighbors left.
pub open spec fn greedy_zero_fires(board: Board, i: int) -> bool {
    &&& crate::constraints::is_clue(board, i)
    &&& !board.cells@[i].is_flagged
    &&& crate::constraints::clue_remaining(board, i) == 0
    &&& crate::constraints::clue_hidden_cells(board, i).len() > 0
}

pub struct GreedyAlgorithm {
    pub width: usize,
    pub height: usize,
    pub mines: usize,
    pub first_move: bool,
}

impl GreedyAlgorithm {
    pub fn new(width: usize, height: usize, mines: usize) -> (r: GreedyAlgorithm)
        ensures
            r.width == width && r.height == height && r.mines == mines && r.first_move,
    {
        GreedyAlgorithm { width, height, mines, first_move: true }
    }

    /// The exact mine probability the greedy heuristic assigns to a cell.
    pub fn calculate_mine_probability(&self, board: &Board, idx: usize) -> (r: (usize, usize))
        requires
            board.wf(),
            (idx as int) < board.cells@.len(),
        ensures
            (r.0 as nat, r.1 as nat) == greedy_score(*board, idx as int, self.mines as nat),
            r.1 >= 1,
    {
        if board.cells[idx].is_revealed || board.cells[idx].is_flagged {
            return (1, 1);
        }
        let row_len = board.adjacency_map[idx].len();
        let ghost row = board.adjacency_map@[idx as int]@;
        let mut rev: usize = 0;
        let mut flags: usize = 0;
        let mut cluesum: usize = 0;
        let mut t: usize = 0;
        proof {
            assert(row.take(0int) =~= Seq::<usize>::empty());
        }
        while t < row_len
            invariant
                0 <= t <= row_len,
                board.wf(),
                (idx as int) < board.cells@.len(),
                row == board.adjacency_map@[idx as int]@,
                row_len == row.len(),
                rev as nat == row_revealed(*board, row.take(t as int)),
                flags as nat == row_flagged(*board, row.take(t as int)),
                cluesum as nat == row_clue_sum(*board, row.take(t as int)),
                rev <= t && flags <= t,
            decreases row_len - t,
        {
            proof {
                assert(entries_below(row, board.cells@.len() as int));
                assert(row[t as int] < board.cells@.len());
                assert(row.take(t as int + 1).drop_last() =~= row.take(t as int));
                assert(row.take(t as int + 1).last() == row[t as int]);
            }
            let n = board.adjacency_map[idx][t];
            if board.cells[n].is_revealed {
                rev = rev + 1;
                let v = board.cells[n].adjacent_mines as usize;
                if cluesum <= usize::MAX - v {
                    cluesum = cluesum + v;
                } else {
                    cluesum = usize::MAX;
                }
            }
            if board.cells[n].is_flagged {
                flags = flags + 1;
            }
            t += 1;
        }
        proof {
            assert(row.take(row.len() as int) =~= row);
        }
        let hidden_a = if row_len >= rev {
            row_len - rev
        } else {
            0
        };
        let hidden = if hidden_a >= flags {
            hidden_a - flags
        } else {
            0
        };
        if rev > 0 && cluesum > 0 && hidden > 0 {
            let num = if cluesum >= flags {
                cluesum - flags
            } else {
                0
            };
            return (num, hidden);
        }
        let total = board.cells.len();
        let mut flag_count: usize = 0;
        let mut i: usize = 0;
        proof {
            assert(crate::constraints::range_seq(0) =~= Seq::<usize>::empty());
        }
        while i < total
            invariant
                0 <= i <= total,
                board.wf(),
                total == board.cells@.len(),
                flag_count as nat == count_matching(
                    crate::constraints::range_seq(i as int),
                    |n: usize| 0 <= n < board.cells@.len() && board.cells@[n as int].is_flagged,
                ),
                flag_count <= i,
            decreases total - i,
        {
            proof {
                assert(crate::constraints::range_seq(i as int + 1).drop_last()
                    =~= crate::constraints::range_seq(i as int));
                assert(crate::constraints::range_seq(i as int + 1).last() == i as usize);
            }
            if board.cells[i].is_flagged {
                flag_count = flag_count + 1;
            }
            i += 1;
        }
        let remaining_cells = if total >= board.total_revealed {
            total - board.total_revealed
        } else {
            0
        };
        let remaining_mines = if self.mines >= flag_count {
            self.mines - flag_count
        } else {
            0
        };
        if remaining_cells > 0 {
            (remaining_mines, remaining_cells)
        } else {
            (1, 1)
        }
    }

    /// The zero rule at one clue cell: when its demand is already met by
    /// flags, its first hidden unflagged neighbor is safe.
    pub fn find_definitely_safe(&self, board: &Board, idx: usize) -> (r: Option<usize>)
        requires
            board.wf(),
            (idx as int) < board.cells@.len(),
        ensures
            match r {
                Some(cell) => {
                    &&& (cell as int) < board.cells@.len()
                    &&& hidden_unflagged(*board, cell)
                    &&& forall|m: Set<int>|
                        #[trigger] board_consistent(*board, m) ==> !m.contains(cell as int)
                },
                None => true,
            },
            r.is_some() == (crate::constraints::is_clue(*board, idx as int)
                && crate::constraints::clue_remaining(*board, idx as int) == 0
                && crate::constraints::clue_hidden_cells(*board, idx as int).len() > 0),
    {
        if !(board.cells[idx].is_revealed && board.cells[idx].adjacent_mines > 0) {
            return None;
        }
        let c = build_clue_constraint(board, idx);
        if c.mines == 0 && c.cells.len() > 0 {
            let cell = c.cells[0];
            proof {
                lemma_hidden_filter(*board, board.adjacency_map@[idx as int]@);
                assert(c.cells@.contains(cell));
                assert forall|m: Set<int>| #[trigger] board_consistent(*board, m)
                    implies !m.contains(cell as int) by {
                    assert(crate::constraints::is_clue(*board, idx as int));
                    assert(crate::algorithms::sat_utils::cell_set(
                        clue_hidden_cells(*board, idx as int),
                    ).intersect(m).len() == clue_remaining(*board, idx as int));
                    lemma_zero_rule_safe(m, c, cell);
                }
            }
            return Some(cell);
        }
        None
    }

    /// One greedy pass: a provably safe cell from a met clue if any,
    /// otherwise the hidden cell with the lowest heuristic probability.
    pub fn find_safe_cell(&self, board: &Board) -> (r: Option<(usize, bool)>)
        requires
            board.wf(),
        ensures
            match r {
                Some(pick) => {
                    &&& (pick.0 as int) < board.cells@.len()
                    &&& hidden_unflagged(*board, pick.0)
                    &&& (!pick.1 ==> forall|m: Set<int>|
                        #[trigger] board_consistent(*board, m) ==> !m.contains(pick.0 as int))
                    &&& (pick.1 ==> forall|i: int| !greedy_zero_fires(*board, i))
                },
                None => forall|x: usize| !hidden_unflagged(*board, x),
            },
    {
        let total = board.cells.len();
        let mut i: usize = 0;
        while i < total
            invariant
                0 <= i <= total,
                board.wf(),
                total == board.cells@.len(),
                forall|t: int| 0 <= t < i ==> !greedy_zero_fires(*board, t),
            decreases total - i,
        {
            if board.cells[i].is_revealed && !board.cells[i].is_flagged
                && board.cells[i].adjacent_mines > 0 {
                if let Some(cell) = self.find_definitely_safe(board, i) {
                    return Some((cell, false));
                }
            }
            i += 1;
        }
        proof {
            assert forall|t: int| !greedy_zero_fires(*board, t) by {
                if greedy_zero_fires(*board, t) {
                    assert(0 <= t < total as int);
                }
            }
        }
        let mut best: Option<(usize, (usize, usize))> = None;
        let mut i: usize = 0;
        while i < total
            invariant
                0 <= i <= total,
                board.wf(),
                total == board.cells@.len(),
                forall|t: int| !greedy_zero_fires(*board, t),
                match best {
                    Some(b) => (b.0 as int) < board.cells@.len() && hidden_unflagged(
                        *board,
                        b.0,
                    ) && b.1.1 >= 1,
                    None => forall|x: usize| hidden_unflagged(*board, x) ==> x as int >= i,
                },
            decreases total - i,
        {
            if !board.cells[i].is_revealed && !board.cells[i].is_flagged {
                let p = self.calculate_mine_probability(board, i);
                let take = match &best {
                    None => true,
                    Some(b) => {
                        let cur = b.1;
                        proof {
                            assert((p.0 as int) * (cur.1 as int) < u128::MAX && (cur.0 as int) * (
                            p.1 as int) < u128::MAX) by (nonlinear_arith)
                                requires
                                    0 <= p.0 as int <= u64::MAX as int,
                                    0 <= cur.1 as int <= u64::MAX as int,
                                    0 <= cur.0 as int <= u64::MAX as int,
                                    0 <= p.1 as int <= u64::MAX as int,
                            {
                            }
                        }
                        (p.0 as u128) * (cur.1 as u128) < (cur.0 as u128) * (p.1 as u128)
                    },
                };
                if take {
                    best = Some((i, p));
                }
            }
            i += 1;
        }
        match best {
            Some(b) => Some((b.0, true)),
            None => {
                proof {
                    assert forall|x: usize| !hidden_unflagged(*board, x) by {
                        if hidden_unflagged(*board, x) {
                            assert((x as int) < total as int);
                        }
                    }
                }
                None
            },
        }
    }

    /// A random opening near the center of the board.
    pub fn first_click_position(&self, board: &Board) -> (r: (usize, usize))
        requires
            board.wf(),
            board.width == self.width,
            board.height == self.height,
        ensures
            r.0 < self.width,
            r.1 < self.height,
    {
        proof {
            assert(self.width >= 1 && self.height >= 1) by (nonlinear_arith)
                requires
                    (board.width as int) * (board.height as int) >= 1,
                    board.width == self.width,
                    board.height == self.height,
                    board.width >= 0,
                    board.height >= 0,
            {
            }
        }
        let cx = self.width / 2;
        let cy = self.height / 2;
        let off_x = pick_in_range(0, 4);
        let off_y = pick_in_range(0, 4);
        let rx = if cx + off_x >= 2 {
            cx + off_x - 2
        } else {
            0
        };
        let ry = if cy + off_y >= 2 {
            cy + off_y - 2
        } else {
            0
        };
        let x = if rx > self.width - 1 {
            self.width - 1
        } else {
            rx
        };
        let y = if ry > self.height - 1 {
            self.height - 1
        } else {
            ry
        };
        (x, y)
    }
}

impl Algorithm for GreedyAlgorithm {
    open spec fn compatible(&self, board: Board) -> bool {
        board.width == self.width && board.height == self.height
    }

    open spec fn assumed_mines(&self) -> nat {
        self.mines as nat
    }

    /// The opening click is a single in-range guess; afterwards, a safe
    /// answer is a single hidden cell, a guess means no clue's zero rule
    /// fires anywhere, and an empty guess means no hidden cell is left.
    open spec fn result_ok(&self, board: Board, r: SolverResult) -> bool {
        &&& (self.first_move ==> r.is_guess && r.candidates@.len() == 1)
        &&& (!self.first_move ==> {
            &&& (!r.is_guess ==> r.candidates@.len() == 1 && hidden_unflagged(
                board,
                r.candidates@[0],
            ))
            &&& (r.is_guess ==> forall|i: int| !greedy_zero_fires(board, i))
            &&& (r.is_guess && r.candidates@.len() == 0 ==> forall|x: usize|
                !hidden_unflagged(board, x))
        })
    }

    fn find_candidates(&mut self, board: &Board) -> (r: SolverResult) {
        let ncells = board.cells.len();
        if self.first_move {
            self.first_move = false;
            let c = self.first_click_position(board);
            proof {
                assert((c.1 as int) * (board.width as int) + (c.0 as int) < (board.height as int)
                    * (board.width as int)) by (nonlinear_arith)
                    requires
                        (c.1 as int) < (board.height as int),
                        (c.0 as int) < (board.width as int),
                        c.0 >= 0,
                        c.1 >= 0,
                        board.width >= 0,
                {
                }
                assert((board.height as int) * (board.width as int) == (board.width as int) * (
                board.height as int)) by (nonlinear_arith) {}
            }
            let idx = c.1 * self.width + c.0;
            let mut candidates: Vec<usize> = Vec::new();
            candidates.push(idx);
            return SolverResult { candidates, is_guess: true };
        }
        match self.find_safe_cell(board) {
            Some(pick) => {
                let mut candidates: Vec<usize> = Vec::new();
                candidates.push(pick.0);
                SolverResult { candidates, is_guess: pick.1 }
            },
            None => {
                proof {
                    assert forall|i: int| !greedy_zero_fires(*board, i) by {
                        if greedy_zero_fires(*board, i) {
                            let h = crate::constraints::clue_hidden_cells(*board, i);
                            crate::constraints::lemma_hidden_filter(
                                *board,
                                board.adjacency_map@[i]@,
                            );
                            assert(h.contains(h[0]));
                            assert(hidden_unflagged(*board, h[0]));
                        }
                    }
                }
                let candidates: Vec<usize> = Vec::new();
                SolverResult { candidates, is_guess: true }
            },
        }
    }
}

} // verus!
