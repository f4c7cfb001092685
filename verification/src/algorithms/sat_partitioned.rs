//! The partitioned SAT solver: the frontier is split into connected
//! clusters and each cluster gets its own localized CNF, keeping the
//! exponential refutation search tractable. A refutation against a
//! cluster's clauses is a refutation against a subset of the full clause
//! set, so every safety verdict remains sound.
use vstd::prelude::*;
use crate::algorithms::Algorithm;
use crate::algorithms::SolverResult;
use crate::algorithms::sat_utils::Clause;
use crate::algorithms::sat_utils::append_clue_encoding;
use crate::algorithms::sat_utils::cell_is_safe;
use crate::algorithms::sat_utils::cnf_sat;
use crate::algorithms::sat_utils::cnf_view;
use crate::algorithms::sat_utils::cnf_wf;
use crate::algorithms::sat_utils::get_frontier;
use crate::algorithms::sat_utils::get_probabilistic_fallback;
use crate::board::Board;
use crate::constraints::board_consistent;

verus! {

/// The partitioned SAT strategy.
pub struct PartitionedSatSolver {
    pub _width: usize,
    pub _height: usize,
    pub mines: usize,
}

impl PartitionedSatSolver {
    pub fn new(width: usize, height: usize, mines: usize) -> (r: PartitionedSatSolver)
        ensures
            r._width == width && r._height == height && r.mines == mines,
    {
        PartitionedSatSolver { _width: width, _height: height, mines }
    }

    /// Splits the frontier into clusters of cells transitively linked by a
    /// shared clue, by breadth-first search over the constraint graph.
    /// Every cluster member is a frontier cell.
    pub fn get_connected_components(&self, frontier: &Vec<usize>, board: &Board) -> (r: Vec<
        Vec<usize>,
    >)
        requires
            board.wf(),
            forall|q: int|
                0 <= q < frontier@.len() ==> (#[trigger] frontier@[q] as int)
                    < board.cells@.len(),
        ensures
            forall|k: int, q: int|
                0 <= k < r@.len() && 0 <= q < r@[k]@.len() ==> frontier@.contains(
                    #[trigger] r@[k]@[q],
                ),
    {
        let total = board.cells.len();
        let mut in_frontier_mark: Vec<bool> = Vec::new();
        let mut i: usize = 0;
        while i < total
            invariant
                0 <= i <= total,
                in_frontier_mark@.len() == i,
                forall|t: int| 0 <= t < i ==> !(#[trigger] in_frontier_mark@[t]),
            decreases total - i,
        {
            in_frontier_mark.push(false);
            i += 1;
        }
        let mut q: usize = 0;
        while q < frontier.len()
            invariant
                0 <= q <= frontier@.len(),
                in_frontier_mark@.len() == total,
                total == board.cells@.len(),
                forall|t: int|
                    0 <= t < frontier@.len() ==> (#[trigger] frontier@[t] as int) < total,
                forall|t: int|
                    0 <= t < total ==> (#[trigger] in_frontier_mark@[t] ==> frontier@.contains(
                        t as usize,
                    )),
            decreases frontier@.len() - q,
        {
            let f = frontier[q];
            in_frontier_mark.set(f, true);
            proof {
                assert(frontier@.contains(frontier@[q as int]));
            }
            q += 1;
        }
        let mut visited: Vec<bool> = Vec::new();
        let mut i: usize = 0;
        while i < total
            invariant
                0 <= i <= total,
                visited@.len() == i,
            decreases total - i,
        {
            visited.push(false);
            i += 1;
        }
        let mut clusters: Vec<Vec<usize>> = Vec::new();
        let mut s: usize = 0;
        while s < frontier.len()
            invariant
                0 <= s <= frontier@.len(),
                visited@.len() == total,
                in_frontier_mark@.len() == total,
                total == board.cells@.len(),
                board.wf(),
                forall|t: int|
                    0 <= t < frontier@.len() ==> (#[trigger] frontier@[t] as int) < total,
                forall|t: int|
                    0 <= t < total ==> (#[trigger] in_frontier_mark@[t] ==> frontier@.contains(
                        t as usize,
                    )),
                forall|k: int, t: int|
                    0 <= k < clusters@.len() && 0 <= t < clusters@[k]@.len()
                        ==> frontier@.contains(#[trigger] clusters@[k]@[t]),
            decreases frontier@.len() - s,
        {
            let start = frontier[s];
            if !visited[start] {
                visited.set(start, true);
                let mut cluster: Vec<usize> = Vec::new();
                let mut queue: Vec<usize> = Vec::new();
                queue.push(start);
                proof {
                    assert(frontier@.contains(frontier@[s as int]));
                }
                while queue.len() > 0
                    invariant
                        visited@.len() == total,
                        in_frontier_mark@.len() == total,
                        total == board.cells@.len(),
                        board.wf(),
                        forall|t: int|
                            0 <= t < total ==> (#[trigger] in_frontier_mark@[t]
                                ==> frontier@.contains(t as usize)),
                        forall|t: int|
                            0 <= t < queue@.len() ==> (#[trigger] queue@[t] as int) < total
                                && frontier@.contains(queue@[t]),
                        forall|t: int|
                            0 <= t < cluster@.len() ==> frontier@.contains(
                                #[trigger] cluster@[t],
                            ),
                    decreases 2 * crate::board::count_matching(visited@, |b: bool| !b)
                        + queue@.len(),
                {
                    let ghost m0 = 2 * crate::board::count_matching(visited@, |b: bool| !b)
                        + queue@.len();
                    let node_opt = queue.pop();
                    let node = match node_opt {
                        Some(n) => n,
                        None => {
                            proof {
                                assert(false);
                            }
                            0
                        },
                    };
                    cluster.push(node);
                    // walk the clues around this cell, then their hidden
                    // neighbors, to pick up every cell sharing a clue
                    let row_len = board.adjacency_map[node].len();
                    let mut t: usize = 0;
                    while t < row_len
                        invariant
                            0 <= t <= row_len,
                            (node as int) < total,
                            row_len == board.adjacency_map@[node as int]@.len(),
                            visited@.len() == total,
                            in_frontier_mark@.len() == total,
                            total == board.cells@.len(),
                            board.wf(),
                            forall|w: int|
                                0 <= w < total ==> (#[trigger] in_frontier_mark@[w]
                                    ==> frontier@.contains(w as usize)),
                            forall|w: int|
                                0 <= w < queue@.len() ==> (#[trigger] queue@[w] as int) < total
                                    && frontier@.contains(queue@[w]),
                            forall|w: int|
                                0 <= w < cluster@.len() ==> frontier@.contains(
                                    #[trigger] cluster@[w],
                                ),
                            2 * crate::board::count_matching(visited@, |b: bool| !b)
                                + queue@.len() < m0,
                        decreases row_len - t,
                    {
                        proof {
                            assert(crate::topology::entries_below(
                                board.adjacency_map@[node as int]@,
                                total as int,
                            ));
                            assert(board.adjacency_map@[node as int]@[t as int] < total);
                        }
                        let clue = board.adjacency_map[node][t];
                        if board.cells[clue].is_revealed {
                            let crow_len = board.adjacency_map[clue].len();
                            let mut w: usize = 0;
                            while w < crow_len
                                invariant
                                    0 <= w <= crow_len,
                                    (clue as int) < total,
                                    crow_len == board.adjacency_map@[clue as int]@.len(),
                                    visited@.len() == total,
                                    in_frontier_mark@.len() == total,
                                    total == board.cells@.len(),
                                    board.wf(),
                                    forall|u: int|
                                        0 <= u < total ==> (#[trigger] in_frontier_mark@[u]
                                            ==> frontier@.contains(u as usize)),
                                    forall|u: int|
                                        0 <= u < queue@.len() ==> (#[trigger] queue@[u] as int)
                                            < total && frontier@.contains(queue@[u]),
                                    forall|u: int|
                                        0 <= u < cluster@.len() ==> frontier@.contains(
                                            #[trigger] cluster@[u],
                                        ),
                                    2 * crate::board::count_matching(visited@, |b: bool| !b)
                                        + queue@.len() < m0,
                                decreases crow_len - w,
                            {
                                proof {
                                    assert(crate::topology::entries_below(
                                        board.adjacency_map@[clue as int]@,
                                        total as int,
                                    ));
                                    assert(board.adjacency_map@[clue as int]@[w as int] < total);
                                }
                                let nb = board.adjacency_map[clue][w];
                                if in_frontier_mark[nb] && !visited[nb] {
                                    let ghost vpre = visited@;
                                    visited.set(nb, true);
                                    queue.push(nb);
                                    proof {
                                        crate::board::lemma_count_update(
                                            vpre,
                                            |b: bool| !b,
                                            nb as int,
                                            true,
                                        );
                                    }
                                }
                                w += 1;
                            }
                        }
                        t += 1;
                    }
                }
                clusters.push(cluster);
                proof {
                    assert forall|k: int, t: int|
                        0 <= k < clusters@.len() && 0 <= t < clusters@[k]@.len()
                        implies frontier@.contains(#[trigger] clusters@[k]@[t]) by {
                        if k < clusters@.len() - 1 {
                            assert(clusters@[k] == clusters@.drop_last()[k]);
                        }
                    }
                }
            }
            s += 1;
        }
        clusters
    }
}

impl Algorithm for PartitionedSatSolver {
    open spec fn compatible(&self, board: Board) -> bool {
        true
    }

    open spec fn assumed_mines(&self) -> nat {
        self.mines as nat
    }

    /// A non-guess answer is nonempty, lies on the frontier, and is safe
    /// against the clue constraints alone; a guess is the exact risk
    /// ranking.
    open spec fn result_ok(&self, board: Board, r: SolverResult) -> bool {
        &&& (!r.is_guess ==> r.candidates@.len() > 0 && (forall|m: Set<int>, q: int|
            #![trigger board_consistent(board, m), r.candidates@[q]]
            board_consistent(board, m) && 0 <= q < r.candidates@.len() ==> !m.contains(
                r.candidates@[q] as int,
            )) && (forall|q: int|
            0 <= q < r.candidates@.len() ==> crate::algorithms::sat_utils::in_frontier(
                board,
                #[trigger] r.candidates@[q],
            )))
        &&& (board.cells@.len() + 1 <= isize::MAX as usize && r.is_guess
            ==> crate::estimator::fallback_matches(board, self.mines as nat, r.candidates@))
    }

    /// Per cluster, encode the clues touching it and prove cluster cells
    /// safe by contradiction; fall back to risk ranking otherwise.
    fn find_candidates(&mut self, board: &Board) -> (r: SolverResult) {
        if board.cells.len() > isize::MAX as usize - 1 {
            let candidates = get_probabilistic_fallback(board, self._width, self._height, self.mines);
            return SolverResult { candidates, is_guess: true };
        }
        let frontier = get_frontier(board);
        if frontier.len() == 0 {
            let candidates = get_probabilistic_fallback(board, self._width, self._height, self.mines);
            return SolverResult { candidates, is_guess: true };
        }
        let clusters = self.get_connected_components(&frontier, board);
        let total = board.cells.len();
        let mut safe: Vec<usize> = Vec::new();
        let mut k: usize = 0;
        while k < clusters.len()
            invariant
                0 <= k <= clusters@.len(),
                board.wf(),
                total == board.cells@.len(),
                board.cells@.len() <= isize::MAX as usize,
                forall|c: int, q: int|
                    0 <= c < clusters@.len() && 0 <= q < clusters@[c]@.len()
                        ==> frontier@.contains(#[trigger] clusters@[c]@[q]),
                forall|q: int|
                    0 <= q < frontier@.len() ==> (#[trigger] frontier@[q] as int)
                        < board.cells@.len(),
                forall|q: int| 0 <= q < safe@.len() ==> (#[trigger] safe@[q] as int)
                    < board.cells@.len(),
                forall|m: Set<int>, q: int|
                    #![trigger board_consistent(*board, m), safe@[q]]
                    board_consistent(*board, m) && 0 <= q < safe@.len() ==> !m.contains(
                        safe@[q] as int,
                    ),
                forall|x: usize|
                    #[trigger] frontier@.contains(x) <==> crate::algorithms::sat_utils::in_frontier(
                        *board,
                        x,
                    ),
                forall|q: int|
                    0 <= q < safe@.len() ==> crate::algorithms::sat_utils::in_frontier(
                        *board,
                        #[trigger] safe@[q],
                    ),
            decreases clusters@.len() - k,
        {
            // build the localized CNF from the clues adjacent to this cluster
            let mut cluster_clauses: Vec<Clause> = Vec::new();
            proof {
                assert(cnf_view(cluster_clauses@) =~= Seq::<Seq<int>>::empty());
            }
            let mut i: usize = 0;
            while i < total
                invariant
                    0 <= i <= total,
                    0 <= k < clusters@.len(),
                    board.wf(),
                    total == board.cells@.len(),
                    board.cells@.len() <= isize::MAX as usize,
                    cnf_wf(cnf_view(cluster_clauses@)),
                    forall|m: Set<int>|
                        board_consistent(*board, m) ==> #[trigger] cnf_sat(
                            m,
                            cnf_view(cluster_clauses@),
                        ),
                decreases total - i,
            {
                if board.cells[i].is_revealed && board.cells[i].adjacent_mines > 0 {
                    let mut touches_cluster = false;
                    let mut q: usize = 0;
                    while q < clusters[k].len()
                        invariant
                            0 <= q <= clusters@[k as int]@.len(),
                            0 <= k < clusters@.len(),
                            0 <= i < total,
                            total == board.cells@.len(),
                            board.wf(),
                        decreases clusters@[k as int]@.len() - q,
                    {
                        let cell = clusters[k][q];
                        if crate::reducer::cells_contain(&board.adjacency_map[i], cell) {
                            touches_cluster = true;
                        }
                        q += 1;
                    }
                    if touches_cluster {
                        append_clue_encoding(&mut cluster_clauses, board, i);
                    }
                }
                i += 1;
            }
            // test each cluster cell by refutation
            let mut q: usize = 0;
            while q < clusters[k].len()
                invariant
                    0 <= q <= clusters@[k as int]@.len(),
                    0 <= k < clusters@.len(),
                    board.wf(),
                    total == board.cells@.len(),
                    board.cells@.len() <= isize::MAX as usize,
                    cnf_wf(cnf_view(cluster_clauses@)),
                    forall|m: Set<int>|
                        board_consistent(*board, m) ==> #[trigger] cnf_sat(
                            m,
                            cnf_view(cluster_clauses@),
                        ),
                    forall|c: int, t: int|
                        0 <= c < clusters@.len() && 0 <= t < clusters@[c]@.len()
                            ==> frontier@.contains(#[trigger] clusters@[c]@[t]),
                    forall|t: int|
                        0 <= t < frontier@.len() ==> (#[trigger] frontier@[t] as int)
                            < board.cells@.len(),
                    forall|t: int|
                        0 <= t < safe@.len() ==> (#[trigger] safe@[t] as int)
                            < board.cells@.len(),
                    forall|m: Set<int>, t: int|
                        #![trigger board_consistent(*board, m), safe@[t]]
                        board_consistent(*board, m) && 0 <= t < safe@.len() ==> !m.contains(
                            safe@[t] as int,
                        ),
                    forall|x: usize|
                        #[trigger] frontier@.contains(x)
                            <==> crate::algorithms::sat_utils::in_frontier(*board, x),
                    forall|t: int|
                        0 <= t < safe@.len() ==> crate::algorithms::sat_utils::in_frontier(
                            *board,
                            #[trigger] safe@[t],
                        ),
                decreases clusters@[k as int]@.len() - q,
            {
                let cell = clusters[k][q];
                proof {
                    assert(frontier@.contains(clusters@[k as int]@[q as int]));
                    let w = choose|w: int|
                        0 <= w < frontier@.len() && frontier@[w] == clusters@[k as int]@[q as int];
                    assert(crate::algorithms::sat_utils::in_frontier(*board, cell));
                }
                if cell_is_safe(&cluster_clauses, board, cell) {
                    safe.push(cell);
                }
                q += 1;
            }
            k += 1;
        }
        if safe.len() == 0 {
            let candidates = get_probabilistic_fallback(board, self._width, self._height, self.mines);
            SolverResult { candidates, is_guess: true }
        } else {
            SolverResult { candidates: safe, is_guess: false }
        }
    }
}

} // verus!
