//! Counting constraints over hidden cells: extraction from the board's
//! clue cells, their satisfaction semantics over a mine set, and the
//! zero / full / subset-difference entailment lemmas that make every
//! deterministic deduction sound.
use vstd::prelude::*;
use crate::algorithms::sat_utils::cell_set;
use crate::board::Board;
use crate::board::Cell;
use crate::board::count_matching;
use crate::topology::entries_below;
use crate::topology::strictly_sorted;

verus! {

/// One clue's demand: exactly `mines` of the listed hidden cells hold a
/// mine. The cell list is kept sorted and duplicate-free.
pub struct Constraint {
    pub cells: Vec<usize>,
    pub mines: usize,
}

impl Constraint {
    pub open spec fn wf(self) -> bool {
        strictly_sorted(self.cells@)
    }
}

/// Saturating difference on machine integers.
pub open spec fn sat_sub(a: nat, b: nat) -> nat {
    if a >= b {
        (a - b) as nat
    } else {
        0
    }
}

/// Does the mine set `m` satisfy the constraint exactly?
pub open spec fn constraint_sat(m: Set<int>, c: Constraint) -> bool {
    cell_set(c.cells@).intersect(m).len() == c.mines
}

pub open spec fn all_sat(m: Set<int>, cs: Seq<Constraint>) -> bool {
    forall|i: int| 0 <= i < cs.len() ==> constraint_sat(m, #[trigger] cs[i])
}

/// Every element of `a` occurs in `b`.
pub open spec fn seq_subset(a: Seq<usize>, b: Seq<usize>) -> bool {
    forall|q: int| 0 <= q < a.len() ==> b.contains(#[trigger] a[q])
}

/// The elements of `b` that do not occur in `a`, in order.
pub open spec fn seq_diff(b: Seq<usize>, a: Seq<usize>) -> Seq<usize>
    decreases b.len(),
{
    if b.len() == 0 {
        Seq::empty()
    } else if a.contains(b.last()) {
        seq_diff(b.drop_last(), a)
    } else {
        seq_diff(b.drop_last(), a).push(b.last())
    }
}

proof fn lemma_contains_split<A>(c: Seq<A>, x: A)
    requires
        c.len() > 0,
    ensures
        c.contains(x) <==> (c.drop_last().contains(x) || c.last() == x),
{
    if c.contains(x) {
        let i = choose|i: int| 0 <= i < c.len() && c[i] == x;
        if i < c.len() - 1 {
            assert(c.drop_last()[i] == x);
        }
    }
    if c.drop_last().contains(x) {
        let i = choose|i: int| 0 <= i < c.drop_last().len() && c.drop_last()[i] == x;
        assert(c[i] == x);
    }
}

pub proof fn lemma_seq_diff(b: Seq<usize>, a: Seq<usize>)
    ensures
        seq_diff(b, a).len() <= b.len(),
        forall|x: usize|
            #![trigger seq_diff(b, a).contains(x)]
            #![trigger b.contains(x)]
            seq_diff(b, a).contains(x) <==> (b.contains(x) && !a.contains(x)),
        strictly_sorted(b) ==> strictly_sorted(seq_diff(b, a)),
    decreases b.len(),
{
    if b.len() == 0 {
        assert forall|x: usize| !seq_diff(b, a).contains(x) by {}
        assert forall|x: usize| !b.contains(x) by {}
    } else {
        let b0 = b.drop_last();
        lemma_seq_diff(b0, a);
        assert(strictly_sorted(b) ==> strictly_sorted(b0)) by {
            if strictly_sorted(b) {
                assert forall|i: int, j: int|
                    0 <= i < j < b0.len() implies b0[i] < b0[j] by {
                    assert(b0[i] == b[i]);
                    assert(b0[j] == b[j]);
                }
            }
        }
        lemma_contains_split(b, b.last());
        assert forall|x: usize|
            #![trigger seq_diff(b, a).contains(x)]
            #![trigger b.contains(x)]
            seq_diff(b, a).contains(x) <==> (b.contains(x) && !a.contains(x)) by {
            lemma_contains_split(b, x);
            if !a.contains(b.last()) {
                lemma_contains_split(seq_diff(b0, a).push(b.last()), x);
                assert(seq_diff(b0, a).push(b.last()).drop_last() =~= seq_diff(b0, a));
            }
        }
        if strictly_sorted(b) && !a.contains(b.last()) {
            let d = seq_diff(b0, a).push(b.last());
            assert(strictly_sorted(d)) by {
                assert forall|i: int, j: int| 0 <= i < j < d.len() implies d[i] < d[j] by {
                    if j < d.len() - 1 {
                        assert(d[i] == seq_diff(b0, a)[i]);
                        assert(d[j] == seq_diff(b0, a)[j]);
                    } else {
                        assert(d[i] == seq_diff(b0, a)[i]);
                        assert(seq_diff(b0, a).contains(seq_diff(b0, a)[i]));
                        assert(b0.contains(d[i]));
                        let q = choose|q: int| 0 <= q < b0.len() && b0[q] == d[i];
                        assert(b[q] == d[i]);
                        assert(b[q] < b.last());
                    }
                }
            }
        }
    }
}

/// Sorted index lists have no repeats, so their set size is their length.
pub proof fn lemma_sorted_no_dup(s: Seq<usize>)
    requires
        strictly_sorted(s),
    ensures
        s.no_duplicates(),
{
    assert forall|i: int, j: int|
        0 <= i < s.len() && 0 <= j < s.len() && i != j implies s[i] != s[j] by {
        if i < j {
            assert(s[i] < s[j]);
        } else {
            assert(s[j] < s[i]);
        }
    }
}

proof fn lemma_sorted_index_lb(s: Seq<usize>, i: int)
    requires
        strictly_sorted(s),
        0 <= i < s.len(),
    ensures
        s[i] >= i,
    decreases i,
{
    if i > 0 {
        lemma_sorted_index_lb(s, i - 1);
        assert(s[i - 1] < s[i]);
    }
}

/// A sorted list of indices below `n` has at most `n` entries.
pub proof fn lemma_sorted_len_bound(s: Seq<usize>, n: int)
    requires
        strictly_sorted(s),
        entries_below(s, n),
        0 <= n,
    ensures
        s.len() <= n,
{
    if s.len() > 0 {
        lemma_sorted_index_lb(s, s.len() - 1);
        assert(s[s.len() - 1] < n);
    }
}

pub proof fn lemma_cell_set_facts(c: Seq<usize>)
    ensures
        cell_set(c).finite(),
        forall|x: int| #[trigger] cell_set(c).contains(x)
            ==> exists|q: int| 0 <= q < c.len() && c[q] as int == x,
        forall|q: int| 0 <= q < c.len() ==> cell_set(c).contains(#[trigger] c[q] as int),
        strictly_sorted(c) ==> cell_set(c).len() == c.len(),
{
    broadcast use vstd::seq_lib::seq_to_set_is_finite;

    let ints = c.map_values(|v: usize| v as int);
    assert forall|x: int| #[trigger] cell_set(c).contains(x) implies exists|q: int|
        0 <= q < c.len() && c[q] as int == x by {
        assert(ints.contains(x));
        let q = choose|q: int| 0 <= q < ints.len() && ints[q] == x;
        assert(c[q] as int == x);
    }
    assert forall|q: int| 0 <= q < c.len() implies cell_set(c).contains(
        #[trigger] c[q] as int,
    ) by {
        assert(ints[q] == c[q] as int);
        assert(ints.contains(ints[q]));
    }
    if strictly_sorted(c) {
        lemma_sorted_no_dup(c);
        assert forall|i: int, j: int|
            0 <= i < ints.len() && 0 <= j < ints.len() && i != j implies ints[i] != ints[j] by {
            assert(c[i] != c[j]);
        }
        ints.unique_seq_to_set();
    }
}

/// The subset-difference rule is entailed: if `a`'s cells all lie among
/// `b`'s, any mine set satisfying both satisfies their difference with the
/// difference of their counts.
pub proof fn lemma_subset_diff_sound(m: Set<int>, a: Constraint, b: Constraint, d: Constraint)
    requires
        constraint_sat(m, a),
        constraint_sat(m, b),
        a.wf(),
        b.wf(),
        seq_subset(a.cells@, b.cells@),
        d.cells@ == seq_diff(b.cells@, a.cells@),
        d.mines == sat_sub(b.mines as nat, a.mines as nat),
    ensures
        constraint_sat(m, d),
{
    let sa = cell_set(a.cells@);
    let sb = cell_set(b.cells@);
    let sd = cell_set(d.cells@);
    lemma_cell_set_facts(a.cells@);
    lemma_cell_set_facts(b.cells@);
    lemma_cell_set_facts(d.cells@);
    lemma_seq_diff(b.cells@, a.cells@);
    assert(sa.subset_of(sb)) by {
        assert forall|x: int| sa.contains(x) implies sb.contains(x) by {
            let q = choose|q: int| 0 <= q < a.cells@.len() && a.cells@[q] as int == x;
            assert(b.cells@.contains(a.cells@[q]));
            let w = choose|w: int| 0 <= w < b.cells@.len() && b.cells@[w] == a.cells@[q];
            assert(cell_set(b.cells@).contains(b.cells@[w] as int));
        }
    }
    assert(sd =~= sb.difference(sa)) by {
        assert forall|x: int| sd.contains(x) implies sb.difference(sa).contains(x) by {
            let q = choose|q: int| 0 <= q < d.cells@.len() && d.cells@[q] as int == x;
            let v = d.cells@[q];
            assert(d.cells@.contains(v));
            assert(b.cells@.contains(v) && !a.cells@.contains(v));
            let w = choose|w: int| 0 <= w < b.cells@.len() && b.cells@[w] == v;
            assert(sb.contains(x));
            if sa.contains(x) {
                let u = choose|u: int| 0 <= u < a.cells@.len() && a.cells@[u] as int == x;
                assert(a.cells@.contains(a.cells@[u]));
                assert(a.cells@[u] == v);
            }
        }
        assert forall|x: int| sb.difference(sa).contains(x) implies sd.contains(x) by {
            let q = choose|q: int| 0 <= q < b.cells@.len() && b.cells@[q] as int == x;
            let v = b.cells@[q];
            if a.cells@.contains(v) {
                let u = choose|u: int| 0 <= u < a.cells@.len() && a.cells@[u] == v;
                assert(sa.contains(a.cells@[u] as int));
            }
            assert(seq_diff(b.cells@, a.cells@).contains(v));
            let w = choose|w: int| 0 <= w < d.cells@.len() && d.cells@[w] == v;
            assert(sd.contains(d.cells@[w] as int));
        }
    }
    let bm = sb.intersect(m);
    vstd::set_lib::lemma_len_subset(bm, sb);
    crate::algorithms::sat_utils::lemma_len_partition(bm, sa);
    assert(bm.intersect(sa) =~= sa.intersect(m));
    assert(bm.difference(sa) =~= sd.intersect(m));
    assert(sa.intersect(m).len() + sd.intersect(m).len() == b.mines);
    assert(sd.intersect(m).len() == b.mines - a.mines);
}

/// The overlapping-pair rule fires for an ordered pair of constraint
/// views: the first's surplus over the second equals its private cell
/// count, and the second has private cells to free.
pub open spec fn overlap_fires(a: (Seq<usize>, nat), b: (Seq<usize>, nat)) -> bool {
    &&& seq_diff(b.0, a.0).len() > 0
    &&& a.1 >= b.1
    &&& a.1 - b.1 == seq_diff(a.0, b.0).len()
}

/// The overlapping-pair rule is entailed: when the first constraint's
/// surplus over the second equals the number of its private cells, those
/// private cells are all mines and the second's private cells all safe.
pub proof fn lemma_overlap_rule(m: Set<int>, c1: Constraint, c2: Constraint, x: usize)
    requires
        constraint_sat(m, c1),
        constraint_sat(m, c2),
        c1.wf(),
        c2.wf(),
        c1.mines as int - c2.mines as int == seq_diff(c1.cells@, c2.cells@).len(),
        seq_diff(c2.cells@, c1.cells@).contains(x),
    ensures
        !m.contains(x as int),
{
    let sa = cell_set(c1.cells@);
    let sb = cell_set(c2.cells@);
    let d1 = seq_diff(c1.cells@, c2.cells@);
    let d2 = seq_diff(c2.cells@, c1.cells@);
    lemma_cell_set_facts(c1.cells@);
    lemma_cell_set_facts(c2.cells@);
    lemma_cell_set_facts(d1);
    lemma_cell_set_facts(d2);
    lemma_seq_diff(c1.cells@, c2.cells@);
    lemma_seq_diff(c2.cells@, c1.cells@);
    assert(strictly_sorted(d1));
    assert(strictly_sorted(d2));
    assert(cell_set(d1) =~= sa.difference(sb)) by {
        lemma_diff_set(c1.cells@, c2.cells@);
    }
    assert(cell_set(d2) =~= sb.difference(sa)) by {
        lemma_diff_set(c2.cells@, c1.cells@);
    }
    let am = sa.intersect(m);
    let bm = sb.intersect(m);
    vstd::set_lib::lemma_len_subset(am, sa);
    vstd::set_lib::lemma_len_subset(bm, sb);
    crate::algorithms::sat_utils::lemma_len_partition(am, sb);
    crate::algorithms::sat_utils::lemma_len_partition(bm, sa);
    assert(am.intersect(sb) =~= sa.intersect(sb).intersect(m));
    assert(am.difference(sb) =~= cell_set(d1).intersect(m));
    assert(bm.intersect(sa) =~= sa.intersect(sb).intersect(m));
    assert(bm.difference(sa) =~= cell_set(d2).intersect(m));
    vstd::set_lib::lemma_len_subset(cell_set(d1).intersect(m), cell_set(d1));
    assert(cell_set(d1).len() == d1.len());
    // the surplus forces every private cell of c1 to be a mine, leaving
    // none for the private cells of c2
    assert(cell_set(d2).intersect(m).len() == 0);
    if m.contains(x as int) {
        let q = choose|q: int| 0 <= q < d2.len() && d2[q] == x;
        assert(cell_set(d2).contains(d2[q] as int));
        assert(cell_set(d2).intersect(m).contains(x as int));
        cell_set(d2).intersect(m).lemma_len0_is_empty();
    }
}

/// The sorted difference of two index lists, as a set, is the set
/// difference.
proof fn lemma_diff_set(b: Seq<usize>, a: Seq<usize>)
    ensures
        cell_set(seq_diff(b, a)) =~= cell_set(b).difference(cell_set(a)),
{
    let d = seq_diff(b, a);
    lemma_seq_diff(b, a);
    lemma_cell_set_facts(d);
    lemma_cell_set_facts(b);
    lemma_cell_set_facts(a);
    assert forall|x: int| cell_set(d).contains(x) implies cell_set(b).difference(
        cell_set(a),
    ).contains(x) by {
        let q = choose|q: int| 0 <= q < d.len() && d[q] as int == x;
        let v = d[q];
        assert(d.contains(v));
        assert(b.contains(v) && !a.contains(v));
        let w = choose|w: int| 0 <= w < b.len() && b[w] == v;
        assert(cell_set(b).contains(b[w] as int));
        if cell_set(a).contains(x) {
            let u = choose|u: int| 0 <= u < a.len() && a[u] as int == x;
            assert(a.contains(a[u]));
        }
    }
    assert forall|x: int| cell_set(b).difference(cell_set(a)).contains(x) implies cell_set(
        d,
    ).contains(x) by {
        let q = choose|q: int| 0 <= q < b.len() && b[q] as int == x;
        let v = b[q];
        assert(b.contains(v));
        if a.contains(v) {
            let u = choose|u: int| 0 <= u < a.len() && a[u] == v;
            assert(cell_set(a).contains(a[u] as int));
        }
        assert(d.contains(v));
        let w = choose|w: int| 0 <= w < d.len() && d[w] == v;
        assert(cell_set(d).contains(d[w] as int));
    }
}

/// A revealed, positive-count cell: the source of one constraint.
pub open spec fn is_clue(board: Board, i: int) -> bool {
    &&& 0 <= i < board.cells@.len()
    &&& board.cells@[i].is_revealed
    &&& board.cells@[i].adjacent_mines > 0
}

/// The flagged neighbors of cell `i`.
pub open spec fn clue_flag_count(board: Board, i: int) -> nat {
    count_matching(
        board.adjacency_map@[i]@,
        |n: usize| 0 <= n < board.cells@.len() && board.cells@[n as int].is_flagged,
    )
}

/// The mines a clue still demands: its count less its flagged neighbors,
/// saturating at zero.
pub open spec fn clue_remaining(board: Board, i: int) -> nat {
    sat_sub(board.cells@[i].adjacent_mines as nat, clue_flag_count(board, i))
}

/// The hidden, unflagged neighbors of cell `i`, in ascending index order.
pub open spec fn clue_hidden_cells(board: Board, i: int) -> Seq<usize> {
    hidden_filter(board, board.adjacency_map@[i]@)
}

pub open spec fn hidden_filter(board: Board, row: Seq<usize>) -> Seq<usize>
    decreases row.len(),
{
    if row.len() == 0 {
        Seq::empty()
    } else if 0 <= row.last() < board.cells@.len() && !board.cells@[row.last() as int].is_revealed
        && !board.cells@[row.last() as int].is_flagged {
        hidden_filter(board, row.drop_last()).push(row.last())
    } else {
        hidden_filter(board, row.drop_last())
    }
}

/// A mine set is consistent with the board when it meets every clue's
/// constraint over that clue's hidden unflagged neighbors.
pub open spec fn board_consistent(board: Board, m: Set<int>) -> bool {
    forall|i: int|
        is_clue(board, i) ==> cell_set(#[trigger] clue_hidden_cells(board, i)).intersect(
            m,
        ).len() == clue_remaining(board, i)
}

pub proof fn lemma_hidden_filter(board: Board, row: Seq<usize>)
    ensures
        seq_subset(hidden_filter(board, row), row),
        forall|x: usize|
            #![trigger hidden_filter(board, row).contains(x)]
            #![trigger row.contains(x)]
            hidden_filter(board, row).contains(x) <==> (row.contains(x) && 0 <= x
                < board.cells@.len() && !board.cells@[x as int].is_revealed
                && !board.cells@[x as int].is_flagged),
        strictly_sorted(row) ==> strictly_sorted(hidden_filter(board, row)),
    decreases row.len(),
{
    let h = hidden_filter(board, row);
    if row.len() == 0 {
        assert forall|x: usize| !h.contains(x) by {}
        assert forall|x: usize| !row.contains(x) by {}
    } else {
        let r0 = row.drop_last();
        lemma_hidden_filter(board, r0);
        assert(strictly_sorted(row) ==> strictly_sorted(r0)) by {
            if strictly_sorted(row) {
                assert forall|i: int, j: int|
                    0 <= i < j < r0.len() implies r0[i] < r0[j] by {
                    assert(r0[i] == row[i]);
                    assert(r0[j] == row[j]);
                }
            }
        }
        let keep = 0 <= row.last() < board.cells@.len()
            && !board.cells@[row.last() as int].is_revealed
            && !board.cells@[row.last() as int].is_flagged;
        assert forall|x: usize|
            #![trigger hidden_filter(board, row).contains(x)]
            #![trigger row.contains(x)]
            hidden_filter(board, row).contains(x) <==> (row.contains(x) && 0 <= x
                < board.cells@.len() && !board.cells@[x as int].is_revealed
                && !board.cells@[x as int].is_flagged) by {
            lemma_contains_split(row, x);
            if keep {
                lemma_contains_split(hidden_filter(board, r0).push(row.last()), x);
                assert(hidden_filter(board, r0).push(row.last()).drop_last() =~= hidden_filter(
                    board,
                    r0,
                ));
            }
        }
        if strictly_sorted(row) && keep {
            let d = hidden_filter(board, r0).push(row.last());
            assert forall|i: int, j: int| 0 <= i < j < d.len() implies d[i] < d[j] by {
                if j < d.len() - 1 {
                    assert(d[i] == hidden_filter(board, r0)[i]);
                    assert(d[j] == hidden_filter(board, r0)[j]);
                } else {
                    assert(d[i] == hidden_filter(board, r0)[i]);
                    assert(hidden_filter(board, r0).contains(hidden_filter(board, r0)[i]));
                    assert(r0.contains(d[i]));
                    let q = choose|q: int| 0 <= q < r0.len() && r0[q] == d[i];
                    assert(row[q] == d[i]);
                    assert(row[q] < row.last());
                }
            }
        }
        assert forall|q: int| 0 <= q < h.len() implies row.contains(#[trigger] h[q]) by {
            assert(h.contains(h[q]));
        }
    }
}

/// The view of one clue's constraint: its hidden cells and its remaining
/// mine demand.
pub open spec fn clue_view(board: Board, i: int) -> (Seq<usize>, nat) {
    (clue_hidden_cells(board, i), clue_remaining(board, i))
}

/// The views of every clue constraint with hidden cells, in cell order:
/// the mathematical value of the extraction pass.
pub open spec fn board_cviews(board: Board, n: int) -> Seq<(Seq<usize>, nat)>
    decreases n,
{
    if n <= 0 {
        Seq::empty()
    } else {
        let rest = board_cviews(board, n - 1);
        if is_clue(board, n - 1) && clue_hidden_cells(board, n - 1).len() > 0 {
            rest.push(clue_view(board, n - 1))
        } else {
            rest
        }
    }
}

/// The views of an extracted constraint list.
pub open spec fn cviews_of(cs: Seq<Constraint>) -> Seq<(Seq<usize>, nat)> {
    cs.map_values(|c: Constraint| (c.cells@, c.mines as nat))
}

/// The zero rule fires directly at some clue for this cell: a clue whose
/// demand is already met still has `x` among its hidden neighbors.
pub open spec fn simple_safe(board: Board, x: usize) -> bool {
    exists|i: int|
        is_clue(board, i) && clue_remaining(board, i) == 0 && (#[trigger] clue_hidden_cells(
            board,
            i,
        )).contains(x)
}

/// Every constraint of the set is exactly some clue cell's constraint.
pub open spec fn constraints_of_board(board: Board, cs: Seq<Constraint>) -> bool {
    forall|k: int|
        0 <= k < cs.len() ==> (#[trigger] cs[k]).wf() && exists|i: int|
            is_clue(board, i) && cs[k].cells@ == clue_hidden_cells(board, i) && cs[k].mines
                == clue_remaining(board, i)
}

/// Builds the constraint of one clue cell: count the flagged neighbors,
/// keep the hidden unflagged ones, subtract saturating at zero.
pub fn build_clue_constraint(board: &Board, i: usize) -> (r: Constraint)
    requires
        board.wf(),
        (i as int) < board.cells@.len(),
    ensures
        r.wf(),
        r.cells@ == clue_hidden_cells(*board, i as int),
        r.mines == clue_remaining(*board, i as int),
{
    let row_len = board.adjacency_map[i].len();
    let ghost row = board.adjacency_map@[i as int]@;
    let mut hidden: Vec<usize> = Vec::new();
    let mut flags: usize = 0;
    let mut t: usize = 0;
    proof {
        assert(row.take(0int) =~= Seq::<usize>::empty());
    }
    while t < row_len
        invariant
            0 <= t <= row_len,
            board.wf(),
            (i as int) < board.cells@.len(),
            row == board.adjacency_map@[i as int]@,
            row_len == row.len(),
            hidden@ == hidden_filter(*board, row.take(t as int)),
            flags as nat == count_matching(
                row.take(t as int),
                |n: usize| 0 <= n < board.cells@.len() && board.cells@[n as int].is_flagged,
            ),
            flags <= t,
        decreases row_len - t,
    {
        proof {
            assert(entries_below(row, board.cells@.len() as int));
            assert(row[t as int] < board.cells@.len());
            assert(row.take(t as int + 1).drop_last() =~= row.take(t as int));
            assert(row.take(t as int + 1).last() == row[t as int]);
        }
        let n = board.adjacency_map[i][t];
        if board.cells[n].is_flagged {
            flags = flags + 1;
        } else if !board.cells[n].is_revealed {
            hidden.push(n);
        }
        t += 1;
    }
    proof {
        assert(row.take(row.len() as int) =~= row);
        lemma_hidden_filter(*board, row);
        assert(strictly_sorted(row));
    }
    let count = board.cells[i].adjacent_mines as usize;
    let remaining = if count >= flags {
        count - flags
    } else {
        0
    };
    Constraint { cells: hidden, mines: remaining }
}

/// Collects every clue's constraint with at least one hidden cell. Each
/// returned constraint is exactly some clue's, and every clue with hidden
/// neighbors is represented.
pub fn collect_constraints(board: &Board) -> (r: Vec<Constraint>)
    requires
        board.wf(),
    ensures
        constraints_of_board(*board, r@),
        cviews_of(r@) == board_cviews(*board, board.cells@.len() as int),
        forall|k: int| 0 <= k < r@.len() ==> (#[trigger] r@[k]).cells@.len() > 0,
        forall|i: int|
            is_clue(*board, i) && clue_hidden_cells(*board, i).len() > 0 ==> exists|k: int|
                0 <= k < r@.len() && clue_hidden_cells(*board, i) == (#[trigger] r@[k]).cells@
                    && r@[k].mines == clue_remaining(*board, i),
{
    let total = board.cells.len();
    let mut out: Vec<Constraint> = Vec::new();
    let mut i: usize = 0;
    while i < total
        invariant
            0 <= i <= total,
            board.wf(),
            total == board.cells@.len(),
            cviews_of(out@) == board_cviews(*board, i as int),
            forall|k: int|
                0 <= k < out@.len() ==> (#[trigger] out@[k]).wf() && out@[k].cells@.len() > 0
                    && exists|t: int|
                    is_clue(*board, t) && out@[k].cells@ == clue_hidden_cells(*board, t) && (
                    #[trigger] out@[k]).mines == clue_remaining(*board, t),
            forall|t: int|
                0 <= t < i && is_clue(*board, t) && clue_hidden_cells(*board, t).len() > 0
                    ==> exists|k: int|
                    0 <= k < out@.len() && clue_hidden_cells(*board, t) == (
                    #[trigger] out@[k]).cells@ && out@[k].mines == clue_remaining(*board, t),
        decreases total - i,
    {
        let ghost out0 = out@;
        let ghost covered = board.cells@[i as int].is_revealed && board.cells@[
            i as int
        ].adjacent_mines > 0 && clue_hidden_cells(*board, i as int).len() > 0;
        if board.cells[i].is_revealed && board.cells[i].adjacent_mines > 0 {
            let c = build_clue_constraint(board, i);
            if c.cells.len() > 0 {
                out.push(c);
                proof {
                    assert(out@[out@.len() - 1].cells@ == clue_hidden_cells(*board, i as int));
                }
            }
        }
        proof {
            assert(cviews_of(out@) =~~= board_cviews(*board, i as int + 1)) by {
                assert forall|k: int|
                    0 <= k < out@.len() implies cviews_of(out@)[k] == (#[trigger] out@[k].cells@,
                out@[k].mines as nat) by {}
                if out@.len() > out0.len() {
                    assert(out@[out@.len() - 1].cells@ == clue_hidden_cells(*board, i as int));
                    assert forall|k: int|
                        0 <= k < out0.len() implies #[trigger] out@[k] == out0[k] by {}
                }
            }
        }
        proof {
            assert forall|t: int|
                0 <= t < i + 1 && is_clue(*board, t) && clue_hidden_cells(*board, t).len() > 0
                implies exists|k: int|
                0 <= k < out@.len() && clue_hidden_cells(*board, t) == (#[trigger] out@[k]).cells@
                    && out@[k].mines == clue_remaining(*board, t) by {
                if t < i as int {
                    let k0 = choose|k: int|
                        0 <= k < out0.len() && clue_hidden_cells(*board, t) == (
                        #[trigger] out0[k]).cells@ && out0[k].mines == clue_remaining(*board, t);
                    assert(out@[k0] == out0[k0]);
                } else {
                    assert(covered);
                    let k0 = out@.len() - 1;
                    assert(clue_hidden_cells(*board, t) == out@[k0].cells@);
                }
            }
        }
        i += 1;
    }
    proof {
        assert forall|k: int| 0 <= k < out@.len() implies (#[trigger] out@[k]).wf() && exists|
            i: int,
        |
            is_clue(*board, i) && out@[k].cells@ == clue_hidden_cells(*board, i)
                && out@[k].mines == clue_remaining(*board, i) by {
            let t = choose|t: int|
                is_clue(*board, t) && (#[trigger] out@[k]).cells@ == clue_hidden_cells(*board, t)
                    && out@[k].mines == clue_remaining(*board, t);
        }
    }
    out
}

/// One board-wide constraint over every hidden unflagged cell: the mines
/// still unflagged anywhere, letting the global count propagate locally.
pub fn global_constraint(board: &Board, mines: usize) -> (r: Constraint)
    requires
        board.wf(),
    ensures
        r.wf(),
        r.cells@ == all_hidden_cells(*board),
        r.mines as nat == sat_sub(mines as nat, board_flag_count(*board)),
{
    let total = board.cells.len();
    let mut hidden: Vec<usize> = Vec::new();
    let mut flags: usize = 0;
    let mut i: usize = 0;
    proof {
        assert(range_seq(0) =~= Seq::<usize>::empty());
        assert(hidden_filter(*board, range_seq(0)) =~= Seq::<usize>::empty());
        assert(count_matching(
            range_seq(0),
            |n: usize| 0 <= n < board.cells@.len() && board.cells@[n as int].is_flagged,
        ) == 0);
    }
    while i < total
        invariant
            0 <= i <= total,
            board.wf(),
            total == board.cells@.len(),
            hidden@ == hidden_filter(*board, range_seq(i as int)),
            flags as nat == count_matching(
                range_seq(i as int),
                |n: usize| 0 <= n < board.cells@.len() && board.cells@[n as int].is_flagged,
            ),
            flags <= i,
        decreases total - i,
    {
        proof {
            assert(range_seq(i as int + 1).drop_last() =~= range_seq(i as int));
            assert(range_seq(i as int + 1).last() == i as usize);
        }
        if board.cells[i].is_flagged {
            flags = flags + 1;
        } else if !board.cells[i].is_revealed {
            hidden.push(i);
        }
        i += 1;
    }
    let remaining = if mines >= flags {
        mines - flags
    } else {
        0
    };
    proof {
        assert(strictly_sorted(range_seq(total as int))) by {
            assert forall|s: int, t: int|
                0 <= s < t < range_seq(total as int).len() implies range_seq(total as int)[s]
                < range_seq(total as int)[t] by {}
        }
        lemma_hidden_filter(*board, range_seq(total as int));
    }
    Constraint { cells: hidden, mines: remaining }
}

/// The ascending list of all cell indices below `n`.
pub open spec fn range_seq(n: int) -> Seq<usize> {
    Seq::new(n as nat, |q: int| q as usize)
}

/// Every hidden unflagged cell of the board, ascending.
pub open spec fn all_hidden_cells(board: Board) -> Seq<usize> {
    hidden_filter(board, range_seq(board.cells@.len() as int))
}

/// The number of flagged cells on the board.
pub open spec fn board_flag_count(board: Board) -> nat {
    count_matching(
        range_seq(board.cells@.len() as int),
        |n: usize| 0 <= n < board.cells@.len() && board.cells@[n as int].is_flagged,
    )
}

/// Consistency including the global mine total: the clue constraints hold
/// and the remaining unflagged mines lie among the hidden unflagged cells.
pub open spec fn board_consistent_global(board: Board, m: Set<int>, mines: nat) -> bool {
    &&& board_consistent(board, m)
    &&& cell_set(all_hidden_cells(board)).intersect(m).len() == sat_sub(
        mines,
        board_flag_count(board),
    )
}

/// The zero rule is sound: a satisfied constraint demanding no mines has
/// no mine on any of its cells.
pub proof fn lemma_zero_rule_safe(m: Set<int>, c: Constraint, x: usize)
    requires
        constraint_sat(m, c),
        c.mines == 0,
        c.cells@.contains(x),
    ensures
        !m.contains(x as int),
{
    lemma_cell_set_facts(c.cells@);
    let s = cell_set(c.cells@);
    if m.contains(x as int) {
        let q = choose|q: int| 0 <= q < c.cells@.len() && c.cells@[q] == x;
        assert(s.contains(x as int));
        assert(s.intersect(m).contains(x as int));
        vstd::set_lib::lemma_len_subset(s.intersect(m), s);
        if s.intersect(m).len() == 0 {
            s.intersect(m).lemma_len0_is_empty();
        }
    }
}

/// The full rule is sound: a satisfied constraint demanding as many mines
/// as it has cells puts a mine on each of them.
pub proof fn lemma_full_rule_mine(m: Set<int>, c: Constraint, x: usize)
    requires
        constraint_sat(m, c),
        c.wf(),
        c.mines == c.cells@.len(),
        c.cells@.contains(x),
    ensures
        m.contains(x as int),
{
    lemma_cell_set_facts(c.cells@);
    let s = cell_set(c.cells@);
    let si = s.intersect(m);
    assert(si.subset_of(s));
    vstd::set_lib::lemma_len_subset(si, s);
    assert(si.len() == s.len());
    vstd::set_lib::lemma_subset_equality(si, s);
    let q = choose|q: int| 0 <= q < c.cells@.len() && c.cells@[q] == x;
    assert(s.contains(c.cells@[q] as int));
    assert(si.contains(x as int));
}

} // verus!
