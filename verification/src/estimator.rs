//! The fallback risk estimator: when logic yields nothing, every hidden
//! unflagged cell is scored with the most conservative (maximum) ratio of
//! required mines to hidden cells over the constraints touching it, or the
//! global mine density when no constraint does; the cells of minimal score
//! are returned, all ties included, for the caller's own tie-break.
//! Ratios are exact rational numbers compared by cross-multiplication, and
//! constraints enter as plain views: cell list and mine demand.
use vstd::prelude::*;
use crate::board::Board;
use crate::constraints::Constraint;
use crate::constraints::all_hidden_cells;
use crate::constraints::board_cviews;
use crate::constraints::board_flag_count;
use crate::constraints::cviews_of;
use crate::constraints::sat_sub;

verus! {

/// `a <= b` on rationals given as numerator/denominator pairs with
/// positive denominators.
pub open spec fn ratio_le(a: (nat, nat), b: (nat, nat)) -> bool {
    a.0 * b.1 <= b.0 * a.1
}

proof fn lemma_ratio_le_total(a: (nat, nat), b: (nat, nat))
    ensures
        ratio_le(a, b) || ratio_le(b, a),
{
}

proof fn lemma_ratio_le_trans(a: (nat, nat), b: (nat, nat), c: (nat, nat))
    requires
        a.1 >= 1,
        b.1 >= 1,
        c.1 >= 1,
        ratio_le(a, b),
        ratio_le(b, c),
    ensures
        ratio_le(a, c),
{
    assert(a.0 * c.1 <= c.0 * a.1) by (nonlinear_arith)
        requires
            a.0 * b.1 <= b.0 * a.1,
            b.0 * c.1 <= c.0 * b.1,
            a.1 >= 1,
            b.1 >= 1,
            c.1 >= 1,
            a.0 >= 0,
            b.0 >= 0,
            c.0 >= 0,
    {
    }
}

/// Does some constraint view with cells range over `x`?
pub open spec fn touches(cs: Seq<(Seq<usize>, nat)>, x: usize) -> bool {
    exists|k: int| 0 <= k < cs.len() && (#[trigger] cs[k]).0.contains(x) && cs[k].0.len() > 0
}

/// The most conservative ratio among the constraint views touching `x`,
/// starting from zero.
pub open spec fn max_ratio(cs: Seq<(Seq<usize>, nat)>, x: usize) -> (nat, nat)
    decreases cs.len(),
{
    if cs.len() == 0 {
        (0, 1)
    } else {
        let rest = max_ratio(cs.drop_last(), x);
        if cs.last().0.contains(x) && cs.last().0.len() > 0 {
            let cur = (cs.last().1, cs.last().0.len());
            if ratio_le(rest, cur) {
                cur
            } else {
                rest
            }
        } else {
            rest
        }
    }
}

/// A cell's risk score: the maximum touching ratio, or the global density
/// when untouched.
pub open spec fn cell_score(cs: Seq<(Seq<usize>, nat)>, global: (nat, nat), x: usize) -> (
    nat,
    nat,
) {
    if touches(cs, x) {
        max_ratio(cs, x)
    } else {
        global
    }
}

pub open spec fn hidden_unflagged(board: Board, x: usize) -> bool {
    &&& 0 <= x < board.cells@.len()
    &&& !board.cells@[x as int].is_revealed
    &&& !board.cells@[x as int].is_flagged
}

/// The list holds, in ascending order, exactly the hidden unflagged cells
/// whose score under the given constraint views is minimal.
pub open spec fn lowest_risk_set(
    board: Board,
    views: Seq<(Seq<usize>, nat)>,
    global: (nat, nat),
    out: Seq<usize>,
) -> bool {
    &&& (forall|s: int, t: int| 0 <= s < t < out.len() ==> out[s] < out[t])
    &&& (forall|x: usize|
        #[trigger] out.contains(x) <==> (hidden_unflagged(board, x) && forall|y: usize|
            hidden_unflagged(board, y) ==> ratio_le(
                cell_score(views, global, x),
                #[trigger] cell_score(views, global, y),
            )))
    &&& (out.len() == 0 ==> forall|x: usize| !hidden_unflagged(board, x))
}

/// The global density the fallback uses: the mines still unflagged over
/// the hidden unflagged cells, with a unit denominator on an empty board.
pub open spec fn fallback_global_ratio(board: Board, mines: nat) -> (nat, nat) {
    let hidden = all_hidden_cells(board).len();
    (sat_sub(mines, board_flag_count(board)), if hidden >= 1 {
        hidden
    } else {
        1
    })
}

/// The exact demand on the probabilistic fallback: its result is the
/// minimal-score set over the board's own clue constraints, scored with
/// the global density for untouched cells.
pub open spec fn fallback_matches(board: Board, mines: nat, out: Seq<usize>) -> bool {
    lowest_risk_set(
        board,
        board_cviews(board, board.cells@.len() as int),
        fallback_global_ratio(board, mines),
        out,
    )
}

proof fn lemma_max_ratio_den(cs: Seq<(Seq<usize>, nat)>, x: usize)
    ensures
        max_ratio(cs, x).1 >= 1,
    decreases cs.len(),
{
    if cs.len() > 0 {
        lemma_max_ratio_den(cs.drop_last(), x);
    }
}

fn ratio_le_exec(a: (usize, usize), b: (usize, usize)) -> (r: bool)
    ensures
        r == ratio_le((a.0 as nat, a.1 as nat), (b.0 as nat, b.1 as nat)),
{
    proof {
        assert((a.0 as int) * (b.1 as int) < u128::MAX && (b.0 as int) * (a.1 as int)
            < u128::MAX) by (nonlinear_arith)
            requires
                0 <= a.0 as int <= u64::MAX as int,
                0 <= b.1 as int <= u64::MAX as int,
                0 <= b.0 as int <= u64::MAX as int,
                0 <= a.1 as int <= u64::MAX as int,
        {
        }
    }
    let left = (a.0 as u128) * (b.1 as u128);
    let right = (b.0 as u128) * (a.1 as u128);
    left <= right
}

/// The score of one cell: fold the constraints, keeping the largest ratio
/// among those that touch the cell.
fn score_of(cs: &Vec<Constraint>, global: (usize, usize), x: usize) -> (r: (usize, usize))
    requires
        global.1 >= 1,
    ensures
        (r.0 as nat, r.1 as nat) == cell_score(
            cviews_of(cs@),
            (global.0 as nat, global.1 as nat),
            x,
        ),
        r.1 >= 1,
{
    let ghost vs = cviews_of(cs@);
    let mut acc: (usize, usize) = (0, 1);
    let mut found = false;
    let mut k: usize = 0;
    proof {
        assert(vs.take(0int) =~= Seq::<(Seq<usize>, nat)>::empty());
        assert(vs.len() == cs@.len());
    }
    while k < cs.len()
        invariant
            0 <= k <= cs@.len(),
            vs == cviews_of(cs@),
            vs.len() == cs@.len(),
            acc.1 >= 1,
            (acc.0 as nat, acc.1 as nat) == max_ratio(vs.take(k as int), x),
            found == touches(vs.take(k as int), x),
        decreases cs@.len() - k,
    {
        let ghost pre = vs.take(k as int);
        let ghost post = vs.take(k as int + 1);
        proof {
            assert(post.drop_last() =~= pre);
            assert(post.last() == vs[k as int]);
            assert(vs[k as int] == (cs@[k as int].cells@, cs@[k as int].mines as nat));
        }
        let clen = cs[k].cells.len();
        if clen > 0 && crate::reducer::cells_contain(&cs[k].cells, x) {
            let cur = (cs[k].mines, clen);
            if ratio_le_exec(acc, cur) {
                acc = cur;
            }
            found = true;
            proof {
                assert(post[k as int].0.contains(x) && post[k as int].0.len() > 0);
                assert(touches(post, x));
            }
        } else {
            proof {
                assert forall|q: int|
                    0 <= q < post.len() && (#[trigger] post[q]).0.contains(x) && post[q].0.len()
                        > 0 implies q < pre.len() && pre[q].0.contains(x) && pre[q].0.len()
                    > 0 by {
                    if q == k as int {
                    } else {
                        assert(pre[q] == post[q]);
                    }
                }
                if touches(post, x) {
                    let q = choose|q: int|
                        0 <= q < post.len() && (#[trigger] post[q]).0.contains(x) && post[
                            q
                        ].0.len() > 0;
                    assert(touches(pre, x));
                }
                if touches(pre, x) {
                    let q = choose|q: int|
                        0 <= q < pre.len() && (#[trigger] pre[q]).0.contains(x) && pre[q].0.len()
                            > 0;
                    assert(post[q] == pre[q]);
                    assert(touches(post, x));
                }
            }
        }
        k += 1;
    }
    proof {
        assert(vs.take(vs.len() as int) =~= vs);
        lemma_max_ratio_den(vs, x);
    }
    if found {
        acc
    } else {
        global
    }
}

/// Ranks the hidden unflagged cells and returns exactly those whose score
/// is minimal, ascending; ties are decided by exact rational equality.
pub fn rank_lowest_risk(board: &Board, cs: &Vec<Constraint>, global: (usize, usize)) -> (r: Vec<
    usize,
>)
    requires
        board.wf(),
        global.1 >= 1,
    ensures
        lowest_risk_set(*board, cviews_of(cs@), (global.0 as nat, global.1 as nat), r@),
        forall|q: int| 0 <= q < r@.len() ==> (#[trigger] r@[q] as int) < board.cells@.len(),
{
    let ghost vs = cviews_of(cs@);
    let ghost g = (global.0 as nat, global.1 as nat);
    let total = board.cells.len();
    let mut best: (usize, usize) = (0, 1);
    let mut have_best = false;
    let ghost mut witness: usize = 0;
    let mut i: usize = 0;
    while i < total
        invariant
            0 <= i <= total,
            board.wf(),
            total == board.cells@.len(),
            global.1 >= 1,
            g == (global.0 as nat, global.1 as nat),
            vs == cviews_of(cs@),
            best.1 >= 1,
            have_best ==> hidden_unflagged(*board, witness) && (witness as int) < i && (
            best.0 as nat,
            best.1 as nat,
            ) == cell_score(vs, g, witness),
            !have_best ==> forall|x: usize| hidden_unflagged(*board, x) ==> x as int >= i,
            have_best ==> forall|x: usize|
                hidden_unflagged(*board, x) && (x as int) < i ==> ratio_le(
                    (best.0 as nat, best.1 as nat),
                    #[trigger] cell_score(vs, g, x),
                ),
        decreases total - i,
    {
        if !board.cells[i].is_revealed && !board.cells[i].is_flagged {
            let s = score_of(cs, global, i);
            if !have_best {
                best = s;
                have_best = true;
                proof {
                    witness = i;
                }
            } else {
                if !ratio_le_exec(best, s) {
                    proof {
                        lemma_ratio_le_total(
                            (best.0 as nat, best.1 as nat),
                            (s.0 as nat, s.1 as nat),
                        );
                    }
                    let ghost oldbest = (best.0 as nat, best.1 as nat);
                    best = s;
                    proof {
                        witness = i;
                        assert forall|x: usize|
                            hidden_unflagged(*board, x) && (x as int) < i + 1 implies ratio_le(
                            (best.0 as nat, best.1 as nat),
                            #[trigger] cell_score(vs, g, x),
                        ) by {
                            if (x as int) < i as int {
                                lemma_max_ratio_den(vs, x);
                                lemma_ratio_le_trans(
                                    (best.0 as nat, best.1 as nat),
                                    oldbest,
                                    cell_score(vs, g, x),
                                );
                            }
                        }
                    }
                }
            }
        }
        i += 1;
    }
    let mut out: Vec<usize> = Vec::new();
    if !have_best {
        proof {
            assert forall|x: usize| !(#[trigger] out@.contains(x)) by {}
            assert forall|x: usize| !hidden_unflagged(*board, x) by {
                if hidden_unflagged(*board, x) {
                    assert((x as int) < total as int);
                }
            }
        }
        return out;
    }
    let mut i: usize = 0;
    while i < total
        invariant
            0 <= i <= total,
            board.wf(),
            total == board.cells@.len(),
            global.1 >= 1,
            g == (global.0 as nat, global.1 as nat),
            vs == cviews_of(cs@),
            best.1 >= 1,
            hidden_unflagged(*board, witness) && (best.0 as nat, best.1 as nat) == cell_score(
                vs,
                g,
                witness,
            ),
            forall|x: usize|
                hidden_unflagged(*board, x) ==> ratio_le(
                    (best.0 as nat, best.1 as nat),
                    #[trigger] cell_score(vs, g, x),
                ),
            forall|s: int, t: int| 0 <= s < t < out@.len() ==> out@[s] < out@[t],
            forall|x: usize| #[trigger] out@.contains(x) ==> (x as int) < i,
            forall|x: usize|
                #[trigger] out@.contains(x) <==> ((x as int) < i && hidden_unflagged(*board, x)
                    && ratio_le(cell_score(vs, g, x), (best.0 as nat, best.1 as nat))),
        decreases total - i,
    {
        let ghost out0 = out@;
        let mut pushed = false;
        if !board.cells[i].is_revealed && !board.cells[i].is_flagged {
            let s = score_of(cs, global, i);
            if ratio_le_exec(s, best) {
                out.push(i);
                pushed = true;
            }
        }
        proof {
            if !pushed {
                assert forall|x: usize|
                    #[trigger] out@.contains(x) <==> ((x as int) < i + 1 && hidden_unflagged(
                    *board,
                    x,
                ) && ratio_le(cell_score(vs, g, x), (best.0 as nat, best.1 as nat))) by {
                    if x == i as usize {
                        if out@.contains(x) {
                            assert((x as int) < i as int);
                        }
                    }
                }
            }
            if out@ != out0 {
                assert(out@ == out0.push(i as usize));
                assert forall|x: usize| #[trigger] out@.contains(x) implies (out0.contains(x) || x
                    == i as usize) by {
                    let q = choose|q: int| 0 <= q < out@.len() && out@[q] == x;
                    if q < out@.len() - 1 {
                        assert(out0[q] == x);
                    }
                }
                assert forall|x: usize| #[trigger] out0.contains(x) implies out@.contains(x) by {
                    let q = choose|q: int| 0 <= q < out0.len() && out0[q] == x;
                    assert(out@[q] == x);
                }
                assert(out@.contains(i as usize)) by {
                    assert(out@[out@.len() - 1] == i as usize);
                }
                assert forall|s2: int, t2: int|
                    0 <= s2 < t2 < out@.len() implies out@[s2] < out@[t2] by {
                    if t2 < out@.len() - 1 {
                        assert(out@[s2] == out0[s2]);
                        assert(out@[t2] == out0[t2]);
                    } else {
                        assert(out@[s2] == out0[s2]);
                        assert(out0.contains(out0[s2]));
                    }
                }
                assert forall|x: usize|
                    #[trigger] out@.contains(x) <==> ((x as int) < i + 1 && hidden_unflagged(
                    *board,
                    x,
                ) && ratio_le(cell_score(vs, g, x), (best.0 as nat, best.1 as nat))) by {
                    if x == i as usize {
                        assert(out@.contains(x));
                        assert(hidden_unflagged(*board, x));
                        assert(ratio_le(cell_score(vs, g, x), (best.0 as nat, best.1 as nat)));
                    } else {
                        if out@.contains(x) {
                            assert(out0.contains(x));
                        }
                        if out0.contains(x) {
                            assert(out@.contains(x));
                        }
                    }
                }
            }
        }
        i += 1;
    }
    proof {
        assert(ratio_le((best.0 as nat, best.1 as nat), (best.0 as nat, best.1 as nat)));
        assert(out@.contains(witness));
        assert forall|x: usize|
            #[trigger] out@.contains(x) <==> (hidden_unflagged(*board, x) && forall|y: usize|
                hidden_unflagged(*board, y) ==> ratio_le(
                    cell_score(vs, g, x),
                    #[trigger] cell_score(vs, g, y),
                )) by {
            if out@.contains(x) {
                assert forall|y: usize| hidden_unflagged(*board, y) implies ratio_le(
                    cell_score(vs, g, x),
                    #[trigger] cell_score(vs, g, y),
                ) by {
                    lemma_max_ratio_den(vs, x);
                    lemma_max_ratio_den(vs, y);
                    lemma_ratio_le_trans(
                        cell_score(vs, g, x),
                        (best.0 as nat, best.1 as nat),
                        cell_score(vs, g, y),
                    );
                }
            } else {
                if hidden_unflagged(*board, x) && (forall|y: usize|
                    hidden_unflagged(*board, y) ==> ratio_le(
                        cell_score(vs, g, x),
                        #[trigger] cell_score(vs, g, y),
                    )) {
                    assert(ratio_le(cell_score(vs, g, x), cell_score(vs, g, witness)));
                }
            }
        }
        assert forall|q: int| 0 <= q < out@.len() implies (#[trigger] out@[q] as int)
            < board.cells@.len() by {
            assert(out@.contains(out@[q]));
        }
    }
    out
}

} // verus!
