//! Board state: per-cell flags and counts, reveal / flag / reset, deferred
//! first-click mine seeding, and flood fill of zero-count regions. The board
//! owns an immutable adjacency map built once by the topology provider; all
//! solving components read the board through it.
use vstd::prelude::*;
use crate::randomness::shuffle_indices;
use crate::topology::build_lattice_adjacency;
use crate::topology::coords_of_index;
use crate::topology::dims_product;
use crate::topology::entries_below;
use crate::topology::moore_adjacent;
use crate::topology::strictly_sorted;

verus! {

#[derive(Clone, Copy, Debug, PartialEq, Eq)]
pub struct Cell {
    pub is_mine: bool,
    pub is_revealed: bool,
    pub is_flagged: bool,
    pub adjacent_mines: u8,
    pub x: usize,
    pub y: usize,
}

#[derive(Clone, Debug)]
pub struct Board {
    pub width: usize,
    pub height: usize,
    pub mines: usize,
    pub cells: Vec<Cell>,
    pub adjacency_map: Vec<Vec<usize>>,
    pub game_over: bool,
    pub game_won: bool,
    pub total_revealed: usize,
    pub total_clicks: usize,
}

/// How many elements of the sequence satisfy the predicate.
pub open spec fn count_matching<T>(cells: Seq<T>, f: spec_fn(T) -> bool) -> nat
    decreases cells.len(),
{
    if cells.len() == 0 {
        0
    } else {
        count_matching(cells.drop_last(), f) + if f(cells.last()) {
            1nat
        } else {
            0nat
        }
    }
}

/// A neighbor-mine count clipped to what the cell's byte-wide field holds.
pub open spec fn cap255(x: nat) -> nat {
    if x < 255 {
        x
    } else {
        255
    }
}

/// Cells agree on everything but their revealed flag.
pub open spec fn same_but_revealed(c1: Cell, c2: Cell) -> bool {
    &&& c1.is_mine == c2.is_mine
    &&& c1.is_flagged == c2.is_flagged
    &&& c1.adjacent_mines == c2.adjacent_mines
    &&& c1.x == c2.x
    &&& c1.y == c2.y
}

/// A cell the flood fill may reveal: hidden, unflagged, not a mine.
pub open spec fn flood_eligible(b: Board, j: int) -> bool {
    &&& 0 <= j < b.cells@.len()
    &&& !b.cells@[j].is_revealed
    &&& !b.cells@[j].is_flagged
    &&& !b.cells@[j].is_mine
}

/// A flood path: starts at `s`, follows the adjacency map, and passes
/// only through zero-count cells the flood itself may reveal.
pub open spec fn flood_path_ok(b: Board, s: int, p: Seq<int>) -> bool {
    &&& p.len() >= 2
    &&& p[0] == s
    &&& (forall|i: int| 0 <= i < p.len() ==> 0 <= #[trigger] p[i] < b.cells@.len())
    &&& (forall|i: int|
        0 <= i < p.len() - 1 ==> b.adjacency_map@[#[trigger] p[i]]@.contains(p[i + 1] as usize))
    &&& (forall|i: int|
        1 <= i < p.len() - 1 ==> flood_eligible(b, #[trigger] p[i]) && b.cells@[p[
            i
        ]].adjacent_mines == 0)
}

/// The flood fill reaches `j` from `s`: `j` may be revealed and some flood
/// path ends at it.
pub open spec fn flood_reached(b: Board, s: int, j: int) -> bool {
    &&& flood_eligible(b, j)
    &&& exists|p: Seq<int>| flood_path_ok(b, s, p) && p.last() == j
}

/// One more step along a flood path: an eligible neighbor of the start or
/// of a reached zero-count cell is reached.
proof fn lemma_flood_extend(b: Board, s: int, cur: int, n: int)
    requires
        0 <= s < b.cells@.len(),
        0 <= cur < b.cells@.len(),
        0 <= n < b.cells@.len(),
        cur == s || (flood_reached(b, s, cur) && b.cells@[cur].adjacent_mines == 0),
        b.adjacency_map@[cur]@.contains(n as usize),
        flood_eligible(b, n),
    ensures
        flood_reached(b, s, n),
{
    if cur == s {
        let p = seq![s, n];
        assert(p[0] == s && p[1] == n && p.len() == 2);
        assert(flood_path_ok(b, s, p)) by {
            assert forall|i: int| 0 <= i < p.len() implies 0 <= #[trigger] p[i]
                < b.cells@.len() by {}
            assert forall|i: int|
                0 <= i < p.len() - 1 implies b.adjacency_map@[#[trigger] p[i]]@.contains(
                p[i + 1] as usize,
            ) by {}
        }
        assert(p.last() == n);
    } else {
        let p0 = choose|p0: Seq<int>| flood_path_ok(b, s, p0) && p0.last() == cur;
        let p = p0.push(n);
        assert(flood_path_ok(b, s, p)) by {
            assert(p[0] == p0[0]);
            assert forall|i: int| 0 <= i < p.len() implies 0 <= #[trigger] p[i]
                < b.cells@.len() by {
                if i < p.len() - 1 {
                    assert(p[i] == p0[i]);
                }
            }
            assert forall|i: int|
                0 <= i < p.len() - 1 implies b.adjacency_map@[#[trigger] p[i]]@.contains(
                p[i + 1] as usize,
            ) by {
                if i < p.len() - 2 {
                    assert(p[i] == p0[i]);
                    assert(p[i + 1] == p0[i + 1]);
                } else {
                    assert(p[i] == p0[p0.len() - 1]);
                    assert(p[i + 1] == n);
                }
            }
            assert forall|i: int|
                1 <= i < p.len() - 1 implies flood_eligible(b, #[trigger] p[i]) && b.cells@[p[
                i
            ]].adjacent_mines == 0 by {
                if i < p.len() - 2 {
                    assert(p[i] == p0[i]);
                } else {
                    assert(p[i] == cur);
                }
            }
        }
        assert(p.last() == n);
    }
}

/// With the flood's closure clauses, everything reachable is revealed:
/// together with the soundness clause (newly revealed cells are reached)
/// this pins the revealed region exactly.
pub proof fn lemma_flood_region(b0: Board, b1: Board, s: int, p: Seq<int>)
    requires
        b0.cells@.len() <= usize::MAX,
        b1.cells@.len() == b0.cells@.len(),
        flood_closed_at(b0, b1, s),
        forall|k: int|
            0 <= k < b0.cells@.len() && (#[trigger] b1.cells@[k]).is_revealed
                && !b0.cells@[k].is_revealed && b0.cells@[k].adjacent_mines == 0
                ==> flood_closed_at(b0, b1, k),
        flood_path_ok(b0, s, p),
        flood_eligible(b0, p.last()),
    ensures
        b1.cells@[p.last()].is_revealed,
    decreases p.len(),
{
    if p.len() == 2 {
        assert(0 <= p[0] < b0.cells@.len());
        assert(0 <= p[1] < b0.cells@.len());
        assert(b0.adjacency_map@[p[0]]@.contains(p[1] as usize));
        let row = b0.adjacency_map@[s]@;
        let q = choose|q: int| 0 <= q < row.len() && row[q] == p[1] as usize;
        assert((row[q]) as int == p[1]);
        assert(flood_eligible(b0, (row[q]) as int));
        assert(b1.cells@[row[q] as int].is_revealed);
    } else {
        let p0 = p.drop_last();
        assert(flood_path_ok(b0, s, p0)) by {
            assert(p0[0] == p[0]);
            assert forall|i: int| 0 <= i < p0.len() implies 0 <= #[trigger] p0[i]
                < b0.cells@.len() by {
                assert(p0[i] == p[i]);
            }
            assert forall|i: int|
                0 <= i < p0.len() - 1 implies b0.adjacency_map@[#[trigger] p0[i]]@.contains(
                p0[i + 1] as usize,
            ) by {
                assert(p0[i] == p[i]);
                assert(p0[i + 1] == p[i + 1]);
            }
            assert forall|i: int|
                1 <= i < p0.len() - 1 implies flood_eligible(b0, #[trigger] p0[i]) && b0.cells@[
                p0[i]
            ].adjacent_mines == 0 by {
                assert(p0[i] == p[i]);
            }
        }
        let mid = p0.last();
        assert(mid == p[p.len() - 2]);
        assert(flood_eligible(b0, mid) && b0.cells@[mid].adjacent_mines == 0);
        lemma_flood_region(b0, b1, s, p0);
        assert(b1.cells@[mid].is_revealed);
        assert(flood_closed_at(b0, b1, mid));
        assert(0 <= p[p.len() - 1] < b0.cells@.len());
        assert(b0.adjacency_map@[p[p.len() - 2]]@.contains(p[p.len() - 1] as usize));
        let row = b0.adjacency_map@[mid]@;
        let q = choose|q: int| 0 <= q < row.len() && row[q] == p.last() as usize;
        assert((row[q]) as int == p.last());
        assert(flood_eligible(b0, (row[q]) as int));
        assert(b1.cells@[row[q] as int].is_revealed);
    }
}

/// Every neighbor of `j` the flood may reveal is revealed in `b1`: the
/// expansion at `j` is finished.
pub open spec fn flood_closed_at(b0: Board, b1: Board, j: int) -> bool {
    forall|q: int|
        0 <= q < b0.adjacency_map@[j]@.len() && flood_eligible(
            b0,
            (#[trigger] b0.adjacency_map@[j]@[q]) as int,
        ) ==> b1.cells@[b0.adjacency_map@[j]@[q] as int].is_revealed
}

pub open spec fn is_counted_revealed(c: Cell) -> bool {
    c.is_revealed && !c.is_mine
}

pub open spec fn is_any_revealed(c: Cell) -> bool {
    c.is_revealed
}

pub proof fn lemma_count_le_len<T>(cells: Seq<T>, f: spec_fn(T) -> bool)
    ensures
        count_matching(cells, f) <= cells.len(),
    decreases cells.len(),
{
    if cells.len() > 0 {
        lemma_count_le_len(cells.drop_last(), f);
    }
}

pub proof fn lemma_count_lt_len<T>(cells: Seq<T>, f: spec_fn(T) -> bool, k: int)
    requires
        0 <= k < cells.len(),
        !f(cells[k]),
    ensures
        count_matching(cells, f) < cells.len(),
    decreases cells.len(),
{
    if k == cells.len() - 1 {
        lemma_count_le_len(cells.drop_last(), f);
    } else {
        assert(cells.drop_last()[k] == cells[k]);
        lemma_count_lt_len(cells.drop_last(), f, k);
    }
}

pub proof fn lemma_count_update<T>(cells: Seq<T>, f: spec_fn(T) -> bool, k: int, v: T)
    requires
        0 <= k < cells.len(),
    ensures
        count_matching(cells.update(k, v), f) == count_matching(cells, f) - (if f(cells[k]) {
            1int
        } else {
            0int
        }) + (if f(v) {
            1int
        } else {
            0int
        }),
    decreases cells.len(),
{
    let upd = cells.update(k, v);
    if k == cells.len() - 1 {
        assert(upd.drop_last() =~= cells.drop_last());
        assert(upd.last() == v);
    } else {
        assert(upd.drop_last() =~= cells.drop_last().update(k, v));
        assert(upd.last() == cells.last());
        assert(cells.drop_last()[k] == cells[k]);
        lemma_count_update(cells.drop_last(), f, k, v);
    }
}

pub proof fn lemma_count_zero<T>(cells: Seq<T>, f: spec_fn(T) -> bool)
    requires
        forall|i: int| 0 <= i < cells.len() ==> !f(#[trigger] cells[i]),
    ensures
        count_matching(cells, f) == 0,
    decreases cells.len(),
{
    if cells.len() > 0 {
        assert forall|i: int| 0 <= i < cells.drop_last().len() implies !f(
            #[trigger] cells.drop_last()[i],
        ) by {
            assert(cells.drop_last()[i] == cells[i]);
        }
        lemma_count_zero(cells.drop_last(), f);
        assert(!f(cells[cells.len() - 1]));
    }
}

/// Sequences whose elements agree under the predicate have equal counts.
pub proof fn lemma_count_same<T>(c1: Seq<T>, c2: Seq<T>, f: spec_fn(T) -> bool)
    requires
        c1.len() == c2.len(),
        forall|i: int| 0 <= i < c1.len() ==> f(#[trigger] c1[i]) == f(c2[i]),
    ensures
        count_matching(c1, f) == count_matching(c2, f),
    decreases c1.len(),
{
    if c1.len() > 0 {
        assert forall|i: int|
            0 <= i < c1.drop_last().len() implies f(#[trigger] c1.drop_last()[i]) == f(
            c2.drop_last()[i],
        ) by {
            assert(c1.drop_last()[i] == c1[i]);
            assert(c2.drop_last()[i] == c2[i]);
        }
        lemma_count_same(c1.drop_last(), c2.drop_last(), f);
        assert(f(c1[c1.len() - 1]) == f(c2[c1.len() - 1]));
    }
}

/// The number of mines among the cells named by an adjacency row.
pub open spec fn adj_mine_count(cells: Seq<Cell>, row: Seq<usize>) -> nat
    decreases row.len(),
{
    if row.len() == 0 {
        0
    } else {
        adj_mine_count(cells, row.drop_last()) + if 0 <= row.last()
            < cells.len() && cells[row.last() as int].is_mine {
            1nat
        } else {
            0nat
        }
    }
}

/// Is cell `i` inside the first-click safety zone around `(fx, fy)`: within
/// one step on both axes of a `w`-wide board?
pub open spec fn in_safety_zone(w: int, i: int, fx: int, fy: int) -> bool {
    w >= 1 && -1 <= (i % w) - fx <= 1 && -1 <= (i / w) - fy <= 1
}

/// How many of the first `len` cells lie outside the safety zone: the pool
/// the deferred mine seeding draws from.
pub open spec fn free_cell_count(len: int, w: int, fx: int, fy: int) -> nat {
    count_matching(
        crate::constraints::range_seq(len),
        |i: usize| !in_safety_zone(w, i as int, fx, fy),
    )
}

/// The number of mines the seeding places: the configured count, unless the
/// pool outside the safety zone is smaller.
pub open spec fn seeded_mine_count(board: Board, fx: int, fy: int) -> nat {
    let free = free_cell_count(board.cells@.len() as int, board.width as int, fx, fy);
    if board.mines as nat <= free {
        board.mines as nat
    } else {
        free
    }
}

impl Board {
    /// Internal consistency: the adjacency map covers every cell with valid,
    /// ascending neighbor lists; counters track the cell flags; a fresh game
    /// (no click yet) has no mines seeded.
    pub open spec fn wf(self) -> bool {
        &&& self.adjacency_map@.len() == self.cells@.len()
        &&& self.cells@.len() == self.width * self.height
        &&& self.mines < self.cells@.len()
        &&& forall|i: int|
            0 <= i < self.adjacency_map@.len() ==> entries_below(
                #[trigger] self.adjacency_map@[i]@,
                self.cells@.len() as int,
            )
        &&& forall|i: int|
            0 <= i < self.adjacency_map@.len() ==> strictly_sorted(#[trigger] self.adjacency_map@[i]@)
        &&& self.total_revealed == count_matching(self.cells@, |c: Cell| is_counted_revealed(c))
        &&& self.total_clicks <= count_matching(self.cells@, |c: Cell| is_any_revealed(c))
        &&& (self.total_clicks == 0 ==> forall|i: int|
            0 <= i < self.cells@.len() ==> !(#[trigger] self.cells@[i]).is_mine
                && !self.cells@[i].is_revealed)
    }

    /// A board of `width * height` hidden cells with the flat Moore
    /// adjacency; mines are seeded lazily on the first reveal.
    pub fn new(width: usize, height: usize, mines: usize) -> (b: Board)
        requires
            width * height <= usize::MAX,
            mines < width * height,
        ensures
            b.wf(),
            b.width == width && b.height == height && b.mines == mines,
            b.cells@.len() == width * height,
            !b.game_over && !b.game_won && b.total_revealed == 0 && b.total_clicks == 0,
            forall|i: int|
                0 <= i < b.cells@.len() ==> (#[trigger] b.cells@[i]) == (Cell {
                    is_mine: false,
                    is_revealed: false,
                    is_flagged: false,
                    adjacent_mines: 0,
                    x: (i % (width as int)) as usize,
                    y: (i / (width as int)) as usize,
                }),
            forall|a: int, c: int|
                0 <= a < b.cells@.len() && 0 <= c < b.cells@.len() ==> (
                #[trigger] b.adjacency_map@[a]@.contains(c as usize) <==> moore_adjacent(
                    coords_of_index(a, seq![width, height]),
                    coords_of_index(c, seq![width, height]),
                )),
    {
        let dims_v: Vec<usize> = vec![width, height];
        proof {
            assert(dims_v@ =~= seq![width, height]);
            assert(dims_v@.drop_last() =~= seq![width]);
            assert(dims_v@.drop_last().drop_last() =~= Seq::<usize>::empty());
            assert(dims_product(dims_v@.drop_last().drop_last()) == 1);
            assert(dims_product(dims_v@.drop_last()) == 1 * (width as nat));
            assert(dims_product(dims_v@) == (1 * (width as nat)) * (height as nat));
            assert(dims_product(dims_v@) == (width * height) as nat);
            assert(width * height >= 1);
            assert(width >= 1 && height >= 1) by (nonlinear_arith)
                requires
                    width * height >= 1,
                    width >= 0,
                    height >= 0,
            {
            }
            assert forall|t: int| 0 <= t < dims_v@.len() implies #[trigger] dims_v@[t] >= 1 by {}
        }
        let adjacency = build_lattice_adjacency(&dims_v);
        let total = width * height;
        let mut cells: Vec<Cell> = Vec::new();
        let mut y: usize = 0;
        while y < height
            invariant
                0 <= y <= height,
                width * height <= usize::MAX,
                width >= 1,
                cells@.len() == y * width,
                forall|i: int|
                    0 <= i < cells@.len() ==> (#[trigger] cells@[i]) == (Cell {
                        is_mine: false,
                        is_revealed: false,
                        is_flagged: false,
                        adjacent_mines: 0,
                        x: (i % (width as int)) as usize,
                        y: (i / (width as int)) as usize,
                    }),
            decreases height - y,
        {
            let mut x: usize = 0;
            proof {
                assert(y * width + width <= height * width) by (nonlinear_arith)
                    requires
                        y < height,
                        width >= 0,
                {
                }
                assert(height * width == width * height) by (nonlinear_arith) {}
            }
            while x < width
                invariant
                    0 <= x <= width,
                    y < height,
                    width >= 1,
                    width * height <= usize::MAX,
                    y * width + width <= width * height,
                    cells@.len() == y * width + x,
                    forall|i: int|
                        0 <= i < cells@.len() ==> (#[trigger] cells@[i]) == (Cell {
                            is_mine: false,
                            is_revealed: false,
                            is_flagged: false,
                            adjacent_mines: 0,
                            x: (i % (width as int)) as usize,
                            y: (i / (width as int)) as usize,
                        }),
                decreases width - x,
            {
                cells.push(
                    Cell {
                        is_mine: false,
                        is_revealed: false,
                        is_flagged: false,
                        adjacent_mines: 0,
                        x,
                        y,
                    },
                );
                proof {
                    broadcast use vstd::arithmetic::div_mod::lemma_fundamental_div_mod_converse_mod;
                    broadcast use vstd::arithmetic::div_mod::lemma_fundamental_div_mod_converse_div;

                    let i = (y * width + x) as int;
                    assert(i == (width as int) * (y as int) + (x as int)) by (nonlinear_arith)
                        requires
                            i == (y as int) * (width as int) + (x as int),
                    {
                    }
                    assert(i % (width as int) == x as int);
                    assert(i / (width as int) == y as int);
                }
                x += 1;
            }
            y += 1;
            proof {
                assert(y * width == (y - 1) * width + width) by (nonlinear_arith) {}
            }
        }
        proof {
            assert(height * width == width * height) by (nonlinear_arith) {}
            assert(cells@.len() == width * height);
        }
        let b = Board {
            width,
            height,
            mines,
            cells,
            adjacency_map: adjacency,
            game_over: false,
            game_won: false,
            total_revealed: 0,
            total_clicks: 0,
        };
        proof {
            lemma_count_zero(b.cells@, |c: Cell| is_counted_revealed(c));
            lemma_count_zero(b.cells@, |c: Cell| is_any_revealed(c));
        }
        b
    }

    /// A board over a caller-supplied adjacency map: the hook for manifold
    /// shapes such as the cube surface.
    pub fn with_adjacency(mines: usize, adjacency: Vec<Vec<usize>>) -> (b: Board)
        requires
            mines < adjacency@.len(),
            forall|i: int|
                0 <= i < adjacency@.len() ==> entries_below(
                    #[trigger] adjacency@[i]@,
                    adjacency@.len() as int,
                ),
            forall|i: int|
                0 <= i < adjacency@.len() ==> strictly_sorted(#[trigger] adjacency@[i]@),
        ensures
            b.wf(),
            b.adjacency_map == adjacency,
            b.width == adjacency@.len() && b.height == 1 && b.mines == mines,
            b.cells@.len() == adjacency@.len(),
            !b.game_over && !b.game_won && b.total_revealed == 0 && b.total_clicks == 0,
            forall|i: int|
                0 <= i < b.cells@.len() ==> !(#[trigger] b.cells@[i]).is_mine
                    && !b.cells@[i].is_revealed && !b.cells@[i].is_flagged,
    {
        let total = adjacency.len();
        let mut cells: Vec<Cell> = Vec::new();
        let mut i: usize = 0;
        while i < total
            invariant
                0 <= i <= total,
                cells@.len() == i,
                forall|t: int|
                    0 <= t < cells@.len() ==> (#[trigger] cells@[t]) == (Cell {
                        is_mine: false,
                        is_revealed: false,
                        is_flagged: false,
                        adjacent_mines: 0,
                        x: t as usize,
                        y: 0,
                    }),
            decreases total - i,
        {
            cells.push(
                Cell {
                    is_mine: false,
                    is_revealed: false,
                    is_flagged: false,
                    adjacent_mines: 0,
                    x: i,
                    y: 0,
                },
            );
            i += 1;
        }
        let b = Board {
            width: total,
            height: 1,
            mines,
            cells,
            adjacency_map: adjacency,
            game_over: false,
            game_won: false,
            total_revealed: 0,
            total_clicks: 0,
        };
        proof {
            assert(total * 1 == total) by (nonlinear_arith) {}
            lemma_count_zero(b.cells@, |c: Cell| is_counted_revealed(c));
            lemma_count_zero(b.cells@, |c: Cell| is_any_revealed(c));
        }
        b
    }

    /// Recomputes every non-mine cell's neighbor-mine count from the
    /// adjacency map, clipped to the byte-wide field.
    pub fn calculate_adjacent_mines(&mut self)
        requires
            old(self).wf(),
        ensures
            final(self).wf(),
            final(self).width == old(self).width,
            final(self).height == old(self).height,
            final(self).mines == old(self).mines,
            final(self).game_over == old(self).game_over,
            final(self).game_won == old(self).game_won,
            final(self).total_revealed == old(self).total_revealed,
            final(self).total_clicks == old(self).total_clicks,
            final(self).adjacency_map == old(self).adjacency_map,
            final(self).cells@.len() == old(self).cells@.len(),
            forall|j: int|
                0 <= j < old(self).cells@.len() ==> {
                    let c0 = #[trigger] old(self).cells@[j];
                    let c1 = final(self).cells@[j];
                    c1.is_mine == c0.is_mine && c1.is_revealed == c0.is_revealed && c1.is_flagged
                        == c0.is_flagged && c1.x == c0.x && c1.y == c0.y
                },
            forall|j: int|
                0 <= j < old(self).cells@.len() && old(self).cells@[j].is_mine
                    ==> final(self).cells@[j] == old(self).cells@[j],
            forall|j: int|
                0 <= j < old(self).cells@.len() && !old(self).cells@[j].is_mine ==> (
                #[trigger] final(self).cells@[j]).adjacent_mines as nat == cap255(
                    adj_mine_count(final(self).cells@, final(self).adjacency_map@[j]@),
                ),
    {
        let ghost orig = *old(self);
        self.calculate_adjacent_mines_unchecked();
        proof {
            lemma_count_same(orig.cells@, self.cells@, |c: Cell| is_counted_revealed(c));
            lemma_count_same(orig.cells@, self.cells@, |c: Cell| is_any_revealed(c));
        }
    }

    /// Seeds the mines, deferred to the first reveal: every cell outside the
    /// clicked cell's own Moore zone is a candidate, a random permutation
    /// picks among them, and neighbor counts are recomputed. The clicked
    /// cell and its surroundings stay mine-free.
    pub fn place_mines_after_first_click(&mut self, first_x: usize, first_y: usize)
        requires
            old(self).wf(),
            old(self).total_clicks == 0,
            first_x < old(self).width,
            first_y < old(self).height,
        ensures
            final(self).width == old(self).width,
            final(self).height == old(self).height,
            final(self).mines == old(self).mines,
            final(self).game_over == old(self).game_over,
            final(self).game_won == old(self).game_won,
            final(self).total_revealed == old(self).total_revealed,
            final(self).total_clicks == old(self).total_clicks,
            final(self).adjacency_map == old(self).adjacency_map,
            final(self).cells@.len() == old(self).cells@.len(),
            forall|j: int|
                0 <= j < old(self).cells@.len() ==> {
                    let c0 = #[trigger] old(self).cells@[j];
                    let c1 = final(self).cells@[j];
                    c1.is_revealed == c0.is_revealed && c1.is_flagged == c0.is_flagged && c1.x
                        == c0.x && c1.y == c0.y
                },
            forall|j: int|
                0 <= j < final(self).cells@.len() && in_safety_zone(
                    final(self).width as int,
                    j,
                    first_x as int,
                    first_y as int,
                ) ==> !(#[trigger] final(self).cells@[j]).is_mine,
            forall|j: int|
                0 <= j < final(self).cells@.len() && !final(self).cells@[j].is_mine ==> (
                #[trigger] final(self).cells@[j]).adjacent_mines as nat == cap255(
                    adj_mine_count(final(self).cells@, final(self).adjacency_map@[j]@),
                ),
            forall|j: int|
                0 <= j < final(self).cells@.len() ==> !(
                #[trigger] final(self).cells@[j]).is_revealed,
            final(self).total_revealed == count_matching(
                final(self).cells@,
                |c: Cell| is_counted_revealed(c),
            ),
            final(self).total_clicks <= count_matching(
                final(self).cells@,
                |c: Cell| is_any_revealed(c),
            ),
            count_matching(final(self).cells@, |c: Cell| c.is_mine) == seeded_mine_count(
                *old(self),
                first_x as int,
                first_y as int,
            ),
    {
        let ghost orig = *old(self);
        let total = self.cells.len();
        let width = self.width;
        let mut cands: Vec<usize> = Vec::new();
        let mut i: usize = 0;
        let ghost h0 = self.height as int;
        proof {
            assert(width * self.height >= 1);
            assert(width >= 1) by (nonlinear_arith)
                requires
                    (width as int) * h0 >= 1,
                    width >= 0,
            {
            }
        }
        while i < total
            invariant
                0 <= i <= total,
                width == self.width,
                width >= 1,
                total == self.cells@.len(),
                first_x < self.width,
                first_y < self.height,
                forall|t: int|
                    0 <= t < cands@.len() ==> #[trigger] cands@[t] < total && !in_safety_zone(
                        width as int,
                        cands@[t] as int,
                        first_x as int,
                        first_y as int,
                    ),
                cands@.len() == free_cell_count(
                    i as int,
                    width as int,
                    first_x as int,
                    first_y as int,
                ),
                crate::topology::strictly_sorted(cands@),
                forall|t: int| 0 <= t < cands@.len() ==> (#[trigger] cands@[t] as int) < i,
            decreases total - i,
        {
            let ghost cpre = cands@;
            let x = i % width;
            let y = i / width;
            proof {
                assert((i as int) % (width as int) == x as int);
                assert((i as int) / (width as int) == y as int);
                assert(crate::constraints::range_seq(i as int + 1).drop_last()
                    =~= crate::constraints::range_seq(i as int));
                assert(crate::constraints::range_seq(i as int + 1).last() == i as usize);
            }
            let dx = if x > first_x {
                x - first_x
            } else {
                first_x - x
            };
            let dy = if y > first_y {
                y - first_y
            } else {
                first_y - y
            };
            if dx > 1 || dy > 1 {
                cands.push(i);
                proof {
                    assert forall|sq: int, tq: int|
                        0 <= sq < tq < cands@.len() implies cands@[sq] < cands@[tq] by {
                        if tq < cands@.len() - 1 {
                            assert(cands@[sq] == cpre[sq]);
                            assert(cands@[tq] == cpre[tq]);
                        } else {
                            assert(cands@[sq] == cpre[sq]);
                        }
                    }
                }
            }
            i += 1;
        }
        let ghost cands0 = cands@;
        shuffle_indices(&mut cands);
        proof {
            broadcast use vstd::seq_lib::group_to_multiset_ensures;

            assert forall|t: int|
                0 <= t < cands@.len() implies #[trigger] cands@[t] < total && !in_safety_zone(
                width as int,
                cands@[t] as int,
                first_x as int,
                first_y as int,
            ) by {
                let v = cands@[t];
                assert(cands@.contains(v));
                assert(cands@.to_multiset().count(v) > 0);
                assert(cands0.to_multiset().count(v) > 0);
                assert(cands0.contains(v));
                let q = choose|q: int| 0 <= q < cands0.len() && cands0[q] == v;
            }
            crate::constraints::lemma_sorted_no_dup(cands0);
            cands0.lemma_multiset_has_no_duplicates();
            cands@.lemma_multiset_has_no_duplicates_conv();
            assert(cands@.no_duplicates());
            assert(cands@.to_multiset().len() == cands@.len());
            assert(cands0.to_multiset().len() == cands0.len());
            assert(cands@.len() == cands0.len());
            assert forall|j: int| 0 <= j < self.cells@.len() implies !(
            #[trigger] self.cells@[j]).is_mine by {}
            lemma_count_zero(self.cells@, |c: Cell| c.is_mine);
        }
        let m = if self.mines < cands.len() {
            self.mines
        } else {
            cands.len()
        };
        let mut k: usize = 0;
        while k < m
            invariant
                0 <= k <= m,
                m <= cands@.len(),
                width == self.width,
                total == self.cells@.len(),
                self.width == orig.width,
                self.height == orig.height,
                self.mines == orig.mines,
                self.game_over == orig.game_over,
                self.game_won == orig.game_won,
                self.total_revealed == orig.total_revealed,
                self.total_clicks == orig.total_clicks,
                self.adjacency_map == orig.adjacency_map,
                self.cells@.len() == orig.cells@.len(),
                forall|t: int|
                    0 <= t < cands@.len() ==> #[trigger] cands@[t] < total && !in_safety_zone(
                        width as int,
                        cands@[t] as int,
                        first_x as int,
                        first_y as int,
                    ),
                forall|j: int|
                    0 <= j < orig.cells@.len() ==> {
                        let c0 = #[trigger] orig.cells@[j];
                        let c1 = self.cells@[j];
                        c1.is_revealed == c0.is_revealed && c1.is_flagged == c0.is_flagged && c1.x
                            == c0.x && c1.y == c0.y && c1.adjacent_mines == c0.adjacent_mines
                    },
                forall|j: int|
                    0 <= j < self.cells@.len() && (#[trigger] self.cells@[j]).is_mine
                        ==> !in_safety_zone(width as int, j, first_x as int, first_y as int),
                cands@.no_duplicates(),
                count_matching(self.cells@, |c: Cell| c.is_mine) == k,
                forall|j: int|
                    0 <= j < self.cells@.len() ==> ((#[trigger] self.cells@[j]).is_mine
                        <==> exists|t: int| 0 <= t < k && cands@[t] == j as usize),
            decreases m - k,
        {
            let idx = cands[k];
            let c = self.cells[idx];
            let ghost pre = self.cells@;
            proof {
                assert(!self.cells@[idx as int].is_mine) by {
                    if self.cells@[idx as int].is_mine {
                        let t = choose|t: int| 0 <= t < k && cands@[t] == idx as usize;
                        assert(cands@[t] == cands@[k as int]);
                    }
                }
            }
            self.cells.set(idx, Cell { is_mine: true, ..c });
            proof {
                lemma_count_update(pre, |c: Cell| c.is_mine, idx as int, self.cells@[idx as int]);
                assert forall|j: int|
                    0 <= j < self.cells@.len() implies ((#[trigger] self.cells@[j]).is_mine
                    <==> exists|t: int| 0 <= t < k + 1 && cands@[t] == j as usize) by {
                    if j == idx as int {
                        assert(cands@[k as int] == j as usize);
                    } else {
                        if self.cells@[j].is_mine {
                            let t = choose|t: int| 0 <= t < k && cands@[t] == j as usize;
                        }
                        if exists|t: int| 0 <= t < k + 1 && cands@[t] == j as usize {
                            let t = choose|t: int| 0 <= t < k + 1 && cands@[t] == j as usize;
                            assert(t < k as int);
                            assert(pre[j].is_mine);
                        }
                    }
                }
            }
            k += 1;
        }
        proof {
            assert(crate::constraints::range_seq(total as int)
                =~= crate::constraints::range_seq(self.cells@.len() as int));
            assert(count_matching(self.cells@, |c: Cell| c.is_mine) == seeded_mine_count(
                orig,
                first_x as int,
                first_y as int,
            ));
        }
        let ghost before_pass = self.cells@;
        self.calculate_adjacent_mines_unchecked();
        proof {
            lemma_count_same(before_pass, self.cells@, |c: Cell| c.is_mine);
            assert forall|j: int| 0 <= j < self.cells@.len() implies !(
            #[trigger] self.cells@[j]).is_revealed by {
                assert(!orig.cells@[j].is_revealed);
            }
            lemma_count_zero(self.cells@, |c: Cell| is_counted_revealed(c));
            lemma_count_zero(self.cells@, |c: Cell| is_any_revealed(c));
            lemma_count_zero(orig.cells@, |c: Cell| is_counted_revealed(c));
        }
    }

    /// The neighbor-count pass shared by mine seeding; it carries the
    /// looser precondition needed while the lazily seeded board still has
    /// its click counter at zero.
    fn calculate_adjacent_mines_unchecked(&mut self)
        requires
            old(self).adjacency_map@.len() == old(self).cells@.len(),
            old(self).cells@.len() == old(self).width * old(self).height,
            old(self).mines < old(self).cells@.len(),
            forall|i: int|
                0 <= i < old(self).adjacency_map@.len() ==> entries_below(
                    #[trigger] old(self).adjacency_map@[i]@,
                    old(self).cells@.len() as int,
                ),
        ensures
            final(self).width == old(self).width,
            final(self).height == old(self).height,
            final(self).mines == old(self).mines,
            final(self).game_over == old(self).game_over,
            final(self).game_won == old(self).game_won,
            final(self).total_revealed == old(self).total_revealed,
            final(self).total_clicks == old(self).total_clicks,
            final(self).adjacency_map == old(self).adjacency_map,
            final(self).cells@.len() == old(self).cells@.len(),
            forall|j: int|
                0 <= j < old(self).cells@.len() ==> {
                    let c0 = #[trigger] old(self).cells@[j];
                    let c1 = final(self).cells@[j];
                    c1.is_mine == c0.is_mine && c1.is_revealed == c0.is_revealed && c1.is_flagged
                        == c0.is_flagged && c1.x == c0.x && c1.y == c0.y
                },
            forall|j: int|
                0 <= j < old(self).cells@.len() && old(self).cells@[j].is_mine
                    ==> final(self).cells@[j] == old(self).cells@[j],
            forall|j: int|
                0 <= j < old(self).cells@.len() && !old(self).cells@[j].is_mine ==> (
                #[trigger] final(self).cells@[j]).adjacent_mines as nat == cap255(
                    adj_mine_count(final(self).cells@, final(self).adjacency_map@[j]@),
                ),
    {
        let ghost orig = *old(self);
        let total = self.cells.len();
        let mut i: usize = 0;
        while i < total
            invariant
                0 <= i <= total,
                total == self.cells@.len(),
                self.width == orig.width,
                self.height == orig.height,
                self.mines == orig.mines,
                self.game_over == orig.game_over,
                self.game_won == orig.game_won,
                self.total_revealed == orig.total_revealed,
                self.total_clicks == orig.total_clicks,
                self.adjacency_map == orig.adjacency_map,
                self.cells@.len() == orig.cells@.len(),
                self.adjacency_map@.len() == self.cells@.len(),
                forall|t: int|
                    0 <= t < self.adjacency_map@.len() ==> entries_below(
                        #[trigger] self.adjacency_map@[t]@,
                        self.cells@.len() as int,
                    ),
                forall|j: int|
                    0 <= j < orig.cells@.len() ==> {
                        let c0 = #[trigger] orig.cells@[j];
                        let c1 = self.cells@[j];
                        c1.is_mine == c0.is_mine && c1.is_revealed == c0.is_revealed
                            && c1.is_flagged == c0.is_flagged && c1.x == c0.x && c1.y == c0.y
                    },
                forall|j: int|
                    0 <= j < orig.cells@.len() && orig.cells@[j].is_mine ==> self.cells@[j]
                        == orig.cells@[j],
                forall|j: int| i <= j < orig.cells@.len() ==> self.cells@[j] == orig.cells@[j],
                forall|j: int|
                    0 <= j < i && !orig.cells@[j].is_mine ==> (
                    #[trigger] self.cells@[j]).adjacent_mines as nat == cap255(
                        adj_mine_count(self.cells@, self.adjacency_map@[j]@),
                    ),
            decreases total - i,
        {
            if !self.cells[i].is_mine {
                let row_len = self.adjacency_map[i].len();
                let mut cnt: u8 = 0;
                let mut t: usize = 0;
                proof {
                    assert(self.adjacency_map@[i as int]@.take(0int) =~= Seq::<usize>::empty());
                }
                while t < row_len
                    invariant
                        0 <= t <= row_len,
                        0 <= i < self.cells@.len(),
                        row_len == self.adjacency_map@[i as int]@.len(),
                        self.adjacency_map@.len() == self.cells@.len(),
                        entries_below(self.adjacency_map@[i as int]@, self.cells@.len() as int),
                        cnt as nat == cap255(
                            adj_mine_count(
                                self.cells@,
                                self.adjacency_map@[i as int]@.take(t as int),
                            ),
                        ),
                    decreases row_len - t,
                {
                    let ghost row = self.adjacency_map@[i as int]@;
                    proof {
                        assert(row.take(t as int + 1).drop_last() =~= row.take(t as int));
                        assert(row.take(t as int + 1).last() == row[t as int]);
                        assert(row[t as int] < self.cells@.len());
                    }
                    let n = self.adjacency_map[i][t];
                    if self.cells[n].is_mine {
                        if cnt < 255 {
                            cnt = cnt + 1;
                        }
                    }
                    t += 1;
                }
                proof {
                    let row = self.adjacency_map@[i as int]@;
                    assert(row.take(row.len() as int) =~= row);
                }
                let c = self.cells[i];
                let newc = Cell { adjacent_mines: cnt, ..c };
                let ghost pre = self.cells@;
                self.cells.set(i, newc);
                proof {
                    assert forall|j: int|
                        0 <= j < i + 1 && !orig.cells@[j].is_mine implies (
                    #[trigger] self.cells@[j]).adjacent_mines as nat == cap255(
                        adj_mine_count(self.cells@, self.adjacency_map@[j]@),
                    ) by {
                        lemma_adj_count_same_mines(pre, self.cells@, self.adjacency_map@[j]@);
                    }
                }
            }
            i += 1;
        }
    }
}

impl Board {
    /// Reveals the cell at `(x, y)`: a no-op on out-of-range, revealed or
    /// flagged cells or once the game ended; seeds the mines on the very
    /// first click; marks a loss on a mine; otherwise counts the reveal and
    /// flood-fills from a zero-count cell; a win triggers when every
    /// non-mine cell is revealed. The revealed total never decreases.
    pub fn reveal_cell(&mut self, x: usize, y: usize) -> (r: bool)
        requires
            old(self).wf(),
        ensures
            final(self).wf(),
            final(self).width == old(self).width,
            final(self).height == old(self).height,
            final(self).mines == old(self).mines,
            final(self).adjacency_map == old(self).adjacency_map,
            final(self).cells@.len() == old(self).cells@.len(),
            final(self).total_revealed >= old(self).total_revealed,
            final(self).total_clicks >= old(self).total_clicks,
            forall|j: int|
                0 <= j < old(self).cells@.len() && (#[trigger] old(self).cells@[j]).is_revealed
                    ==> final(self).cells@[j].is_revealed,
            forall|j: int|
                0 <= j < old(self).cells@.len() ==> (#[trigger] final(self).cells@[j]).is_flagged
                    == old(self).cells@[j].is_flagged && final(self).cells@[j].x == old(
                    self,
                ).cells@[j].x && final(self).cells@[j].y == old(self).cells@[j].y,
            old(self).game_over ==> final(self).game_over,
            !r ==> *final(self) == *old(self),
            old(self).total_clicks > 0 ==> forall|j: int|
                0 <= j < old(self).cells@.len() ==> (#[trigger] final(self).cells@[j]).is_mine
                    == old(self).cells@[j].is_mine,
            r == (!old(self).game_over && !old(self).game_won && x < old(self).width
                && y < old(self).height
                && !old(self).cells@[(y as int) * (old(self).width as int) + x].is_revealed
                && !old(self).cells@[(y as int) * (old(self).width as int) + x].is_flagged),
            r ==> final(self).total_clicks == old(self).total_clicks + 1,
            r ==> final(self).cells@[(y as int) * (old(self).width as int) + x].is_revealed,
            r ==> (final(self).game_over
                <==> final(self).cells@[(y as int) * (old(self).width as int) + x].is_mine),
            r && final(self).cells@[(y as int) * (old(self).width as int) + x].is_mine
                ==> final(self).total_revealed == old(self).total_revealed
                && final(self).game_won == old(self).game_won && (forall|j: int|
                0 <= j < old(self).cells@.len() && j != (y as int) * (old(self).width as int) + x
                    ==> (#[trigger] final(self).cells@[j]).is_revealed
                    == old(self).cells@[j].is_revealed),
            r && !final(self).cells@[(y as int) * (old(self).width as int) + x].is_mine
                ==> (final(self).game_won <==> final(self).total_revealed as int
                == (old(self).width as int) * (old(self).height as int) - old(self).mines),
            r && old(self).total_clicks == 0
                ==> !final(self).cells@[(y as int) * (old(self).width as int) + x].is_mine
                && count_matching(final(self).cells@, |c: Cell| c.is_mine) == seeded_mine_count(
                *old(self),
                x as int,
                y as int,
            ) && (forall|j: int|
                0 <= j < old(self).cells@.len() && in_safety_zone(
                    old(self).width as int,
                    j,
                    x as int,
                    y as int,
                ) ==> !(#[trigger] final(self).cells@[j]).is_mine),
    {
        let ghost orig = *old(self);
        if self.game_over || self.game_won {
            return false;
        }
        if x >= self.width || y >= self.height {
            return false;
        }
        let ncells = self.cells.len();
        proof {
            assert(ncells as int == (self.width as int) * (self.height as int));
            assert((y as int) * (self.width as int) + (x as int) < (self.height as int) * (
            self.width as int)) by (nonlinear_arith)
                requires
                    (y as int) < (self.height as int),
                    (x as int) < (self.width as int),
                    (x as int) >= 0,
                    (y as int) >= 0,
                    (self.width as int) >= 0,
            {
            }
            assert((self.height as int) * (self.width as int) == (self.width as int) * (
            self.height as int)) by (nonlinear_arith) {}
        }
        let idx = y * self.width + x;
        if self.cells[idx].is_revealed || self.cells[idx].is_flagged {
            return false;
        }
        if self.total_clicks == 0 {
            self.place_mines_after_first_click(x, y);
        }
        let ghost s1 = self.cells@;
        proof {
            lemma_count_lt_len(self.cells@, |c: Cell| is_any_revealed(c), idx as int);
        }
        self.total_clicks = self.total_clicks + 1;
        let c = self.cells[idx];
        let ghost pre = self.cells@;
        self.cells.set(idx, Cell { is_revealed: true, ..c });
        proof {
            lemma_count_update(pre, |c: Cell| is_any_revealed(c), idx as int, self.cells@[idx as int]);
            lemma_count_update(
                pre,
                |c: Cell| is_counted_revealed(c),
                idx as int,
                self.cells@[idx as int],
            );
        }
        let ghost s2 = self.cells@;
        proof {
            assert forall|j: int|
                0 <= j < orig.cells@.len() implies (#[trigger] s2[j]).is_flagged
                == orig.cells@[j].is_flagged && s2[j].x == orig.cells@[j].x && s2[j].y
                == orig.cells@[j].y && (orig.cells@[j].is_revealed ==> s2[j].is_revealed) by {
                assert(s1[j].is_flagged == orig.cells@[j].is_flagged && s1[j].x
                    == orig.cells@[j].x && s1[j].y == orig.cells@[j].y && (
                orig.cells@[j].is_revealed ==> s1[j].is_revealed));
            }
            assert forall|j: int| 0 <= j < orig.cells@.len() implies (#[trigger] s2[j]).is_mine
                == s1[j].is_mine by {}
            lemma_count_same(s1, s2, |c: Cell| c.is_mine);
            if orig.total_clicks == 0 {
                broadcast use vstd::arithmetic::div_mod::lemma_fundamental_div_mod_converse_mod;
                broadcast use vstd::arithmetic::div_mod::lemma_fundamental_div_mod_converse_div;

                assert(orig.width >= 1) by (nonlinear_arith)
                    requires
                        (orig.width as int) * (orig.height as int) > 0,
                        orig.width >= 0,
                {
                }
                assert(idx as int == (orig.width as int) * (y as int) + (x as int))
                    by (nonlinear_arith)
                    requires
                        idx as int == (y as int) * (orig.width as int) + (x as int),
                {
                }
                assert((idx as int) % (orig.width as int) == x as int);
                assert((idx as int) / (orig.width as int) == y as int);
                assert(in_safety_zone(orig.width as int, idx as int, x as int, y as int));
                assert(!s1[idx as int].is_mine);
                assert(!s2[idx as int].is_mine);
            }
        }
        if self.cells[idx].is_mine {
            self.game_over = true;
            return true;
        }
        proof {
            lemma_count_le_len(self.cells@, |c: Cell| is_counted_revealed(c));
        }
        self.total_revealed = self.total_revealed + 1;
        if self.cells[idx].adjacent_mines == 0 {
            self.reveal_adjacent_zero_cells(x, y);
        }
        proof {
            assert forall|j: int|
                0 <= j < orig.cells@.len() implies (#[trigger] self.cells@[j]).is_flagged
                == orig.cells@[j].is_flagged && self.cells@[j].x == orig.cells@[j].x
                && self.cells@[j].y == orig.cells@[j].y && (orig.cells@[j].is_revealed
                ==> self.cells@[j].is_revealed) by {
                assert((#[trigger] s2[j]).is_flagged == orig.cells@[j].is_flagged && s2[j].x
                    == orig.cells@[j].x && s2[j].y == orig.cells@[j].y && (
                orig.cells@[j].is_revealed ==> s2[j].is_revealed));
                if self.cells@ != s2 {
                    assert(same_but_revealed(s2[j], self.cells@[j]));
                }
            }
            if orig.total_clicks > 0 {
                assert forall|j: int|
                    0 <= j < orig.cells@.len() implies (#[trigger] self.cells@[j]).is_mine
                    == orig.cells@[j].is_mine by {
                    assert(s2[j].is_mine == s1[j].is_mine);
                    if self.cells@ != s2 {
                        assert(same_but_revealed(s2[j], self.cells@[j]));
                    }
                }
            }
            assert forall|j: int| 0 <= j < orig.cells@.len() implies (
            #[trigger] self.cells@[j]).is_mine == s2[j].is_mine by {
                if self.cells@ != s2 {
                    assert(same_but_revealed(s2[j], self.cells@[j]));
                }
            }
            lemma_count_same(s2, self.cells@, |c: Cell| c.is_mine);
        }
        if self.total_revealed == self.width * self.height - self.mines {
            self.game_won = true;
        }
        true
    }

    /// Flood fill from a zero-count cell: reveals every hidden, unflagged,
    /// non-mine neighbor reachable through zero-count cells, and the
    /// numbered cells bordering that region, without recursing into them.
    fn reveal_adjacent_zero_cells(&mut self, x: usize, y: usize)
        requires
            old(self).wf(),
            old(self).total_clicks > 0,
            x < old(self).width,
            y < old(self).height,
            old(self).cells@[(y as int) * (old(self).width as int) + x].is_revealed,
        ensures
            final(self).wf(),
            final(self).width == old(self).width,
            final(self).height == old(self).height,
            final(self).mines == old(self).mines,
            final(self).game_over == old(self).game_over,
            final(self).game_won == old(self).game_won,
            final(self).total_clicks == old(self).total_clicks,
            final(self).adjacency_map == old(self).adjacency_map,
            final(self).cells@.len() == old(self).cells@.len(),
            final(self).total_revealed >= old(self).total_revealed,
            forall|j: int|
                0 <= j < old(self).cells@.len() ==> same_but_revealed(
                    #[trigger] old(self).cells@[j],
                    final(self).cells@[j],
                ),
            forall|j: int|
                0 <= j < old(self).cells@.len() && (#[trigger] old(self).cells@[j]).is_revealed
                    ==> final(self).cells@[j].is_revealed,
            forall|j: int|
                0 <= j < old(self).cells@.len() && (#[trigger] final(self).cells@[j]).is_revealed
                    && !old(self).cells@[j].is_revealed ==> !final(self).cells@[j].is_mine,
            forall|j: int|
                0 <= j < old(self).cells@.len() && (#[trigger] old(self).cells@[j]).is_flagged
                    ==> final(self).cells@[j].is_revealed == old(self).cells@[j].is_revealed,
            flood_closed_at(*old(self), *final(self), (y as int) * (old(self).width as int) + x),
            forall|j: int|
                0 <= j < old(self).cells@.len() && (#[trigger] final(self).cells@[j]).is_revealed
                    && !old(self).cells@[j].is_revealed && old(self).cells@[j].adjacent_mines == 0
                    ==> flood_closed_at(*old(self), *final(self), j),
            forall|j: int|
                0 <= j < old(self).cells@.len() && (#[trigger] final(self).cells@[j]).is_revealed
                    && !old(self).cells@[j].is_revealed ==> flood_reached(
                    *old(self),
                    (y as int) * (old(self).width as int) + x,
                    j,
                ),
    {
        let ghost orig = *old(self);
        let total = self.cells.len();
        proof {
            assert((y as int) * (self.width as int) + (x as int) < (self.height as int) * (
            self.width as int)) by (nonlinear_arith)
                requires
                    (y as int) < (self.height as int),
                    (x as int) < (self.width as int),
                    (x as int) >= 0,
                    (y as int) >= 0,
                    (self.width as int) >= 0,
            {
            }
            assert((self.height as int) * (self.width as int) == (self.width as int) * (
            self.height as int)) by (nonlinear_arith) {}
        }
        let start = y * self.width + x;
        let mut visited: Vec<bool> = Vec::new();
        let mut i: usize = 0;
        while i < total
            invariant
                0 <= i <= total,
                visited@.len() == i,
                forall|t: int| 0 <= t < i ==> !(#[trigger] visited@[t]),
            decreases total - i,
        {
            visited.push(false);
            i += 1;
        }
        visited.set(start, true);
        let mut stack: Vec<usize> = Vec::new();
        stack.push(start);
        proof {
            assert(stack@[0] == start);
            assert(stack@.contains(start));
            assert forall|j: int|
                0 <= j < orig.cells@.len() implies ((#[trigger] visited@[j]) <==> (j
                == start as int || (self.cells@[j].is_revealed
                && !orig.cells@[j].is_revealed))) by {}
        }
        while stack.len() > 0
            invariant
                self.wf(),
                self.width == orig.width,
                self.height == orig.height,
                self.mines == orig.mines,
                self.game_over == orig.game_over,
                self.game_won == orig.game_won,
                self.total_clicks == orig.total_clicks,
                self.adjacency_map == orig.adjacency_map,
                self.cells@.len() == orig.cells@.len(),
                self.cells@.len() <= usize::MAX,
                self.total_revealed >= orig.total_revealed,
                orig.total_clicks > 0,
                visited@.len() == self.cells@.len(),
                forall|t: int| 0 <= t < stack@.len() ==> #[trigger] stack@[t] < self.cells@.len(),
                forall|j: int|
                    0 <= j < orig.cells@.len() ==> same_but_revealed(
                        #[trigger] orig.cells@[j],
                        self.cells@[j],
                    ),
                forall|j: int|
                    0 <= j < orig.cells@.len() && (#[trigger] orig.cells@[j]).is_revealed
                        ==> self.cells@[j].is_revealed,
                forall|j: int|
                    0 <= j < orig.cells@.len() && (#[trigger] self.cells@[j]).is_revealed
                        && !orig.cells@[j].is_revealed ==> !self.cells@[j].is_mine,
                (start as int) < orig.cells@.len(),
                orig.cells@[start as int].is_revealed,
                forall|q: int| 0 <= q < stack@.len() ==> visited@[(#[trigger] stack@[q]) as int],
                stack@.no_duplicates(),
                forall|j: int|
                    0 <= j < orig.cells@.len() && (#[trigger] orig.cells@[j]).is_flagged
                        ==> self.cells@[j].is_revealed == orig.cells@[j].is_revealed,
                forall|j: int|
                    0 <= j < orig.cells@.len() ==> ((#[trigger] visited@[j]) <==> (j
                        == start as int || (self.cells@[j].is_revealed
                        && !orig.cells@[j].is_revealed))),
                forall|j: int|
                    0 <= j < orig.cells@.len() && (#[trigger] visited@[j]) && !stack@.contains(
                        j as usize,
                    ) && (j == start as int || orig.cells@[j].adjacent_mines == 0)
                        ==> flood_closed_at(orig, *self, j),
                forall|j: int|
                    0 <= j < orig.cells@.len() && (#[trigger] self.cells@[j]).is_revealed
                        && !orig.cells@[j].is_revealed ==> flood_reached(orig, start as int, j),
                forall|q: int|
                    0 <= q < stack@.len() ==> ((#[trigger] stack@[q]) as int == start as int || (
                    flood_reached(orig, start as int, stack@[q] as int)
                        && orig.cells@[stack@[q] as int].adjacent_mines == 0)),
            decreases 2 * count_matching(visited@, |b: bool| !b) + stack@.len(),
        {
            let ghost measure0 = 2 * count_matching(visited@, |b: bool| !b) + stack@.len();
            let ghost stack_at_entry = stack@;
            let cur_opt = stack.pop();
            let cur = match cur_opt {
                Some(c) => c,
                None => {
                    proof {
                        assert(false);
                    }
                    0
                },
            };
            proof {
                assert(!stack@.contains(cur)) by {
                    if stack@.contains(cur) {
                        let q = choose|q: int| 0 <= q < stack@.len() && stack@[q] == cur;
                        assert(stack_at_entry[q] == cur);
                        assert(stack_at_entry[stack_at_entry.len() - 1] == cur);
                    }
                }
                assert forall|j: int|
                    0 <= j < orig.cells@.len() && (#[trigger] visited@[j]) && !stack@.contains(
                        j as usize,
                    ) && j != cur as int && (j == start as int || orig.cells@[j].adjacent_mines
                        == 0) implies flood_closed_at(orig, *self, j) by {
                    assert(!stack_at_entry.contains(j as usize)) by {
                        if stack_at_entry.contains(j as usize) {
                            let q = choose|q: int|
                                0 <= q < stack_at_entry.len() && stack_at_entry[q] == j as usize;
                            if q < stack_at_entry.len() - 1 {
                                assert(stack@[q] == j as usize);
                            }
                        }
                    }
                }
            }
            let row_len = self.adjacency_map[cur].len();
            let mut t: usize = 0;
            while t < row_len
                invariant
                    0 <= t <= row_len,
                    cur < self.cells@.len(),
                    row_len == self.adjacency_map@[cur as int]@.len(),
                    self.wf(),
                    self.width == orig.width,
                    self.height == orig.height,
                    self.mines == orig.mines,
                    self.game_over == orig.game_over,
                    self.game_won == orig.game_won,
                    self.total_clicks == orig.total_clicks,
                    self.adjacency_map == orig.adjacency_map,
                    self.cells@.len() == orig.cells@.len(),
                    self.cells@.len() <= usize::MAX,
                    self.total_revealed >= orig.total_revealed,
                    orig.total_clicks > 0,
                    visited@.len() == self.cells@.len(),
                    forall|q: int|
                        0 <= q < stack@.len() ==> #[trigger] stack@[q] < self.cells@.len(),
                    forall|j: int|
                        0 <= j < orig.cells@.len() ==> same_but_revealed(
                            #[trigger] orig.cells@[j],
                            self.cells@[j],
                        ),
                    forall|j: int|
                        0 <= j < orig.cells@.len() && (#[trigger] orig.cells@[j]).is_revealed
                            ==> self.cells@[j].is_revealed,
                    forall|j: int|
                        0 <= j < orig.cells@.len() && (#[trigger] self.cells@[j]).is_revealed
                            && !orig.cells@[j].is_revealed ==> !self.cells@[j].is_mine,
                    2 * count_matching(visited@, |b: bool| !b) + stack@.len() < measure0,
                    (start as int) < orig.cells@.len(),
                    orig.cells@[start as int].is_revealed,
                    forall|q: int|
                        0 <= q < stack@.len() ==> visited@[(#[trigger] stack@[q]) as int],
                    stack@.no_duplicates(),
                    forall|j: int|
                        0 <= j < orig.cells@.len() && (#[trigger] orig.cells@[j]).is_flagged
                            ==> self.cells@[j].is_revealed == orig.cells@[j].is_revealed,
                    forall|j: int|
                        0 <= j < orig.cells@.len() ==> ((#[trigger] visited@[j]) <==> (j
                            == start as int || (self.cells@[j].is_revealed
                            && !orig.cells@[j].is_revealed))),
                    visited@[cur as int],
                    !stack@.contains(cur),
                    forall|j: int|
                        0 <= j < orig.cells@.len() && (#[trigger] visited@[j])
                            && !stack@.contains(j as usize) && j != cur as int && (j
                            == start as int || orig.cells@[j].adjacent_mines == 0)
                            ==> flood_closed_at(orig, *self, j),
                    forall|q: int|
                        0 <= q < t && flood_eligible(
                            orig,
                            (#[trigger] orig.adjacency_map@[cur as int]@[q]) as int,
                        ) ==> self.cells@[orig.adjacency_map@[cur as int]@[q] as int].is_revealed,
                    forall|j: int|
                        0 <= j < orig.cells@.len() && (#[trigger] self.cells@[j]).is_revealed
                            && !orig.cells@[j].is_revealed ==> flood_reached(
                            orig,
                            start as int,
                            j,
                        ),
                    forall|q: int|
                        0 <= q < stack@.len() ==> ((#[trigger] stack@[q]) as int == start as int
                            || (flood_reached(orig, start as int, stack@[q] as int)
                            && orig.cells@[stack@[q] as int].adjacent_mines == 0)),
                    cur as int == start as int || (flood_reached(orig, start as int, cur as int)
                        && orig.cells@[cur as int].adjacent_mines == 0),
                decreases row_len - t,
            {
                let n = self.adjacency_map[cur][t];
                proof {
                    assert(entries_below(
                        self.adjacency_map@[cur as int]@,
                        self.cells@.len() as int,
                    ));
                    assert(self.adjacency_map@[cur as int]@[t as int] < self.cells@.len());
                }
                if !visited[n] && !self.cells[n].is_revealed && !self.cells[n].is_mine
                    && !self.cells[n].is_flagged {
                    let c = self.cells[n];
                    let ghost pre = self.cells@;
                    self.cells.set(n, Cell { is_revealed: true, ..c });
                    proof {
                        lemma_count_update(
                            pre,
                            |c: Cell| is_counted_revealed(c),
                            n as int,
                            self.cells@[n as int],
                        );
                        lemma_count_update(
                            pre,
                            |c: Cell| is_any_revealed(c),
                            n as int,
                            self.cells@[n as int],
                        );
                        lemma_count_le_len(pre, |c: Cell| is_counted_revealed(c));
                        lemma_count_lt_len(pre, |c: Cell| is_counted_revealed(c), n as int);
                    }
                    self.total_revealed = self.total_revealed + 1;
                    let ghost vpre = visited@;
                    visited.set(n, true);
                    proof {
                        lemma_count_update(vpre, |b: bool| !b, n as int, true);
                    }
                    let ghost stack_pre = stack@;
                    if self.cells[n].adjacent_mines == 0 {
                        stack.push(n);
                    }
                    proof {
                        assert(flood_eligible(orig, n as int)) by {
                            assert(!pre[n as int].is_revealed);
                            assert(orig.cells@[n as int].is_revealed
                                ==> pre[n as int].is_revealed);
                        }
                        lemma_flood_extend(orig, start as int, cur as int, n as int);
                        assert forall|j: int|
                            0 <= j < orig.cells@.len() && (#[trigger] self.cells@[j]).is_revealed
                                && !orig.cells@[j].is_revealed implies flood_reached(
                            orig,
                            start as int,
                            j,
                        ) by {
                            if j != n as int {
                                assert(self.cells@[j] == pre[j]);
                            }
                        }
                        assert forall|j: int|
                            0 <= j < orig.cells@.len() implies ((#[trigger] visited@[j]) <==> (j
                            == start as int || (self.cells@[j].is_revealed
                            && !orig.cells@[j].is_revealed))) by {
                            if j != n as int {
                                assert(visited@[j] == vpre[j]);
                                assert(self.cells@[j] == pre[j]);
                            }
                        }
                        assert forall|w: usize| #[trigger] stack_pre.contains(w)
                            implies stack@.contains(w) by {
                            let q = choose|q: int| 0 <= q < stack_pre.len() && stack_pre[q] == w;
                            assert(stack@[q] == w);
                        }
                        if stack@ != stack_pre {
                            assert(stack@.no_duplicates()) by {
                                assert forall|a: int, b: int|
                                    0 <= a < stack@.len() && 0 <= b < stack@.len() && a != b
                                    implies stack@[a] != stack@[b] by {
                                    if a < stack@.len() - 1 && b < stack@.len() - 1 {
                                        assert(stack@[a] == stack_pre[a]);
                                        assert(stack@[b] == stack_pre[b]);
                                    } else {
                                        let w = if a < stack@.len() - 1 {
                                            a
                                        } else {
                                            b
                                        };
                                        assert(stack@[w] == stack_pre[w]);
                                        assert(visited@[stack_pre[w] as int] == vpre[
                                            stack_pre[w] as int
                                        ] || stack_pre[w] == n);
                                        assert(!vpre[n as int]);
                                    }
                                }
                            }
                        }
                        assert forall|j: int|
                            0 <= j < orig.cells@.len() && (#[trigger] visited@[j])
                                && !stack@.contains(j as usize) && j != cur as int && (j
                                == start as int || orig.cells@[j].adjacent_mines == 0)
                            implies flood_closed_at(orig, *self, j) by {
                            if j == n as int {
                                assert(orig.cells@[j].adjacent_mines
                                    == self.cells@[j].adjacent_mines);
                                if self.cells@[n as int].adjacent_mines == 0 {
                                    assert(stack@[stack@.len() - 1] == n);
                                    assert(stack@.contains(n));
                                }
                            } else {
                                assert(vpre[j] == visited@[j]);
                                assert(!stack_pre.contains(j as usize));
                                assert forall|q: int|
                                    0 <= q < orig.adjacency_map@[j]@.len() && flood_eligible(
                                        orig,
                                        (#[trigger] orig.adjacency_map@[j]@[q]) as int,
                                    ) implies self.cells@[orig.adjacency_map@[j]@[
                                    q
                                ] as int].is_revealed by {
                                    let nb = orig.adjacency_map@[j]@[q] as int;
                                    assert(pre[nb].is_revealed || nb == n as int);
                                }
                            }
                        }
                        assert forall|q: int|
                            0 <= q < t + 1 && flood_eligible(
                                orig,
                                (#[trigger] orig.adjacency_map@[cur as int]@[q]) as int,
                            ) implies self.cells@[orig.adjacency_map@[cur as int]@[
                            q
                        ] as int].is_revealed by {
                            let nb = orig.adjacency_map@[cur as int]@[q] as int;
                            if q < t as int {
                                assert(pre[nb].is_revealed || nb == n as int);
                            }
                        }
                    }
                } else {
                    proof {
                        assert forall|q: int|
                            0 <= q < t + 1 && flood_eligible(
                                orig,
                                (#[trigger] orig.adjacency_map@[cur as int]@[q]) as int,
                            ) implies self.cells@[orig.adjacency_map@[cur as int]@[
                            q
                        ] as int].is_revealed by {
                            if q == t as int {
                                let nb = orig.adjacency_map@[cur as int]@[q] as int;
                                if flood_eligible(orig, nb) {
                                    if visited@[nb] {
                                        assert(nb == start as int || (self.cells@[nb].is_revealed
                                            && !orig.cells@[nb].is_revealed));
                                    }
                                }
                            }
                        }
                    }
                }
                t += 1;
            }
            proof {
                assert(flood_closed_at(orig, *self, cur as int)) by {
                    assert forall|q: int|
                        0 <= q < orig.adjacency_map@[cur as int]@.len() && flood_eligible(
                            orig,
                            (#[trigger] orig.adjacency_map@[cur as int]@[q]) as int,
                        ) implies self.cells@[orig.adjacency_map@[cur as int]@[
                        q
                    ] as int].is_revealed by {}
                }
                assert forall|j: int|
                    0 <= j < orig.cells@.len() && (#[trigger] visited@[j]) && !stack@.contains(
                        j as usize,
                    ) && (j == start as int || orig.cells@[j].adjacent_mines == 0)
                    implies flood_closed_at(orig, *self, j) by {
                    if j == cur as int {
                    }
                }
            }
        }
        proof {
            assert(visited@[start as int]);
            assert(flood_closed_at(orig, *self, start as int));
            assert forall|j: int|
                0 <= j < orig.cells@.len() && (#[trigger] self.cells@[j]).is_revealed
                    && !orig.cells@[j].is_revealed && orig.cells@[j].adjacent_mines == 0
                implies flood_closed_at(orig, *self, j) by {
                assert(visited@[j]);
            }
        }
    }

    /// Flips the flag of an unrevealed, in-range cell; a solver hint that
    /// never blocks gameplay beyond preventing a reveal.
    pub fn toggle_flag(&mut self, x: usize, y: usize)
        requires
            old(self).wf(),
        ensures
            final(self).wf(),
            final(self).width == old(self).width,
            final(self).height == old(self).height,
            final(self).mines == old(self).mines,
            final(self).game_over == old(self).game_over,
            final(self).game_won == old(self).game_won,
            final(self).total_revealed == old(self).total_revealed,
            final(self).total_clicks == old(self).total_clicks,
            final(self).adjacency_map == old(self).adjacency_map,
            ({
                let w = old(self).width as int;
                let idx = (y as int) * w + (x as int);
                if x < old(self).width && y < old(self).height && !old(self).cells@[idx].is_revealed {
                    final(self).cells@ == old(self).cells@.update(
                        idx,
                        Cell {
                            is_flagged: !old(self).cells@[idx].is_flagged,
                            ..old(self).cells@[idx]
                        },
                    )
                } else {
                    final(self).cells@ == old(self).cells@
                }
            }),
    {
        let ghost orig = *old(self);
        if x >= self.width || y >= self.height {
            return ;
        }
        let ncells = self.cells.len();
        proof {
            assert(ncells as int == (self.width as int) * (self.height as int));
            assert((y as int) * (self.width as int) + (x as int) < (self.height as int) * (
            self.width as int)) by (nonlinear_arith)
                requires
                    (y as int) < (self.height as int),
                    (x as int) < (self.width as int),
                    (x as int) >= 0,
                    (y as int) >= 0,
                    (self.width as int) >= 0,
            {
            }
            assert((self.height as int) * (self.width as int) == (self.width as int) * (
            self.height as int)) by (nonlinear_arith) {}
        }
        let idx = y * self.width + x;
        if !self.cells[idx].is_revealed {
            let c = self.cells[idx];
            let ghost pre = self.cells@;
            self.cells.set(idx, Cell { is_flagged: !c.is_flagged, ..c });
            proof {
                lemma_count_update(
                    pre,
                    |c: Cell| is_counted_revealed(c),
                    idx as int,
                    self.cells@[idx as int],
                );
                lemma_count_update(
                    pre,
                    |c: Cell| is_any_revealed(c),
                    idx as int,
                    self.cells@[idx as int],
                );
            }
        }
    }

    /// Clears every mutable cell field and all counters; the mines are
    /// re-seeded lazily on the next first reveal, so first-click safety
    /// holds again after every reset.
    pub fn reset(&mut self)
        requires
            old(self).wf(),
        ensures
            final(self).wf(),
            final(self).width == old(self).width,
            final(self).height == old(self).height,
            final(self).mines == old(self).mines,
            final(self).adjacency_map == old(self).adjacency_map,
            final(self).cells@.len() == old(self).cells@.len(),
            !final(self).game_over && !final(self).game_won,
            final(self).total_revealed == 0 && final(self).total_clicks == 0,
            forall|j: int|
                0 <= j < old(self).cells@.len() ==> (#[trigger] final(self).cells@[j]) == (Cell {
                    is_mine: false,
                    is_revealed: false,
                    is_flagged: false,
                    adjacent_mines: 0,
                    x: old(self).cells@[j].x,
                    y: old(self).cells@[j].y,
                }),
    {
        let ghost orig = *old(self);
        let total = self.cells.len();
        let mut i: usize = 0;
        while i < total
            invariant
                0 <= i <= total,
                total == self.cells@.len(),
                self.cells@.len() == orig.cells@.len(),
                self.width == orig.width,
                self.height == orig.height,
                self.mines == orig.mines,
                self.adjacency_map == orig.adjacency_map,
                forall|j: int|
                    0 <= j < i ==> (#[trigger] self.cells@[j]) == (Cell {
                        is_mine: false,
                        is_revealed: false,
                        is_flagged: false,
                        adjacent_mines: 0,
                        x: orig.cells@[j].x,
                        y: orig.cells@[j].y,
                    }),
                forall|j: int| i <= j < total ==> #[trigger] self.cells@[j] == orig.cells@[j],
            decreases total - i,
        {
            let c = self.cells[i];
            self.cells.set(
                i,
                Cell {
                    is_mine: false,
                    is_revealed: false,
                    is_flagged: false,
                    adjacent_mines: 0,
                    x: c.x,
                    y: c.y,
                },
            );
            i += 1;
        }
        self.game_over = false;
        self.game_won = false;
        self.total_revealed = 0;
        self.total_clicks = 0;
        proof {
            lemma_count_zero(self.cells@, |c: Cell| is_counted_revealed(c));
            lemma_count_zero(self.cells@, |c: Cell| is_any_revealed(c));
        }
    }
}

/// Two cell sequences with the same mine layout give every adjacency row the
/// same mine count.
pub proof fn lemma_adj_count_same_mines(c1: Seq<Cell>, c2: Seq<Cell>, row: Seq<usize>)
    requires
        c1.len() == c2.len(),
        forall|j: int| 0 <= j < c1.len() ==> (#[trigger] c1[j]).is_mine == c2[j].is_mine,
    ensures
        adj_mine_count(c1, row) == adj_mine_count(c2, row),
    decreases row.len(),
{
    if row.len() > 0 {
        lemma_adj_count_same_mines(c1, c2, row.drop_last());
    }
}

} // verus!
