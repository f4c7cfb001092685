//! The topology provider: the neighbor relation for every board shape,
//! computed once per board. Flat boards are N-dimensional lattices with
//! Moore neighborhoods (all coordinates differing by at most one, no
//! wraparound). The cube board is a closed 2-manifold of six equal square
//! faces; its adjacency is defined geometrically on the surface of an
//! `n`-cube, so that edge-stitched neighborhoods need no per-edge rotation
//! table and symmetry holds by construction.
use vstd::prelude::*;

verus! {

/// The number of cells of a lattice with the given extents.
pub open spec fn dims_product(dims: Seq<usize>) -> nat
    decreases dims.len(),
{
    if dims.len() == 0 {
        1
    } else {
        dims_product(dims.drop_last()) * (dims.last() as nat)
    }
}

/// Row-major index of a coordinate vector, first axis fastest.
pub open spec fn index_of_coords(c: Seq<usize>, dims: Seq<usize>) -> int
    decreases c.len(),
{
    if c.len() == 0 {
        0
    } else {
        index_of_coords(c.drop_last(), dims.drop_last()) + c.last() * dims_product(
            dims.drop_last(),
        )
    }
}

/// The coordinate vector of a row-major index.
pub open spec fn coords_of_index(idx: int, dims: Seq<usize>) -> Seq<usize>
    decreases dims.len(),
{
    if dims.len() == 0 {
        Seq::empty()
    } else {
        seq![(idx % (dims[0] as int)) as usize] + coords_of_index(
            idx / (dims[0] as int),
            dims.drop_first(),
        )
    }
}

/// Ascending order with no repeats: the canonical shape of an index list.
pub open spec fn strictly_sorted(s: Seq<usize>) -> bool {
    forall|i: int, j: int| 0 <= i < j < s.len() ==> s[i] < s[j]
}

/// Every entry of the list is a valid index below `n`.
pub open spec fn entries_below(s: Seq<usize>, n: int) -> bool {
    forall|i: int| 0 <= i < s.len() ==> #[trigger] s[i] < n
}

pub open spec fn valid_coords(c: Seq<usize>, dims: Seq<usize>) -> bool {
    c.len() == dims.len() && forall|i: int| 0 <= i < c.len() ==> #[trigger] c[i] < dims[i]
}

/// The Moore neighborhood relation: every axis differs by at most one and
/// some axis differs.
pub open spec fn moore_adjacent(a: Seq<usize>, b: Seq<usize>) -> bool {
    &&& a.len() == b.len()
    &&& (exists|i: int| 0 <= i < a.len() && a[i] != b[i])
    &&& forall|i: int| 0 <= i < a.len() ==> -1 <= #[trigger] a[i] - b[i] <= 1
}

proof fn lemma_product_take_succ(dims: Seq<usize>, i: int)
    requires
        0 <= i < dims.len(),
    ensures
        dims_product(dims.take(i + 1)) == dims_product(dims.take(i)) * dims[i],
{
    assert(dims.take(i + 1).drop_last() =~= dims.take(i));
    assert(dims.take(i + 1).last() == dims[i]);
}

/// The product of a prefix of the extents divides into the whole product.
proof fn lemma_product_take_le(dims: Seq<usize>, i: int)
    requires
        0 <= i <= dims.len(),
        forall|t: int| 0 <= t < dims.len() ==> #[trigger] dims[t] >= 1,
    ensures
        dims_product(dims.take(i)) <= dims_product(dims),
    decreases dims.len() - i,
{
    if i == dims.len() {
        assert(dims.take(i) =~= dims);
    } else {
        lemma_product_take_le(dims, i + 1);
        lemma_product_take_succ(dims, i);
        assert(dims_product(dims.take(i)) * 1 <= dims_product(dims.take(i)) * dims[i])
            by (nonlinear_arith)
            requires
                dims_product(dims.take(i)) >= 0,
                dims[i] >= 1,
        {
        }
    }
}

proof fn lemma_index_lt_product(c: Seq<usize>, dims: Seq<usize>)
    requires
        valid_coords(c, dims),
    ensures
        0 <= index_of_coords(c, dims) < dims_product(dims),
    decreases c.len(),
{
    if c.len() == 0 {
    } else {
        let c0 = c.drop_last();
        let d0 = dims.drop_last();
        assert(valid_coords(c0, d0)) by {
            assert forall|i: int| 0 <= i < c0.len() implies #[trigger] c0[i] < d0[i] by {
                assert(c0[i] == c[i]);
                assert(d0[i] == dims[i]);
            }
        }
        lemma_index_lt_product(c0, d0);
        assert(c.last() < dims.last());
        assert(index_of_coords(c0, d0) + c.last() * dims_product(d0) < dims_product(d0)
            * dims.last()) by (nonlinear_arith)
            requires
                index_of_coords(c0, d0) < dims_product(d0),
                0 <= index_of_coords(c0, d0),
                c.last() < dims.last(),
                0 <= c.last(),
                dims_product(d0) >= 0,
        {
        }
        assert(c.last() * dims_product(d0) >= 0) by (nonlinear_arith)
            requires
                c.last() >= 0,
                dims_product(d0) >= 0,
        {
        }
    }
}

/// Converts a coordinate vector to its row-major cell index.
pub fn coords_to_index(c: &Vec<usize>, dims: &Vec<usize>) -> (r: usize)
    requires
        valid_coords(c@, dims@),
        dims_product(dims@) <= usize::MAX,
    ensures
        r as int == index_of_coords(c@, dims@),
        r < dims_product(dims@),
{
    proof {
        assert forall|t: int| 0 <= t < dims@.len() implies #[trigger] dims@[t] >= 1 by {
            assert(c@[t] < dims@[t]);
        }
    }
    let mut idx: usize = 0;
    let mut stride: usize = 1;
    let mut i: usize = 0;
    while i < c.len()
        invariant
            0 <= i <= c@.len(),
            valid_coords(c@, dims@),
            dims_product(dims@) <= usize::MAX,
            forall|t: int| 0 <= t < dims@.len() ==> #[trigger] dims@[t] >= 1,
            stride as nat == dims_product(dims@.take(i as int)),
            idx as int == index_of_coords(c@.take(i as int), dims@.take(i as int)),
            idx < stride,
        decreases c@.len() - i,
    {
        proof {
            lemma_product_take_succ(dims@, i as int);
            lemma_product_take_le(dims@, i as int + 1);
            assert(c@.take(i as int + 1).drop_last() =~= c@.take(i as int));
            assert(dims@.take(i as int + 1).drop_last() =~= dims@.take(i as int));
            assert(c@[i as int] < dims@[i as int]);
            assert(idx + c@[i as int] * stride < stride * dims@[i as int]) by (nonlinear_arith)
                requires
                    idx < stride,
                    0 <= idx,
                    c@[i as int] < dims@[i as int],
                    0 <= c@[i as int],
                    stride >= 0,
            {
            }
        }
        idx = idx + c[i] * stride;
        stride = stride * dims[i];
        i += 1;
    }
    proof {
        assert(c@.take(c@.len() as int) =~= c@);
        assert(dims@.take(c@.len() as int) =~= dims@);
        lemma_product_take_le(dims@, c@.len() as int);
    }
    idx
}

/// Converts a row-major cell index back to its coordinate vector.
pub fn index_to_coords(idx: usize, dims: &Vec<usize>) -> (r: Vec<usize>)
    requires
        forall|t: int| 0 <= t < dims@.len() ==> #[trigger] dims@[t] >= 1,
        (idx as int) < dims_product(dims@),
    ensures
        r@ == coords_of_index(idx as int, dims@),
        valid_coords(r@, dims@),
        index_of_coords(r@, dims@) == idx as int,
{
    let mut out: Vec<usize> = Vec::new();
    let mut rem: usize = idx;
    let mut i: usize = 0;
    proof {
        lemma_product_take_le(dims@, 0);
        assert(dims@.skip(0int) =~= dims@);
        assert(Seq::<usize>::empty() + coords_of_index(idx as int, dims@) =~= coords_of_index(
            idx as int,
            dims@,
        ));
    }
    while i < dims.len()
        invariant
            0 <= i <= dims@.len(),
            forall|t: int| 0 <= t < dims@.len() ==> #[trigger] dims@[t] >= 1,
            (idx as int) < dims_product(dims@),
            out@.len() == i,
            valid_coords(out@, dims@.take(i as int)),
            coords_of_index(idx as int, dims@) == out@ + coords_of_index(
                rem as int,
                dims@.skip(i as int),
            ),
            idx as int == index_of_coords(out@, dims@.take(i as int)) + rem * dims_product(
                dims@.take(i as int),
            ),
        decreases dims@.len() - i,
    {
        let d = dims[i];
        let x = rem % d;
        let newrem = rem / d;
        proof {
            broadcast use vstd::arithmetic::div_mod::lemma_fundamental_div_mod;

            assert(d >= 1);
            assert(rem as int == d * (rem as int / d as int) + rem as int % d as int);
            assert(dims@.skip(i as int)[0] == dims@[i as int]);
            assert(dims@.skip(i as int).drop_first() =~= dims@.skip(i as int + 1));
            assert(coords_of_index(rem as int, dims@.skip(i as int)) == seq![x] + coords_of_index(
                newrem as int,
                dims@.skip(i as int + 1),
            ));
            assert((out@ + coords_of_index(rem as int, dims@.skip(i as int))) =~= (out@.push(x)
                + coords_of_index(newrem as int, dims@.skip(i as int + 1))));
            lemma_product_take_succ(dims@, i as int);
            assert(out@.push(x).drop_last() =~= out@);
            assert(dims@.take(i as int + 1).drop_last() =~= dims@.take(i as int));
            let p = dims_product(dims@.take(i as int)) as int;
            assert(rem * p == (x + d * newrem) * p) by (nonlinear_arith)
                requires
                    rem as int == x + d * newrem,
            {
            }
            assert((x + d * newrem) * p == x * p + newrem * (p * d)) by (nonlinear_arith) {}
            assert(index_of_coords(out@.push(x), dims@.take(i as int + 1)) == index_of_coords(
                out@,
                dims@.take(i as int),
            ) + x * p);
            assert(valid_coords(out@.push(x), dims@.take(i as int + 1))) by {
                assert forall|t: int| 0 <= t < out@.push(x).len() implies #[trigger] out@.push(
                    x,
                )[t] < dims@.take(i as int + 1)[t] by {
                    if t < i as int {
                        assert(out@.push(x)[t] == out@[t]);
                        assert(out@[t] < dims@.take(i as int)[t]);
                    } else {
                        assert(out@.push(x)[t] == x);
                    }
                }
            }
        }
        out.push(x);
        rem = newrem;
        i += 1;
    }
    proof {
        assert(dims@.take(dims@.len() as int) =~= dims@);
        assert(dims@.skip(dims@.len() as int) =~= Seq::<usize>::empty());
        assert(out@ + Seq::<usize>::empty() =~= out@);
        // the remainder is zero at the end: the index is below the product
        lemma_index_lt_product(out@, dims@);
        assert(index_of_coords(out@, dims@.take(dims@.len() as int)) == index_of_coords(
            out@,
            dims@,
        ));
        assert(dims_product(dims@.take(dims@.len() as int)) == dims_product(dims@));
        if rem > 0 {
            assert(rem * dims_product(dims@) >= 1 * dims_product(dims@)) by (nonlinear_arith)
                requires
                    rem >= 1,
                    dims_product(dims@) >= 0,
            {
            }
            assert(idx as int >= index_of_coords(out@, dims@) + dims_product(dims@));
            assert(false);
        }
        assert(rem == 0);
        assert(idx as int == index_of_coords(out@, dims@) + 0 * dims_product(dims@));
    }
    out
}

fn is_moore_adjacent(a: &Vec<usize>, b: &Vec<usize>) -> (r: bool)
    requires
        a@.len() == b@.len(),
    ensures
        r == moore_adjacent(a@, b@),
{
    let mut differs = false;
    let mut i: usize = 0;
    while i < a.len()
        invariant
            0 <= i <= a@.len(),
            a@.len() == b@.len(),
            differs == exists|t: int| 0 <= t < i && a@[t] != b@[t],
            forall|t: int| 0 <= t < i ==> -1 <= #[trigger] a@[t] - b@[t] <= 1,
        decreases a@.len() - i,
    {
        let av = a[i];
        let bv = b[i];
        if av > bv {
            if av - bv > 1 {
                return false;
            }
        } else {
            if bv - av > 1 {
                return false;
            }
        }
        if av != bv {
            differs = true;
        }
        proof {
            if av != bv {
                assert(a@[i as int] != b@[i as int]);
            }
        }
        i += 1;
    }
    differs
}

/// Builds, once per board shape, the Moore adjacency list of an
/// N-dimensional lattice: for every cell, the ascending list of exactly the
/// indices whose coordinates differ from the cell's by at most one on every
/// axis and on at least one.
pub fn build_lattice_adjacency(dims: &Vec<usize>) -> (r: Vec<Vec<usize>>)
    requires
        forall|t: int| 0 <= t < dims@.len() ==> #[trigger] dims@[t] >= 1,
        dims_product(dims@) <= usize::MAX,
    ensures
        r@.len() == dims_product(dims@),
        forall|a: int, b: int|
            0 <= a < r@.len() && 0 <= b < r@.len() ==> (#[trigger] r@[a]@.contains(b as usize)
                <==> moore_adjacent(
                coords_of_index(a, dims@),
                coords_of_index(b, dims@),
            )),
        forall|a: int| 0 <= a < r@.len() ==> strictly_sorted(#[trigger] r@[a]@),
        forall|a: int| 0 <= a < r@.len() ==> entries_below(#[trigger] r@[a]@, r@.len() as int),
{
    let total = count_cells(dims);
    let mut r: Vec<Vec<usize>> = Vec::new();
    let mut a: usize = 0;
    while a < total
        invariant
            0 <= a <= total,
            total as nat == dims_product(dims@),
            dims_product(dims@) <= usize::MAX,
            forall|t: int| 0 <= t < dims@.len() ==> #[trigger] dims@[t] >= 1,
            r@.len() == a,
            forall|x: int, b: int|
                0 <= x < a && 0 <= b < total ==> (#[trigger] r@[x]@.contains(b as usize)
                    <==> moore_adjacent(
                    coords_of_index(x, dims@),
                    coords_of_index(b, dims@),
                )),
            forall|x: int| 0 <= x < a ==> strictly_sorted(#[trigger] r@[x]@),
            forall|x: int| 0 <= x < a ==> entries_below(#[trigger] r@[x]@, total as int),
        decreases total - a,
    {
        let ca = index_to_coords(a, dims);
        let mut row: Vec<usize> = Vec::new();
        let mut b: usize = 0;
        while b < total
            invariant
                0 <= b <= total,
                total as nat == dims_product(dims@),
                dims_product(dims@) <= usize::MAX,
                forall|t: int| 0 <= t < dims@.len() ==> #[trigger] dims@[t] >= 1,
                a < total,
                ca@ == coords_of_index(a as int, dims@),
                ca@.len() == dims@.len(),
                forall|v: int|
                    0 <= v < b ==> (#[trigger] row@.contains(v as usize) <==> moore_adjacent(
                        coords_of_index(a as int, dims@),
                        coords_of_index(v, dims@),
                    )),
                forall|v: usize| row@.contains(v) ==> v < b,
                strictly_sorted(row@),
            decreases total - b,
        {
            let cb = index_to_coords(b, dims);
            let ghost row0 = row@;
            let adj = is_moore_adjacent(&ca, &cb);
            if adj {
                row.push(b);
            }
            proof {
                if adj {
                    assert(row@ == row0.push(b));
                    assert forall|w: usize| #[trigger] row@.contains(w) implies (row0.contains(w)
                        || w == b) by {
                        let q = choose|q: int| 0 <= q < row@.len() && row@[q] == w;
                        if q < row@.len() - 1 {
                            assert(row0[q] == w);
                        }
                    }
                    assert(row@.contains(b)) by {
                        assert(row@[row@.len() - 1] == b);
                    }
                    assert forall|w: usize| #[trigger] row0.contains(w) implies row@.contains(
                        w,
                    ) by {
                        let q = choose|q: int| 0 <= q < row0.len() && row0[q] == w;
                        assert(row@[q] == w);
                    }
                    assert(strictly_sorted(row@)) by {
                        assert forall|s: int, t: int|
                            0 <= s < t < row@.len() implies row@[s] < row@[t] by {
                            if t < row@.len() - 1 {
                                assert(row@[s] == row0[s]);
                                assert(row@[t] == row0[t]);
                            } else {
                                assert(row@[s] == row0[s]);
                                assert(row0.contains(row0[s]));
                                assert(row@[t] == b);
                            }
                        }
                    }
                } else {
                    assert(row@ == row0);
                }
                assert forall|v: int|
                    0 <= v < b + 1 implies (#[trigger] row@.contains(v as usize)
                    <==> moore_adjacent(
                    coords_of_index(a as int, dims@),
                    coords_of_index(v, dims@),
                )) by {
                    if v == b as int {
                        if !adj && row@.contains(b) {
                            assert(b < b);
                        }
                    } else {
                        if row0.contains(v as usize) && adj {
                            let q = choose|q: int| 0 <= q < row0.len() && row0[q] == v as usize;
                            assert(row@[q] == v as usize);
                            assert(row@.contains(v as usize));
                        }
                        if row@.contains(v as usize) && adj {
                            assert(v as usize != b);
                            assert(row0.contains(v as usize));
                        }
                    }
                }
            }
            b += 1;
        }
        proof {
            assert(entries_below(row@, total as int)) by {
                assert forall|t: int| 0 <= t < row@.len() implies #[trigger] row@[t]
                    < total as int by {
                    assert(row@.contains(row@[t]));
                }
            }
        }
        r.push(row);
        a += 1;
        proof {
            assert forall|x: int, bb: int|
                0 <= x < a && 0 <= bb < total implies (#[trigger] r@[x]@.contains(bb as usize)
                <==> moore_adjacent(
                coords_of_index(x, dims@),
                coords_of_index(bb, dims@),
            )) by {
                if x < a - 1 {
                    assert(r@[x] == r@.drop_last()[x]);
                }
            }
        }
    }
    r
}

/// The number of cells on the surface of a cube with side `n`: six faces of
/// `n * n` cells, indexed face-major, then row-major within a face.
pub open spec fn cube_cell_count(n: int) -> int {
    6 * n * n
}

pub open spec fn cube_face(n: int, a: int) -> int {
    a / (n * n)
}

pub open spec fn cube_row(n: int, a: int) -> int {
    (a % (n * n)) / n
}

pub open spec fn cube_col(n: int, a: int) -> int {
    (a % (n * n)) % n
}

/// The 3D lattice corner `(i, j)` (each 0 or 1) of the unit square that cell
/// `(f, r, c)` occupies on the surface of an axis-aligned cube `[0, n]^3`.
/// Faces 0/1 lie in the planes z = 0 and z = n, faces 2/3 in y = 0 and
/// y = n, faces 4/5 in x = 0 and x = n.
pub open spec fn square_vertex(n: int, f: int, r: int, c: int, i: int, j: int) -> (int, int, int) {
    if f == 0 {
        (c + i, r + j, 0)
    } else if f == 1 {
        (c + i, r + j, n)
    } else if f == 2 {
        (c + i, 0, r + j)
    } else if f == 3 {
        (c + i, n, r + j)
    } else if f == 4 {
        (0, c + i, r + j)
    } else {
        (n, c + i, r + j)
    }
}

/// A lattice point at a corner of the cube itself, where three faces meet
/// and a diagonal step has no well-defined target.
pub open spec fn is_cube_corner(n: int, v: (int, int, int)) -> bool {
    (v.0 == 0 || v.0 == n) && (v.1 == 0 || v.1 == n) && (v.2 == 0 || v.2 == n)
}

/// Does corner `(i, j)` of the first square coincide with some corner of the
/// second square?
pub open spec fn shares_at(
    n: int,
    f1: int,
    r1: int,
    c1: int,
    f2: int,
    r2: int,
    c2: int,
    i: int,
    j: int,
) -> bool {
    let v = square_vertex(n, f1, r1, c1, i, j);
    ||| v == square_vertex(n, f2, r2, c2, 0, 0)
    ||| v == square_vertex(n, f2, r2, c2, 0, 1)
    ||| v == square_vertex(n, f2, r2, c2, 1, 0)
    ||| v == square_vertex(n, f2, r2, c2, 1, 1)
}

/// The two squares touch in exactly one lattice point, and that point is
/// not a corner of the cube: the edge-stitched diagonal neighborhood.
pub open spec fn one_shared_vertex(
    n: int,
    f1: int,
    r1: int,
    c1: int,
    f2: int,
    r2: int,
    c2: int,
) -> bool {
    let s00 = shares_at(n, f1, r1, c1, f2, r2, c2, 0, 0);
    let s01 = shares_at(n, f1, r1, c1, f2, r2, c2, 0, 1);
    let s10 = shares_at(n, f1, r1, c1, f2, r2, c2, 1, 0);
    let s11 = shares_at(n, f1, r1, c1, f2, r2, c2, 1, 1);
    ||| (s00 && !s01 && !s10 && !s11 && !is_cube_corner(n, square_vertex(n, f1, r1, c1, 0, 0)))
    ||| (!s00 && s01 && !s10 && !s11 && !is_cube_corner(n, square_vertex(n, f1, r1, c1, 0, 1)))
    ||| (!s00 && !s01 && s10 && !s11 && !is_cube_corner(n, square_vertex(n, f1, r1, c1, 1, 0)))
    ||| (!s00 && !s01 && !s10 && s11 && !is_cube_corner(n, square_vertex(n, f1, r1, c1, 1, 1)))
}

/// The neighbor relation on the cube surface: ordinary 8-neighborhood
/// within a face; across faces, the squares must meet in exactly one
/// lattice point away from the cube's corners.
pub open spec fn cube_adjacent(n: int, a: int, b: int) -> bool {
    let f1 = cube_face(n, a);
    let r1 = cube_row(n, a);
    let c1 = cube_col(n, a);
    let f2 = cube_face(n, b);
    let r2 = cube_row(n, b);
    let c2 = cube_col(n, b);
    &&& a != b
    &&& if f1 == f2 {
        -1 <= r1 - r2 <= 1 && -1 <= c1 - c2 <= 1
    } else {
        one_shared_vertex(n, f1, r1, c1, f2, r2, c2)
    }
}

/// The cube neighbor relation is symmetric for every pair of cells.
pub proof fn lemma_cube_adjacent_symmetric(n: int, a: int, b: int)
    ensures
        cube_adjacent(n, a, b) == cube_adjacent(n, b, a),
{
    let f1 = cube_face(n, a);
    let r1 = cube_row(n, a);
    let c1 = cube_col(n, a);
    let f2 = cube_face(n, b);
    let r2 = cube_row(n, b);
    let c2 = cube_col(n, b);
    if f1 != f2 {
        assert forall|i1: int, j1: int, i2: int, j2: int|
            0 <= i1 <= 1 && 0 <= j1 <= 1 && 0 <= i2 <= 1 && 0 <= j2 <= 1 && (i1, j1) != (i2, j2)
            implies #[trigger] square_vertex(n, f1, r1, c1, i1, j1) != #[trigger] square_vertex(
            n,
            f1,
            r1,
            c1,
            i2,
            j2,
        ) by {}
        assert forall|i1: int, j1: int, i2: int, j2: int|
            0 <= i1 <= 1 && 0 <= j1 <= 1 && 0 <= i2 <= 1 && 0 <= j2 <= 1 && (i1, j1) != (i2, j2)
            implies #[trigger] square_vertex(n, f2, r2, c2, i1, j1) != #[trigger] square_vertex(
            n,
            f2,
            r2,
            c2,
            i2,
            j2,
        ) by {}
    }
}

fn vertex_of(n: usize, f: usize, r: usize, c: usize, i: usize, j: usize) -> (v: (
    usize,
    usize,
    usize,
))
    requires
        f < 6,
        i <= 1,
        j <= 1,
        r < n,
        c < n,
    ensures
        (v.0 as int, v.1 as int, v.2 as int) == square_vertex(
            n as int,
            f as int,
            r as int,
            c as int,
            i as int,
            j as int,
        ),
{
    if f == 0 {
        (c + i, r + j, 0)
    } else if f == 1 {
        (c + i, r + j, n)
    } else if f == 2 {
        (c + i, 0, r + j)
    } else if f == 3 {
        (c + i, n, r + j)
    } else if f == 4 {
        (0, c + i, r + j)
    } else {
        (n, c + i, r + j)
    }
}

fn vertex_eq(a: (usize, usize, usize), b: (usize, usize, usize)) -> (r: bool)
    ensures
        r == ((a.0 as int, a.1 as int, a.2 as int) == (b.0 as int, b.1 as int, b.2 as int)),
{
    a.0 == b.0 && a.1 == b.1 && a.2 == b.2
}

fn shares_at_exec(n: usize, f1: usize, r1: usize, c1: usize, f2: usize, r2: usize, c2: usize,
    i: usize, j: usize) -> (r: bool)
    requires
        f1 < 6,
        f2 < 6,
        i <= 1,
        j <= 1,
        r1 < n,
        c1 < n,
        r2 < n,
        c2 < n,
    ensures
        r == shares_at(
            n as int,
            f1 as int,
            r1 as int,
            c1 as int,
            f2 as int,
            r2 as int,
            c2 as int,
            i as int,
            j as int,
        ),
{
    let v = vertex_of(n, f1, r1, c1, i, j);
    let b00 = vertex_eq(v, vertex_of(n, f2, r2, c2, 0, 0));
    let b01 = vertex_eq(v, vertex_of(n, f2, r2, c2, 0, 1));
    let b10 = vertex_eq(v, vertex_of(n, f2, r2, c2, 1, 0));
    let b11 = vertex_eq(v, vertex_of(n, f2, r2, c2, 1, 1));
    b00 || b01 || b10 || b11
}

fn corner_exec(n: usize, v: (usize, usize, usize)) -> (r: bool)
    ensures
        r == is_cube_corner(n as int, (v.0 as int, v.1 as int, v.2 as int)),
{
    (v.0 == 0 || v.0 == n) && (v.1 == 0 || v.1 == n) && (v.2 == 0 || v.2 == n)
}

/// Decides the cube neighbor relation for a pair of cell indices.
pub fn cube_cells_adjacent(n: usize, a: usize, b: usize) -> (r: bool)
    requires
        n >= 1,
        6 * (n as int) * (n as int) <= usize::MAX,
        (a as int) < cube_cell_count(n as int),
        (b as int) < cube_cell_count(n as int),
    ensures
        r == cube_adjacent(n as int, a as int, b as int),
{
    proof {
        assert(6 * (n as int) * (n as int) == 6 * ((n as int) * (n as int))) by (nonlinear_arith) {}
        assert((n as int) * (n as int) >= 1 && (n as int) * (n as int) <= 6 * ((n as int) * (
        n as int))) by (nonlinear_arith)
            requires
                n >= 1,
        {
        }
    }
    let nn = n * n;
    let f1 = a / nn;
    let r1 = (a % nn) / n;
    let c1 = (a % nn) % n;
    let f2 = b / nn;
    let r2 = (b % nn) / n;
    let c2 = (b % nn) % n;
    proof {
        broadcast use vstd::arithmetic::div_mod::lemma_fundamental_div_mod;
        broadcast use vstd::arithmetic::div_mod::lemma_mod_bound;

        assert((a as int) / ((n * n) as int) < 6) by (nonlinear_arith)
            requires
                (a as int) < 6 * ((n as int) * (n as int)),
                a >= 0,
                (n * n) as int == (n as int) * (n as int),
                n >= 1,
        {
        }
        assert((b as int) / ((n * n) as int) < 6) by (nonlinear_arith)
            requires
                (b as int) < 6 * ((n as int) * (n as int)),
                b >= 0,
                (n * n) as int == (n as int) * (n as int),
                n >= 1,
        {
        }
        assert(((a % nn) as int) / (n as int) < (n as int)) by (nonlinear_arith)
            requires
                ((a % nn) as int) < ((n as int) * (n as int)),
                ((a % nn) as int) >= 0,
                n >= 1,
        {
        }
        assert(((b % nn) as int) / (n as int) < (n as int)) by (nonlinear_arith)
            requires
                ((b % nn) as int) < ((n as int) * (n as int)),
                ((b % nn) as int) >= 0,
                n >= 1,
        {
        }
    }
    if a == b {
        return false;
    }
    if f1 == f2 {
        let dr = if r1 > r2 {
            r1 - r2
        } else {
            r2 - r1
        };
        let dc = if c1 > c2 {
            c1 - c2
        } else {
            c2 - c1
        };
        dr <= 1 && dc <= 1
    } else {
        let s00 = shares_at_exec(n, f1, r1, c1, f2, r2, c2, 0, 0);
        let s01 = shares_at_exec(n, f1, r1, c1, f2, r2, c2, 0, 1);
        let s10 = shares_at_exec(n, f1, r1, c1, f2, r2, c2, 1, 0);
        let s11 = shares_at_exec(n, f1, r1, c1, f2, r2, c2, 1, 1);
        let only00 = s00 && !s01 && !s10 && !s11 && !corner_exec(n, vertex_of(n, f1, r1, c1, 0, 0));
        let only01 = !s00 && s01 && !s10 && !s11 && !corner_exec(n, vertex_of(n, f1, r1, c1, 0, 1));
        let only10 = !s00 && !s01 && s10 && !s11 && !corner_exec(n, vertex_of(n, f1, r1, c1, 1, 0));
        let only11 = !s00 && !s01 && !s10 && s11 && !corner_exec(n, vertex_of(n, f1, r1, c1, 1, 1));
        only00 || only01 || only10 || only11
    }
}

/// Builds, once per cube side length, the edge-stitched adjacency of the
/// six-face cube surface: for every cell, the ascending list of exactly the
/// indices adjacent to it under the cube neighbor relation.
pub fn build_cube_adjacency(n: usize) -> (r: Vec<Vec<usize>>)
    requires
        n >= 1,
        6 * (n as int) * (n as int) <= usize::MAX,
    ensures
        r@.len() == cube_cell_count(n as int),
        forall|a: int, b: int|
            0 <= a < r@.len() && 0 <= b < r@.len() ==> (#[trigger] r@[a]@.contains(b as usize)
                <==> cube_adjacent(n as int, a, b)),
        forall|a: int| 0 <= a < r@.len() ==> strictly_sorted(#[trigger] r@[a]@),
        forall|a: int| 0 <= a < r@.len() ==> entries_below(#[trigger] r@[a]@, r@.len() as int),
{
    proof {
        assert(6 * (n as int) * (n as int) == 6 * ((n as int) * (n as int))) by (nonlinear_arith) {}
    }
    let total = 6 * (n * n);
    let mut r: Vec<Vec<usize>> = Vec::new();
    let mut a: usize = 0;
    while a < total
        invariant
            0 <= a <= total,
            n >= 1,
            total as int == cube_cell_count(n as int),
            6 * (n as int) * (n as int) <= usize::MAX,
            r@.len() == a,
            forall|x: int, b: int|
                0 <= x < a && 0 <= b < total ==> (#[trigger] r@[x]@.contains(b as usize)
                    <==> cube_adjacent(n as int, x, b)),
            forall|x: int| 0 <= x < a ==> strictly_sorted(#[trigger] r@[x]@),
            forall|x: int| 0 <= x < a ==> entries_below(#[trigger] r@[x]@, total as int),
        decreases total - a,
    {
        let mut row: Vec<usize> = Vec::new();
        let mut b: usize = 0;
        while b < total
            invariant
                0 <= b <= total,
                a < total,
                n >= 1,
                total as int == cube_cell_count(n as int),
                6 * (n as int) * (n as int) <= usize::MAX,
                forall|v: int|
                    0 <= v < b ==> (#[trigger] row@.contains(v as usize) <==> cube_adjacent(
                        n as int,
                        a as int,
                        v,
                    )),
                forall|v: usize| row@.contains(v) ==> v < b,
                strictly_sorted(row@),
            decreases total - b,
        {
            let ghost row0 = row@;
            let adj = cube_cells_adjacent(n, a, b);
            if adj {
                row.push(b);
            }
            proof {
                if adj {
                    assert(row@ == row0.push(b));
                    assert forall|w: usize| #[trigger] row@.contains(w) implies (row0.contains(w)
                        || w == b) by {
                        let q = choose|q: int| 0 <= q < row@.len() && row@[q] == w;
                        if q < row@.len() - 1 {
                            assert(row0[q] == w);
                        }
                    }
                    assert(row@.contains(b)) by {
                        assert(row@[row@.len() - 1] == b);
                    }
                    assert forall|w: usize| #[trigger] row0.contains(w) implies row@.contains(
                        w,
                    ) by {
                        let q = choose|q: int| 0 <= q < row0.len() && row0[q] == w;
                        assert(row@[q] == w);
                    }
                    assert(strictly_sorted(row@)) by {
                        assert forall|s: int, t: int|
                            0 <= s < t < row@.len() implies row@[s] < row@[t] by {
                            if t < row@.len() - 1 {
                                assert(row@[s] == row0[s]);
                                assert(row@[t] == row0[t]);
                            } else {
                                assert(row@[s] == row0[s]);
                                assert(row0.contains(row0[s]));
                                assert(row@[t] == b);
                            }
                        }
                    }
                } else {
                    assert(row@ == row0);
                }
                assert forall|v: int|
                    0 <= v < b + 1 implies (#[trigger] row@.contains(v as usize) <==> cube_adjacent(
                    n as int,
                    a as int,
                    v,
                )) by {
                    if v == b as int {
                        if !adj && row@.contains(b) {
                            assert(b < b);
                        }
                    } else {
                        if row0.contains(v as usize) && adj {
                            let q = choose|q: int| 0 <= q < row0.len() && row0[q] == v as usize;
                            assert(row@[q] == v as usize);
                            assert(row@.contains(v as usize));
                        }
                        if row@.contains(v as usize) && adj {
                            assert(v as usize != b);
                            assert(row0.contains(v as usize));
                        }
                    }
                }
            }
            b += 1;
        }
        proof {
            assert(entries_below(row@, total as int)) by {
                assert forall|t: int| 0 <= t < row@.len() implies #[trigger] row@[t]
                    < total as int by {
                    assert(row@.contains(row@[t]));
                }
            }
        }
        r.push(row);
        a += 1;
        proof {
            assert forall|x: int, bb: int|
                0 <= x < a && 0 <= bb < total implies (#[trigger] r@[x]@.contains(bb as usize)
                <==> cube_adjacent(n as int, x, bb)) by {
                if x < a - 1 {
                    assert(r@[x] == r@.drop_last()[x]);
                }
            }
        }
    }
    r
}

/// The number of cells of a lattice board: the product of its extents.
pub fn count_cells(dims: &Vec<usize>) -> (r: usize)
    requires
        forall|t: int| 0 <= t < dims@.len() ==> #[trigger] dims@[t] >= 1,
        dims_product(dims@) <= usize::MAX,
    ensures
        r as nat == dims_product(dims@),
{
    let mut p: usize = 1;
    let mut i: usize = 0;
    proof {
        assert(dims@.take(0int) =~= Seq::<usize>::empty());
    }
    while i < dims.len()
        invariant
            0 <= i <= dims@.len(),
            forall|t: int| 0 <= t < dims@.len() ==> #[trigger] dims@[t] >= 1,
            dims_product(dims@) <= usize::MAX,
            p as nat == dims_product(dims@.take(i as int)),
        decreases dims@.len() - i,
    {
        proof {
            lemma_product_take_succ(dims@, i as int);
            lemma_product_take_le(dims@, i as int + 1);
        }
        p = p * dims[i];
        i += 1;
    }
    proof {
        assert(dims@.take(dims@.len() as int) =~= dims@);
    }
    p
}

} // verus!
