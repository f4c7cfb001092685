//! The deterministic reducer: pairwise subset-difference algebra driven to
//! a fixed point under iteration and size caps, and the zero / full rules
//! that turn constraints into a safe / mine partition. Exceeding a cap is
//! no error: it only surrenders completeness, never soundness.
use vstd::prelude::*;
use crate::constraints::Constraint;
use crate::constraints::all_sat;
use crate::constraints::constraint_sat;
use crate::constraints::lemma_full_rule_mine;
use crate::constraints::lemma_seq_diff;
use crate::constraints::lemma_subset_diff_sound;
use crate::constraints::lemma_zero_rule_safe;
use crate::constraints::sat_sub;
use crate::constraints::seq_diff;
use crate::constraints::seq_subset;
use crate::topology::strictly_sorted;

verus! {

/// The reducer stops deriving once a constraint set reaches this size; the
/// cap is a performance knob, not a semantic constant.
pub const REDUCE_SIZE_CAP: usize = 200;

/// The bound on fixed-point rounds.
pub const REDUCE_ROUND_CAP: usize = 64;

/// Some constraint of the set has exactly these cells and this count.
pub open spec fn present(cs: Seq<Constraint>, cells: Seq<usize>, mines: nat) -> bool {
    exists|k: int|
        0 <= k < cs.len() && (#[trigger] cs[k]).cells@ == cells && cs[k].mines == mines
}

/// `c` is the subset-difference of `b` minus `a`.
pub open spec fn derived_via(c: Constraint, a: Constraint, b: Constraint) -> bool {
    &&& seq_subset(a.cells@, b.cells@)
    &&& c.cells@ == seq_diff(b.cells@, a.cells@)
    &&& c.mines == sat_sub(b.mines as nat, a.mines as nat)
    &&& c.cells@.len() > 0
}

/// Every nonempty subset-difference of a pair is already in the set.
pub open spec fn closed_under_diff(cs: Seq<Constraint>) -> bool {
    forall|a: int, b: int|
        0 <= a < cs.len() && 0 <= b < cs.len() && a != b && seq_subset(
            (#[trigger] cs[a]).cells@,
            (#[trigger] cs[b]).cells@,
        ) && seq_diff(cs[b].cells@, cs[a].cells@).len() > 0 ==> present(
            cs,
            seq_diff(cs[b].cells@, cs[a].cells@),
            sat_sub(cs[b].mines as nat, cs[a].mines as nat),
        )
}

/// Every pair lexicographically before `(i, j)` has its difference empty
/// or already present.
pub open spec fn pairs_ok_before(cs: Seq<Constraint>, i: int, j: int) -> bool {
    forall|a: int, b: int|
        0 <= a < cs.len() && 0 <= b < cs.len() && a != b && (a < i || (a == i && b < j))
            && seq_subset((#[trigger] cs[a]).cells@, (#[trigger] cs[b]).cells@) && seq_diff(
            cs[b].cells@,
            cs[a].cells@,
        ).len() > 0 ==> present(
            cs,
            seq_diff(cs[b].cells@, cs[a].cells@),
            sat_sub(cs[b].mines as nat, cs[a].mines as nat),
        )
}

pub(crate) fn cells_contain(v: &Vec<usize>, x: usize) -> (r: bool)
    ensures
        r == v@.contains(x),
{
    let mut t: usize = 0;
    while t < v.len()
        invariant
            0 <= t <= v@.len(),
            forall|q: int| 0 <= q < t ==> v@[q] != x,
        decreases v@.len() - t,
    {
        if v[t] == x {
            return true;
        }
        t += 1;
    }
    false
}

fn cells_subset(a: &Vec<usize>, b: &Vec<usize>) -> (r: bool)
    ensures
        r == seq_subset(a@, b@),
{
    let mut t: usize = 0;
    while t < a.len()
        invariant
            0 <= t <= a@.len(),
            forall|q: int| 0 <= q < t ==> b@.contains(#[trigger] a@[q]),
        decreases a@.len() - t,
    {
        if !cells_contain(b, a[t]) {
            return false;
        }
        t += 1;
    }
    true
}

pub fn cells_diff(b: &Vec<usize>, a: &Vec<usize>) -> (r: Vec<usize>)
    ensures
        r@ == seq_diff(b@, a@),
{
    let mut out: Vec<usize> = Vec::new();
    let mut t: usize = 0;
    proof {
        assert(b@.take(0int) =~= Seq::<usize>::empty());
    }
    while t < b.len()
        invariant
            0 <= t <= b@.len(),
            out@ == seq_diff(b@.take(t as int), a@),
        decreases b@.len() - t,
    {
        proof {
            assert(b@.take(t as int + 1).drop_last() =~= b@.take(t as int));
            assert(b@.take(t as int + 1).last() == b@[t as int]);
        }
        if !cells_contain(a, b[t]) {
            out.push(b[t]);
        }
        t += 1;
    }
    proof {
        assert(b@.take(b@.len() as int) =~= b@);
    }
    out
}

fn cells_equal(a: &Vec<usize>, b: &Vec<usize>) -> (r: bool)
    ensures
        r == (a@ == b@),
{
    if a.len() != b.len() {
        return false;
    }
    let mut t: usize = 0;
    while t < a.len()
        invariant
            0 <= t <= a@.len(),
            a@.len() == b@.len(),
            forall|q: int| 0 <= q < t ==> a@[q] == b@[q],
        decreases a@.len() - t,
    {
        if a[t] != b[t] {
            return false;
        }
        t += 1;
    }
    proof {
        assert(a@ =~= b@);
    }
    true
}

fn is_present(cs: &Vec<Constraint>, cells: &Vec<usize>, mines: usize) -> (r: bool)
    ensures
        r == present(cs@, cells@, mines as nat),
{
    let mut k: usize = 0;
    while k < cs.len()
        invariant
            0 <= k <= cs@.len(),
            forall|q: int|
                0 <= q < k ==> !((#[trigger] cs@[q]).cells@ == cells@ && cs@[q].mines
                    == mines),
        decreases cs@.len() - k,
    {
        if cs[k].mines == mines && cells_equal(&cs[k].cells, cells) {
            return true;
        }
        k += 1;
    }
    false
}

/// The cell occurs somewhere in the given constraint set.
pub open spec fn cell_from_base(base: Seq<Constraint>, x: usize) -> bool {
    exists|k0: int, q0: int|
        0 <= k0 < base.len() && 0 <= q0 < base[k0].cells@.len() && (
        #[trigger] base[k0].cells@[q0]) == x
}

/// The running state of a reduction: the input is a prefix, every entry
/// is well-formed and entailed by the input, every cell traces back to the
/// input, and the first derived entry (if any) records its parents.
#[verifier::opaque]
pub open spec fn reducer_inv(base: Seq<Constraint>, out: Seq<Constraint>) -> bool {
    &&& out.len() >= base.len()
    &&& (forall|k: int| 0 <= k < base.len() ==> out[k] == base[k])
    &&& (forall|k: int| 0 <= k < out.len() ==> (#[trigger] out[k]).wf())
    &&& (forall|m: Set<int>| all_sat(m, base) ==> #[trigger] all_sat(m, out))
    &&& (forall|k: int, q: int|
        0 <= k < out.len() && 0 <= q < out[k].cells@.len() ==> cell_from_base(
            base,
            (#[trigger] out[k].cells@[q]),
        ))
    &&& (out.len() > base.len() ==> exists|i: int, j: int|
        0 <= i < base.len() && 0 <= j < base.len() && i != j && #[trigger] derived_via(
            out[base.len() as int],
            base[i],
            base[j],
        ) && !present(base, out[base.len() as int].cells@, out[base.len() as int].mines as nat))
}

/// One pair is resolved: its difference is empty, not a subset case, or
/// already present.
pub open spec fn pair_resolved(cs: Seq<Constraint>, a: int, b: int) -> bool {
    (0 <= a < cs.len() && 0 <= b < cs.len() && a != b && seq_subset(cs[a].cells@, cs[b].cells@)
        && seq_diff(cs[b].cells@, cs[a].cells@).len() > 0) ==> present(
        cs,
        seq_diff(cs[b].cells@, cs[a].cells@),
        sat_sub(cs[b].mines as nat, cs[a].mines as nat),
    )
}

proof fn lemma_pairs_ok_step(cs: Seq<Constraint>, i: int, j: int)
    requires
        pairs_ok_before(cs, i, j),
        pair_resolved(cs, i, j),
    ensures
        pairs_ok_before(cs, i, j + 1),
{
    assert forall|a: int, b: int|
        0 <= a < cs.len() && 0 <= b < cs.len() && a != b && (a < i || (a == i && b < j + 1))
            && seq_subset((#[trigger] cs[a]).cells@, (#[trigger] cs[b]).cells@) && seq_diff(
            cs[b].cells@,
            cs[a].cells@,
        ).len() > 0 implies present(
        cs,
        seq_diff(cs[b].cells@, cs[a].cells@),
        sat_sub(cs[b].mines as nat, cs[a].mines as nat),
    ) by {
        if a == i && b == j {
        }
    }
}

proof fn lemma_pairs_ok_row(cs: Seq<Constraint>, i: int, n: int)
    requires
        pairs_ok_before(cs, i, n),
        n >= cs.len(),
    ensures
        pairs_ok_before(cs, i + 1, 0),
{
    assert forall|a: int, b: int|
        0 <= a < cs.len() && 0 <= b < cs.len() && a != b && (a < i + 1 || (a == i + 1 && b < 0))
            && seq_subset((#[trigger] cs[a]).cells@, (#[trigger] cs[b]).cells@) && seq_diff(
            cs[b].cells@,
            cs[a].cells@,
        ).len() > 0 implies present(
        cs,
        seq_diff(cs[b].cells@, cs[a].cells@),
        sat_sub(cs[b].mines as nat, cs[a].mines as nat),
    ) by {
        assert(a < i || (a == i && b < n));
    }
}

proof fn lemma_pairs_ok_closed(cs: Seq<Constraint>, n: int)
    requires
        pairs_ok_before(cs, n, 0),
        n >= cs.len(),
    ensures
        closed_under_diff(cs),
{
    assert forall|a: int, b: int|
        0 <= a < cs.len() && 0 <= b < cs.len() && a != b && seq_subset(
            (#[trigger] cs[a]).cells@,
            (#[trigger] cs[b]).cells@,
        ) && seq_diff(cs[b].cells@, cs[a].cells@).len() > 0 implies present(
        cs,
        seq_diff(cs[b].cells@, cs[a].cells@),
        sat_sub(cs[b].mines as nat, cs[a].mines as nat),
    ) by {
        assert(a < n || (a == n && b < 0));
    }
}

/// Processes one ordered pair: appends the subset-difference constraint
/// unless it is empty or already present, refusing growth past the size
/// cap. Returns whether an entry was pushed and whether the cap refused.
#[verifier::rlimit(50)]
fn process_pair(out: &mut Vec<Constraint>, Ghost(base): Ghost<Seq<Constraint>>, i: usize, j: usize)
    -> (r: (bool, bool))
    requires
        reducer_inv(base, old(out)@),
        (i as int) < old(out)@.len(),
        (j as int) < old(out)@.len(),
        i != j,
    ensures
        reducer_inv(base, final(out)@),
        final(out)@.len() >= old(out)@.len(),
        forall|k: int| 0 <= k < old(out)@.len() ==> final(out)@[k] == old(out)@[k],
        r.0 ==> final(out)@.len() == old(out)@.len() + 1,
        !r.0 ==> final(out)@ == old(out)@,
        !r.0 && !r.1 ==> pair_resolved(final(out)@, i as int, j as int),
        r.0 || r.1 ==> seq_subset(old(out)@[i as int].cells@, old(out)@[j as int].cells@)
            && seq_diff(old(out)@[j as int].cells@, old(out)@[i as int].cells@).len() > 0
            && !present(
            old(out)@,
            seq_diff(old(out)@[j as int].cells@, old(out)@[i as int].cells@),
            sat_sub(old(out)@[j as int].mines as nat, old(out)@[i as int].mines as nat),
        ),
        r.1 ==> old(out)@.len() >= REDUCE_SIZE_CAP,
{
    proof {
        reveal(reducer_inv);
    }
    let ghost out_pre = out@;
    if !cells_subset(&out[i].cells, &out[j].cells) {
        return (false, false);
    }
    let dcells = cells_diff(&out[j].cells, &out[i].cells);
    if dcells.len() == 0 {
        return (false, false);
    }
    let dmines = if out[j].mines >= out[i].mines {
        out[j].mines - out[i].mines
    } else {
        0
    };
    if is_present(&out, &dcells, dmines) {
        return (false, false);
    }
    if out.len() >= REDUCE_SIZE_CAP {
        return (false, true);
    }
    let d = Constraint { cells: dcells, mines: dmines };
    proof {
        lemma_seq_diff(out@[j as int].cells@, out@[i as int].cells@);
        assert(d.wf());
        assert forall|m: Set<int>| all_sat(m, base) implies #[trigger] all_sat(
            m,
            out@.push(d),
        ) by {
            assert(all_sat(m, out@));
            assert(constraint_sat(m, out@[i as int]));
            assert(constraint_sat(m, out@[j as int]));
            lemma_subset_diff_sound(m, out@[i as int], out@[j as int], d);
            assert forall|k: int| 0 <= k < out@.push(d).len() implies constraint_sat(
                m,
                #[trigger] out@.push(d)[k],
            ) by {
                if k < out@.len() {
                    assert(out@.push(d)[k] == out@[k]);
                } else {
                    assert(out@.push(d)[k] == d);
                }
            }
        }
        if out@.len() == base.len() {
            assert(out@[i as int] == base[i as int]);
            assert(out@[j as int] == base[j as int]);
            assert(derived_via(d, base[i as int], base[j as int]));
            assert(!present(base, d.cells@, d.mines as nat)) by {
                if present(base, d.cells@, d.mines as nat) {
                    let k = choose|k: int|
                        0 <= k < base.len() && (#[trigger] base[k]).cells@ == d.cells@
                            && base[k].mines == d.mines;
                    assert(out@[k].cells@ == d.cells@);
                }
            }
        }
    }
    let ghost dg = d;
    out.push(d);
    proof {
        assert forall|k: int| 0 <= k < out@.len() implies (#[trigger] out@[k]).wf() by {
            if k < out_pre.len() {
                assert(out@[k] == out_pre[k]);
            } else {
                assert(out@[k] == dg);
            }
        }
        assert forall|k: int, q: int|
            0 <= k < out@.len() && 0 <= q < out@[k].cells@.len() implies cell_from_base(
            base,
            (#[trigger] out@[k].cells@[q]),
        ) by {
            if k < out_pre.len() {
                assert(out@[k] == out_pre[k]);
            } else {
                assert(out@[k] == dg);
                let x = dg.cells@[q];
                assert(dg.cells@.contains(x));
                assert(out_pre[j as int].cells@.contains(x));
                let q2 = choose|q2: int|
                    0 <= q2 < out_pre[j as int].cells@.len() && out_pre[j as int].cells@[q2] == x;
            }
        }
        if out_pre.len() > base.len() {
            assert(out@[base.len() as int] == out_pre[base.len() as int]);
        } else {
            assert(out@[base.len() as int] == dg);
        }
    }
    (true, false)
}

/// Drives the subset-difference rule to a fixed point: for every ordered
/// pair whose first cell list lies inside the second, the difference
/// constraint is appended unless already present, until nothing new
/// arises or a cap is hit. The result keeps the input as a prefix, every
/// appended constraint is entailed, and an uncapped run is closed.
#[verifier::rlimit(100)]
pub fn reduce_constraints(cs: Vec<Constraint>) -> (r: (Vec<Constraint>, bool))
    requires
        forall|k: int| 0 <= k < cs@.len() ==> (#[trigger] cs@[k]).wf(),
    ensures
        r.0@.len() >= cs@.len(),
        forall|k: int| 0 <= k < cs@.len() ==> r.0@[k] == cs@[k],
        forall|k: int| 0 <= k < r.0@.len() ==> (#[trigger] r.0@[k]).wf(),
        forall|m: Set<int>| all_sat(m, cs@) ==> #[trigger] all_sat(m, r.0@),
        !r.1 ==> closed_under_diff(r.0@),
        forall|k: int, q: int|
            0 <= k < r.0@.len() && 0 <= q < r.0@[k].cells@.len() ==> cell_from_base(
                cs@,
                (#[trigger] r.0@[k].cells@[q]),
            ),
        r.0@.len() > cs@.len() ==> exists|i: int, j: int|
            0 <= i < cs@.len() && 0 <= j < cs@.len() && i != j && #[trigger] derived_via(
                r.0@[cs@.len() as int],
                cs@[i],
                cs@[j],
            ) && !present(
                cs@,
                r.0@[cs@.len() as int].cells@,
                r.0@[cs@.len() as int].mines as nat,
            ),
        closed_under_diff(cs@) ==> !r.1 && r.0@ == cs@,
{
    let ghost base = cs@;
    let ghost base_closed = closed_under_diff(cs@);
    let mut out = cs;
    let mut round: usize = 0;
    let mut changed = true;
    let mut overflow = false;
    proof {
        reveal(reducer_inv);
        assert(reducer_inv(base, out@));
    }
    while round < REDUCE_ROUND_CAP && changed && !overflow
        invariant
            reducer_inv(base, out@),
            !changed && !overflow ==> closed_under_diff(out@),
            base_closed ==> out@.len() == base.len() && !overflow && (round == 0 || !changed),
            base_closed == closed_under_diff(base),
        decreases REDUCE_ROUND_CAP - round,
    {
        changed = false;
        let n0 = out.len();
        let mut i: usize = 0;
        while i < n0 && !overflow
            invariant
                0 <= i <= n0,
                n0 <= out@.len(),
                reducer_inv(base, out@),
                !changed ==> out@.len() == n0,
                !changed && !overflow ==> pairs_ok_before(out@, i as int, 0),
                base_closed ==> out@.len() == base.len() && !overflow && !changed,
                base_closed == closed_under_diff(base),
            decreases n0 - i,
        {
            let mut j: usize = 0;
            while j < n0 && !overflow
                invariant
                    0 <= j <= n0,
                    0 <= i < n0,
                    n0 <= out@.len(),
                    reducer_inv(base, out@),
                    !changed ==> out@.len() == n0,
                    !changed && !overflow ==> pairs_ok_before(out@, i as int, j as int),
                    base_closed ==> out@.len() == base.len() && !overflow && !changed,
                    base_closed == closed_under_diff(base),
                decreases n0 - j,
            {
                let ghost out_pre = out@;
                let mut pushed = false;
                if i != j {
                    let pr = process_pair(&mut out, Ghost(base), i, j);
                    pushed = pr.0;
                    if pr.1 {
                        overflow = true;
                    }
                    proof {
                        if base_closed && (pr.0 || pr.1) {
                            reveal(reducer_inv);
                            assert(out_pre =~= base);
                            assert(present(
                                base,
                                seq_diff(base[j as int].cells@, base[i as int].cells@),
                                sat_sub(base[j as int].mines as nat, base[i as int].mines as nat),
                            ));
                            assert(false);
                        }
                    }
                }
                if pushed {
                    changed = true;
                }
                j += 1;
                proof {
                    if !changed && !overflow {
                        assert(out@ == out_pre);
                        if i != j - 1 {
                            lemma_pairs_ok_step(out@, i as int, j as int - 1);
                        } else {
                            assert(pair_resolved(out@, i as int, j as int - 1));
                            lemma_pairs_ok_step(out@, i as int, j as int - 1);
                        }
                    }
                }
            }
            i += 1;
            proof {
                if !changed && !overflow {
                    lemma_pairs_ok_row(out@, i as int - 1, n0 as int);
                }
            }
        }
        round += 1;
        proof {
            if !changed && !overflow {
                lemma_pairs_ok_closed(out@, n0 as int);
            }
        }
    }
    proof {
        reveal(reducer_inv);
        if base_closed {
            assert(out@ =~= base);
        }
    }
    let capped = changed || overflow;
    (out, capped)
}

/// Re-running the reducer on an unchanged, uncapped constraint set adds
/// nothing: the closure is a fixed point, so the safe/mine partition read
/// off the result is identical.
pub proof fn lemma_reducer_idempotent(once: Seq<Constraint>, twice: Seq<Constraint>)
    requires
        closed_under_diff(once),
        twice.len() >= once.len(),
        forall|k: int| 0 <= k < once.len() ==> twice[k] == once[k],
        twice.len() > once.len() ==> exists|i: int, j: int|
            0 <= i < once.len() && 0 <= j < once.len() && i != j && #[trigger] derived_via(
                twice[once.len() as int],
                once[i],
                once[j],
            ) && !present(once, twice[once.len() as int].cells@, twice[once.len() as int].mines as nat),
    ensures
        twice == once,
{
    if twice.len() > once.len() {
        let (i, j) = choose|i: int, j: int|
            0 <= i < once.len() && 0 <= j < once.len() && i != j && #[trigger] derived_via(
                twice[once.len() as int],
                once[i],
                once[j],
            ) && !present(once, twice[once.len() as int].cells@, twice[once.len() as int].mines as nat);
        assert(present(
            once,
            seq_diff(once[j].cells@, once[i].cells@),
            sat_sub(once[j].mines as nat, once[i].mines as nat),
        ));
        assert(false);
    }
    assert(twice =~= once);
}

/// Is some cell marked safe by the zero rule?
pub open spec fn zero_marked(cs: Seq<Constraint>, x: usize) -> bool {
    exists|k: int| 0 <= k < cs.len() && (#[trigger] cs[k]).mines == 0 && cs[k].cells@.contains(x)
}

/// Is some cell marked as a mine by the full rule?
pub open spec fn full_marked(cs: Seq<Constraint>, x: usize) -> bool {
    exists|k: int|
        0 <= k < cs.len() && (#[trigger] cs[k]).mines == cs[k].cells@.len()
            && cs[k].cells@.len() > 0 && cs[k].cells@.contains(x)
}

fn insert_sorted(v: &mut Vec<usize>, x: usize)
    requires
        strictly_sorted(old(v)@),
    ensures
        strictly_sorted(final(v)@),
        forall|y: usize|
            #[trigger] final(v)@.contains(y) <==> (old(v)@.contains(y) || y == x),
{
    let ghost v0 = v@;
    let mut pos: usize = 0;
    while pos < v.len() && v[pos] < x
        invariant
            0 <= pos <= v@.len(),
            v@ == v0,
            strictly_sorted(v@),
            forall|q: int| 0 <= q < pos ==> v@[q] < x,
        decreases v@.len() - pos,
    {
        pos += 1;
    }
    if pos < v.len() && v[pos] == x {
        proof {
            assert(v@.contains(v@[pos as int]));
            assert forall|y: usize| #[trigger] v@.contains(y) <==> (v0.contains(y) || y == x) by {}
        }
        return ;
    }
    v.insert(pos, x);
    proof {
        assert(v@ == v0.insert(pos as int, x));
        v0.insert_ensures(pos as int, x);
        assert(strictly_sorted(v@)) by {
            assert forall|s: int, t: int| 0 <= s < t < v@.len() implies v@[s] < v@[t] by {
                if s < pos as int {
                    assert(v@[s] == v0[s]);
                } else if s == pos as int {
                    assert(v@[s] == x);
                } else {
                    assert(v@[s] == v0[s - 1]);
                }
                if t < pos as int {
                    assert(v@[t] == v0[t]);
                } else if t == pos as int {
                    assert(v@[t] == x);
                } else {
                    assert(v@[t] == v0[t - 1]);
                }
                if (pos as int) < v0.len() {
                    assert(v0[pos as int] != x);
                    assert(v0[pos as int] >= x);
                }
            }
        }
        assert forall|y: usize|
            #[trigger] v@.contains(y) <==> (v0.contains(y) || y == x) by {
            if v@.contains(y) {
                let q = choose|q: int| 0 <= q < v@.len() && v@[q] == y;
                if q < pos as int {
                    assert(v0[q] == y);
                } else if q > pos as int {
                    assert(v0[q - 1] == y);
                }
            }
            if v0.contains(y) {
                let q = choose|q: int| 0 <= q < v0.len() && v0[q] == y;
                if q < pos as int {
                    assert(v@[q] == y);
                } else {
                    assert(v@[q + 1] == y);
                }
            }
            if y == x {
                assert(v@[pos as int] == y);
            }
        }
    }
}

/// Reads the safe / mine partition off a constraint set: the zero rule
/// marks cells safe, the full rule marks cells as mines, and the safe
/// side wins any overlap so the partition is always disjoint.
pub fn apply_zero_full_rules(cs: &Vec<Constraint>) -> (r: (Vec<usize>, Vec<usize>))
    ensures
        strictly_sorted(r.0@),
        strictly_sorted(r.1@),
        forall|x: usize| #[trigger] r.0@.contains(x) <==> zero_marked(cs@, x),
        forall|x: usize|
            #[trigger] r.1@.contains(x) <==> (full_marked(cs@, x) && !zero_marked(cs@, x)),
{
    let mut safe: Vec<usize> = Vec::new();
    let mut full: Vec<usize> = Vec::new();
    let mut k: usize = 0;
    while k < cs.len()
        invariant
            0 <= k <= cs@.len(),
            strictly_sorted(safe@),
            strictly_sorted(full@),
            forall|x: usize| #[trigger] safe@.contains(x) <==> zero_marked(cs@.take(k as int), x),
            forall|x: usize| #[trigger] full@.contains(x) <==> full_marked(cs@.take(k as int), x),
        decreases cs@.len() - k,
    {
        let ghost pre = cs@.take(k as int);
        let ghost post = cs@.take(k as int + 1);
        proof {
            assert(post.drop_last() =~= pre);
            assert(post.last() == cs@[k as int]);
        }
        let is_zero = cs[k].mines == 0;
        let is_full = cs[k].cells.len() > 0 && cs[k].mines == cs[k].cells.len();
        if is_zero || is_full {
            let m = cs[k].cells.len();
            let mut t: usize = 0;
            while t < m
                invariant
                    0 <= t <= m,
                    0 <= k < cs@.len(),
                    m == cs@[k as int].cells@.len(),
                    is_zero == (cs@[k as int].mines == 0),
                    is_full == (cs@[k as int].cells@.len() > 0 && cs@[k as int].mines == cs@[
                        k as int
                    ].cells@.len()),
                    is_zero || is_full,
                    strictly_sorted(safe@),
                    strictly_sorted(full@),
                    forall|x: usize|
                        #[trigger] safe@.contains(x) <==> (zero_marked(cs@.take(k as int), x) || (
                        is_zero && cs@[k as int].cells@.take(t as int).contains(x))),
                    forall|x: usize|
                        #[trigger] full@.contains(x) <==> (full_marked(cs@.take(k as int), x) || (
                        is_full && cs@[k as int].cells@.take(t as int).contains(x))),
                decreases m - t,
            {
                let x = cs[k].cells[t];
                proof {
                    assert(cs@[k as int].cells@.take(t as int + 1).drop_last() =~= cs@[
                        k as int
                    ].cells@.take(t as int));
                    assert(cs@[k as int].cells@.take(t as int + 1).last() == cs@[
                        k as int
                    ].cells@[t as int]);
                }
                if is_zero {
                    insert_sorted(&mut safe, x);
                }
                if is_full {
                    insert_sorted(&mut full, x);
                }
                proof {
                    let cur = cs@[k as int].cells@;
                    assert forall|y: usize|
                        #[trigger] cur.take(t as int + 1).contains(y) <==> (cur.take(
                        t as int,
                    ).contains(y) || y == cur[t as int]) by {
                        if cur.take(t as int + 1).contains(y) {
                            let taken = cur.take(t as int + 1);
                            let q = choose|q: int| 0 <= q < taken.len() && taken[q] == y;
                            if q < t as int {
                                assert(cur.take(t as int)[q] == y);
                            }
                        }
                        if cur.take(t as int).contains(y) {
                            let q = choose|q: int| 0 <= q < t && cur.take(t as int)[q] == y;
                            assert(cur.take(t as int + 1)[q] == y);
                        }
                        if y == cur[t as int] {
                            assert(cur.take(t as int + 1)[t as int] == y);
                        }
                    }
                }
                t += 1;
            }
            proof {
                assert(cs@[k as int].cells@.take(m as int) =~= cs@[k as int].cells@);
            }
        }
        proof {
            assert forall|x: usize|
                zero_marked(post, x) <==> (zero_marked(pre, x) || (is_zero && cs@[
                k as int
            ].cells@.contains(x))) by {
                if zero_marked(post, x) {
                    let q = choose|q: int|
                        0 <= q < post.len() && (#[trigger] post[q]).mines == 0
                            && post[q].cells@.contains(x);
                    if q < k as int {
                        assert(pre[q] == post[q]);
                    }
                }
                if zero_marked(pre, x) {
                    let q = choose|q: int|
                        0 <= q < pre.len() && (#[trigger] pre[q]).mines == 0
                            && pre[q].cells@.contains(x);
                    assert(post[q] == pre[q]);
                }
                if is_zero && cs@[k as int].cells@.contains(x) {
                    assert(post[k as int].mines == 0 && post[k as int].cells@.contains(x));
                }
            }
            assert forall|x: usize|
                full_marked(post, x) <==> (full_marked(pre, x) || (is_full && cs@[
                k as int
            ].cells@.contains(x))) by {
                if full_marked(post, x) {
                    let q = choose|q: int|
                        0 <= q < post.len() && (#[trigger] post[q]).mines == post[q].cells@.len()
                            && post[q].cells@.len() > 0 && post[q].cells@.contains(x);
                    if q < k as int {
                        assert(pre[q] == post[q]);
                    }
                }
                if full_marked(pre, x) {
                    let q = choose|q: int|
                        0 <= q < pre.len() && (#[trigger] pre[q]).mines == pre[q].cells@.len()
                            && pre[q].cells@.len() > 0 && pre[q].cells@.contains(x);
                    assert(post[q] == pre[q]);
                }
                if is_full && cs@[k as int].cells@.contains(x) {
                    assert(post[k as int].mines == post[k as int].cells@.len() && post[
                        k as int
                    ].cells@.len() > 0 && post[k as int].cells@.contains(x));
                }
            }
        }
        k += 1;
    }
    proof {
        assert(cs@.take(cs@.len() as int) =~= cs@);
    }
    let mines = cells_diff(&full, &safe);
    proof {
        lemma_seq_diff(full@, safe@);
    }
    (safe, mines)
}

/// Soundness of the safe marks: under any mine set consistent with the
/// constraints, no zero-rule-marked cell holds a mine.
pub proof fn lemma_zero_marked_safe(m: Set<int>, cs: Seq<Constraint>, x: usize)
    requires
        all_sat(m, cs),
        zero_marked(cs, x),
    ensures
        !m.contains(x as int),
{
    let k = choose|k: int|
        0 <= k < cs.len() && (#[trigger] cs[k]).mines == 0 && cs[k].cells@.contains(x);
    lemma_zero_rule_safe(m, cs[k], x);
}

/// Soundness of the mine marks: under any mine set consistent with the
/// constraints, every full-rule-marked cell holds a mine.
pub proof fn lemma_full_marked_mine(m: Set<int>, cs: Seq<Constraint>, x: usize)
    requires
        all_sat(m, cs),
        full_marked(cs, x),
        forall|k: int| 0 <= k < cs.len() ==> (#[trigger] cs[k]).wf(),
    ensures
        m.contains(x as int),
{
    let k = choose|k: int|
        0 <= k < cs.len() && (#[trigger] cs[k]).mines == cs[k].cells@.len()
            && cs[k].cells@.len() > 0 && cs[k].cells@.contains(x);
    lemma_full_rule_mine(m, cs[k], x);
}

} // verus!
