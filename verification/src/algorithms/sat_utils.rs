//! The CNF/SAT core: clauses over signed cell literals, clause-set
//! simplification under a literal choice, and a DPLL backtracking search
//! whose contract states exactly when a clause set is satisfiable.
//!
//! A mine hypothesis for cell `i` is the literal `i + 1`; a safe hypothesis
//! is `-(i + 1)`. An assignment is modeled as the set of cell indices that
//! hold a mine.
use vstd::prelude::*;
use itertools::Itertools;
use crate::board::Board;
use crate::constraints::Constraint;
use crate::constraints::board_consistent;
use crate::constraints::build_clue_constraint;
use crate::constraints::clue_hidden_cells;
use crate::constraints::clue_remaining;
use crate::constraints::collect_constraints;
use crate::constraints::is_clue;
use crate::constraints::lemma_cell_set_facts;
use crate::constraints::lemma_sorted_no_dup;
use crate::estimator::hidden_unflagged;
use crate::estimator::rank_lowest_risk;

verus! {

/// A CNF clause of signed literals: a literal's magnitude minus one is a
/// cell index; a positive sign hypothesizes a mine, a negative sign safety.
#[derive(Clone, Debug, PartialEq, Eq, Hash)]
pub struct Clause(pub Vec<isize>);

impl View for Clause {
    type V = Seq<int>;

    open spec fn view(&self) -> Seq<int> {
        self.0@.map_values(|l: isize| l as int)
    }
}

/// The mathematical view of a clause list.
pub open spec fn cnf_view(cs: Seq<Clause>) -> Seq<Seq<int>> {
    cs.map_values(|c: Clause| c@)
}

/// Does the literal `l` hold under the mine set `m`?
pub open spec fn lit_sat(m: Set<int>, l: int) -> bool {
    if l > 0 {
        m.contains(l - 1)
    } else {
        !m.contains(-l - 1)
    }
}

/// Does some literal of the clause hold under `m`?
pub open spec fn clause_sat(m: Set<int>, c: Seq<int>) -> bool {
    exists|i: int| 0 <= i < c.len() && lit_sat(m, c[i])
}

/// Does every clause hold under `m`?
pub open spec fn cnf_sat(m: Set<int>, cs: Seq<Seq<int>>) -> bool {
    forall|i: int| 0 <= i < cs.len() ==> clause_sat(m, #[trigger] cs[i])
}

/// Is some mine set consistent with every clause?
pub open spec fn satisfiable(cs: Seq<Seq<int>>) -> bool {
    exists|m: Set<int>| cnf_sat(m, cs)
}

/// Every literal of the clause encodes a cell: nonzero, and not the one
/// value whose negation overflows.
pub open spec fn lits_wf(c: Seq<int>) -> bool {
    forall|i: int| 0 <= i < c.len() ==> #[trigger] c[i] != 0 && c[i] != isize::MIN as int
}

pub open spec fn cnf_wf(cs: Seq<Seq<int>>) -> bool {
    forall|i: int| 0 <= i < cs.len() ==> lits_wf(#[trigger] cs[i])
}

/// The clause with every occurrence of `l` removed, order kept.
pub open spec fn remove_lit(c: Seq<int>, l: int) -> Seq<int>
    decreases c.len(),
{
    if c.len() == 0 {
        Seq::empty()
    } else if c.last() == l {
        remove_lit(c.drop_last(), l)
    } else {
        remove_lit(c.drop_last(), l).push(c.last())
    }
}

/// The clause set after deciding `l`: clauses containing `l` are satisfied
/// and dropped, and the refuted literal `-l` is removed from the rest.
pub open spec fn simplify_spec(cs: Seq<Seq<int>>, l: int) -> Seq<Seq<int>>
    decreases cs.len(),
{
    if cs.len() == 0 {
        Seq::empty()
    } else {
        let rest = simplify_spec(cs.drop_last(), l);
        if cs.last().contains(l) {
            rest
        } else {
            rest.push(remove_lit(cs.last(), -l))
        }
    }
}

/// The total literal count plus clause count: the measure that every
/// simplification strictly shrinks.
pub open spec fn cnf_size(cs: Seq<Seq<int>>) -> nat
    decreases cs.len(),
{
    if cs.len() == 0 {
        0
    } else {
        cnf_size(cs.drop_last()) + cs.last().len() + 1
    }
}

/// The mine set after deciding literal `l`: the cell is added for a mine
/// hypothesis and removed for a safe one.
pub open spec fn set_lit(m: Set<int>, l: int) -> Set<int> {
    if l > 0 {
        m.insert(l - 1)
    } else {
        m.remove(-l - 1)
    }
}

proof fn lemma_contains_split<A>(c: Seq<A>, x: A)
    requires
        c.len() > 0,
    ensures
        c.contains(x) <==> (c.drop_last().contains(x) || c.last() == x),
{
    if c.contains(x) {
        let i = choose|i: int| 0 <= i < c.len() && c[i] == x;
        if i < c.len() - 1 {
            assert(c.drop_last()[i] == x);
        }
    }
    if c.drop_last().contains(x) {
        let i = choose|i: int| 0 <= i < c.drop_last().len() && c.drop_last()[i] == x;
        assert(c[i] == x);
    }
}

proof fn lemma_remove_lit(c: Seq<int>, l: int)
    ensures
        remove_lit(c, l).len() <= c.len(),
        c.contains(l) ==> remove_lit(c, l).len() < c.len(),
        forall|x: int|
            #![trigger remove_lit(c, l).contains(x)]
            #![trigger c.contains(x)]
            remove_lit(c, l).contains(x) <==> (c.contains(x) && x != l),
    decreases c.len(),
{
    if c.len() == 0 {
        assert forall|x: int| !c.contains(x) by {}
        assert forall|x: int| !remove_lit(c, l).contains(x) by {}
    } else {
        lemma_remove_lit(c.drop_last(), l);
        lemma_contains_split(c, l);
        assert forall|x: int|
            #![trigger remove_lit(c, l).contains(x)]
            #![trigger c.contains(x)]
            remove_lit(c, l).contains(x) <==> (c.contains(x) && x != l) by {
            lemma_contains_split(c, x);
            if c.last() != l {
                lemma_contains_split(remove_lit(c.drop_last(), l).push(c.last()), x);
                assert(remove_lit(c.drop_last(), l).push(c.last()).drop_last()
                    =~= remove_lit(c.drop_last(), l));
            }
        }
    }
}

proof fn lemma_simplify_size(cs: Seq<Seq<int>>, l: int)
    ensures
        cnf_size(simplify_spec(cs, l)) <= cnf_size(cs),
    decreases cs.len(),
{
    if cs.len() == 0 {
    } else {
        let cs0 = cs.drop_last();
        lemma_simplify_size(cs0, l);
        lemma_remove_lit(cs.last(), -l);
        if !cs.last().contains(l) {
            let rest = simplify_spec(cs0, l);
            let r = remove_lit(cs.last(), -l);
            assert(rest.push(r).drop_last() =~= rest);
            assert(rest.push(r).last() == r);
            assert(cnf_size(rest.push(r)) == cnf_size(rest) + r.len() + 1);
        }
    }
}

proof fn lemma_simplify_size_strict(cs: Seq<Seq<int>>, l: int, i: int)
    requires
        0 <= i < cs.len(),
        cs[i].contains(l) || cs[i].contains(-l),
    ensures
        cnf_size(simplify_spec(cs, l)) < cnf_size(cs),
    decreases cs.len(),
{
    let cs0 = cs.drop_last();
    lemma_simplify_size(cs0, l);
    lemma_remove_lit(cs.last(), -l);
    if !cs.last().contains(l) {
        let rest = simplify_spec(cs0, l);
        let r = remove_lit(cs.last(), -l);
        assert(rest.push(r).drop_last() =~= rest);
        assert(rest.push(r).last() == r);
        assert(cnf_size(rest.push(r)) == cnf_size(rest) + r.len() + 1);
    }
    if i < cs.len() - 1 {
        assert(cs0[i] == cs[i]);
        lemma_simplify_size_strict(cs0, l, i);
    } else {
        if !cs.last().contains(l) {
            assert(cs.last().contains(-l));
        }
    }
}

proof fn lemma_simplify_wf(cs: Seq<Seq<int>>, l: int)
    requires
        cnf_wf(cs),
    ensures
        cnf_wf(simplify_spec(cs, l)),
    decreases cs.len(),
{
    if cs.len() == 0 {
    } else {
        let cs0 = cs.drop_last();
        assert(cnf_wf(cs0)) by {
            assert forall|i: int| 0 <= i < cs0.len() implies lits_wf(#[trigger] cs0[i]) by {
                assert(cs0[i] == cs[i]);
            }
        }
        lemma_simplify_wf(cs0, l);
        if !cs.last().contains(l) {
            let r = remove_lit(cs.last(), -l);
            lemma_remove_lit(cs.last(), -l);
            assert(lits_wf(cs.last()));
            assert(lits_wf(r)) by {
                assert forall|i: int| 0 <= i < r.len() implies #[trigger] r[i] != 0
                    && r[i] != isize::MIN as int by {
                    assert(r.contains(r[i]));
                    assert(cs.last().contains(r[i]));
                    let j = choose|j: int| 0 <= j < cs.last().len() && cs.last()[j] == r[i];
                    assert(cs.last()[j] != 0);
                }
            }
            let s = simplify_spec(cs, l);
            assert forall|i: int| 0 <= i < s.len() implies lits_wf(#[trigger] s[i]) by {
                if i < s.len() - 1 {
                    assert(s[i] == simplify_spec(cs0, l)[i]);
                } else {
                    assert(s[i] == r);
                }
            }
        }
    }
}

proof fn lemma_lit_neg(m: Set<int>, l: int)
    requires
        l != 0,
    ensures
        lit_sat(m, -l) == !lit_sat(m, l),
{
}

proof fn lemma_lit_frame(m: Set<int>, l: int, x: int)
    requires
        l != 0,
        x != 0,
        x != l,
        x != -l,
    ensures
        lit_sat(set_lit(m, l), x) == lit_sat(m, x),
{
}

/// Deciding a literal that holds under `m` keeps `m` a model of the
/// simplified clause set.
proof fn lemma_sat_simplify(m: Set<int>, cs: Seq<Seq<int>>, l: int)
    requires
        cnf_sat(m, cs),
        lit_sat(m, l),
        l != 0,
    ensures
        cnf_sat(m, simplify_spec(cs, l)),
    decreases cs.len(),
{
    if cs.len() == 0 {
    } else {
        let cs0 = cs.drop_last();
        assert(cnf_sat(m, cs0)) by {
            assert forall|i: int| 0 <= i < cs0.len() implies clause_sat(m, #[trigger] cs0[i]) by {
                assert(cs0[i] == cs[i]);
            }
        }
        lemma_sat_simplify(m, cs0, l);
        let s = simplify_spec(cs, l);
        if cs.last().contains(l) {
        } else {
            let last = cs.last();
            assert(clause_sat(m, last)) by {
                assert(cs[cs.len() - 1] == last);
            }
            let i = choose|i: int| 0 <= i < last.len() && lit_sat(m, last[i]);
            let x = last[i];
            lemma_lit_neg(m, l);
            assert(x != -l);
            lemma_remove_lit(last, -l);
            assert(last.contains(x));
            assert(remove_lit(last, -l).contains(x));
            let rl = remove_lit(last, -l);
            let j = choose|j: int| 0 <= j < rl.len() && rl[j] == x;
            assert(clause_sat(m, rl));
            assert forall|k: int| 0 <= k < s.len() implies clause_sat(m, #[trigger] s[k]) by {
                if k < s.len() - 1 {
                    assert(s[k] == simplify_spec(cs0, l)[k]);
                } else {
                    assert(s[k] == remove_lit(last, -l));
                }
            }
        }
    }
}

/// A model of the simplified clause set extends, by deciding `l`, to a
/// model of the original clause set.
proof fn lemma_sat_extend(m: Set<int>, cs: Seq<Seq<int>>, l: int)
    requires
        cnf_sat(m, simplify_spec(cs, l)),
        cnf_wf(cs),
        l != 0,
    ensures
        cnf_sat(set_lit(m, l), cs),
    decreases cs.len(),
{
    if cs.len() == 0 {
    } else {
        let cs0 = cs.drop_last();
        let s0 = simplify_spec(cs0, l);
        let s = simplify_spec(cs, l);
        assert(cnf_wf(cs0)) by {
            assert forall|i: int| 0 <= i < cs0.len() implies lits_wf(#[trigger] cs0[i]) by {
                assert(cs0[i] == cs[i]);
            }
        }
        assert(cnf_sat(m, s0)) by {
            assert forall|i: int| 0 <= i < s0.len() implies clause_sat(m, #[trigger] s0[i]) by {
                assert(s0[i] == s[i]);
            }
        }
        lemma_sat_extend(m, cs0, l);
        let m2 = set_lit(m, l);
        let last = cs.last();
        assert(lits_wf(last)) by {
            assert(cs[cs.len() - 1] == last);
        }
        if last.contains(l) {
            let i = choose|i: int| 0 <= i < last.len() && last[i] == l;
            assert(lit_sat(m2, l));
            assert(clause_sat(m2, last));
        } else {
            let r = remove_lit(last, -l);
            assert(clause_sat(m, r)) by {
                assert(s[s.len() - 1] == r);
            }
            let i = choose|i: int| 0 <= i < r.len() && lit_sat(m, r[i]);
            let x = r[i];
            lemma_remove_lit(last, -l);
            assert(r.contains(x));
            assert(last.contains(x) && x != -l);
            assert(x != l);
            let j = choose|j: int| 0 <= j < last.len() && last[j] == x;
            assert(x != 0);
            lemma_lit_frame(m, l, x);
            assert(lit_sat(m2, x));
            assert(clause_sat(m2, last));
        }
        assert forall|k: int| 0 <= k < cs.len() implies clause_sat(m2, #[trigger] cs[k]) by {
            if k < cs.len() - 1 {
                assert(cs[k] == cs0[k]);
            }
        }
    }
}

fn clause_contains(c: &Clause, l: isize) -> (b: bool)
    ensures
        b == c@.contains(l as int),
{
    let mut j: usize = 0;
    while j < c.0.len()
        invariant
            0 <= j <= c.0@.len(),
            forall|t: int| 0 <= t < j ==> c@[t] != l as int,
        decreases c.0@.len() - j,
    {
        if c.0[j] == l {
            assert(c@[j as int] == l as int);
            return true;
        }
        j += 1;
    }
    false
}

fn clause_remove(c: &Clause, l: isize) -> (r: Clause)
    ensures
        r@ == remove_lit(c@, l as int),
{
    let mut out: Vec<isize> = Vec::new();
    let mut j: usize = 0;
    while j < c.0.len()
        invariant
            0 <= j <= c.0@.len(),
            out@.map_values(|t: isize| t as int) == remove_lit(c@.take(j as int), l as int),
        decreases c.0@.len() - j,
    {
        let ghost pre = c@.take(j as int);
        let ghost post = c@.take(j as int + 1);
        proof {
            assert(post.drop_last() =~= pre);
            assert(post.last() == c@[j as int]);
        }
        if c.0[j] != l {
            out.push(c.0[j]);
            proof {
                assert(out@.map_values(|t: isize| t as int)
                    =~= remove_lit(pre, l as int).push(c@[j as int]));
            }
        }
        j += 1;
    }
    proof {
        assert(c@.take(c.0@.len() as int) =~= c@);
    }
    Clause(out)
}

/// Simplifies the clause set after deciding `literal`: clauses satisfied by
/// it are removed, and its negation is struck from the remaining clauses.
pub fn simplify(clauses: Vec<Clause>, literal: isize) -> (r: Vec<Clause>)
    requires
        literal != isize::MIN,
    ensures
        cnf_view(r@) == simplify_spec(cnf_view(clauses@), literal as int),
{
    let mut out: Vec<Clause> = Vec::new();
    let mut i: usize = 0;
    while i < clauses.len()
        invariant
            0 <= i <= clauses@.len(),
            literal != isize::MIN,
            cnf_view(out@) == simplify_spec(cnf_view(clauses@.take(i as int)), literal as int),
        decreases clauses@.len() - i,
    {
        let ghost pre = cnf_view(clauses@.take(i as int));
        let ghost post = cnf_view(clauses@.take(i as int + 1));
        proof {
            assert(post.drop_last() =~= pre);
            assert(post.last() == clauses@[i as int]@);
        }
        let c = &clauses[i];
        if !clause_contains(c, literal) {
            let filtered = clause_remove(c, -literal);
            out.push(filtered);
            proof {
                assert(cnf_view(out@)
                    =~= simplify_spec(pre, literal as int).push(
                        remove_lit(c@, -literal as int)));
                assert((-literal) as int == -(literal as int));
            }
        }
        i += 1;
    }
    proof {
        assert(clauses@.take(clauses@.len() as int) =~= clauses@);
    }
    out
}

fn clone_clause(c: &Clause) -> (r: Clause)
    ensures
        r@ == c@,
{
    let mut out: Vec<isize> = Vec::new();
    let mut j: usize = 0;
    while j < c.0.len()
        invariant
            0 <= j <= c.0@.len(),
            out@ == c.0@.take(j as int),
        decreases c.0@.len() - j,
    {
        out.push(c.0[j]);
        proof {
            assert(out@ =~= c.0@.take(j as int + 1));
        }
        j += 1;
    }
    proof {
        assert(c.0@.take(c.0@.len() as int) =~= c.0@);
    }
    Clause(out)
}

fn clone_clauses(cs: &Vec<Clause>) -> (r: Vec<Clause>)
    ensures
        cnf_view(r@) == cnf_view(cs@),
{
    let mut out: Vec<Clause> = Vec::new();
    let mut i: usize = 0;
    while i < cs.len()
        invariant
            0 <= i <= cs@.len(),
            out@.len() == i,
            forall|t: int| 0 <= t < i ==> #[trigger] out@[t]@ == cs@[t]@,
        decreases cs@.len() - i,
    {
        let c = clone_clause(&cs[i]);
        out.push(c);
        i += 1;
    }
    proof {
        assert(cnf_view(out@) =~= cnf_view(cs@));
    }
    out
}

fn clone_lits(v: &Vec<isize>) -> (r: Vec<isize>)
    ensures
        r@ == v@,
{
    let mut out: Vec<isize> = Vec::new();
    let mut j: usize = 0;
    while j < v.len()
        invariant
            0 <= j <= v@.len(),
            out@ == v@.take(j as int),
        decreases v@.len() - j,
    {
        out.push(v[j]);
        proof {
            assert(out@ =~= v@.take(j as int + 1));
        }
        j += 1;
    }
    proof {
        assert(v@.take(v@.len() as int) =~= v@);
    }
    out
}

/// Decides satisfiability of the clause set by backtracking search: unit
/// propagation first, then branching on a literal, mine hypothesis before
/// safe hypothesis. The result is exactly whether a consistent mine set
/// exists; `assignments` accumulates the decisions made along the branch.
pub fn dpll(clauses: Vec<Clause>, assignments: Vec<isize>) -> (r: bool)
    requires
        cnf_wf(cnf_view(clauses@)),
    ensures
        r == satisfiable(cnf_view(clauses@)),
    decreases cnf_size(cnf_view(clauses@)),
{
    let ghost cs = cnf_view(clauses@);
    let mut assignments = assignments;
    // an empty clause set is satisfied by the empty mine set
    if clauses.len() == 0 {
        proof {
            assert(cnf_sat(Set::<int>::empty(), cs));
        }
        return true;
    }
    // any empty clause is a contradiction
    let mut i: usize = 0;
    while i < clauses.len()
        invariant
            0 <= i <= clauses@.len(),
            cs == cnf_view(clauses@),
            forall|t: int| 0 <= t < i ==> #[trigger] cs[t].len() != 0,
        decreases clauses@.len() - i,
    {
        if clauses[i].0.len() == 0 {
            proof {
                assert forall|m: Set<int>| !cnf_sat(m, cs) by {
                    if cnf_sat(m, cs) {
                        assert(clause_sat(m, cs[i as int]));
                    }
                }
            }
            return false;
        }
        i += 1;
    }
    // a singleton clause forces its literal
    let mut unit: Option<isize> = None;
    let ghost mut unit_idx: int = 0;
    let mut i: usize = 0;
    while i < clauses.len()
        invariant
            0 <= i <= clauses@.len(),
            cs == cnf_view(clauses@),
            forall|t: int| 0 <= t < cs.len() ==> #[trigger] cs[t].len() != 0,
            match unit {
                Some(l) => 0 <= unit_idx < cs.len() && cs[unit_idx] =~= seq![l as int],
                None => true,
            },
        decreases clauses@.len() - i,
    {
        if clauses[i].0.len() == 1 {
            unit = Some(clauses[i].0[0]);
            proof {
                unit_idx = i as int;
                assert(cs[i as int] =~= seq![clauses@[i as int].0@[0] as int]);
            }
            break;
        }
        i += 1;
    }
    if let Some(l) = unit {
        proof {
            assert(lits_wf(cs[unit_idx]));
            assert(cs[unit_idx][0] == l as int);
            assert(l as int != 0 && l as int != isize::MIN as int);
            assert(cs[unit_idx].contains(l as int));
            lemma_simplify_size_strict(cs, l as int, unit_idx);
            lemma_simplify_wf(cs, l as int);
        }
        assignments.push(l);
        let simplified = simplify(clauses, l);
        let r = dpll(simplified, assignments);
        proof {
            let s = simplify_spec(cs, l as int);
            if r {
                let m = choose|m: Set<int>| cnf_sat(m, s);
                lemma_sat_extend(m, cs, l as int);
                assert(cnf_sat(set_lit(m, l as int), cs));
            } else {
                assert forall|m: Set<int>| !cnf_sat(m, cs) by {
                    if cnf_sat(m, cs) {
                        assert(clause_sat(m, cs[unit_idx]));
                        let w = choose|w: int|
                            0 <= w < cs[unit_idx].len() && lit_sat(m, cs[unit_idx][w]);
                        assert(lit_sat(m, l as int));
                        lemma_sat_simplify(m, cs, l as int);
                    }
                }
            }
        }
        return r;
    }
    // branch on a literal: try the mine hypothesis, then the safe one
    proof {
        assert(cs[0].len() != 0);
        assert(cs[0] == clauses@[0]@);
        assert(clauses@[0]@.len() == clauses@[0].0@.len());
    }
    let literal = clauses[0].0[0];
    proof {
        assert(lits_wf(cs[0]));
        assert(cs[0][0] == literal as int);
        assert(cs[0].contains(literal as int));
        lemma_simplify_size_strict(cs, literal as int, 0);
        lemma_simplify_wf(cs, literal as int);
        assert((-literal) as int == -(literal as int));
        assert(cs[0].contains(-(-literal as int)));
        lemma_simplify_size_strict(cs, -literal as int, 0);
        lemma_simplify_wf(cs, -literal as int);
    }
    let cloned = clone_clauses(&clauses);
    let mut with_lit = clone_lits(&assignments);
    with_lit.push(literal);
    let s1 = simplify(cloned, literal);
    if dpll(s1, with_lit) {
        proof {
            let s = simplify_spec(cs, literal as int);
            let m = choose|m: Set<int>| cnf_sat(m, s);
            lemma_sat_extend(m, cs, literal as int);
        }
        return true;
    }
    let mut without_lit = assignments;
    without_lit.push(-literal);
    let s2 = simplify(clauses, -literal);
    let r2 = dpll(s2, without_lit);
    proof {
        let sp = simplify_spec(cs, literal as int);
        let sn = simplify_spec(cs, -literal as int);
        if r2 {
            let m = choose|m: Set<int>| cnf_sat(m, sn);
            lemma_sat_extend(m, cs, -(literal as int));
        } else {
            assert forall|m: Set<int>| !cnf_sat(m, cs) by {
                if cnf_sat(m, cs) {
                    lemma_lit_neg(m, literal as int);
                    if lit_sat(m, literal as int) {
                        lemma_sat_simplify(m, cs, literal as int);
                    } else {
                        lemma_sat_simplify(m, cs, -(literal as int));
                    }
                }
            }
        }
    }
    r2
}

/// All `k`-element combinations of `s`, each in input order, ordered
/// lexicographically by positions.
pub open spec fn combos<A>(s: Seq<A>, k: nat) -> Seq<Seq<A>>
    decreases s.len(),
{
    if k == 0 {
        seq![Seq::<A>::empty()]
    } else if s.len() < k {
        Seq::empty()
    } else {
        combos(s.drop_first(), (k - 1) as nat).map_values(|c: Seq<A>| seq![s[0]] + c) + combos(
            s.drop_first(),
            k,
        )
    }
}

/// Relies on itertools' `Itertools::combinations`: it yields every
/// `k`-element combination of the input, elements in input order, ordered
/// lexicographically by positions; one empty combination for `k == 0`, and
/// none when `k` exceeds the input length.
#[verifier::external_body]
fn combinations_of(vars: &[usize], k: usize) -> (r: Vec<Vec<usize>>)
    ensures
        r@.map_values(|c: Vec<usize>| c@) == combos(vars@, k as nat),
{
    vars.iter().cloned().combinations(k).collect()
}

proof fn lemma_drop_first_no_dup<A>(s: Seq<A>)
    requires
        s.len() > 0,
        s.no_duplicates(),
    ensures
        s.drop_first().no_duplicates(),
        forall|x: A| s.drop_first().contains(x) ==> s.contains(x),
        forall|x: A| #[trigger] s.drop_first().contains(x) ==> x != s[0],
{
    let s1 = s.drop_first();
    assert forall|i: int, j: int|
        0 <= i < s1.len() && 0 <= j < s1.len() && i != j implies s1[i] != s1[j] by {
        assert(s1[i] == s[i + 1]);
        assert(s1[j] == s[j + 1]);
    }
    assert forall|x: A| s1.contains(x) implies s.contains(x) && x != s[0] by {
        let i = choose|i: int| 0 <= i < s1.len() && s1[i] == x;
        assert(s[i + 1] == x);
    }
}

/// Every combination has the requested length, has distinct elements when
/// the input does, and draws its elements from the input.
proof fn lemma_combos_props<A>(s: Seq<A>, k: nat)
    ensures
        forall|t: int| 0 <= t < combos(s, k).len() ==> (#[trigger] combos(s, k)[t]).len() == k,
        forall|t: int, x: A|
            0 <= t < combos(s, k).len() && #[trigger] combos(s, k)[t].contains(x) ==> s.contains(
                x,
            ),
        s.no_duplicates() ==> forall|t: int|
            0 <= t < combos(s, k).len() ==> (#[trigger] combos(s, k)[t]).no_duplicates(),
    decreases s.len(),
{
    if k == 0 {
        assert(combos(s, k)[0] =~= Seq::<A>::empty());
    } else if s.len() < k {
    } else {
        let s1 = s.drop_first();
        lemma_combos_props(s1, (k - 1) as nat);
        lemma_combos_props(s1, k);
        let pre = combos(s1, (k - 1) as nat).map_values(|c: Seq<A>| seq![s[0]] + c);
        let suf = combos(s1, k);
        if s.no_duplicates() {
            lemma_drop_first_no_dup(s);
        }
        assert forall|x: A| s1.contains(x) implies s.contains(x) by {
            let i = choose|i: int| 0 <= i < s1.len() && s1[i] == x;
            assert(s[i + 1] == x);
        }
        assert forall|t: int| 0 <= t < combos(s, k).len() implies {
            &&& (#[trigger] combos(s, k)[t]).len() == k
            &&& (forall|x: A| combos(s, k)[t].contains(x) ==> s.contains(x))
            &&& (s.no_duplicates() ==> combos(s, k)[t].no_duplicates())
        } by {
            if t < pre.len() {
                let c0 = combos(s1, (k - 1) as nat)[t];
                let c = seq![s[0]] + c0;
                assert(combos(s, k)[t] == pre[t]);
                assert(pre[t] == c);
                assert(c.len() == k);
                assert forall|x: A| c.contains(x) implies s.contains(x) by {
                    let i = choose|i: int| 0 <= i < c.len() && c[i] == x;
                    if i == 0 {
                        assert(s[0] == x);
                    } else {
                        assert(c0[i - 1] == x);
                        assert(c0.contains(x));
                    }
                }
                if s.no_duplicates() {
                    assert forall|i: int, j: int|
                        0 <= i < c.len() && 0 <= j < c.len() && i != j implies c[i] != c[j] by {
                        if i >= 1 && j >= 1 {
                            assert(c[i] == c0[i - 1]);
                            assert(c[j] == c0[j - 1]);
                        } else {
                            let w = if i == 0 { j } else { i };
                            assert(c[w] == c0[w - 1]);
                            assert(c0.contains(c0[w - 1]));
                            assert(s1.contains(c[w]));
                        }
                    }
                }
            } else {
                assert(combos(s, k)[t] == suf[t - pre.len()]);
            }
        }
    }
}

/// The clause "at least one of these cells is a mine".
pub open spec fn pos_clause(c: Seq<usize>) -> Seq<int> {
    c.map_values(|v: usize| v as int + 1)
}

/// The clause "at least one of these cells is safe".
pub open spec fn neg_clause(c: Seq<usize>) -> Seq<int> {
    c.map_values(|v: usize| -(v as int) - 1)
}

/// The CNF encoding of "exactly k of vars are mines": one all-positive
/// clause per (n-k+1)-subset and one all-negative clause per (k+1)-subset.
pub open spec fn exactly_k_clauses(vars: Seq<usize>, k: nat) -> Seq<Seq<int>> {
    combos(vars, (vars.len() + 1 - k) as nat).map_values(|c: Seq<usize>| pos_clause(c)) + combos(
        vars,
        k + 1,
    ).map_values(|c: Seq<usize>| neg_clause(c))
}

/// The set of cell indices a constraint ranges over, as mathematical ints.
pub open spec fn cell_set(cells: Seq<usize>) -> Set<int> {
    cells.map_values(|v: usize| v as int).to_set()
}

/// A mine set `m` satisfies a counting constraint when exactly `k` of its
/// cells lie in `m`.
pub open spec fn exact_count(m: Set<int>, cells: Seq<usize>, k: nat) -> bool {
    cell_set(cells).intersect(m).len() == k
}

proof fn lemma_cast_no_dup(c: Seq<usize>)
    requires
        c.no_duplicates(),
    ensures
        c.map_values(|v: usize| v as int).no_duplicates(),
        cell_set(c).finite(),
        cell_set(c).len() == c.len(),
        forall|x: int| #[trigger] cell_set(c).contains(x)
            ==> exists|j: int| 0 <= j < c.len() && c[j] as int == x,
        forall|j: int| 0 <= j < c.len() ==> cell_set(c).contains(#[trigger] c[j] as int),
{
    broadcast use vstd::seq_lib::seq_to_set_is_finite;

    let ints = c.map_values(|v: usize| v as int);
    assert forall|i: int, j: int|
        0 <= i < ints.len() && 0 <= j < ints.len() && i != j implies ints[i] != ints[j] by {
        assert(c[i] != c[j]);
    }
    ints.unique_seq_to_set();
    assert forall|x: int| #[trigger] cell_set(c).contains(x) implies exists|j: int|
        0 <= j < c.len() && c[j] as int == x by {
        assert(ints.contains(x));
        let j = choose|j: int| 0 <= j < ints.len() && ints[j] == x;
        assert(c[j] as int == x);
    }
    assert forall|j: int| 0 <= j < c.len() implies cell_set(c).contains(#[trigger] c[j] as int) by {
        assert(ints[j] == c[j] as int);
        assert(ints.contains(ints[j]));
    }
}

pub proof fn lemma_len_partition(a: Set<int>, m: Set<int>)
    requires
        a.finite(),
    ensures
        a.intersect(m).len() + a.difference(m).len() == a.len(),
        a.intersect(m).finite(),
        a.difference(m).finite(),
    decreases a.len(),
{
    assert(a.intersect(m).subset_of(a));
    assert(a.difference(m).subset_of(a));
    vstd::set_lib::lemma_len_subset(a.intersect(m), a);
    vstd::set_lib::lemma_len_subset(a.difference(m), a);
    if a.is_empty() {
        assert(a.intersect(m) =~= a);
        assert(a.difference(m) =~= a);
    } else {
        let x = a.choose();
        lemma_len_partition(a.remove(x), m);
        if m.contains(x) {
            assert(a.intersect(m).remove(x) =~= a.remove(x).intersect(m));
            assert(a.difference(m) =~= a.remove(x).difference(m));
            assert(a.intersect(m).contains(x));
            assert(a.intersect(m).len() == a.intersect(m).remove(x).len() + 1);
        } else {
            assert(a.intersect(m) =~= a.remove(x).intersect(m));
            assert(a.difference(m).remove(x) =~= a.remove(x).difference(m));
            assert(a.difference(m).contains(x));
            assert(a.difference(m).len() == a.difference(m).remove(x).len() + 1);
        }
    }
}

/// Any mine set with exactly `k` mines among `vars` satisfies the whole
/// exactly-k encoding: the pigeonhole argument for both clause families.
pub proof fn lemma_exactly_k_sound(m: Set<int>, vars: Seq<usize>, k: nat)
    requires
        vars.no_duplicates(),
        k <= vars.len(),
        exact_count(m, vars, k),
    ensures
        cnf_sat(m, exactly_k_clauses(vars, k)),
{
    let n = vars.len();
    let a = cell_set(vars);
    lemma_cast_no_dup(vars);
    lemma_len_partition(a, m);
    let pre = combos(vars, (n + 1 - k) as nat).map_values(|c: Seq<usize>| pos_clause(c));
    let suf = combos(vars, k + 1).map_values(|c: Seq<usize>| neg_clause(c));
    let ck = exactly_k_clauses(vars, k);
    lemma_combos_props(vars, (n + 1 - k) as nat);
    lemma_combos_props(vars, k + 1);
    assert forall|i: int| 0 <= i < ck.len() implies clause_sat(m, #[trigger] ck[i]) by {
        if i < pre.len() {
            let c = combos(vars, (n + 1 - k) as nat)[i];
            assert(ck[i] == pre[i]);
            assert(pre[i] == pos_clause(c));
            lemma_cast_no_dup(c);
            if forall|j: int| 0 <= j < c.len() ==> !m.contains(#[trigger] c[j] as int) {
                assert(cell_set(c).subset_of(a.difference(m))) by {
                    assert forall|x: int| cell_set(c).contains(x) implies a.difference(
                        m,
                    ).contains(x) by {
                        let j = choose|j: int| 0 <= j < c.len() && c[j] as int == x;
                        assert(c.contains(c[j]));
                        assert(vars.contains(c[j]));
                        let w = choose|w: int| 0 <= w < vars.len() && vars[w] == c[j];
                        assert(a.contains(vars[w] as int));
                        assert(!m.contains(x));
                    }
                }
                vstd::set_lib::lemma_len_subset(cell_set(c), a.difference(m));
                assert(cell_set(c).len() == n + 1 - k);
                assert(a.difference(m).len() == n - k);
                assert(false);
            }
            let j = choose|j: int| 0 <= j < c.len() && m.contains(#[trigger] c[j] as int);
            assert(pos_clause(c)[j] == c[j] as int + 1);
            assert(lit_sat(m, c[j] as int + 1));
        } else {
            let c = combos(vars, k + 1)[i - pre.len()];
            assert(ck[i] == suf[i - pre.len()]);
            assert(suf[i - pre.len()] == neg_clause(c));
            lemma_cast_no_dup(c);
            if forall|j: int| 0 <= j < c.len() ==> m.contains(#[trigger] c[j] as int) {
                assert(cell_set(c).subset_of(a.intersect(m))) by {
                    assert forall|x: int| cell_set(c).contains(x) implies a.intersect(m).contains(
                        x,
                    ) by {
                        let j = choose|j: int| 0 <= j < c.len() && c[j] as int == x;
                        assert(c.contains(c[j]));
                        assert(vars.contains(c[j]));
                        let w = choose|w: int| 0 <= w < vars.len() && vars[w] == c[j];
                        assert(a.contains(vars[w] as int));
                        assert(m.contains(x));
                    }
                }
                vstd::set_lib::lemma_len_subset(cell_set(c), a.intersect(m));
                assert(cell_set(c).len() == k + 1);
                assert(false);
            }
            let j = choose|j: int| 0 <= j < c.len() && !m.contains(#[trigger] c[j] as int);
            assert(neg_clause(c)[j] == -(c[j] as int) - 1);
            assert(lit_sat(m, -(c[j] as int) - 1));
        }
    }
}

/// Every literal of the exactly-k encoding is a well-formed cell literal.
pub proof fn lemma_exactly_k_wf(vars: Seq<usize>, k: nat)
    requires
        forall|i: int| 0 <= i < vars.len() ==> #[trigger] vars[i] < isize::MAX as usize,
    ensures
        cnf_wf(exactly_k_clauses(vars, k)),
{
    let n = vars.len();
    let pre = combos(vars, (n + 1 - k) as nat).map_values(|c: Seq<usize>| pos_clause(c));
    let suf = combos(vars, k + 1).map_values(|c: Seq<usize>| neg_clause(c));
    let ck = exactly_k_clauses(vars, k);
    lemma_combos_props(vars, (n + 1 - k) as nat);
    lemma_combos_props(vars, k + 1);
    assert forall|i: int| 0 <= i < ck.len() implies lits_wf(#[trigger] ck[i]) by {
        if i < pre.len() {
            let c = combos(vars, (n + 1 - k) as nat)[i];
            assert(ck[i] == pre[i]);
            assert(pre[i] == pos_clause(c));
            assert forall|j: int| 0 <= j < pos_clause(c).len() implies #[trigger] pos_clause(c)[j]
                != 0 && pos_clause(c)[j] != isize::MIN as int by {
                assert(c.contains(c[j]));
                assert(vars.contains(c[j]));
                let w = choose|w: int| 0 <= w < vars.len() && vars[w] == c[j];
                assert(vars[w] < isize::MAX as usize);
                assert(pos_clause(c)[j] == c[j] as int + 1);
            }
        } else {
            let c = combos(vars, k + 1)[i - pre.len()];
            assert(ck[i] == suf[i - pre.len()]);
            assert(suf[i - pre.len()] == neg_clause(c));
            assert forall|j: int| 0 <= j < neg_clause(c).len() implies #[trigger] neg_clause(c)[j]
                != 0 && neg_clause(c)[j] != isize::MIN as int by {
                assert(c.contains(c[j]));
                assert(vars.contains(c[j]));
                let w = choose|w: int| 0 <= w < vars.len() && vars[w] == c[j];
                assert(vars[w] < isize::MAX as usize);
                assert(neg_clause(c)[j] == -(c[j] as int) - 1);
            }
        }
    }
}

fn lits_of_pos(c: &Vec<usize>) -> (r: Clause)
    requires
        forall|j: int| 0 <= j < c@.len() ==> #[trigger] c@[j] < isize::MAX as usize,
    ensures
        r@ == pos_clause(c@),
{
    let mut out: Vec<isize> = Vec::new();
    let mut j: usize = 0;
    while j < c.len()
        invariant
            0 <= j <= c@.len(),
            forall|t: int| 0 <= t < c@.len() ==> #[trigger] c@[t] < isize::MAX as usize,
            out@.len() == j,
            forall|t: int| 0 <= t < j ==> #[trigger] out@[t] as int == c@[t] as int + 1,
        decreases c@.len() - j,
    {
        let v: isize = (c[j] as isize) + 1;
        out.push(v);
        j += 1;
    }
    proof {
        assert(out@.map_values(|l: isize| l as int) =~= pos_clause(c@));
    }
    Clause(out)
}

fn lits_of_neg(c: &Vec<usize>) -> (r: Clause)
    requires
        forall|j: int| 0 <= j < c@.len() ==> #[trigger] c@[j] < isize::MAX as usize,
    ensures
        r@ == neg_clause(c@),
{
    let mut out: Vec<isize> = Vec::new();
    let mut j: usize = 0;
    while j < c.len()
        invariant
            0 <= j <= c@.len(),
            forall|t: int| 0 <= t < c@.len() ==> #[trigger] c@[t] < isize::MAX as usize,
            out@.len() == j,
            forall|t: int| 0 <= t < j ==> #[trigger] out@[t] as int == -(c@[t] as int) - 1,
        decreases c@.len() - j,
    {
        let v: isize = -(c[j] as isize) - 1;
        out.push(v);
        j += 1;
    }
    proof {
        assert(out@.map_values(|l: isize| l as int) =~= neg_clause(c@));
    }
    Clause(out)
}

/// Appends the CNF clauses for "exactly k of vars are mines".
pub fn add_exactly_k_clauses(clauses: &mut Vec<Clause>, vars: &[usize], k: usize)
    requires
        k <= vars@.len(),
        vars@.len() < usize::MAX,
        forall|i: int| 0 <= i < vars@.len() ==> #[trigger] vars@[i] < isize::MAX as usize,
    ensures
        cnf_view(final(clauses)@) == cnf_view(old(clauses)@) + exactly_k_clauses(vars@, k as nat),
{
    let ghost orig = old(clauses)@;
    let n = vars.len();
    let at_least = combinations_of(vars, n - k + 1);
    let at_most = combinations_of(vars, k + 1);
    let ghost pre = combos(vars@, (vars@.len() + 1 - k as nat) as nat).map_values(
        |c: Seq<usize>| pos_clause(c),
    );
    let ghost suf = combos(vars@, k as nat + 1).map_values(|c: Seq<usize>| neg_clause(c));
    let mut i: usize = 0;
    while i < at_least.len()
        invariant
            0 <= i <= at_least@.len(),
            at_least@.map_values(|c: Vec<usize>| c@) == combos(vars@, (n - k + 1) as nat),
            forall|t: int| 0 <= t < vars@.len() ==> #[trigger] vars@[t] < isize::MAX as usize,
            k <= vars@.len() && n == vars@.len(),
            pre == combos(vars@, (n - k + 1) as nat).map_values(|c: Seq<usize>| pos_clause(c)),
            clauses@.len() == orig.len() + i,
            forall|t: int| 0 <= t < orig.len() ==> #[trigger] clauses@[t]@ == orig[t]@,
            forall|t: int| 0 <= t < i ==> #[trigger] clauses@[orig.len() + t]@ == pre[t],
        decreases at_least@.len() - i,
    {
        proof {
            lemma_combos_props(vars@, (n - k + 1) as nat);
            assert(at_least@[i as int]@ == combos(vars@, (n - k + 1) as nat)[i as int]);
            assert forall|j: int|
                0 <= j < at_least@[i as int]@.len() implies #[trigger] at_least@[i as int]@[j]
                < isize::MAX as usize by {
                let c = combos(vars@, (n - k + 1) as nat)[i as int];
                assert(c.contains(c[j]));
                assert(vars@.contains(c[j]));
                let w = choose|w: int| 0 <= w < vars@.len() && vars@[w] == c[j];
            }
        }
        let cl = lits_of_pos(&at_least[i]);
        proof {
            assert(cl@ == pre[i as int]);
        }
        clauses.push(cl);
        i += 1;
    }
    let mut i: usize = 0;
    while i < at_most.len()
        invariant
            0 <= i <= at_most@.len(),
            at_most@.map_values(|c: Vec<usize>| c@) == combos(vars@, (k + 1) as nat),
            forall|t: int| 0 <= t < vars@.len() ==> #[trigger] vars@[t] < isize::MAX as usize,
            k <= vars@.len() && n == vars@.len(),
            suf == combos(vars@, (k + 1) as nat).map_values(|c: Seq<usize>| neg_clause(c)),
            pre == combos(vars@, (n - k + 1) as nat).map_values(|c: Seq<usize>| pos_clause(c)),
            clauses@.len() == orig.len() + pre.len() + i,
            forall|t: int| 0 <= t < orig.len() ==> #[trigger] clauses@[t]@ == orig[t]@,
            forall|t: int| 0 <= t < pre.len() ==> #[trigger] clauses@[orig.len() + t]@ == pre[t],
            forall|t: int|
                0 <= t < i ==> #[trigger] clauses@[orig.len() + pre.len() + t]@ == suf[t],
        decreases at_most@.len() - i,
    {
        proof {
            lemma_combos_props(vars@, (k + 1) as nat);
            assert(at_most@[i as int]@ == combos(vars@, (k + 1) as nat)[i as int]);
            assert forall|j: int|
                0 <= j < at_most@[i as int]@.len() implies #[trigger] at_most@[i as int]@[j]
                < isize::MAX as usize by {
                let c = combos(vars@, (k + 1) as nat)[i as int];
                assert(c.contains(c[j]));
                assert(vars@.contains(c[j]));
                let w = choose|w: int| 0 <= w < vars@.len() && vars@[w] == c[j];
            }
        }
        let cl = lits_of_neg(&at_most[i]);
        proof {
            assert(cl@ == suf[i as int]);
        }
        clauses.push(cl);
        i += 1;
    }
    proof {
        let whole = cnf_view(orig) + (pre + suf);
        assert(exactly_k_clauses(vars@, k as nat) == pre + suf);
        assert forall|t: int| 0 <= t < clauses@.len() implies cnf_view(clauses@)[t]
            == whole[t] by {
            if t < orig.len() {
                assert(clauses@[t]@ == orig[t]@);
            } else if t < orig.len() + pre.len() {
                assert(clauses@[orig.len() + (t - orig.len())]@ == pre[t - orig.len()]);
            } else {
                assert(clauses@[orig.len() + pre.len() + (t - orig.len() - pre.len())]@ == suf[t
                    - orig.len() - pre.len()]);
            }
        }
        assert(cnf_view(clauses@) =~= whole);
    }
}

/// A hidden unflagged cell adjacent to at least one clue cell.
pub open spec fn in_frontier(board: Board, x: usize) -> bool {
    &&& hidden_unflagged(board, x)
    &&& exists|i: int| is_clue(board, i) && (#[trigger] board.adjacency_map@[i]@).contains(x)
}

fn is_frontier_cell(board: &Board, x: usize) -> (r: bool)
    requires
        board.wf(),
        (x as int) < board.cells@.len(),
    ensures
        r == in_frontier(*board, x),
{
    if board.cells[x].is_revealed || board.cells[x].is_flagged {
        return false;
    }
    let total = board.cells.len();
    let mut i: usize = 0;
    while i < total
        invariant
            0 <= i <= total,
            board.wf(),
            total == board.cells@.len(),
            (x as int) < board.cells@.len(),
            hidden_unflagged(*board, x),
            forall|t: int|
                0 <= t < i ==> !(is_clue(*board, t) && (
                #[trigger] board.adjacency_map@[t]@).contains(x)),
        decreases total - i,
    {
        if board.cells[i].is_revealed && board.cells[i].adjacent_mines > 0 {
            if crate::reducer::cells_contain(&board.adjacency_map[i], x) {
                proof {
                    assert(is_clue(*board, i as int));
                    assert(board.adjacency_map@[i as int]@.contains(x));
                }
                return true;
            }
        }
        i += 1;
    }
    false
}

/// Identifies all hidden unflagged cells that touch a revealed numbered
/// cell, in ascending index order.
pub fn get_frontier(board: &Board) -> (r: Vec<usize>)
    requires
        board.wf(),
    ensures
        forall|s: int, t: int| 0 <= s < t < r@.len() ==> r@[s] < r@[t],
        forall|x: usize| #[trigger] r@.contains(x) <==> in_frontier(*board, x),
        forall|q: int| 0 <= q < r@.len() ==> (#[trigger] r@[q] as int) < board.cells@.len(),
{
    let total = board.cells.len();
    let mut out: Vec<usize> = Vec::new();
    let mut i: usize = 0;
    while i < total
        invariant
            0 <= i <= total,
            board.wf(),
            total == board.cells@.len(),
            forall|s: int, t: int| 0 <= s < t < out@.len() ==> out@[s] < out@[t],
            forall|x: usize| #[trigger] out@.contains(x) ==> (x as int) < i,
            forall|x: usize|
                #[trigger] out@.contains(x) <==> ((x as int) < i && in_frontier(*board, x)),
        decreases total - i,
    {
        let ghost out0 = out@;
        if is_frontier_cell(board, i) {
            out.push(i);
        }
        proof {
            if out@ != out0 {
                assert forall|w: usize| #[trigger] out@.contains(w) implies (out0.contains(w) || w
                    == i as usize) by {
                    let q = choose|q: int| 0 <= q < out@.len() && out@[q] == w;
                    if q < out@.len() - 1 {
                        assert(out0[q] == w);
                    }
                }
                assert forall|w: usize| #[trigger] out0.contains(w) implies out@.contains(w) by {
                    let q = choose|q: int| 0 <= q < out0.len() && out0[q] == w;
                    assert(out@[q] == w);
                }
                assert(out@.contains(i as usize)) by {
                    assert(out@[out@.len() - 1] == i as usize);
                }
                assert forall|s: int, t: int|
                    0 <= s < t < out@.len() implies out@[s] < out@[t] by {
                    if t < out@.len() - 1 {
                        assert(out@[s] == out0[s]);
                        assert(out@[t] == out0[t]);
                    } else {
                        assert(out@[s] == out0[s]);
                        assert(out0.contains(out0[s]));
                    }
                }
            }
            assert forall|x: usize|
                #[trigger] out@.contains(x) <==> ((x as int) < i + 1 && in_frontier(
                *board,
                x,
            )) by {
                if x != i as usize && out@.contains(x) && out@ != out0 {
                    assert(out0.contains(x));
                }
                if x != i as usize && out0.contains(x) && out@ != out0 {
                    assert(out@.contains(x));
                }
            }
        }
        i += 1;
    }
    proof {
        assert forall|q: int| 0 <= q < out@.len() implies (#[trigger] out@[q] as int)
            < board.cells@.len() by {
            assert(out@.contains(out@[q]));
        }
    }
    out
}

/// The clue constraints of a board all hold under any consistent mine set.
pub proof fn lemma_collected_sat(board: Board, cs: Seq<Constraint>, m: Set<int>)
    requires
        board_consistent(board, m),
        crate::constraints::constraints_of_board(board, cs),
    ensures
        crate::constraints::all_sat(m, cs),
{
    assert forall|k: int| 0 <= k < cs.len() implies crate::constraints::constraint_sat(
        m,
        #[trigger] cs[k],
    ) by {
        let i = choose|i: int|
            is_clue(board, i) && (#[trigger] cs[k]).cells@ == clue_hidden_cells(board, i) && cs[
                k
            ].mines == clue_remaining(board, i);
        assert(cell_set(clue_hidden_cells(board, i)).intersect(m).len() == clue_remaining(
            board,
            i,
        ));
    }
}

/// The clauses one cell contributes to the board's CNF: the exactly-k
/// encoding of its clue constraint; an unsatisfiable clue (more mines
/// demanded than hidden cells) contributes one empty clause; cells that
/// are no clue, or clues with no hidden neighbor, contribute nothing.
pub open spec fn clue_encoding(board: Board, i: int) -> Seq<Seq<int>> {
    if is_clue(board, i) && clue_hidden_cells(board, i).len() > 0 {
        if clue_remaining(board, i) <= clue_hidden_cells(board, i).len() {
            exactly_k_clauses(clue_hidden_cells(board, i), clue_remaining(board, i))
        } else {
            seq![Seq::<int>::empty()]
        }
    } else {
        Seq::empty()
    }
}

/// The CNF of the board's first `n` cells: every clue's encoding, in cell
/// order.
pub open spec fn board_cnf(board: Board, n: int) -> Seq<Seq<int>>
    decreases n,
{
    if n <= 0 {
        Seq::empty()
    } else {
        board_cnf(board, n - 1) + clue_encoding(board, n - 1)
    }
}

/// Forcing a mine onto the cell contradicts the board's clue CNF: the
/// refutation that proves a cell safe.
pub open spec fn mine_hypothesis_refuted(board: Board, cell: usize) -> bool {
    !satisfiable(board_cnf(board, board.cells@.len() as int).push(seq![cell as int + 1]))
}

/// Appends the CNF encoding of one clue cell's constraint; clauses already
/// collected stay, and any mine set consistent with the board satisfies
/// everything appended. A clue demanding more mines than it has hidden
/// cells contributes an empty clause: it admits no assignment at all.
pub fn append_clue_encoding(clauses: &mut Vec<Clause>, board: &Board, i: usize)
    requires
        board.wf(),
        (i as int) < board.cells@.len(),
        board.cells@.len() <= isize::MAX as usize,
        cnf_wf(cnf_view(old(clauses)@)),
    ensures
        cnf_wf(cnf_view(final(clauses)@)),
        cnf_view(final(clauses)@) == cnf_view(old(clauses)@) + clue_encoding(*board, i as int),
        forall|m: Set<int>|
            board_consistent(*board, m) && cnf_sat(m, cnf_view(old(clauses)@)) ==> #[trigger] cnf_sat(
                m,
                cnf_view(final(clauses)@),
            ),
{
    let ghost pre = clauses@;
    if !(board.cells[i].is_revealed && board.cells[i].adjacent_mines > 0) {
        proof {
            assert(cnf_view(clauses@) =~= cnf_view(pre) + clue_encoding(*board, i as int));
        }
        return ;
    }
    let c = build_clue_constraint(board, i);
    if c.cells.len() == 0 {
        proof {
            assert(cnf_view(clauses@) =~= cnf_view(pre) + clue_encoding(*board, i as int));
        }
        return ;
    }
    proof {
        crate::constraints::lemma_hidden_filter(*board, board.adjacency_map@[i as int]@);
        assert forall|q: int| 0 <= q < c.cells@.len() implies (#[trigger] c.cells@[q])
            < isize::MAX as usize by {
            assert(c.cells@.contains(c.cells@[q]));
            assert((c.cells@[q] as int) < board.cells@.len());
        }
        lemma_sorted_no_dup(c.cells@);
        crate::constraints::lemma_sorted_len_bound(c.cells@, board.cells@.len() as int);
    }
    if c.mines <= c.cells.len() {
        let ghost vars = c.cells@;
        let ghost k = c.mines as nat;
        add_exactly_k_clauses(clauses, c.cells.as_slice(), c.mines);
        proof {
            assert(clue_encoding(*board, i as int) == exactly_k_clauses(vars, k));
            lemma_exactly_k_wf(vars, k);
            assert(cnf_wf(cnf_view(clauses@))) by {
                let whole = cnf_view(clauses@);
                assert forall|t: int| 0 <= t < whole.len() implies lits_wf(#[trigger] whole[t]) by {
                    if t < pre.len() {
                        assert(whole[t] == cnf_view(pre)[t]);
                    } else {
                        assert(whole[t] == exactly_k_clauses(vars, k)[t - pre.len()]);
                    }
                }
            }
            assert forall|m: Set<int>|
                board_consistent(*board, m) && cnf_sat(m, cnf_view(pre)) implies #[trigger] cnf_sat(
                m,
                cnf_view(clauses@),
            ) by {
                assert(cell_set(clue_hidden_cells(*board, i as int)).intersect(m).len()
                    == clue_remaining(*board, i as int));
                assert(exact_count(m, vars, k));
                lemma_exactly_k_sound(m, vars, k);
                let whole = cnf_view(clauses@);
                assert forall|t: int| 0 <= t < whole.len() implies clause_sat(
                    m,
                    #[trigger] whole[t],
                ) by {
                    if t < pre.len() {
                        assert(whole[t] == cnf_view(pre)[t]);
                        assert(clause_sat(m, cnf_view(pre)[t]));
                    } else {
                        assert(whole[t] == exactly_k_clauses(vars, k)[t - pre.len()]);
                    }
                }
            }
        }
    } else {
        // the clue demands more mines than it has hidden cells: no mine
        // set is consistent, recorded as an unsatisfiable empty clause
        let ghost vars = c.cells@;
        clauses.push(Clause(Vec::new()));
        proof {
            let whole = cnf_view(clauses@);
            assert(whole[whole.len() - 1] =~= Seq::<int>::empty());
            assert(clue_encoding(*board, i as int) =~= seq![Seq::<int>::empty()]);
            assert(whole =~~= cnf_view(pre) + clue_encoding(*board, i as int));
            assert(cnf_wf(whole)) by {
                assert forall|t: int| 0 <= t < whole.len() implies lits_wf(#[trigger] whole[t]) by {
                    if t < pre.len() {
                        assert(whole[t] == cnf_view(pre)[t]);
                    } else {
                        assert(whole[t] =~= Seq::<int>::empty());
                    }
                }
            }
            assert forall|m: Set<int>|
                board_consistent(*board, m) && cnf_sat(m, cnf_view(pre)) implies #[trigger] cnf_sat(
                m,
                whole,
            ) by {
                assert(cell_set(vars).intersect(m).len() == clue_remaining(*board, i as int));
                lemma_cell_set_facts(vars);
                vstd::set_lib::lemma_len_intersect(cell_set(vars), m);
                assert(false);
            }
        }
    }
}

/// Provides a fallback choice when no logical certainty exists: exactly
/// the hidden unflagged cells of minimal conservative risk, judged by the
/// board's clue constraints or by global mine density.
pub fn get_probabilistic_fallback(board: &Board, _width: usize, _height: usize, mines: usize) -> (r:
    Vec<usize>)
    requires
        board.wf(),
    ensures
        crate::estimator::fallback_matches(*board, mines as nat, r@),
        forall|s: int, t: int| 0 <= s < t < r@.len() ==> r@[s] < r@[t],
        forall|q: int| 0 <= q < r@.len() ==> hidden_unflagged(*board, #[trigger] r@[q]),
        forall|q: int| 0 <= q < r@.len() ==> (#[trigger] r@[q] as int) < board.cells@.len(),
        r@.len() == 0 ==> forall|x: usize| !hidden_unflagged(*board, x),
{
    let cs = collect_constraints(board);
    let g = crate::constraints::global_constraint(board, mines);
    let den = if g.cells.len() >= 1 {
        g.cells.len()
    } else {
        1
    };
    let r = rank_lowest_risk(board, &cs, (g.mines, den));
    proof {
        assert(crate::constraints::cviews_of(cs@) == crate::constraints::board_cviews(
            *board,
            board.cells@.len() as int,
        ));
        assert((g.mines as nat, den as nat) == crate::estimator::fallback_global_ratio(
            *board,
            mines as nat,
        ));
        assert forall|q: int| 0 <= q < r@.len() implies hidden_unflagged(
            *board,
            #[trigger] r@[q],
        ) by {
            assert(r@.contains(r@[q]));
        }
        assert forall|q: int| 0 <= q < r@.len() implies (#[trigger] r@[q] as int)
            < board.cells@.len() by {
            assert(r@.contains(r@[q]));
        }
    }
    r
}

/// Tests whether forcing `cell` to be a mine contradicts the clauses; a
/// refutation proves the cell safe under every consistent mine set, and
/// the verdict is exactly the unsatisfiability of clauses plus hypothesis.
pub fn cell_is_safe(base: &Vec<Clause>, board: &Board, cell: usize) -> (r: bool)
    requires
        board.wf(),
        board.cells@.len() <= isize::MAX as usize,
        (cell as int) < board.cells@.len(),
        cnf_wf(cnf_view(base@)),
        forall|m: Set<int>|
            board_consistent(*board, m) ==> #[trigger] cnf_sat(m, cnf_view(base@)),
    ensures
        r == !satisfiable(cnf_view(base@).push(seq![cell as int + 1])),
        r ==> forall|m: Set<int>|
            #[trigger] board_consistent(*board, m) ==> !m.contains(cell as int),
{
    let mut test: Vec<Clause> = Vec::new();
    let mut k: usize = 0;
    while k < base.len()
        invariant
            0 <= k <= base@.len(),
            test@.len() == k,
            forall|t: int| 0 <= t < k ==> #[trigger] test@[t]@ == base@[t]@,
        decreases base@.len() - k,
    {
        let cl = clone_clause_lits(&base[k]);
        test.push(cl);
        k += 1;
    }
    let mut unit: Vec<isize> = Vec::new();
    unit.push((cell as isize) + 1);
    let ghost unit_lit = (cell as isize) + 1;
    test.push(Clause(unit));
    proof {
        let tv = cnf_view(test@);
        let bv = cnf_view(base@);
        assert(tv.len() == bv.len() + 1);
        assert forall|t: int| 0 <= t < bv.len() implies tv[t] == bv[t] by {
            assert(test@[t]@ == base@[t]@);
        }
        assert(tv[tv.len() - 1] =~= seq![unit_lit as int]);
        assert(cnf_wf(tv)) by {
            assert forall|t: int| 0 <= t < tv.len() implies lits_wf(#[trigger] tv[t]) by {
                if t < bv.len() {
                    assert(tv[t] == bv[t]);
                }
            }
        }
    }
    let sat = dpll(test, Vec::new());
    proof {
        assert(cnf_view(test@) =~~= cnf_view(base@).push(seq![unit_lit as int]));
        assert(unit_lit as int == cell as int + 1);
        if !sat {
            let tv = cnf_view(test@);
            let bv = cnf_view(base@);
            assert forall|m: Set<int>| #[trigger] board_consistent(*board, m) implies !m.contains(
                cell as int,
            ) by {
                if m.contains(cell as int) {
                    assert(cnf_sat(m, bv));
                    assert(cnf_sat(m, tv)) by {
                        assert forall|t: int| 0 <= t < tv.len() implies clause_sat(
                            m,
                            #[trigger] tv[t],
                        ) by {
                            if t < bv.len() {
                                assert(tv[t] == bv[t]);
                            } else {
                                assert(tv[t] == seq![unit_lit as int]);
                                assert(lit_sat(m, unit_lit as int));
                                assert(lit_sat(m, seq![unit_lit as int][0int]));
                                assert(clause_sat(m, seq![unit_lit as int]));
                            }
                        }
                    }
                    assert(satisfiable(tv));
                }
            }
        }
    }
    !sat
}

fn clone_clause_lits(c: &Clause) -> (r: Clause)
    ensures
        r@ == c@,
{
    let mut out: Vec<isize> = Vec::new();
    let mut j: usize = 0;
    while j < c.0.len()
        invariant
            0 <= j <= c.0@.len(),
            out@ == c.0@.take(j as int),
        decreases c.0@.len() - j,
    {
        out.push(c.0[j]);
        proof {
            assert(out@ =~= c.0@.take(j as int + 1));
        }
        j += 1;
    }
    proof {
        assert(c.0@.take(c.0@.len() as int) =~= c.0@);
    }
    Clause(out)
}


} // verus!
