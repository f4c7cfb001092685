//! The CNF/SAT engine on hand-built clause sets.
use sweeper_engine::algorithms::sat_utils::Clause;
use sweeper_engine::algorithms::sat_utils::add_exactly_k_clauses;
use sweeper_engine::algorithms::sat_utils::dpll;
use sweeper_engine::algorithms::sat_utils::simplify;

fn lits(v: &[isize]) -> Clause {
    Clause(v.to_vec())
}

#[test]
fn dpll_empty_clause_set_is_satisfiable() {
    assert!(dpll(Vec::new(), Vec::new()));
}

#[test]
fn dpll_empty_clause_is_contradiction() {
    let clauses = vec![lits(&[1, 2]), lits(&[])];
    assert!(!dpll(clauses, Vec::new()));
}

#[test]
fn dpll_unit_propagation_finds_conflict() {
    // x1 and (not x1) cannot both hold
    let clauses = vec![lits(&[1]), lits(&[-1])];
    assert!(!dpll(clauses, Vec::new()));
}

#[test]
fn dpll_satisfiable_formula() {
    // (x1 or x2) and (not x1 or x2) is satisfied by x2
    let clauses = vec![lits(&[1, 2]), lits(&[-1, 2])];
    assert!(dpll(clauses, Vec::new()));
}

#[test]
fn dpll_unsatisfiable_three_variable_formula() {
    // all four sign patterns over two literals, pinned by a third
    let clauses = vec![
        lits(&[1, 2]),
        lits(&[1, -2]),
        lits(&[-1, 2]),
        lits(&[-1, -2]),
    ];
    assert!(!dpll(clauses, Vec::new()));
}

#[test]
fn simplify_removes_satisfied_and_strips_negation() {
    let clauses = vec![lits(&[1, 2]), lits(&[-1, 3]), lits(&[2, 3])];
    let out = simplify(clauses, 1);
    let got: Vec<Vec<isize>> = out.into_iter().map(|c| c.0).collect();
    assert_eq!(got, vec![vec![3], vec![2, 3]]);
}

#[test]
fn exactly_k_clause_counts() {
    // exactly 1 of 3: C(3, 3) at-least plus C(3, 2) at-most clauses
    let mut clauses: Vec<Clause> = Vec::new();
    let vars: Vec<usize> = vec![0, 1, 2];
    add_exactly_k_clauses(&mut clauses, &vars, 1);
    assert_eq!(clauses.len(), 1 + 3);
    assert_eq!(clauses[0].0, vec![1, 2, 3]);
    assert_eq!(clauses[1].0, vec![-1, -2]);
    assert_eq!(clauses[2].0, vec![-1, -3]);
    assert_eq!(clauses[3].0, vec![-2, -3]);
}

#[test]
fn exactly_k_encoding_matches_brute_force() {
    // every assignment over three cells satisfies the encoding exactly
    // when it has exactly two mines
    let vars: Vec<usize> = vec![0, 1, 2];
    let mut base: Vec<Clause> = Vec::new();
    add_exactly_k_clauses(&mut base, &vars, 2);
    for mask in 0u32..8 {
        let mut clauses: Vec<Clause> = base.iter().map(|c| Clause(c.0.clone())).collect();
        for v in 0..3 {
            let lit = (v as isize) + 1;
            if mask & (1 << v) != 0 {
                clauses.push(Clause(vec![lit]));
            } else {
                clauses.push(Clause(vec![-lit]));
            }
        }
        let expected = mask.count_ones() == 2;
        assert_eq!(dpll(clauses, Vec::new()), expected);
    }
}
