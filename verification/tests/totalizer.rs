use msat::model::Lit;
use msat::totalizer::gen_totalizer;
use rsat::cdcl::{Solver, SolverOptions};
use solhop_types::Solution;

fn lit_true(m: &Vec<bool>, l: Lit) -> bool {
    if l.neg {
        !m[l.var]
    } else {
        m[l.var]
    }
}

fn to_ext(l: Lit) -> solhop_types::Lit {
    solhop_types::Lit::new(solhop_types::Var::new(l.var), l.neg)
}

/// Build a solver with `n` input variables, the totalizer over their
/// positive literals, unit clauses fixing the inputs as `inputs` says,
/// and unit bounds making the count exact; return the model and outputs.
fn forced_model(inputs: &[bool]) -> (Vec<bool>, Vec<Lit>) {
    let n = inputs.len();
    let mut solver = Solver::new(SolverOptions::default());
    let mut lits: Vec<Lit> = Vec::new();
    for _ in 0..n {
        let v = solver.new_var();
        lits.push(Lit::pos(v.index()));
    }
    let outputs = gen_totalizer(&mut solver, &lits);
    assert_eq!(outputs.len(), n);
    let k = inputs.iter().filter(|&&b| b).count();
    for (i, &b) in inputs.iter().enumerate() {
        let l = if b { lits[i] } else { lits[i].negate() };
        solver.add_clause(vec![to_ext(l)]);
    }
    // upper bound: at most k of the outputs may be true
    if k < n {
        solver.add_clause(vec![to_ext(outputs[k].negate())]);
    }
    match solver.solve(vec![]) {
        Solution::Sat(m) => (m, outputs),
        _ => panic!("the totalizer constraints must stay satisfiable"),
    }
}

#[test]
fn outputs_are_monotone() {
    // under any model of the network, a true output implies its predecessor
    for pattern in [
        vec![true, false, true, false],
        vec![false, false, false],
        vec![true, true, true, true, true],
        vec![false, true],
    ] {
        let (m, outputs) = forced_model(&pattern);
        for i in 1..outputs.len() {
            if lit_true(&m, outputs[i]) {
                assert!(lit_true(&m, outputs[i - 1]));
            }
        }
    }
}

#[test]
fn outputs_count_true_inputs() {
    // with the bound asserted, exactly k outputs are true when k inputs are
    for pattern in [
        vec![true, false, true, false],
        vec![false, false, false],
        vec![true, true, true, true, true],
        vec![false, true],
        vec![true],
        vec![false],
        vec![true, false, true, true, false, true, false],
    ] {
        let k = pattern.iter().filter(|&&b| b).count();
        let (m, outputs) = forced_model(&pattern);
        let true_outputs = outputs.iter().filter(|&&l| lit_true(&m, l)).count();
        assert_eq!(true_outputs, k);
    }
}

#[test]
fn tight_bound_is_infeasible() {
    // forcing three inputs true and at most two true outputs contradicts
    let mut solver = Solver::new(SolverOptions::default());
    let mut lits: Vec<Lit> = Vec::new();
    for _ in 0..4 {
        let v = solver.new_var();
        lits.push(Lit::pos(v.index()));
    }
    let outputs = gen_totalizer(&mut solver, &lits);
    for i in 0..3 {
        solver.add_clause(vec![to_ext(lits[i])]);
    }
    solver.add_clause(vec![to_ext(outputs[2].negate())]);
    assert_eq!(solver.solve(vec![]), Solution::Unsat);
}
