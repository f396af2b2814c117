use msat::model::{Lit, Solution};
use msat::solve;
use msat::Dimacs;
use msat::Error;

fn lit_true(m: &Vec<bool>, l: Lit) -> bool {
    if l.neg {
        !m[l.var]
    } else {
        m[l.var]
    }
}

fn clause_true(m: &Vec<bool>, c: &Vec<Lit>) -> bool {
    c.iter().any(|&l| lit_true(m, l))
}

fn count_satisfied(m: &Vec<bool>, cls: &Vec<Vec<Lit>>) -> usize {
    cls.iter().filter(|c| clause_true(m, c)).count()
}

/// Exhaustive maximum of simultaneously satisfiable clauses.
fn brute_max(n_vars: usize, cls: &Vec<Vec<Lit>>) -> usize {
    let mut best = 0;
    for mask in 0..(1u32 << n_vars) {
        let m: Vec<bool> = (0..n_vars).map(|v| mask & (1 << v) != 0).collect();
        let c = count_satisfied(&m, cls);
        if c > best {
            best = c;
        }
    }
    best
}

fn cnf(n_vars: usize, clauses: Vec<Vec<Lit>>) -> Dimacs {
    Dimacs::Cnf { n_vars, clauses }
}

#[test]
fn contradictory_pair_plus_unit() {
    // 2 variables, clauses [[x1], [!x1], [x2]]: optimum 2
    let clauses = vec![
        vec![Lit::pos(0)],
        vec![Lit::negative(0)],
        vec![Lit::pos(1)],
    ];
    let (sol, opt) = solve(cnf(2, clauses.clone())).unwrap();
    assert_eq!(opt, 2);
    match sol {
        Solution::Best(m) => {
            assert_eq!(m.len(), 2);
            assert_eq!(count_satisfied(&m, &clauses), 2);
        }
        _ => panic!("expected a best model"),
    }
}

#[test]
fn contradictory_pair() {
    // 1 variable, clauses [[x1], [!x1]]: optimum 1
    let clauses = vec![vec![Lit::pos(0)], vec![Lit::negative(0)]];
    let (sol, opt) = solve(cnf(1, clauses.clone())).unwrap();
    assert_eq!(opt, 1);
    match sol {
        Solution::Best(m) => {
            assert_eq!(m.len(), 1);
            assert_eq!(count_satisfied(&m, &clauses), 1);
        }
        _ => panic!("expected a best model"),
    }
}

#[test]
fn fully_satisfiable_three_vars() {
    // unit on var0, negated unit on var1, implication clause: all satisfiable
    let clauses = vec![
        vec![Lit::pos(0)],
        vec![Lit::negative(1)],
        vec![Lit::negative(0), Lit::pos(1), Lit::pos(2)],
    ];
    let (sol, opt) = solve(cnf(3, clauses.clone())).unwrap();
    assert_eq!(opt, 3);
    match sol {
        Solution::Best(m) => {
            assert_eq!(m.len(), 3);
            assert_eq!(count_satisfied(&m, &clauses), 3);
            assert!(m[0]);
            assert!(!m[1]);
        }
        _ => panic!("expected a best model"),
    }
}

#[test]
fn satisfiable_formula_reaches_clause_count() {
    // if the original formula is satisfiable, the optimum is the clause count
    let clauses = vec![
        vec![Lit::pos(0), Lit::pos(1)],
        vec![Lit::negative(0), Lit::pos(2)],
        vec![Lit::negative(2), Lit::negative(1)],
        vec![Lit::pos(3)],
    ];
    assert_eq!(brute_max(4, &clauses), 4);
    let (_, opt) = solve(cnf(4, clauses)).unwrap();
    assert_eq!(opt, 4);
}

#[test]
fn empty_formula() {
    // no clauses: optimum 0 and a satisfying (never unsat) answer
    let (sol, opt) = solve(cnf(3, vec![])).unwrap();
    assert_eq!(opt, 0);
    match sol {
        Solution::Sat(m) => assert_eq!(m.len(), 3),
        Solution::Unknown => {}
        Solution::Unsat => panic!("an empty formula is never unsatisfiable"),
        Solution::Best(_) => panic!("no tightening happens on an empty formula"),
    }
}

#[test]
fn zero_vars_empty_formula() {
    let (sol, opt) = solve(cnf(0, vec![])).unwrap();
    assert_eq!(opt, 0);
    match sol {
        Solution::Sat(m) => assert_eq!(m.len(), 0),
        Solution::Unknown => {}
        _ => panic!("an empty formula is never unsatisfiable"),
    }
}

#[test]
fn weighted_input_rejected() {
    let d = Dimacs::Wcnf {
        n_vars: 1,
        clauses: vec![(vec![Lit::pos(0)], 2), (vec![Lit::negative(0)], 3)],
        hard_weight: None,
    };
    assert_eq!(solve(d).unwrap_err(), Error::UnsupportedFormat);
}

#[test]
fn optimum_matches_brute_force() {
    // several small instances, checked against exhaustive search
    let instances: Vec<(usize, Vec<Vec<Lit>>)> = vec![
        (1, vec![vec![Lit::pos(0)], vec![Lit::negative(0)], vec![Lit::pos(0)]]),
        (
            3,
            vec![
                vec![Lit::pos(0), Lit::pos(1)],
                vec![Lit::negative(0), Lit::pos(2)],
                vec![Lit::negative(1)],
                vec![Lit::negative(2)],
                vec![Lit::pos(1), Lit::pos(2)],
            ],
        ),
        (
            4,
            vec![
                vec![Lit::pos(0)],
                vec![Lit::negative(0)],
                vec![Lit::pos(1)],
                vec![Lit::negative(1)],
                vec![Lit::pos(2), Lit::pos(3)],
                vec![Lit::negative(2), Lit::negative(3)],
                vec![Lit::pos(2), Lit::negative(3)],
            ],
        ),
        (
            5,
            vec![
                vec![Lit::pos(0), Lit::pos(1), Lit::pos(2)],
                vec![Lit::negative(0), Lit::negative(1)],
                vec![Lit::negative(1), Lit::negative(2)],
                vec![Lit::negative(0), Lit::negative(2)],
                vec![Lit::pos(3), Lit::pos(4)],
                vec![Lit::negative(3)],
                vec![Lit::negative(4)],
                vec![Lit::pos(0)],
                vec![Lit::pos(1)],
                vec![Lit::pos(2)],
            ],
        ),
    ];
    for (n_vars, clauses) in instances {
        let expected = brute_max(n_vars, &clauses);
        let (sol, opt) = solve(cnf(n_vars, clauses.clone())).unwrap();
        assert_eq!(opt, expected);
        match sol {
            Solution::Best(m) => assert_eq!(count_satisfied(&m, &clauses), opt),
            _ => panic!("expected a best model"),
        }
    }
}

#[test]
fn repeated_runs_agree() {
    // determinism: relax + encode + solve twice on the same formula
    let mk = || {
        cnf(
            3,
            vec![
                vec![Lit::pos(0)],
                vec![Lit::negative(0)],
                vec![Lit::pos(1), Lit::pos(2)],
                vec![Lit::negative(1), Lit::negative(2)],
            ],
        )
    };
    let (_, opt1) = solve(mk()).unwrap();
    let (_, opt2) = solve(mk()).unwrap();
    assert_eq!(opt1, opt2);
    assert_eq!(opt1, 3);
}
