//! Trusted boundary around the external CDCL decision procedure.
//!
//! The solver state is abstracted by two names: the number of variables
//! it has allocated and the sequence of clauses registered with it.
//! Every proof in this crate about solve outcomes rests on the contracts
//! stated here against the external solver's source.

use vstd::prelude::*;

use crate::model::{all_clauses_sat, clause_wf, Lit, Solution};

verus! {

#[verifier::external_type_specification]
#[verifier::external_body]
/// The external CDCL solver, opaque to verification.
pub struct ExSolver(rsat::cdcl::Solver);

/// The clauses registered with the solver so far, in registration order,
/// each literal as a variable index and polarity.
pub uninterp spec fn solver_clauses(s: rsat::cdcl::Solver) -> Seq<Seq<Lit>>;

/// The number of variables the solver has allocated so far.
pub uninterp spec fn solver_nvars(s: rsat::cdcl::Solver) -> nat;

/// Relies on rsat::cdcl::Solver::new: a fresh solver holds no variables
/// and no clauses.
#[verifier::external_body]
pub(crate) fn solver_new() -> (s: rsat::cdcl::Solver)
    ensures
        solver_nvars(s) == 0,
        solver_clauses(s) == Seq::<Seq<Lit>>::empty(),
{
    rsat::cdcl::Solver::new(rsat::cdcl::SolverOptions::default())
}

/// Relies on rsat::cdcl::Solver::new_var: variables are allocated
/// sequentially from zero, and allocation leaves the clauses unchanged.
#[verifier::external_body]
pub(crate) fn solver_new_var(s: &mut rsat::cdcl::Solver) -> (v: usize)
    requires
        solver_nvars(*old(s)) < usize::MAX,
    ensures
        v == solver_nvars(*old(s)),
        solver_nvars(*final(s)) == solver_nvars(*old(s)) + 1,
        solver_clauses(*final(s)) == solver_clauses(*old(s)),
{
    s.new_var().index()
}

/// Relies on rsat::cdcl::Solver::add_clause: the disjunction is registered
/// permanently; variable allocation is unchanged.
#[verifier::external_body]
pub(crate) fn solver_add_clause(s: &mut rsat::cdcl::Solver, c: &Vec<Lit>)
    requires
        c@.len() >= 1,
        clause_wf(c@, solver_nvars(*old(s))),
    ensures
        solver_nvars(*final(s)) == solver_nvars(*old(s)),
        solver_clauses(*final(s)) == solver_clauses(*old(s)).push(c@),
{
    let lits: Vec<solhop_types::Lit> = c
        .iter()
        .map(|l| solhop_types::Lit::new(solhop_types::Var::new(l.var), l.neg))
        .collect();
    s.add_clause(lits);
}

/// Relies on rsat::cdcl::Solver::solve (with no assumptions): it returns
/// either Sat with a model over every allocated variable that satisfies
/// every registered clause, or Unsat when no assignment over the allocated
/// variables satisfies them all; this solver never reports Best or Unknown.
/// Solving changes neither the variables nor the registered clauses.
#[verifier::external_body]
pub(crate) fn solver_solve(s: &mut rsat::cdcl::Solver) -> (r: Solution)
    ensures
        solver_nvars(*final(s)) == solver_nvars(*old(s)),
        solver_clauses(*final(s)) == solver_clauses(*old(s)),
        match r {
            Solution::Sat(m) => m@.len() == solver_nvars(*old(s)) && all_clauses_sat(
                m@,
                solver_clauses(*old(s)),
            ),
            Solution::Unsat => forall|asg: Seq<bool>|
                asg.len() == solver_nvars(*old(s)) ==> !all_clauses_sat(
                    asg,
                    solver_clauses(*old(s)),
                ),
            Solution::Best(m) => false,
            Solution::Unknown => false,
        },
{
    match s.solve(vec![]) {
        solhop_types::Solution::Sat(m) => Solution::Sat(m),
        solhop_types::Solution::Unsat => Solution::Unsat,
        solhop_types::Solution::Best(m) => Solution::Best(m),
        solhop_types::Solution::Unknown => Solution::Unknown,
    }
}

} // verus!
