//! Unweighted MaxSAT via clause relaxation, a totalizer cardinality
//! network over the selector literals, and an iterative tightening loop
//! driven through an external CDCL decision procedure.
//!
//! Every clause is relaxed with a fresh positive selector literal, so a
//! violated original clause forces its selector true. A totalizer network
//! over the selectors bounds from above how many clauses may be violated,
//! and the driver repeatedly tightens that bound until the decision
//! procedure reports unsatisfiability: the last satisfiable bound is then
//! the minimum number of violated clauses.

pub mod model;
pub mod sat;
pub mod totalizer;

use vstd::prelude::*;

use crate::model::{
    all_clauses_sat, clause_sat, clause_wf, clauses_wf, count_sat, count_true,
    lemma_clause_sat_agree, lemma_count_sat_agree, lemma_count_sat_le_len, lemma_sat_prefix,
    lemma_thermometer, lit_sat, monotone, Lit, Solution,
};
use crate::sat::{
    solver_add_clause, solver_clauses, solver_new, solver_new_var, solver_nvars, solver_solve,
};
use crate::totalizer::{
    gen_totalizer, lemma_contains_prefix, lemma_prefix_push, lemma_prefix_trans, lemma_sat_contains,
    nviews, tree_ext_ok,
};

verus! {

/// A formula in DIMACS shape: either an unweighted CNF, or a weighted
/// formula, which this solver does not support.
#[derive(Clone, Debug)]
pub enum Dimacs {
    /// Unweighted formula.
    Cnf {
        /// Number of variables.
        n_vars: usize,
        /// Clauses.
        clauses: Vec<Vec<Lit>>,
    },
    /// Weighted formula.
    Wcnf {
        /// Number of variables.
        n_vars: usize,
        /// Clauses with their weights.
        clauses: Vec<(Vec<Lit>, u64)>,
        /// Weight marking a hard clause.
        hard_weight: Option<u64>,
    },
}

/// Hard configuration errors.
#[derive(Clone, Copy, PartialEq, Eq, Structural, Debug)]
pub enum Error {
    /// A weighted formula was given where only unweighted is supported.
    UnsupportedFormat,
}

/// An ordinary (and always existing) assignment of the given length.
pub open spec fn all_false(n: nat) -> Seq<bool> {
    Seq::new(n, |i: int| false)
}

/// Every original clause either holds under `asg` or its selector is true,
/// so the satisfied-clause count plus the true-selector count covers all
/// clauses.
pub(crate) proof fn lemma_relax_count(asg: Seq<bool>, origs: Seq<Seq<Lit>>, sels: Seq<Lit>)
    requires
        origs.len() == sels.len(),
        forall|i: int|
            0 <= i < origs.len() ==> clause_sat(asg, (#[trigger] origs[i]).push(sels[i])),
    ensures
        count_sat(asg, origs) + count_true(asg, sels) >= origs.len(),
    decreases origs.len(),
{
    if origs.len() > 0 {
        assert(clause_sat(asg, origs[0].push(sels[0])));
        if !clause_sat(asg, origs[0]) {
            let c = origs[0].push(sels[0]);
            let i = choose|i: int| 0 <= i < c.len() && lit_sat(asg, c[i]);
            if i < origs[0].len() {
                assert(c[i] == origs[0][i]);
                assert(clause_sat(asg, origs[0]));
            } else {
                assert(c[i] == sels[0]);
            }
            assert(lit_sat(asg, sels[0]));
        }
        let o2 = origs.drop_first();
        let s2 = sels.drop_first();
        assert forall|i: int| 0 <= i < o2.len() implies clause_sat(
            asg,
            (#[trigger] o2[i]).push(s2[i]),
        ) by {
            assert(o2[i] == origs[i + 1] && s2[i] == sels[i + 1]);
        }
        lemma_relax_count(asg, o2, s2);
    }
}

/// If some assignment of the problem variables satisfies every clause,
/// an optimal result reports the full clause count: the optimum of a
/// satisfiable formula is the number of its clauses.
pub proof fn lemma_full_satisfaction_is_optimal(
    mm: Seq<bool>,
    origs: Seq<Seq<Lit>>,
    opt: nat,
    wit: Seq<bool>,
    n: nat,
)
    requires
        count_sat(mm, origs) == opt,
        forall|asg: Seq<bool>| asg.len() == n ==> count_sat(asg, origs) <= opt,
        wit.len() == n,
        count_sat(wit, origs) == origs.len(),
    ensures
        opt == origs.len(),
{
    assert(count_sat(wit, origs) <= opt);
    lemma_count_sat_le_len(mm, origs);
}

/// Any two optimal results for the same clause list report the same
/// optimum: each equals the maximum satisfied-clause count over all
/// assignments of the problem variables, so repeated runs agree.
pub proof fn lemma_optimum_deterministic(
    origs: Seq<Seq<Lit>>,
    n: nat,
    mm1: Seq<bool>,
    opt1: nat,
    mm2: Seq<bool>,
    opt2: nat,
)
    requires
        mm1.len() == n,
        count_sat(mm1, origs) == opt1,
        forall|asg: Seq<bool>| asg.len() == n ==> count_sat(asg, origs) <= opt1,
        mm2.len() == n,
        count_sat(mm2, origs) == opt2,
        forall|asg: Seq<bool>| asg.len() == n ==> count_sat(asg, origs) <= opt2,
    ensures
        opt1 == opt2,
{
    assert(count_sat(mm1, origs) <= opt2);
    assert(count_sat(mm2, origs) <= opt1);
}

/// The canonical relaxation assignment: the problem variables as given,
/// and each selector true exactly when its clause is violated.
pub open spec fn relax_ext(asg0: Seq<bool>, origs: Seq<Seq<Lit>>) -> Seq<bool> {
    asg0 + Seq::new(origs.len(), |i: int| !clause_sat(asg0, origs[i]))
}

proof fn lemma_relax_ext_count(
    asg0: Seq<bool>,
    origs: Seq<Seq<Lit>>,
    sels: Seq<Lit>,
    n: nat,
    j: int,
)
    requires
        asg0.len() == n,
        origs.len() == sels.len(),
        0 <= j <= origs.len(),
        forall|k: int|
            0 <= k < sels.len() ==> (#[trigger] sels[k]) == (Lit {
                var: (n + k) as usize,
                neg: false,
            }),
        n + sels.len() <= usize::MAX,
    ensures
        count_true(relax_ext(asg0, origs), sels.skip(j)) + count_sat(asg0, origs.skip(j))
            == origs.len() - j,
    decreases origs.len() - j,
{
    let ext = relax_ext(asg0, origs);
    if j < origs.len() {
        lemma_relax_ext_count(asg0, origs, sels, n, j + 1);
        assert(sels.skip(j).drop_first() =~= sels.skip(j + 1));
        assert(origs.skip(j).drop_first() =~= origs.skip(j + 1));
        assert(sels.skip(j)[0] == sels[j]);
        assert(origs.skip(j)[0] == origs[j]);
        assert(ext[n + j] == !clause_sat(asg0, origs[j]));
        assert(lit_sat(ext, sels[j]) == !clause_sat(asg0, origs[j]));
    } else {
        assert(sels.skip(j) =~= Seq::<Lit>::empty());
        assert(origs.skip(j) =~= Seq::<Seq<Lit>>::empty());
    }
}

/// The canonical relaxation assignment satisfies every relaxed clause,
/// and its true selectors count the violated clauses exactly.
proof fn lemma_relax_ext(asg0: Seq<bool>, origs: Seq<Seq<Lit>>, sels: Seq<Lit>, n: nat)
    requires
        asg0.len() == n,
        origs.len() == sels.len(),
        clauses_wf(origs, n),
        forall|k: int|
            0 <= k < sels.len() ==> (#[trigger] sels[k]) == (Lit {
                var: (n + k) as usize,
                neg: false,
            }),
        n + sels.len() <= usize::MAX,
    ensures
        relax_ext(asg0, origs).len() == n + origs.len(),
        forall|v: int| 0 <= v < n ==> relax_ext(asg0, origs)[v] == asg0[v],
        forall|i: int|
            0 <= i < origs.len() ==> clause_sat(
                relax_ext(asg0, origs),
                (#[trigger] origs[i]).push(sels[i]),
            ),
        count_true(relax_ext(asg0, origs), sels) + count_sat(asg0, origs) == origs.len(),
{
    let ext = relax_ext(asg0, origs);
    assert forall|i: int| 0 <= i < origs.len() implies clause_sat(
        ext,
        (#[trigger] origs[i]).push(sels[i]),
    ) by {
        let c = origs[i].push(sels[i]);
        if clause_sat(asg0, origs[i]) {
            assert(clause_wf(origs[i], n));
            lemma_clause_sat_agree(asg0, ext, origs[i], n);
            let w = choose|w: int| 0 <= w < origs[i].len() && lit_sat(ext, origs[i][w]);
            assert(c[w] == origs[i][w]);
            assert(clause_sat(ext, c));
        } else {
            assert(ext[n + i] == true);
            assert(c[c.len() - 1] == sels[i]);
            assert(lit_sat(ext, sels[i]));
            assert(clause_sat(ext, c));
        }
    }
    lemma_relax_ext_count(asg0, origs, sels, n, 0);
    assert(sels.skip(0) =~= sels);
    assert(origs.skip(0) =~= origs);
}

/// Solve the unweighted MaxSAT problem: return a solution together with
/// the number of satisfied original clauses (the optimum). A weighted
/// formula is rejected with `Error::UnsupportedFormat`. A `Best` solution
/// is an assignment over the first `n_vars` variables that satisfies
/// exactly `optimum` of the given clauses, and no assignment over those
/// variables satisfies more: the reported optimum is the true maximum.
/// On an empty clause list the decision procedure's satisfying answer is
/// passed through with optimum 0; the result is never `Unsat`.
#[verifier::loop_isolation(false)]
pub fn solve(dimacs: Dimacs) -> (r: Result<(Solution, usize), Error>)
    requires
        match dimacs {
            Dimacs::Cnf { n_vars, clauses } => (forall|i: int|
                0 <= i < clauses@.len() ==> (#[trigger] clauses@[i])@.len() >= 1 && clause_wf(
                    clauses@[i]@,
                    n_vars as nat,
                )) && n_vars + clauses@.len() + 2 * clauses@.len() * clauses@.len() <= usize::MAX,
            Dimacs::Wcnf { .. } => true,
        },
    ensures
        match dimacs {
            Dimacs::Cnf { n_vars, clauses } => match r {
                Result::Ok(pair) => {
                    let origs = nviews(clauses@);
                    let m = clauses@.len();
                    pair.1 <= m && match pair.0 {
                        Solution::Best(mm) => m >= 1 && mm@.len() == n_vars && count_sat(
                            mm@,
                            origs,
                        ) == pair.1 && (forall|asg: Seq<bool>|
                            asg.len() == n_vars ==> count_sat(asg, origs) <= pair.1),
                        Solution::Sat(mm) => m == 0 && pair.1 == 0 && mm@.len() == n_vars,
                        Solution::Unknown => false,
                        Solution::Unsat => false,
                    }
                },
                Result::Err(_) => false,
            },
            Dimacs::Wcnf { .. } => r == Result::<(Solution, usize), Error>::Err(
                Error::UnsupportedFormat,
            ),
        },
{
    match dimacs {
        Dimacs::Cnf { n_vars, clauses } => {
            let ghost origs = nviews(clauses@);
            let n_clauses = clauses.len();
            let mut sat_solver = solver_new();

            // allocate the problem variables
            let mut i: usize = 0;
            while i < n_vars
                invariant
                    i <= n_vars,
                    solver_nvars(sat_solver) == i,
                    solver_clauses(sat_solver) == Seq::<Seq<Lit>>::empty(),
                decreases n_vars - i,
            {
                let _v = solver_new_var(&mut sat_solver);
                i = i + 1;
            }

            // relax each clause with a fresh positive selector literal
            let mut sels: Vec<Lit> = Vec::new();
            let mut ci: usize = 0;
            while ci < n_clauses
                invariant
                    ci <= n_clauses,
                    sels@.len() == ci,
                    solver_nvars(sat_solver) == n_vars + ci,
                    forall|k: int|
                        0 <= k < ci ==> (#[trigger] sels@[k]) == (Lit {
                            var: (n_vars + k) as usize,
                            neg: false,
                        }),
                    solver_clauses(sat_solver).len() == ci,
                    forall|k: int|
                        0 <= k < ci ==> solver_clauses(sat_solver)[k] == (#[trigger] origs[k]).push(
                            sels@[k],
                        ),
                decreases n_clauses - ci,
            {
                let sel_var = solver_new_var(&mut sat_solver);
                let sel = Lit::pos(sel_var);
                sels.push(sel);
                let clause = &clauses[ci];
                let cl_len = clause.len();
                let mut rc: Vec<Lit> = Vec::new();
                for tj in 0..cl_len
                    invariant
                        cl_len == clause@.len(),
                        rc@ =~= clause@.take(tj as int),
                {
                    rc.push(clause[tj]);
                    assert(rc@ =~= clause@.take(tj as int + 1));
                }
                assert(rc@ =~= clause@);
                rc.push(sel);
                proof {
                    assert(origs[ci as int] == clause@);
                    assert(clause_wf(clause@, n_vars as nat));
                    assert forall|k: int| 0 <= k < rc@.len() implies (#[trigger] rc@[k]).var
                        < solver_nvars(sat_solver) by {
                        if k < clause@.len() {
                            assert(rc@[k] == clause@[k]);
                        } else {
                            assert(rc@[k] == sel);
                        }
                    }
                }
                solver_add_clause(&mut sat_solver, &rc);
                ci = ci + 1;
            }
            let ghost rel = solver_clauses(sat_solver);

            if n_clauses == 0 {
                let r0 = solver_solve(&mut sat_solver);
                proof {
                    if r0 is Unsat {
                        let wit = all_false(n_vars as nat);
                        assert(wit.len() == solver_nvars(sat_solver));
                        assert(false);
                    }
                }
                return Result::Ok((r0, 0));
            }

            // totalizer over the selectors: its output literal k is forced
            // true whenever more than k selectors are true
            let totalizer_lits = gen_totalizer(&mut sat_solver, &sels);
            let ghost cs_enc = solver_clauses(sat_solver);
            let ghost nvars_enc = solver_nvars(sat_solver);
            let ghost t = totalizer_lits@;

            // the relaxed network is always satisfiable: setting every
            // variable true satisfies each relaxed clause through its
            // selector and each totalizer clause through its parent output
            let ghost wit = Seq::new(nvars_enc, |i: int| true);
            proof {
                assert forall|j: int| 0 <= j < cs_enc.len() implies clause_sat(
                    wit,
                    #[trigger] cs_enc[j],
                ) by {
                    if j < rel.len() {
                        assert(cs_enc[j] == rel[j]);
                        assert(rel[j] == origs[j].push(sels@[j]));
                        assert(rel[j][rel[j].len() - 1] == sels@[j]);
                        assert(sels@[j].var < nvars_enc && !sels@[j].neg);
                        assert(lit_sat(wit, rel[j][rel[j].len() - 1]));
                    } else {
                        let c = cs_enc[j];
                        let i = choose|i: int|
                            0 <= i < c.len() && !(#[trigger] c[i]).neg && c[i].var < nvars_enc;
                        assert(lit_sat(wit, c[i]));
                    }
                }
                assert(all_clauses_sat(wit, cs_enc));
            }

            // first solve: no bound asserted yet, so the answer must be a model
            let sol0 = solver_solve(&mut sat_solver);
            let mut best_model: Vec<bool>;
            match sol0 {
                Solution::Sat(m0) => {
                    best_model = m0;
                },
                _ => {
                    proof {
                        if sol0 is Unsat {
                            assert(wit.len() == nvars_enc);
                            assert(false);
                        }
                    }
                    best_model = Vec::new();
                },
            }
            let mut best_cost: usize = n_clauses;

            // iterative tightening: assert ever-smaller bounds on the number
            // of true selectors until the procedure reports unsatisfiability
            let mut cost: usize = n_clauses;
            let mut done = false;
            while cost > 0 && !done
                invariant
                    cost <= n_clauses,
                    best_cost <= n_clauses,
                    solver_nvars(sat_solver) == nvars_enc,
                    cs_enc.is_prefix_of(solver_clauses(sat_solver)),
                    forall|c2: int|
                        cost <= c2 < n_clauses ==> solver_clauses(sat_solver).contains(
                            seq![(#[trigger] t[c2]).negate()],
                        ),
                    solver_clauses(sat_solver).len() == cs_enc.len() + n_clauses - cost,
                    forall|c2: int|
                        cost <= c2 < n_clauses ==> solver_clauses(sat_solver)[cs_enc.len()
                            + n_clauses - 1 - c2] == seq![(#[trigger] t[c2]).negate()],
                    best_model@.len() == nvars_enc,
                    count_sat(best_model@, origs) + best_cost >= n_clauses,
                    !done ==> best_cost == cost,
                    done ==> (forall|asg0: Seq<bool>|
                        asg0.len() == n_vars ==> count_sat(asg0, origs) <= n_clauses - best_cost),
                decreases cost,
            {
                cost = cost - 1;
                let mut bcl: Vec<Lit> = Vec::new();
                bcl.push(totalizer_lits[cost].negate());
                assert(bcl@ =~= seq![t[cost as int].negate()]);
                let ghost cs_pre = solver_clauses(sat_solver);
                proof {
                    assert(clause_wf(t, nvars_enc));
                    assert(t[cost as int].negate().var == t[cost as int].var);
                }
                solver_add_clause(&mut sat_solver, &bcl);
                proof {
                    lemma_prefix_push(cs_enc, cs_pre, bcl@);
                    assert(solver_clauses(sat_solver).contains(bcl@)) by {
                        assert(solver_clauses(sat_solver)[cs_pre.len() as int] == bcl@);
                    }
                    assert forall|c2: int| cost <= c2 < n_clauses implies solver_clauses(
                        sat_solver,
                    ).contains(seq![(#[trigger] t[c2]).negate()]) by {
                        if c2 > cost {
                            lemma_contains_prefix(
                                cs_pre,
                                solver_clauses(sat_solver),
                                seq![t[c2].negate()],
                            );
                        }
                    }
                    assert forall|c2: int| cost <= c2 < n_clauses implies solver_clauses(
                        sat_solver,
                    )[cs_enc.len() + n_clauses - 1 - c2] == seq![(#[trigger] t[c2]).negate()] by {
                        if c2 == cost {
                            assert(cs_enc.len() + n_clauses - 1 - c2 == cs_pre.len());
                        } else {
                            assert(solver_clauses(sat_solver)[cs_enc.len() + n_clauses - 1 - c2]
                                == cs_pre[cs_enc.len() + n_clauses - 1 - c2]);
                        }
                    }
                }
                let sol = solver_solve(&mut sat_solver);
                match sol {
                    Solution::Sat(model) => {
                        proof {
                            let csn = solver_clauses(sat_solver);
                            lemma_prefix_trans(rel, cs_enc, csn);
                            lemma_sat_prefix(model@, csn, rel);
                            assert forall|i2: int| 0 <= i2 < origs.len() implies clause_sat(
                                model@,
                                (#[trigger] origs[i2]).push(sels@[i2]),
                            ) by {
                                assert(rel[i2] == origs[i2].push(sels@[i2]));
                                assert(clause_sat(model@, rel[i2]));
                            }
                            lemma_relax_count(model@, origs, sels@);
                            lemma_sat_prefix(model@, csn, cs_enc);
                            assert(monotone(model@, t) && count_true(model@, t) >= count_true(
                                model@,
                                sels@,
                            ));
                            lemma_sat_contains(model@, csn, seq![t[cost as int].negate()]);
                            let bc = seq![t[cost as int].negate()];
                            let bi = choose|bi: int| 0 <= bi < bc.len() && lit_sat(model@, bc[bi]);
                            assert(bc[0] == t[cost as int].negate());
                            assert(!lit_sat(model@, t[cost as int]));
                            lemma_thermometer(model@, t);
                            assert(count_true(model@, t) <= cost);
                            assert(count_true(model@, sels@) <= cost);
                        }
                        best_model = model;
                        best_cost = cost;
                    },
                    _ => {
                        // unsatisfiable under the tightened bound: the last
                        // satisfiable bound is optimal, since any assignment
                        // doing better would extend to a model of everything
                        proof {
                            let csn = solver_clauses(sat_solver);
                            assert forall|asg0: Seq<bool>| asg0.len() == n_vars implies count_sat(
                                asg0,
                                origs,
                            ) <= n_clauses - best_cost by {
                                if count_sat(asg0, origs) > n_clauses - best_cost {
                                    let rext = relax_ext(asg0, origs);
                                    lemma_relax_ext(asg0, origs, sels@, n_vars as nat);
                                    assert(rext.len() == n_vars + n_clauses);
                                    let asg2 = choose|asg2: Seq<bool>|
                                        #[trigger] tree_ext_ok(
                                            rext,
                                            asg2,
                                            (n_vars + n_clauses) as nat,
                                            nvars_enc,
                                            cs_enc,
                                            rel.len() as int,
                                            t,
                                            count_true(rext, sels@),
                                        );
                                    assert(count_true(asg2, t) <= cost);
                                    lemma_thermometer(asg2, t);
                                    assert forall|v: int|
                                        0 <= v < n_vars + n_clauses implies rext[v] == asg2[v] by {
                                        assert(asg2.take((n_vars + n_clauses) as int)[v]
                                            == asg2[v]);
                                        assert(asg2.take((n_vars + n_clauses) as int) == rext);
                                    }
                                    assert forall|j: int| 0 <= j < csn.len() implies clause_sat(
                                        asg2,
                                        #[trigger] csn[j],
                                    ) by {
                                        if j < rel.len() {
                                            assert(csn[j] == rel[j]);
                                            assert(rel[j] == origs[j].push(sels@[j]));
                                            assert(clause_sat(rext, origs[j].push(sels@[j])));
                                            let rc = origs[j].push(sels@[j]);
                                            assert(clause_wf(rc, (n_vars + n_clauses) as nat)) by {
                                                assert forall|q: int|
                                                    0 <= q < rc.len() implies (#[trigger] rc[q]).var
                                                    < (n_vars + n_clauses) as nat by {
                                                    if q < origs[j].len() {
                                                        assert(rc[q] == origs[j][q]);
                                                        assert(clause_wf(origs[j], n_vars as nat));
                                                    } else {
                                                        assert(rc[q] == sels@[j]);
                                                    }
                                                }
                                            }
                                            lemma_clause_sat_agree(
                                                rext,
                                                asg2,
                                                rc,
                                                (n_vars + n_clauses) as nat,
                                            );
                                        } else if j < cs_enc.len() {
                                            assert(clause_sat(asg2, cs_enc[j]));
                                            assert(csn[j] == cs_enc[j]);
                                        } else {
                                            let c2 = cs_enc.len() + n_clauses - 1 - j;
                                            assert(j == cs_enc.len() + n_clauses - 1 - c2);
                                            assert(cost <= c2 < n_clauses);
                                            assert(csn[j] == seq![t[c2].negate()]);
                                            assert(!lit_sat(asg2, t[c2]));
                                            assert(lit_sat(asg2, t[c2].negate()));
                                            assert(clause_sat(asg2, csn[j])) by {
                                                assert(csn[j][0] == t[c2].negate());
                                            }
                                        }
                                    }
                                    assert(all_clauses_sat(asg2, csn));
                                    assert(asg2.len() == nvars_enc);
                                    assert(false);
                                }
                            }
                        }
                        done = true;
                    },
                }
            }

            proof {
                if !done {
                    assert(best_cost == 0);
                    assert forall|asg0: Seq<bool>| asg0.len() == n_vars implies count_sat(
                        asg0,
                        origs,
                    ) <= n_clauses - best_cost by {
                        lemma_count_sat_le_len(asg0, origs);
                    }
                }
            }

            // restrict the best model to the problem variables
            let mut mm: Vec<bool> = Vec::new();
            let mut vi: usize = 0;
            while vi < n_vars
                invariant
                    vi <= n_vars,
                    best_model@.len() == nvars_enc,
                    mm@ =~= best_model@.take(vi as int),
                decreases n_vars - vi,
            {
                mm.push(best_model[vi]);
                assert(mm@ =~= best_model@.take(vi as int + 1));
                vi = vi + 1;
            }
            proof {
                assert(mm@ =~= best_model@.take(n_vars as int));
                assert(clauses_wf(origs, n_vars as nat));
                lemma_count_sat_agree(best_model@, mm@, origs, n_vars as nat);
                assert(count_sat(mm@, origs) <= n_clauses - best_cost);
                assert(count_sat(mm@, origs) == n_clauses - best_cost);
            }
            let opt = n_clauses - best_cost;
            Result::Ok((Solution::Best(mm), opt))
        },
        Dimacs::Wcnf { .. } => Result::Err(Error::UnsupportedFormat),
    }
}

} // verus!
