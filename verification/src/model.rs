//! Value model of propositional formulas: literals, clauses, assignments,
//! and the spec-level semantics that the solver contracts speak of.

use vstd::prelude::*;

verus! {

/// A literal: a variable index together with a polarity.
/// `neg == false` is the positive literal of the variable.
#[derive(Clone, Copy, PartialEq, Eq, Structural, Debug)]
pub struct Lit {
    /// Index of the variable, as allocated by the decision procedure.
    pub var: usize,
    /// True for a negated literal.
    pub neg: bool,
}

impl Lit {
    /// The positive literal of variable `var`.
    pub fn pos(var: usize) -> (r: Lit)
        ensures
            r == (Lit { var, neg: false }),
    {
        Lit { var, neg: false }
    }

    /// The negative literal of variable `var`.
    pub fn negative(var: usize) -> (r: Lit)
        ensures
            r == (Lit { var, neg: true }),
    {
        Lit { var, neg: true }
    }

    /// Negation: same variable, flipped polarity.
    pub open spec fn spec_negate(self) -> Lit {
        Lit { var: self.var, neg: !self.neg }
    }

    /// Negation: same variable, flipped polarity.
    #[verifier::when_used_as_spec(spec_negate)]
    pub fn negate(self) -> (r: Lit)
        ensures
            r == self.spec_negate(),
    {
        Lit { var: self.var, neg: !self.neg }
    }
}

/// Outcome of a solve call, mirroring the four outcomes of the
/// decision procedure, with models restricted to plain booleans.
#[derive(Clone, Debug)]
pub enum Solution {
    /// No assignment satisfies the registered clauses.
    Unsat,
    /// Best-effort result: the model of the best bound that was proved satisfiable.
    Best(Vec<bool>),
    /// The registered clauses are satisfiable; the model satisfies them all.
    Sat(Vec<bool>),
    /// The procedure could not decide.
    Unknown,
}

/// Truth of a literal under an assignment (one boolean per variable index).
pub open spec fn lit_sat(asg: Seq<bool>, l: Lit) -> bool {
    if l.neg {
        !asg[l.var as int]
    } else {
        asg[l.var as int]
    }
}

/// Truth of a clause (a disjunction) under an assignment.
pub open spec fn clause_sat(asg: Seq<bool>, c: Seq<Lit>) -> bool {
    exists|i: int| 0 <= i < c.len() && lit_sat(asg, c[i])
}

/// Truth of a whole clause list (a conjunction of disjunctions).
pub open spec fn all_clauses_sat(asg: Seq<bool>, cs: Seq<Seq<Lit>>) -> bool {
    forall|i: int| 0 <= i < cs.len() ==> clause_sat(asg, #[trigger] cs[i])
}

/// Every literal of the clause names a variable below `n`.
pub open spec fn clause_wf(c: Seq<Lit>, n: nat) -> bool {
    forall|i: int| 0 <= i < c.len() ==> (#[trigger] c[i]).var < n
}

/// Every clause of the list is well formed under `n` variables.
pub open spec fn clauses_wf(cs: Seq<Seq<Lit>>, n: nat) -> bool {
    forall|i: int| 0 <= i < cs.len() ==> clause_wf(#[trigger] cs[i], n)
}

/// Number of literals of `s` that are true under `asg`.
pub open spec fn count_true(asg: Seq<bool>, s: Seq<Lit>) -> nat
    decreases s.len(),
{
    if s.len() == 0 {
        0
    } else {
        (if lit_sat(asg, s[0]) {
            1nat
        } else {
            0nat
        }) + count_true(asg, s.drop_first())
    }
}

/// Number of clauses of `cs` that are satisfied under `asg`.
pub open spec fn count_sat(asg: Seq<bool>, cs: Seq<Seq<Lit>>) -> nat
    decreases cs.len(),
{
    if cs.len() == 0 {
        0
    } else {
        (if clause_sat(asg, cs[0]) {
            1nat
        } else {
            0nat
        }) + count_sat(asg, cs.drop_first())
    }
}

/// Thermometer property: a later literal of the sequence is true only
/// if every earlier one is.
pub open spec fn monotone(asg: Seq<bool>, s: Seq<Lit>) -> bool {
    forall|i: int| 1 <= i < s.len() ==> lit_sat(asg, #[trigger] s[i]) ==> lit_sat(asg, s[i - 1])
}

/// The clause holds a positive literal of a variable below `n`.
pub open spec fn has_pos_lit(c: Seq<Lit>, n: nat) -> bool {
    exists|i: int| 0 <= i < c.len() && !(#[trigger] c[i]).neg && c[i].var < n
}

/// A positive literal below `n1` variables is one below `n2 >= n1` too.
pub proof fn lemma_has_pos_mono(c: Seq<Lit>, n1: nat, n2: nat)
    requires
        has_pos_lit(c, n1),
        n1 <= n2,
    ensures
        has_pos_lit(c, n2),
{
    let i = choose|i: int| 0 <= i < c.len() && !(#[trigger] c[i]).neg && c[i].var < n1;
    assert(!c[i].neg && c[i].var < n2);
}

/// Well-formedness under `n1` variables implies it under any `n2 >= n1`.
pub proof fn lemma_clause_wf_mono(c: Seq<Lit>, n1: nat, n2: nat)
    requires
        clause_wf(c, n1),
        n1 <= n2,
    ensures
        clause_wf(c, n2),
{
    assert forall|i: int| 0 <= i < c.len() implies (#[trigger] c[i]).var < n2 by {
        assert(c[i].var < n1);
    }
}

/// A count never exceeds the length of the sequence counted over.
pub proof fn lemma_count_true_le_len(asg: Seq<bool>, s: Seq<Lit>)
    ensures
        count_true(asg, s) <= s.len(),
    decreases s.len(),
{
    if s.len() > 0 {
        lemma_count_true_le_len(asg, s.drop_first());
    }
}

/// In a monotone (thermometer) sequence, the true literals form a prefix
/// whose length is exactly the count of true literals.
pub proof fn lemma_thermometer(asg: Seq<bool>, s: Seq<Lit>)
    requires
        monotone(asg, s),
    ensures
        forall|k: int| 0 <= k < s.len() ==> (lit_sat(asg, #[trigger] s[k]) <==> k < count_true(
            asg,
            s,
        )),
    decreases s.len(),
{
    lemma_count_true_le_len(asg, s);
    if s.len() > 0 {
        let t = s.drop_first();
        assert(forall|i: int| 0 <= i < t.len() ==> t[i] == s[i + 1]);
        assert(monotone(asg, t));
        lemma_thermometer(asg, t);
        if lit_sat(asg, s[0]) {
            assert(count_true(asg, s) == 1 + count_true(asg, t));
            assert forall|k: int| 0 <= k < s.len() implies (lit_sat(asg, #[trigger] s[k]) <==> k
                < count_true(asg, s)) by {
                if k > 0 {
                    assert(s[k] == t[k - 1]);
                }
            }
        } else {
            assert(count_true(asg, s) == count_true(asg, t));
            if t.len() > 0 {
                assert(t[0] == s[1]);
                assert(!lit_sat(asg, s[1]));
                assert(count_true(asg, t) == 0) by {
                    if count_true(asg, t) > 0 {
                        assert(lit_sat(asg, t[0]));
                    }
                }
            }
            assert forall|k: int| 0 <= k < s.len() implies (lit_sat(asg, #[trigger] s[k]) <==> k
                < count_true(asg, s)) by {
                if k > 0 {
                    assert(s[k] == t[k - 1]);
                    assert(!(k - 1 < count_true(asg, t)));
                }
            }
        }
    }
}

/// Counting distributes over concatenation.
pub proof fn lemma_count_true_add(asg: Seq<bool>, a: Seq<Lit>, b: Seq<Lit>)
    ensures
        count_true(asg, a + b) == count_true(asg, a) + count_true(asg, b),
    decreases a.len(),
{
    if a.len() == 0 {
        assert(a + b =~= b);
    } else {
        assert((a + b).drop_first() =~= a.drop_first() + b);
        assert((a + b)[0] == a[0]);
        lemma_count_true_add(asg, a.drop_first(), b);
    }
}

/// An assignment satisfying a clause list satisfies every prefix of it.
pub proof fn lemma_sat_prefix(asg: Seq<bool>, cs: Seq<Seq<Lit>>, pre: Seq<Seq<Lit>>)
    requires
        pre.is_prefix_of(cs),
        all_clauses_sat(asg, cs),
    ensures
        all_clauses_sat(asg, pre),
{
    assert forall|i: int| 0 <= i < pre.len() implies clause_sat(asg, #[trigger] pre[i]) by {
        assert(pre[i] == cs[i]);
    }
}

/// All clauses of the list from index `from` on hold under `asg`.
pub open spec fn sat_from(asg: Seq<bool>, cs: Seq<Seq<Lit>>, from: int) -> bool {
    forall|j: int| from <= j < cs.len() ==> clause_sat(asg, #[trigger] cs[j])
}

/// A satisfied-clause count never exceeds the number of clauses.
pub proof fn lemma_count_sat_le_len(asg: Seq<bool>, cs: Seq<Seq<Lit>>)
    ensures
        count_sat(asg, cs) <= cs.len(),
    decreases cs.len(),
{
    if cs.len() > 0 {
        lemma_count_sat_le_len(asg, cs.drop_first());
    }
}

/// Two assignments that agree below `n` give literals of variables
/// below `n` the same truth, hence the same counts and thermometer shape.
pub proof fn lemma_count_true_agree(a1: Seq<bool>, a2: Seq<bool>, s: Seq<Lit>, n: nat)
    requires
        clause_wf(s, n),
        forall|v: int| 0 <= v < n ==> a1[v] == a2[v],
    ensures
        count_true(a1, s) == count_true(a2, s),
        monotone(a1, s) == monotone(a2, s),
{
    assert forall|i: int| 0 <= i < s.len() implies lit_sat(a1, #[trigger] s[i]) == lit_sat(
        a2,
        s[i],
    ) by {
        assert(s[i].var < n);
    }
    lemma_count_true_agree_rec(a1, a2, s, n);
}

proof fn lemma_count_true_agree_rec(a1: Seq<bool>, a2: Seq<bool>, s: Seq<Lit>, n: nat)
    requires
        clause_wf(s, n),
        forall|v: int| 0 <= v < n ==> a1[v] == a2[v],
    ensures
        count_true(a1, s) == count_true(a2, s),
    decreases s.len(),
{
    if s.len() > 0 {
        assert(s[0].var < n);
        assert(clause_wf(s.drop_first(), n)) by {
            assert(forall|i: int| 0 <= i < s.drop_first().len() ==> s.drop_first()[i] == s[i + 1]);
        }
        lemma_count_true_agree_rec(a1, a2, s.drop_first(), n);
    }
}

/// A sequence of literals that are true exactly below index `c` is a
/// thermometer whose count is `c`.
pub proof fn lemma_thermo_shape(asg: Seq<bool>, p: Seq<Lit>, c: int)
    requires
        0 <= c <= p.len(),
        forall|k: int| 0 <= k < p.len() ==> (lit_sat(asg, #[trigger] p[k]) <==> k < c),
    ensures
        monotone(asg, p),
        count_true(asg, p) == c,
{
    assert(monotone(asg, p));
    lemma_thermometer(asg, p);
    lemma_count_true_le_len(asg, p);
    let cnt = count_true(asg, p) as int;
    if cnt < c {
        assert(lit_sat(asg, p[cnt]));
    }
    if cnt > c {
        assert(lit_sat(asg, p[c]));
    }
}

/// Two assignments that agree below `n` satisfy the same clauses
/// among those well formed under `n` variables.
pub proof fn lemma_clause_sat_agree(a1: Seq<bool>, a2: Seq<bool>, c: Seq<Lit>, n: nat)
    requires
        clause_wf(c, n),
        forall|v: int| 0 <= v < n ==> a1[v] == a2[v],
    ensures
        clause_sat(a1, c) == clause_sat(a2, c),
{
    assert forall|i: int| 0 <= i < c.len() implies lit_sat(a1, c[i]) == lit_sat(a2, c[i]) by {
        assert(c[i].var < n);
    }
    if clause_sat(a1, c) {
        let i = choose|i: int| 0 <= i < c.len() && lit_sat(a1, c[i]);
        assert(lit_sat(a2, c[i]));
    }
    if clause_sat(a2, c) {
        let i = choose|i: int| 0 <= i < c.len() && lit_sat(a2, c[i]);
        assert(lit_sat(a1, c[i]));
    }
}

/// Satisfied-clause counts coincide for assignments that agree below `n`,
/// over clauses well formed under `n` variables.
pub proof fn lemma_count_sat_agree(a1: Seq<bool>, a2: Seq<bool>, cs: Seq<Seq<Lit>>, n: nat)
    requires
        clauses_wf(cs, n),
        forall|v: int| 0 <= v < n ==> a1[v] == a2[v],
    ensures
        count_sat(a1, cs) == count_sat(a2, cs),
    decreases cs.len(),
{
    if cs.len() > 0 {
        lemma_clause_sat_agree(a1, a2, cs[0], n);
        assert(clauses_wf(cs.drop_first(), n)) by {
            assert(forall|i: int|
                0 <= i < cs.drop_first().len() ==> cs.drop_first()[i] == cs[i + 1]);
        }
        lemma_count_sat_agree(a1, a2, cs.drop_first(), n);
    }
}

} // verus!
