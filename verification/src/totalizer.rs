//! Totalizer cardinality network.
//!
//! Given a sequence of unit literals, the encoder registers implication
//! clauses with the decision procedure and returns a thermometer-ordered
//! output sequence: under every assignment that satisfies the registered
//! clauses, output truth is monotone and the number of true outputs is at
//! least the number of true inputs.

use vstd::prelude::*;

use crate::model::{
    all_clauses_sat, clause_sat, clause_wf, count_true, has_pos_lit, lemma_clause_sat_agree,
    lemma_clause_wf_mono, lemma_count_true_add, lemma_count_true_agree, lemma_count_true_le_len,
    lemma_has_pos_mono, lemma_sat_prefix, lemma_thermo_shape, lemma_thermometer, lit_sat, monotone,
    sat_from, Lit,
};
use crate::sat::{solver_add_clause, solver_clauses, solver_new_var, solver_nvars};
use vstd::arithmetic::div_mod::{lemma_fundamental_div_mod, lemma_fundamental_div_mod_converse};

verus! {

/// The views of a list of literal vectors.
pub open spec fn nviews(v: Seq<Vec<Lit>>) -> Seq<Seq<Lit>> {
    v.map_values(|x: Vec<Lit>| x@)
}

/// Sum of the lengths of the nodes.
pub open spec fn total_len(nodes: Seq<Seq<Lit>>) -> nat
    decreases nodes.len(),
{
    if nodes.len() == 0 {
        0
    } else {
        nodes[0].len() + total_len(nodes.drop_first())
    }
}

/// Sum over the nodes of the number of true literals under `asg`.
pub open spec fn sum_counts(asg: Seq<bool>, nodes: Seq<Seq<Lit>>) -> nat
    decreases nodes.len(),
{
    if nodes.len() == 0 {
        0
    } else {
        count_true(asg, nodes[0]) + sum_counts(asg, nodes.drop_first())
    }
}

/// Every node of the list is a thermometer under `asg`.
pub open spec fn all_nodes_monotone(asg: Seq<bool>, nodes: Seq<Seq<Lit>>) -> bool {
    forall|i: int| 0 <= i < nodes.len() ==> monotone(asg, #[trigger] nodes[i])
}

proof fn lemma_total_len_push(nodes: Seq<Seq<Lit>>, x: Seq<Lit>)
    ensures
        total_len(nodes.push(x)) == total_len(nodes) + x.len(),
    decreases nodes.len(),
{
    if nodes.len() == 0 {
        assert(nodes.push(x)[0] == x);
        assert(nodes.push(x).drop_first() =~= Seq::<Seq<Lit>>::empty());
        assert(total_len(Seq::<Seq<Lit>>::empty()) == 0);
    } else {
        assert(nodes.push(x).drop_first() =~= nodes.drop_first().push(x));
        assert(nodes.push(x)[0] == nodes[0]);
        lemma_total_len_push(nodes.drop_first(), x);
    }
}

proof fn lemma_sum_counts_push(asg: Seq<bool>, nodes: Seq<Seq<Lit>>, x: Seq<Lit>)
    ensures
        sum_counts(asg, nodes.push(x)) == sum_counts(asg, nodes) + count_true(asg, x),
    decreases nodes.len(),
{
    if nodes.len() == 0 {
        assert(nodes.push(x)[0] == x);
        assert(nodes.push(x).drop_first() =~= Seq::<Seq<Lit>>::empty());
        assert(sum_counts(asg, Seq::<Seq<Lit>>::empty()) == 0);
    } else {
        assert(nodes.push(x).drop_first() =~= nodes.drop_first().push(x));
        assert(nodes.push(x)[0] == nodes[0]);
        lemma_sum_counts_push(asg, nodes.drop_first(), x);
    }
}

/// Peeling one node off the unprocessed tail of a level.
proof fn lemma_level_skip_step(nodes: Seq<Seq<Lit>>, i: int)
    requires
        0 <= i < nodes.len(),
    ensures
        total_len(nodes.skip(i)) == nodes[i].len() + total_len(nodes.skip(i + 1)),
        forall|asg: Seq<bool>| #[trigger] sum_counts(asg, nodes.skip(i)) == count_true(
            asg,
            nodes[i],
        ) + sum_counts(asg, nodes.skip(i + 1)),
{
    assert(nodes.skip(i).drop_first() =~= nodes.skip(i + 1));
    assert(nodes.skip(i)[0] == nodes[i]);
}

pub(crate) proof fn lemma_prefix_trans(a: Seq<Seq<Lit>>, b: Seq<Seq<Lit>>, c: Seq<Seq<Lit>>)
    requires
        a.is_prefix_of(b),
        b.is_prefix_of(c),
    ensures
        a.is_prefix_of(c),
{
    assert forall|i: int| 0 <= i < a.len() implies a[i] == c[i] by {
        assert(a[i] == b[i]);
    }
    assert(a =~= c.subrange(0, a.len() as int));
}

/// The assignment extended with a thermometer block: `len` further
/// positions, true exactly below `c`.
pub open spec fn ext_thermo(asg: Seq<bool>, len: int, c: int) -> Seq<bool> {
    asg + Seq::new(len as nat, |k: int| k < c)
}

/// The canonical extension for a merge: parent outputs counting the
/// children's true literals together.
pub open spec fn merge_ext(asg: Seq<bool>, a: Seq<Lit>, b: Seq<Lit>) -> Seq<bool> {
    ext_thermo(asg, (a.len() + b.len()) as int, (count_true(asg, a) + count_true(asg, b)) as int)
}

/// An input assignment a merge extension starts from: it covers exactly
/// the variables allocated before the merge and both children are
/// thermometers under it.
pub open spec fn merge_pre(asg: Seq<bool>, a: Seq<Lit>, b: Seq<Lit>, n0: nat) -> bool {
    asg.len() == n0 && monotone(asg, a) && monotone(asg, b)
}

/// What the canonical merge extension looks like: it agrees with the
/// input below the parent block, leaves the children's counts and shape
/// unchanged, and gives the parent the exact combined count.
proof fn lemma_merge_ext_facts(asg: Seq<bool>, a: Seq<Lit>, b: Seq<Lit>, p: Seq<Lit>, n0: nat)
    requires
        merge_pre(asg, a, b, n0),
        clause_wf(a, n0),
        clause_wf(b, n0),
        p.len() == a.len() + b.len(),
        forall|k: int|
            0 <= k < p.len() ==> (#[trigger] p[k]) == (Lit { var: (n0 + k) as usize, neg: false }),
        n0 + p.len() <= usize::MAX,
    ensures
        merge_ext(asg, a, b).len() == n0 + p.len(),
        forall|v: int| 0 <= v < n0 ==> merge_ext(asg, a, b)[v] == asg[v],
        count_true(merge_ext(asg, a, b), a) == count_true(asg, a),
        count_true(merge_ext(asg, a, b), b) == count_true(asg, b),
        monotone(merge_ext(asg, a, b), a),
        monotone(merge_ext(asg, a, b), b),
        forall|k: int|
            0 <= k < p.len() ==> (lit_sat(merge_ext(asg, a, b), #[trigger] p[k]) <==> k
                < count_true(asg, a) + count_true(asg, b)),
        monotone(merge_ext(asg, a, b), p),
        count_true(merge_ext(asg, a, b), p) == count_true(asg, a) + count_true(asg, b),
{
    let ext = merge_ext(asg, a, b);
    let c = (count_true(asg, a) + count_true(asg, b)) as int;
    assert(forall|v: int| 0 <= v < n0 ==> ext[v] == asg[v]);
    lemma_count_true_agree(asg, ext, a, n0);
    lemma_count_true_agree(asg, ext, b, n0);
    lemma_count_true_le_len(asg, a);
    lemma_count_true_le_len(asg, b);
    assert forall|k: int| 0 <= k < p.len() implies (lit_sat(ext, #[trigger] p[k]) <==> k < c) by {
        assert(p[k] == (Lit { var: (n0 + k) as usize, neg: false }));
        assert(ext[n0 + k] == (k < c));
    }
    lemma_thermo_shape(ext, p, c);
}

/// What a level (or the whole tree) promises of a canonical extension:
/// it extends the given assignment over the fresh variables, satisfies
/// the clauses registered from `from` on, and makes every node a
/// thermometer whose counts sum to `total`.
pub open spec fn level_ext_ok(
    asg: Seq<bool>,
    asg2: Seq<bool>,
    n_in: nat,
    n_out: nat,
    cs: Seq<Seq<Lit>>,
    from: int,
    outs: Seq<Seq<Lit>>,
    total: nat,
) -> bool {
    asg2.len() == n_out && asg2.take(n_in as int) == asg && sat_from(asg2, cs, from)
        && all_nodes_monotone(asg2, outs) && sum_counts(asg2, outs) == total
}

/// What the whole totalizer promises of a canonical extension: it
/// extends the given assignment over the fresh variables, satisfies the
/// registered totalizer clauses, and the output is a thermometer whose
/// count is exactly `total`.
pub open spec fn tree_ext_ok(
    asg: Seq<bool>,
    asg2: Seq<bool>,
    n_in: nat,
    n_out: nat,
    cs: Seq<Seq<Lit>>,
    from: int,
    t: Seq<Lit>,
    total: nat,
) -> bool {
    asg2.len() == n_out && asg2.take(n_in as int) == asg && sat_from(asg2, cs, from) && monotone(
        asg2,
        t,
    ) && count_true(asg2, t) == total
}

/// Node counts agree under assignments that agree below `n`, for nodes
/// well formed under `n`.
proof fn lemma_sum_counts_agree(a1: Seq<bool>, a2: Seq<bool>, nodes: Seq<Seq<Lit>>, n: nat)
    requires
        forall|i: int| 0 <= i < nodes.len() ==> clause_wf(#[trigger] nodes[i], n),
        forall|v: int| 0 <= v < n ==> a1[v] == a2[v],
    ensures
        sum_counts(a1, nodes) == sum_counts(a2, nodes),
    decreases nodes.len(),
{
    if nodes.len() > 0 {
        lemma_count_true_agree(a1, a2, nodes[0], n);
        assert(forall|i: int|
            0 <= i < nodes.drop_first().len() ==> nodes.drop_first()[i] == nodes[i + 1]);
        lemma_sum_counts_agree(a1, a2, nodes.drop_first(), n);
    }
}

/// The implication clause `!x \/ y`.
pub open spec fn imp1(x: Lit, y: Lit) -> Seq<Lit> {
    seq![x.negate(), y]
}

/// The implication clause `!x \/ !y \/ z`.
pub open spec fn imp2(x: Lit, y: Lit, z: Lit) -> Seq<Lit> {
    seq![x.negate(), y.negate(), z]
}

/// A satisfied `!x \/ y` clause propagates truth from `x` to `y`.
proof fn lemma_imp1_sem(asg: Seq<bool>, x: Lit, y: Lit)
    requires
        clause_sat(asg, imp1(x, y)),
        lit_sat(asg, x),
    ensures
        lit_sat(asg, y),
{
    let c = imp1(x, y);
    let i = choose|i: int| 0 <= i < c.len() && lit_sat(asg, c[i]);
    assert(c[0] == x.negate() && c[1] == y);
}

/// A satisfied `!x \/ !y \/ z` clause propagates joint truth of `x`, `y` to `z`.
proof fn lemma_imp2_sem(asg: Seq<bool>, x: Lit, y: Lit, z: Lit)
    requires
        clause_sat(asg, imp2(x, y, z)),
        lit_sat(asg, x),
        lit_sat(asg, y),
    ensures
        lit_sat(asg, z),
{
    let c = imp2(x, y, z);
    let i = choose|i: int| 0 <= i < c.len() && lit_sat(asg, c[i]);
    assert(c[0] == x.negate() && c[1] == y.negate() && c[2] == z);
}

/// The implication family of one child: truth of `xs[i]` forces at
/// least `i + 1` true parent outputs.
pub open spec fn imp1_row(xs: Seq<Lit>, p: Seq<Lit>) -> Seq<Seq<Lit>> {
    Seq::new(xs.len(), |i: int| imp1(xs[i], p[i]))
}

/// The joint implication family: `a[i]` and `b[j]` true together force
/// at least `i + j + 2` true parent outputs, in row-major order.
pub open spec fn imp2_grid(a: Seq<Lit>, b: Seq<Lit>, p: Seq<Lit>) -> Seq<Seq<Lit>> {
    Seq::new(
        a.len() * b.len(),
        |q: int|
            imp2(
                a[q / (b.len() as int)],
                b[q % (b.len() as int)],
                p[q / (b.len() as int) + q % (b.len() as int) + 1],
            ),
    )
}

/// The thermometer family: parent output `k` forces output `k - 1`.
pub open spec fn mono_row(p: Seq<Lit>) -> Seq<Seq<Lit>> {
    Seq::new(if p.len() == 0 { 0 } else { (p.len() - 1) as nat }, |k: int| imp1(p[k + 1], p[k]))
}

/// All clauses one merge registers, in registration order: both child
/// implication families, the joint family, and the thermometer family.
pub open spec fn merge_clauses(a: Seq<Lit>, b: Seq<Lit>, p: Seq<Lit>) -> Seq<Seq<Lit>> {
    imp1_row(a, p) + imp1_row(b, p) + imp2_grid(a, b, p) + mono_row(p)
}

/// A prefix of a clause list stays a prefix after another clause is appended.
pub(crate) proof fn lemma_prefix_push(pre: Seq<Seq<Lit>>, cs: Seq<Seq<Lit>>, c: Seq<Lit>)
    requires
        pre.is_prefix_of(cs),
    ensures
        pre.is_prefix_of(cs.push(c)),
{
    assert(cs.push(c).subrange(0, pre.len() as int) =~= cs.subrange(0, pre.len() as int));
}

/// A clause found in a prefix is found in the whole list.
pub(crate) proof fn lemma_contains_prefix(pre: Seq<Seq<Lit>>, cs: Seq<Seq<Lit>>, c: Seq<Lit>)
    requires
        pre.is_prefix_of(cs),
        pre.contains(c),
    ensures
        cs.contains(c),
{
    let i = choose|i: int| 0 <= i < pre.len() && pre[i] == c;
    assert(cs[i] == c);
}

/// An assignment satisfying a clause list satisfies every member of it.
pub(crate) proof fn lemma_sat_contains(asg: Seq<bool>, cs: Seq<Seq<Lit>>, c: Seq<Lit>)
    requires
        all_clauses_sat(asg, cs),
        cs.contains(c),
    ensures
        clause_sat(asg, c),
{
    let i = choose|i: int| 0 <= i < cs.len() && cs[i] == c;
    assert(clause_sat(asg, cs[i]));
}

/// All clauses one level registers: the merge families of each pair of
/// nodes, in pair order; a leftover odd node registers nothing.
pub open spec fn pairs_clauses(inv: Seq<Seq<Lit>>, outv: Seq<Seq<Lit>>) -> Seq<Seq<Lit>>
    decreases inv.len(),
{
    if inv.len() <= 1 || outv.len() == 0 {
        Seq::empty()
    } else {
        merge_clauses(inv[0], inv[1], outv[0]) + pairs_clauses(inv.skip(2), outv.skip(1))
    }
}

/// Appending one fully merged pair to a level appends its merge clauses.
proof fn lemma_pairs_clauses_snoc2(
    inv0: Seq<Seq<Lit>>,
    a: Seq<Lit>,
    b: Seq<Lit>,
    outv0: Seq<Seq<Lit>>,
    p: Seq<Lit>,
)
    requires
        inv0.len() == 2 * outv0.len(),
    ensures
        pairs_clauses(inv0 + seq![a, b], outv0.push(p)) =~= pairs_clauses(inv0, outv0)
            + merge_clauses(a, b, p),
    decreases inv0.len(),
{
    let ivx = inv0 + seq![a, b];
    let ovx = outv0.push(p);
    if inv0.len() == 0 {
        assert(ivx[0] == a && ivx[1] == b);
        assert(ovx[0] == p);
        assert(ivx.skip(2) =~= Seq::<Seq<Lit>>::empty());
        assert(ovx.skip(1) =~= Seq::<Seq<Lit>>::empty());
        assert(pairs_clauses(ivx.skip(2), ovx.skip(1)) =~= Seq::<Seq<Lit>>::empty());
        assert(pairs_clauses(inv0, outv0) =~= Seq::<Seq<Lit>>::empty());
        assert(pairs_clauses(ivx, ovx) =~= merge_clauses(a, b, p));
    } else {
        assert(ivx[0] == inv0[0] && ivx[1] == inv0[1]);
        assert(ovx[0] == outv0[0]);
        assert(ivx.skip(2) =~= inv0.skip(2) + seq![a, b]);
        assert(ovx.skip(1) =~= outv0.skip(1).push(p));
        lemma_pairs_clauses_snoc2(inv0.skip(2), a, b, outv0.skip(1), p);
        assert(pairs_clauses(ivx, ovx) =~= merge_clauses(inv0[0], inv0[1], outv0[0]) + (
        pairs_clauses(inv0.skip(2), outv0.skip(1)) + merge_clauses(a, b, p)));
        assert(merge_clauses(inv0[0], inv0[1], outv0[0]) + (pairs_clauses(
            inv0.skip(2),
            outv0.skip(1),
        ) + merge_clauses(a, b, p)) =~= pairs_clauses(inv0, outv0) + merge_clauses(a, b, p));
    }
}

/// Appending the leftover odd node to a level registers nothing.
proof fn lemma_pairs_clauses_snoc1(
    inv0: Seq<Seq<Lit>>,
    x: Seq<Lit>,
    outv0: Seq<Seq<Lit>>,
    xc: Seq<Lit>,
)
    requires
        inv0.len() == 2 * outv0.len(),
    ensures
        pairs_clauses(inv0 + seq![x], outv0.push(xc)) =~= pairs_clauses(inv0, outv0),
    decreases inv0.len(),
{
    let ivx = inv0 + seq![x];
    let ovx = outv0.push(xc);
    if inv0.len() == 0 {
        assert(ivx.len() == 1);
        assert(pairs_clauses(ivx, ovx) =~= Seq::<Seq<Lit>>::empty());
        assert(pairs_clauses(inv0, outv0) =~= Seq::<Seq<Lit>>::empty());
    } else {
        assert(ivx[0] == inv0[0] && ivx[1] == inv0[1]);
        assert(ovx[0] == outv0[0]);
        assert(ivx.skip(2) =~= inv0.skip(2) + seq![x]);
        assert(ovx.skip(1) =~= outv0.skip(1).push(xc));
        lemma_pairs_clauses_snoc1(inv0.skip(2), x, outv0.skip(1), xc);
        assert(pairs_clauses(ivx, ovx) =~= merge_clauses(inv0[0], inv0[1], outv0[0])
            + pairs_clauses(inv0.skip(2), outv0.skip(1)));
        assert(merge_clauses(inv0[0], inv0[1], outv0[0]) + pairs_clauses(
            inv0.skip(2),
            outv0.skip(1),
        ) =~= pairs_clauses(inv0, outv0));
    }
}

/// Merge two thermometer nodes `a` and `b` into a fresh parent node of
/// length `|a| + |b|`, registering the totalizer implication clauses:
/// truth of `a[i]` (at least `i + 1` true inputs on the left) or of
/// `b[j]` lifts the parent count accordingly, and the parent is forced
/// monotone. Under every assignment satisfying the registered clauses,
/// if both children are thermometers then so is the parent, and the
/// parent counts at least the children's counts together.
fn merge_nodes(s: &mut rsat::cdcl::Solver, a: &Vec<Lit>, b: &Vec<Lit>) -> (p: Vec<Lit>)
    requires
        a@.len() >= 1,
        b@.len() >= 1,
        clause_wf(a@, solver_nvars(*old(s))),
        clause_wf(b@, solver_nvars(*old(s))),
        solver_nvars(*old(s)) + a@.len() + b@.len() <= usize::MAX,
    ensures
        p@.len() == a@.len() + b@.len(),
        solver_nvars(*final(s)) == solver_nvars(*old(s)) + a@.len() + b@.len(),
        solver_clauses(*old(s)).is_prefix_of(solver_clauses(*final(s))),
        clause_wf(p@, solver_nvars(*final(s))),
        forall|k: int|
            0 <= k < p@.len() ==> (#[trigger] p@[k]).var >= solver_nvars(*old(s)) && !p@[k].neg,
        forall|j: int|
            solver_clauses(*old(s)).len() <= j < solver_clauses(*final(s)).len() ==> has_pos_lit(
                #[trigger] solver_clauses(*final(s))[j],
                solver_nvars(*final(s)),
            ),
        forall|j: int|
            solver_clauses(*old(s)).len() <= j < solver_clauses(*final(s)).len() ==> clause_wf(
                #[trigger] solver_clauses(*final(s))[j],
                solver_nvars(*final(s)),
            ),
        solver_clauses(*final(s)) == solver_clauses(*old(s)) + merge_clauses(a@, b@, p@),
        solver_clauses(*final(s)).len() == solver_clauses(*old(s)).len() + a@.len() + b@.len()
            + a@.len() * b@.len() + (a@.len() + b@.len() - 1),
        forall|asg: Seq<bool>|
            #[trigger] merge_pre(asg, a@, b@, solver_nvars(*old(s))) ==> (sat_from(
                merge_ext(asg, a@, b@),
                solver_clauses(*final(s)),
                solver_clauses(*old(s)).len() as int,
            ) && merge_ext(asg, a@, b@).len() == solver_nvars(*final(s)) && (forall|v: int|
                0 <= v < asg.len() ==> merge_ext(asg, a@, b@)[v] == asg[v]) && monotone(
                merge_ext(asg, a@, b@),
                p@,
            ) && count_true(merge_ext(asg, a@, b@), p@) == count_true(asg, a@) + count_true(
                asg,
                b@,
            )),
        forall|asg: Seq<bool>|
            #[trigger] all_clauses_sat(asg, solver_clauses(*final(s))) ==> ((monotone(asg, a@)
                && monotone(asg, b@)) ==> (monotone(asg, p@) && count_true(asg, p@) >= count_true(
                asg,
                a@,
            ) + count_true(asg, b@))),
{
    let ghost nvars0 = solver_nvars(*s);
    let ghost cs0 = solver_clauses(*s);
    let a_len = a.len();
    let b_len = b.len();
    let p_len = a_len + b_len;

    let mut p: Vec<Lit> = Vec::new();
    for k in 0..p_len
        invariant
            p_len == a@.len() + b@.len(),
            nvars0 + p_len <= usize::MAX,
            p@.len() == k,
            solver_nvars(*s) == nvars0 + k,
            solver_clauses(*s) == cs0,
            forall|k2: int|
                0 <= k2 < k ==> (#[trigger] p@[k2]) == (Lit { var: (nvars0 + k2) as usize, neg: false }),
    {
        let v = solver_new_var(s);
        p.push(Lit::pos(v));
    }
    assert(forall|k2: int| 0 <= k2 < p@.len() ==> (#[trigger] p@[k2]).var >= nvars0 && !p@[k2].neg);
    assert(clause_wf(p@, solver_nvars(*s)));
    let ghost nv = solver_nvars(*s);
    assert(clause_wf(a@, nv) && clause_wf(b@, nv));
    proof {
        assert(solver_clauses(*s) =~= cs0 + imp1_row(a@, p@).take(0));
    }

    // Truth of a[i] implies at least i + 1 true parent outputs.
    for i in 0..a_len
        invariant
            a_len == a@.len(),
            p@.len() == a@.len() + b@.len(),
            solver_nvars(*s) == nv,
            clause_wf(a@, nv),
            clause_wf(b@, nv),
            clause_wf(p@, nv),
            forall|k2: int| 0 <= k2 < p@.len() ==> !(#[trigger] p@[k2]).neg,
            forall|k2: int|
                0 <= k2 < p@.len() ==> (#[trigger] p@[k2]) == (Lit {
                    var: (nvars0 + k2) as usize,
                    neg: false,
                }),
            nvars0 + p_len <= usize::MAX,
            clause_wf(a@, nvars0),
            clause_wf(b@, nvars0),
            p_len == p@.len(),
            nv == nvars0 + p_len,
            forall|asg: Seq<bool>|
                #[trigger] merge_pre(asg, a@, b@, nvars0) ==> sat_from(
                    merge_ext(asg, a@, b@),
                    solver_clauses(*s),
                    cs0.len() as int,
                ),
            forall|j: int|
                cs0.len() <= j < solver_clauses(*s).len() ==> has_pos_lit(
                    #[trigger] solver_clauses(*s)[j],
                    nv,
                ),
            forall|j: int|
                cs0.len() <= j < solver_clauses(*s).len() ==> clause_wf(
                    #[trigger] solver_clauses(*s)[j],
                    nv,
                ),
            cs0.is_prefix_of(solver_clauses(*s)),
            solver_clauses(*s) == cs0 + imp1_row(a@, p@).take(i as int),
            forall|i2: int|
                0 <= i2 < i ==> #[trigger] solver_clauses(*s).contains(imp1(a@[i2], p@[i2])),
    {
        let mut cl: Vec<Lit> = Vec::new();
        cl.push(a[i].negate());
        cl.push(p[i]);
        assert(cl@ =~= imp1(a@[i as int], p@[i as int]));
        let ghost pre = solver_clauses(*s);
        solver_add_clause(s, &cl);
        proof {
            lemma_prefix_push(cs0, pre, cl@);
            assert forall|asg: Seq<bool>| #[trigger] merge_pre(asg, a@, b@, nvars0) implies sat_from(
                merge_ext(asg, a@, b@),
                solver_clauses(*s),
                cs0.len() as int,
            ) by {
                let ext = merge_ext(asg, a@, b@);
                lemma_merge_ext_facts(asg, a@, b@, p@, nvars0);
            lemma_thermometer(ext, a@);
            if lit_sat(ext, a@[i as int]) {
                assert(lit_sat(ext, p@[i as int]));
                assert(lit_sat(ext, cl@[1]));
            } else {
                assert(lit_sat(ext, cl@[0]));
            }
                assert(clause_sat(ext, cl@));
                assert forall|j9: int| cs0.len() <= j9 < solver_clauses(*s).len() implies clause_sat(
                    ext,
                    #[trigger] solver_clauses(*s)[j9],
                ) by {
                    if j9 < pre.len() {
                        assert(solver_clauses(*s)[j9] == pre[j9]);
                        assert(clause_sat(ext, pre[j9]));
                    } else {
                        assert(solver_clauses(*s)[j9] == cl@);
                    }
                }
            }
            assert(has_pos_lit(cl@, nv)) by {
                assert(!cl@[1].neg && cl@[1].var < nv);
            }
            assert forall|j: int| cs0.len() <= j < solver_clauses(*s).len() implies has_pos_lit(
                #[trigger] solver_clauses(*s)[j],
                nv,
            ) by {
                if j < pre.len() {
                    assert(solver_clauses(*s)[j] == pre[j]);
                } else {
                    assert(solver_clauses(*s)[j] == cl@);
                }
            }
            assert(clause_wf(cl@, nv)) by {
                assert forall|q: int| 0 <= q < cl@.len() implies (#[trigger] cl@[q]).var < nv by {
                }
            }
            assert forall|j8: int| cs0.len() <= j8 < solver_clauses(*s).len() implies clause_wf(
                #[trigger] solver_clauses(*s)[j8],
                nv,
            ) by {
                if j8 < pre.len() {
                    assert(solver_clauses(*s)[j8] == pre[j8]);
                } else {
                    assert(solver_clauses(*s)[j8] == cl@);
                }
            }
            assert(pre.is_prefix_of(solver_clauses(*s)));
            assert(imp1_row(a@, p@)[i as int] == cl@);
            assert(solver_clauses(*s) =~= cs0 + imp1_row(a@, p@).take(i as int + 1));
            assert(solver_clauses(*s).contains(cl@)) by {
                assert(solver_clauses(*s)[pre.len() as int] == cl@);
            }
            assert forall|i2: int| 0 <= i2 < i + 1 implies #[trigger] solver_clauses(*s).contains(
                imp1(a@[i2], p@[i2]),
            ) by {
                if i2 < i {
                    lemma_contains_prefix(pre, solver_clauses(*s), imp1(a@[i2], p@[i2]));
                }
            }
        }
    }

        proof {
        assert(imp1_row(a@, p@).take(a_len as int) =~= imp1_row(a@, p@));
        assert(solver_clauses(*s) =~= cs0 + imp1_row(a@, p@) + imp1_row(b@, p@).take(0));
    }

    // Truth of b[j] implies at least j + 1 true parent outputs.
    for j in 0..b_len
        invariant
            a_len == a@.len(),
            b_len == b@.len(),
            p@.len() == a@.len() + b@.len(),
            solver_nvars(*s) == nv,
            clause_wf(a@, nv),
            clause_wf(b@, nv),
            clause_wf(p@, nv),
            forall|k2: int| 0 <= k2 < p@.len() ==> !(#[trigger] p@[k2]).neg,
            forall|k2: int|
                0 <= k2 < p@.len() ==> (#[trigger] p@[k2]) == (Lit {
                    var: (nvars0 + k2) as usize,
                    neg: false,
                }),
            nvars0 + p_len <= usize::MAX,
            clause_wf(a@, nvars0),
            clause_wf(b@, nvars0),
            p_len == p@.len(),
            nv == nvars0 + p_len,
            forall|asg: Seq<bool>|
                #[trigger] merge_pre(asg, a@, b@, nvars0) ==> sat_from(
                    merge_ext(asg, a@, b@),
                    solver_clauses(*s),
                    cs0.len() as int,
                ),
            forall|j: int|
                cs0.len() <= j < solver_clauses(*s).len() ==> has_pos_lit(
                    #[trigger] solver_clauses(*s)[j],
                    nv,
                ),
            forall|j: int|
                cs0.len() <= j < solver_clauses(*s).len() ==> clause_wf(
                    #[trigger] solver_clauses(*s)[j],
                    nv,
                ),
            cs0.is_prefix_of(solver_clauses(*s)),
            solver_clauses(*s) == cs0 + imp1_row(a@, p@) + imp1_row(b@, p@).take(j as int),
            forall|i2: int|
                0 <= i2 < a_len ==> #[trigger] solver_clauses(*s).contains(imp1(a@[i2], p@[i2])),
            forall|j2: int|
                0 <= j2 < j ==> #[trigger] solver_clauses(*s).contains(imp1(b@[j2], p@[j2])),
    {
        let mut cl: Vec<Lit> = Vec::new();
        cl.push(b[j].negate());
        cl.push(p[j]);
        assert(cl@ =~= imp1(b@[j as int], p@[j as int]));
        let ghost pre = solver_clauses(*s);
        solver_add_clause(s, &cl);
        proof {
            lemma_prefix_push(cs0, pre, cl@);
            assert forall|asg: Seq<bool>| #[trigger] merge_pre(asg, a@, b@, nvars0) implies sat_from(
                merge_ext(asg, a@, b@),
                solver_clauses(*s),
                cs0.len() as int,
            ) by {
                let ext = merge_ext(asg, a@, b@);
                lemma_merge_ext_facts(asg, a@, b@, p@, nvars0);
            lemma_thermometer(ext, b@);
            if lit_sat(ext, b@[j as int]) {
                assert(lit_sat(ext, p@[j as int]));
                assert(lit_sat(ext, cl@[1]));
            } else {
                assert(lit_sat(ext, cl@[0]));
            }
                assert(clause_sat(ext, cl@));
                assert forall|j9: int| cs0.len() <= j9 < solver_clauses(*s).len() implies clause_sat(
                    ext,
                    #[trigger] solver_clauses(*s)[j9],
                ) by {
                    if j9 < pre.len() {
                        assert(solver_clauses(*s)[j9] == pre[j9]);
                        assert(clause_sat(ext, pre[j9]));
                    } else {
                        assert(solver_clauses(*s)[j9] == cl@);
                    }
                }
            }
            assert(has_pos_lit(cl@, nv)) by {
                assert(!cl@[1].neg && cl@[1].var < nv);
            }
            assert forall|j: int| cs0.len() <= j < solver_clauses(*s).len() implies has_pos_lit(
                #[trigger] solver_clauses(*s)[j],
                nv,
            ) by {
                if j < pre.len() {
                    assert(solver_clauses(*s)[j] == pre[j]);
                } else {
                    assert(solver_clauses(*s)[j] == cl@);
                }
            }
            assert(clause_wf(cl@, nv)) by {
                assert forall|q: int| 0 <= q < cl@.len() implies (#[trigger] cl@[q]).var < nv by {
                }
            }
            assert forall|j8: int| cs0.len() <= j8 < solver_clauses(*s).len() implies clause_wf(
                #[trigger] solver_clauses(*s)[j8],
                nv,
            ) by {
                if j8 < pre.len() {
                    assert(solver_clauses(*s)[j8] == pre[j8]);
                } else {
                    assert(solver_clauses(*s)[j8] == cl@);
                }
            }
            assert(imp1_row(b@, p@)[j as int] == cl@);
            assert(solver_clauses(*s) =~= cs0 + imp1_row(a@, p@) + imp1_row(b@, p@).take(
                j as int + 1,
            ));
            assert(solver_clauses(*s).contains(cl@)) by {
                assert(solver_clauses(*s)[pre.len() as int] == cl@);
            }
            assert forall|i2: int| 0 <= i2 < a_len implies #[trigger] solver_clauses(*s).contains(
                imp1(a@[i2], p@[i2]),
            ) by {
                lemma_contains_prefix(pre, solver_clauses(*s), imp1(a@[i2], p@[i2]));
            }
            assert forall|j2: int| 0 <= j2 < j + 1 implies #[trigger] solver_clauses(*s).contains(
                imp1(b@[j2], p@[j2]),
            ) by {
                if j2 < j {
                    lemma_contains_prefix(pre, solver_clauses(*s), imp1(b@[j2], p@[j2]));
                }
            }
        }
    }

        proof {
        assert(imp1_row(b@, p@).take(b_len as int) =~= imp1_row(b@, p@));
        assert(0 * (b_len as int) == 0) by (nonlinear_arith);
        assert(solver_clauses(*s) =~= cs0 + imp1_row(a@, p@) + imp1_row(b@, p@) + imp2_grid(
            a@,
            b@,
            p@,
        ).take(0));
    }

    // Joint truth of a[i] and b[j] implies at least i + j + 2 true parent outputs.
    for i in 0..a_len
        invariant
            a_len == a@.len(),
            b_len == b@.len(),
            p_len == p@.len(),
            p@.len() == a@.len() + b@.len(),
            solver_nvars(*s) == nv,
            clause_wf(a@, nv),
            clause_wf(b@, nv),
            clause_wf(p@, nv),
            forall|k2: int| 0 <= k2 < p@.len() ==> !(#[trigger] p@[k2]).neg,
            forall|k2: int|
                0 <= k2 < p@.len() ==> (#[trigger] p@[k2]) == (Lit {
                    var: (nvars0 + k2) as usize,
                    neg: false,
                }),
            nvars0 + p_len <= usize::MAX,
            clause_wf(a@, nvars0),
            clause_wf(b@, nvars0),
            p_len == p@.len(),
            nv == nvars0 + p_len,
            forall|asg: Seq<bool>|
                #[trigger] merge_pre(asg, a@, b@, nvars0) ==> sat_from(
                    merge_ext(asg, a@, b@),
                    solver_clauses(*s),
                    cs0.len() as int,
                ),
            forall|j: int|
                cs0.len() <= j < solver_clauses(*s).len() ==> has_pos_lit(
                    #[trigger] solver_clauses(*s)[j],
                    nv,
                ),
            forall|j: int|
                cs0.len() <= j < solver_clauses(*s).len() ==> clause_wf(
                    #[trigger] solver_clauses(*s)[j],
                    nv,
                ),
            cs0.is_prefix_of(solver_clauses(*s)),
            solver_clauses(*s) == cs0 + imp1_row(a@, p@) + imp1_row(b@, p@) + imp2_grid(
                a@,
                b@,
                p@,
            ).take(i as int * (b_len as int)),
            forall|i2: int|
                0 <= i2 < a_len ==> #[trigger] solver_clauses(*s).contains(imp1(a@[i2], p@[i2])),
            forall|j2: int|
                0 <= j2 < b_len ==> #[trigger] solver_clauses(*s).contains(imp1(b@[j2], p@[j2])),
            forall|i2: int, j2: int|
                0 <= i2 < i && 0 <= j2 < b_len ==> #[trigger] solver_clauses(*s).contains(
                    imp2(a@[i2], b@[j2], p@[i2 + j2 + 1]),
                ),
    {
        for j in 0..b_len
            invariant
                0 <= i < a_len,
                a_len == a@.len(),
                b_len == b@.len(),
                p_len == p@.len(),
                p@.len() == a@.len() + b@.len(),
                solver_nvars(*s) == nv,
                clause_wf(a@, nv),
                clause_wf(b@, nv),
                clause_wf(p@, nv),
                forall|k2: int| 0 <= k2 < p@.len() ==> !(#[trigger] p@[k2]).neg,
                forall|k2: int|
                    0 <= k2 < p@.len() ==> (#[trigger] p@[k2]) == (Lit {
                        var: (nvars0 + k2) as usize,
                        neg: false,
                    }),
                nvars0 + p_len <= usize::MAX,
                clause_wf(a@, nvars0),
                clause_wf(b@, nvars0),
                p_len == p@.len(),
                nv == nvars0 + p_len,
                forall|asg: Seq<bool>|
                    #[trigger] merge_pre(asg, a@, b@, nvars0) ==> sat_from(
                        merge_ext(asg, a@, b@),
                        solver_clauses(*s),
                        cs0.len() as int,
                    ),
                forall|j: int|
                    cs0.len() <= j < solver_clauses(*s).len() ==> has_pos_lit(
                        #[trigger] solver_clauses(*s)[j],
                        nv,
                    ),
                forall|j: int|
                    cs0.len() <= j < solver_clauses(*s).len() ==> clause_wf(
                        #[trigger] solver_clauses(*s)[j],
                        nv,
                    ),
                cs0.is_prefix_of(solver_clauses(*s)),
                solver_clauses(*s) == cs0 + imp1_row(a@, p@) + imp1_row(b@, p@) + imp2_grid(
                    a@,
                    b@,
                    p@,
                ).take(i as int * (b_len as int) + j as int),
                forall|i2: int|
                    0 <= i2 < a_len ==> #[trigger] solver_clauses(*s).contains(
                        imp1(a@[i2], p@[i2]),
                    ),
                forall|j2: int|
                    0 <= j2 < b_len ==> #[trigger] solver_clauses(*s).contains(
                        imp1(b@[j2], p@[j2]),
                    ),
                forall|i2: int, j2: int|
                    (0 <= i2 < i && 0 <= j2 < b_len) || (i2 == i && 0 <= j2 < j)
                        ==> #[trigger] solver_clauses(*s).contains(
                        imp2(a@[i2], b@[j2], p@[i2 + j2 + 1]),
                    ),
        {
            assert(i + j + 1 < p_len);
            let mut cl: Vec<Lit> = Vec::new();
            cl.push(a[i].negate());
            cl.push(b[j].negate());
            cl.push(p[i + j + 1]);
            assert(cl@ =~= imp2(a@[i as int], b@[j as int], p@[i + j + 1]));
            let ghost pre = solver_clauses(*s);
            solver_add_clause(s, &cl);
            proof {
                lemma_prefix_push(cs0, pre, cl@);
                assert forall|asg: Seq<bool>| #[trigger] merge_pre(asg, a@, b@, nvars0) implies sat_from(
                    merge_ext(asg, a@, b@),
                    solver_clauses(*s),
                    cs0.len() as int,
                ) by {
                    let ext = merge_ext(asg, a@, b@);
                    lemma_merge_ext_facts(asg, a@, b@, p@, nvars0);
                lemma_thermometer(ext, a@);
                lemma_thermometer(ext, b@);
                if lit_sat(ext, a@[i as int]) && lit_sat(ext, b@[j as int]) {
                    assert(lit_sat(ext, p@[i + j + 1]));
                    assert(lit_sat(ext, cl@[2]));
                } else if !lit_sat(ext, a@[i as int]) {
                    assert(lit_sat(ext, cl@[0]));
                } else {
                    assert(lit_sat(ext, cl@[1]));
                }
                    assert(clause_sat(ext, cl@));
                    assert forall|j9: int| cs0.len() <= j9 < solver_clauses(*s).len() implies clause_sat(
                        ext,
                        #[trigger] solver_clauses(*s)[j9],
                    ) by {
                        if j9 < pre.len() {
                            assert(solver_clauses(*s)[j9] == pre[j9]);
                            assert(clause_sat(ext, pre[j9]));
                        } else {
                            assert(solver_clauses(*s)[j9] == cl@);
                        }
                    }
                }
            assert(has_pos_lit(cl@, nv)) by {
                assert(!cl@[2].neg && cl@[2].var < nv);
            }
            assert forall|j: int| cs0.len() <= j < solver_clauses(*s).len() implies has_pos_lit(
                #[trigger] solver_clauses(*s)[j],
                nv,
            ) by {
                if j < pre.len() {
                    assert(solver_clauses(*s)[j] == pre[j]);
                } else {
                    assert(solver_clauses(*s)[j] == cl@);
                }
            }
            assert(clause_wf(cl@, nv)) by {
                assert forall|q: int| 0 <= q < cl@.len() implies (#[trigger] cl@[q]).var < nv by {
                }
            }
            assert forall|j8: int| cs0.len() <= j8 < solver_clauses(*s).len() implies clause_wf(
                #[trigger] solver_clauses(*s)[j8],
                nv,
            ) by {
                if j8 < pre.len() {
                    assert(solver_clauses(*s)[j8] == pre[j8]);
                } else {
                    assert(solver_clauses(*s)[j8] == cl@);
                }
            }
                assert(solver_clauses(*s).contains(cl@)) by {
                    assert(solver_clauses(*s)[pre.len() as int] == cl@);
                }
                assert((i as int) * (b_len as int) + (j as int) < a@.len() * b@.len()) by (
                nonlinear_arith)
                    requires
                        0 <= i as int && (i as int) < a@.len(),
                        0 <= j as int && (j as int) < b_len as int,
                        b_len == b@.len(),
                ;
                assert(imp2_grid(a@, b@, p@)[i as int * (b_len as int) + j as int] == cl@) by {
                    lemma_fundamental_div_mod_converse(
                        i as int * (b_len as int) + j as int,
                        b_len as int,
                        i as int,
                        j as int,
                    );
                }
                assert(solver_clauses(*s) =~= cs0 + imp1_row(a@, p@) + imp1_row(b@, p@)
                    + imp2_grid(a@, b@, p@).take(i as int * (b_len as int) + j as int + 1));
                assert forall|i2: int| 0 <= i2 < a_len implies #[trigger] solver_clauses(
                    *s,
                ).contains(imp1(a@[i2], p@[i2])) by {
                    lemma_contains_prefix(pre, solver_clauses(*s), imp1(a@[i2], p@[i2]));
                }
                assert forall|j2: int| 0 <= j2 < b_len implies #[trigger] solver_clauses(
                    *s,
                ).contains(imp1(b@[j2], p@[j2])) by {
                    lemma_contains_prefix(pre, solver_clauses(*s), imp1(b@[j2], p@[j2]));
                }
                assert forall|i2: int, j2: int|
                    (0 <= i2 < i && 0 <= j2 < b_len) || (i2 == i && 0 <= j2 < j
                        + 1) implies #[trigger] solver_clauses(*s).contains(
                    imp2(a@[i2], b@[j2], p@[i2 + j2 + 1]),
                ) by {
                    if !(i2 == i && j2 == j) {
                        lemma_contains_prefix(
                            pre,
                            solver_clauses(*s),
                            imp2(a@[i2], b@[j2], p@[i2 + j2 + 1]),
                        );
                    }
                }
            }
        }
        proof {
            assert((i as int + 1) * (b_len as int) == i as int * (b_len as int) + b_len as int) by (
            nonlinear_arith);
        }
    }
    proof {
        assert((a_len as int) * (b_len as int) == (a@.len() * b@.len()) as int);
        assert(imp2_grid(a@, b@, p@).take((a@.len() * b@.len()) as int) =~= imp2_grid(a@, b@, p@));
        assert(solver_clauses(*s) =~= cs0 + imp1_row(a@, p@) + imp1_row(b@, p@) + imp2_grid(
            a@,
            b@,
            p@,
        ) + mono_row(p@).take(0));
    }

    // Parent outputs are forced monotone.
    let mut k: usize = 1;
    while k < p_len
        invariant
            1 <= k <= p_len,
            a_len == a@.len(),
            b_len == b@.len(),
            p_len == p@.len(),
            p@.len() == a@.len() + b@.len(),
            solver_nvars(*s) == nv,
            clause_wf(a@, nv),
            clause_wf(b@, nv),
            clause_wf(p@, nv),
            forall|k2: int| 0 <= k2 < p@.len() ==> !(#[trigger] p@[k2]).neg,
            forall|k2: int|
                0 <= k2 < p@.len() ==> (#[trigger] p@[k2]) == (Lit {
                    var: (nvars0 + k2) as usize,
                    neg: false,
                }),
            nvars0 + p_len <= usize::MAX,
            clause_wf(a@, nvars0),
            clause_wf(b@, nvars0),
            p_len == p@.len(),
            nv == nvars0 + p_len,
            forall|asg: Seq<bool>|
                #[trigger] merge_pre(asg, a@, b@, nvars0) ==> sat_from(
                    merge_ext(asg, a@, b@),
                    solver_clauses(*s),
                    cs0.len() as int,
                ),
            forall|j: int|
                cs0.len() <= j < solver_clauses(*s).len() ==> has_pos_lit(
                    #[trigger] solver_clauses(*s)[j],
                    nv,
                ),
            forall|j: int|
                cs0.len() <= j < solver_clauses(*s).len() ==> clause_wf(
                    #[trigger] solver_clauses(*s)[j],
                    nv,
                ),
            cs0.is_prefix_of(solver_clauses(*s)),
            solver_clauses(*s) == cs0 + imp1_row(a@, p@) + imp1_row(b@, p@) + imp2_grid(
                a@,
                b@,
                p@,
            ) + mono_row(p@).take(k as int - 1),
            forall|i2: int|
                0 <= i2 < a_len ==> #[trigger] solver_clauses(*s).contains(imp1(a@[i2], p@[i2])),
            forall|j2: int|
                0 <= j2 < b_len ==> #[trigger] solver_clauses(*s).contains(imp1(b@[j2], p@[j2])),
            forall|i2: int, j2: int|
                0 <= i2 < a_len && 0 <= j2 < b_len ==> #[trigger] solver_clauses(*s).contains(
                    imp2(a@[i2], b@[j2], p@[i2 + j2 + 1]),
                ),
            forall|k2: int|
                1 <= k2 < k ==> #[trigger] solver_clauses(*s).contains(imp1(p@[k2], p@[k2 - 1])),
        decreases p_len - k,
    {
        let mut cl: Vec<Lit> = Vec::new();
        cl.push(p[k].negate());
        cl.push(p[k - 1]);
        assert(cl@ =~= imp1(p@[k as int], p@[k as int - 1]));
        let ghost pre = solver_clauses(*s);
        solver_add_clause(s, &cl);
        proof {
            lemma_prefix_push(cs0, pre, cl@);
            assert forall|asg: Seq<bool>| #[trigger] merge_pre(asg, a@, b@, nvars0) implies sat_from(
                merge_ext(asg, a@, b@),
                solver_clauses(*s),
                cs0.len() as int,
            ) by {
                let ext = merge_ext(asg, a@, b@);
                lemma_merge_ext_facts(asg, a@, b@, p@, nvars0);
            if lit_sat(ext, p@[k as int]) {
                assert(lit_sat(ext, p@[k as int - 1]));
                assert(lit_sat(ext, cl@[1]));
            } else {
                assert(lit_sat(ext, cl@[0]));
            }
                assert(clause_sat(ext, cl@));
                assert forall|j9: int| cs0.len() <= j9 < solver_clauses(*s).len() implies clause_sat(
                    ext,
                    #[trigger] solver_clauses(*s)[j9],
                ) by {
                    if j9 < pre.len() {
                        assert(solver_clauses(*s)[j9] == pre[j9]);
                        assert(clause_sat(ext, pre[j9]));
                    } else {
                        assert(solver_clauses(*s)[j9] == cl@);
                    }
                }
            }
            assert(has_pos_lit(cl@, nv)) by {
                assert(!cl@[1].neg && cl@[1].var < nv);
            }
            assert forall|j: int| cs0.len() <= j < solver_clauses(*s).len() implies has_pos_lit(
                #[trigger] solver_clauses(*s)[j],
                nv,
            ) by {
                if j < pre.len() {
                    assert(solver_clauses(*s)[j] == pre[j]);
                } else {
                    assert(solver_clauses(*s)[j] == cl@);
                }
            }
            assert(clause_wf(cl@, nv)) by {
                assert forall|q: int| 0 <= q < cl@.len() implies (#[trigger] cl@[q]).var < nv by {
                }
            }
            assert forall|j8: int| cs0.len() <= j8 < solver_clauses(*s).len() implies clause_wf(
                #[trigger] solver_clauses(*s)[j8],
                nv,
            ) by {
                if j8 < pre.len() {
                    assert(solver_clauses(*s)[j8] == pre[j8]);
                } else {
                    assert(solver_clauses(*s)[j8] == cl@);
                }
            }
            assert(solver_clauses(*s).contains(cl@)) by {
                assert(solver_clauses(*s)[pre.len() as int] == cl@);
            }
            assert(mono_row(p@)[k as int - 1] == cl@);
            assert(solver_clauses(*s) =~= cs0 + imp1_row(a@, p@) + imp1_row(b@, p@) + imp2_grid(
                a@,
                b@,
                p@,
            ) + mono_row(p@).take(k as int));
            assert forall|i2: int| 0 <= i2 < a_len implies #[trigger] solver_clauses(*s).contains(
                imp1(a@[i2], p@[i2]),
            ) by {
                lemma_contains_prefix(pre, solver_clauses(*s), imp1(a@[i2], p@[i2]));
            }
            assert forall|j2: int| 0 <= j2 < b_len implies #[trigger] solver_clauses(*s).contains(
                imp1(b@[j2], p@[j2]),
            ) by {
                lemma_contains_prefix(pre, solver_clauses(*s), imp1(b@[j2], p@[j2]));
            }
            assert forall|i2: int, j2: int|
                0 <= i2 < a_len && 0 <= j2 < b_len implies #[trigger] solver_clauses(*s).contains(
                imp2(a@[i2], b@[j2], p@[i2 + j2 + 1]),
            ) by {
                lemma_contains_prefix(pre, solver_clauses(*s), imp2(a@[i2], b@[j2], p@[i2 + j2 + 1]));
            }
            assert forall|k2: int| 1 <= k2 < k + 1 implies #[trigger] solver_clauses(*s).contains(
                imp1(p@[k2], p@[k2 - 1]),
            ) by {
                if k2 < k {
                    lemma_contains_prefix(pre, solver_clauses(*s), imp1(p@[k2], p@[k2 - 1]));
                }
            }
        }
        k = k + 1;
    }

    proof {
        let cs = solver_clauses(*s);
        assert forall|asg: Seq<bool>| #[trigger] all_clauses_sat(asg, cs) implies ((monotone(
            asg,
            a@,
        ) && monotone(asg, b@)) ==> (monotone(asg, p@) && count_true(asg, p@) >= count_true(asg, a@)
            + count_true(asg, b@))) by {
            if monotone(asg, a@) && monotone(asg, b@) {
                assert forall|k2: int|
                    1 <= k2 < p@.len() && lit_sat(asg, #[trigger] p@[k2]) implies lit_sat(
                    asg,
                    p@[k2 - 1],
                ) by {
                    lemma_sat_contains(asg, cs, imp1(p@[k2], p@[k2 - 1]));
                    lemma_imp1_sem(asg, p@[k2], p@[k2 - 1]);
                }
                assert(monotone(asg, p@));
                let ca = count_true(asg, a@) as int;
                let cb = count_true(asg, b@) as int;
                lemma_count_true_le_len(asg, a@);
                lemma_count_true_le_len(asg, b@);
                lemma_thermometer(asg, a@);
                lemma_thermometer(asg, b@);
                lemma_thermometer(asg, p@);
                if ca > 0 && cb > 0 {
                    assert(lit_sat(asg, a@[ca - 1]));
                    assert(lit_sat(asg, b@[cb - 1]));
                    let i2 = ca - 1;
                    let j2 = cb - 1;
                    assert(cs.contains(imp2(a@[i2], b@[j2], p@[i2 + j2 + 1])));
                    lemma_sat_contains(asg, cs, imp2(a@[i2], b@[j2], p@[i2 + j2 + 1]));
                    lemma_imp2_sem(asg, a@[i2], b@[j2], p@[i2 + j2 + 1]);
                    assert(lit_sat(asg, p@[ca + cb - 1]));
                } else if ca > 0 {
                    assert(lit_sat(asg, a@[ca - 1]));
                    lemma_sat_contains(asg, cs, imp1(a@[ca - 1], p@[ca - 1]));
                    lemma_imp1_sem(asg, a@[ca - 1], p@[ca - 1]);
                    assert(lit_sat(asg, p@[ca - 1]));
                } else if cb > 0 {
                    assert(lit_sat(asg, b@[cb - 1]));
                    lemma_sat_contains(asg, cs, imp1(b@[cb - 1], p@[cb - 1]));
                    lemma_imp1_sem(asg, b@[cb - 1], p@[cb - 1]);
                    assert(lit_sat(asg, p@[cb - 1]));
                }
            }
        }
        assert forall|asg: Seq<bool>| #[trigger] merge_pre(asg, a@, b@, nvars0) implies (sat_from(
            merge_ext(asg, a@, b@),
            solver_clauses(*s),
            cs0.len() as int,
        ) && merge_ext(asg, a@, b@).len() == nv && (forall|v: int|
            0 <= v < asg.len() ==> merge_ext(asg, a@, b@)[v] == asg[v]) && monotone(
            merge_ext(asg, a@, b@),
            p@,
        ) && count_true(merge_ext(asg, a@, b@), p@) == count_true(asg, a@) + count_true(
            asg,
            b@,
        )) by {
            lemma_merge_ext_facts(asg, a@, b@, p@, nvars0);
        }
        assert(mono_row(p@).take(p_len as int - 1) =~= mono_row(p@));
        assert(solver_clauses(*s) =~= cs0 + merge_clauses(a@, b@, p@));
    }
    p
}


/// One merge level: pair the nodes left to right, merging each pair into
/// a fresh parent of the pair's combined length, registering exactly the
/// merge clauses of each pair in order; a leftover odd node is carried
/// through unchanged, allocating nothing and registering nothing.
fn totalizer_single_level(s: &mut rsat::cdcl::Solver, input: Vec<Vec<Lit>>) -> (out: Vec<Vec<Lit>>)
    requires
        input@.len() >= 1,
        forall|i: int| 0 <= i < input@.len() ==> (#[trigger] input@[i])@.len() >= 1,
        forall|i: int| 0 <= i < input@.len() ==> clause_wf((#[trigger] input@[i])@, solver_nvars(*old(s))),
        solver_nvars(*old(s)) + total_len(nviews(input@)) <= usize::MAX,
    ensures
        out@.len() == (input@.len() + 1) / 2,
        forall|i: int| 0 <= i < out@.len() ==> (#[trigger] out@[i])@.len() >= 1,
        forall|i: int| 0 <= i < out@.len() ==> clause_wf((#[trigger] out@[i])@, solver_nvars(*final(s))),
        total_len(nviews(out@)) == total_len(nviews(input@)),
        solver_nvars(*old(s)) <= solver_nvars(*final(s)),
        solver_nvars(*final(s)) <= solver_nvars(*old(s)) + total_len(nviews(input@)),
        solver_clauses(*old(s)).is_prefix_of(solver_clauses(*final(s))),
        forall|j: int|
            solver_clauses(*old(s)).len() <= j < solver_clauses(*final(s)).len() ==> has_pos_lit(
                #[trigger] solver_clauses(*final(s))[j],
                solver_nvars(*final(s)),
            ),
        forall|j: int|
            solver_clauses(*old(s)).len() <= j < solver_clauses(*final(s)).len() ==> clause_wf(
                #[trigger] solver_clauses(*final(s))[j],
                solver_nvars(*final(s)),
            ),
        forall|asg: Seq<bool>|
            (asg.len() == solver_nvars(*old(s)) && #[trigger] all_nodes_monotone(
                asg,
                nviews(input@),
            )) ==> exists|asg2: Seq<bool>|
                #[trigger] level_ext_ok(
                    asg,
                    asg2,
                    solver_nvars(*old(s)),
                    solver_nvars(*final(s)),
                    solver_clauses(*final(s)),
                    solver_clauses(*old(s)).len() as int,
                    nviews(out@),
                    sum_counts(asg, nviews(input@)),
                ),
        forall|asg: Seq<bool>|
            #[trigger] all_clauses_sat(asg, solver_clauses(*final(s))) ==> (all_nodes_monotone(
                asg,
                nviews(input@),
            ) ==> (all_nodes_monotone(asg, nviews(out@)) && sum_counts(asg, nviews(out@))
                >= sum_counts(asg, nviews(input@)))),
        forall|pr: int|
            0 <= pr && 2 * pr + 1 < input@.len() ==> (#[trigger] out@[pr])@.len() == input@[2
                * pr]@.len() + input@[2 * pr + 1]@.len(),
        forall|pr: int, k: int|
            0 <= pr && 2 * pr + 1 < input@.len() && 0 <= k < out@[pr]@.len() ==> !(#[trigger] out@[
                pr
            ]@[k]).neg && out@[pr]@[k].var >= solver_nvars(*old(s)),
        input@.len() % 2 == 1 ==> out@[out@.len() - 1]@ == input@[input@.len() - 1]@,
        solver_nvars(*final(s)) == solver_nvars(*old(s)) + total_len(nviews(input@)) - (
        if input@.len() % 2 == 1 {
            input@[input@.len() - 1]@.len()
        } else {
            0nat
        }),
        solver_clauses(*final(s)) == solver_clauses(*old(s)) + pairs_clauses(
            nviews(input@),
            nviews(out@),
        ),
        input@.len() == 1 ==> (out@.len() == 1 && out@[0]@ == input@[0]@ && solver_nvars(*final(s))
            == solver_nvars(*old(s)) && solver_clauses(*final(s)) == solver_clauses(*old(s))),
        forall|asg: Seq<bool>|
            #[trigger] all_clauses_sat(asg, solver_clauses(*final(s))) ==> (forall|pr: int|
                0 <= pr && 2 * pr + 1 < input@.len() ==> ((monotone(asg, input@[2 * pr]@)
                    && monotone(asg, input@[2 * pr + 1]@)) ==> (monotone(
                    asg,
                    (#[trigger] out@[pr])@,
                ) && count_true(asg, out@[pr]@) >= count_true(asg, input@[2 * pr]@) + count_true(
                    asg,
                    input@[2 * pr + 1]@,
                )))),
{
    let ghost nvars0 = solver_nvars(*s);
    let ghost cs0 = solver_clauses(*s);
    let ghost iv = nviews(input@);
    let n = input.len();
    let mut out: Vec<Vec<Lit>> = Vec::new();
    let mut idx: usize = 0;
    proof {
        assert(iv.skip(0) =~= iv);
        assert(nviews(out@) =~= Seq::<Seq<Lit>>::empty());
        assert(total_len(Seq::<Seq<Lit>>::empty()) == 0);
        assert(iv.take(0) =~= Seq::<Seq<Lit>>::empty());
        assert(pairs_clauses(iv.take(0), nviews(out@)) =~= Seq::<Seq<Lit>>::empty());
        assert(solver_clauses(*s) =~= cs0 + pairs_clauses(iv.take(0), nviews(out@)));
        assert forall|asg: Seq<bool>| (asg.len() == nvars0 && #[trigger] all_nodes_monotone(
            asg,
            iv,
        )) implies exists|asg2: Seq<bool>|
            #[trigger] level_ext_ok(
                asg,
                asg2,
                nvars0,
                solver_nvars(*s),
                solver_clauses(*s),
                cs0.len() as int,
                nviews(out@),
                sum_counts(asg, iv.take(0)),
            ) by {
            assert(asg.take(nvars0 as int) =~= asg);
            assert(sum_counts(asg, Seq::<Seq<Lit>>::empty()) == 0);
            assert(sum_counts(asg, nviews(out@)) == 0);
            assert(level_ext_ok(
                asg,
                asg,
                nvars0,
                solver_nvars(*s),
                solver_clauses(*s),
                cs0.len() as int,
                nviews(out@),
                sum_counts(asg, iv.take(0)),
            ));
        }
    }
    while idx < n
        invariant
            n == input@.len(),
            idx <= n,
            idx % 2 == 0 || idx == n,
            iv == nviews(input@),
            out@.len() == (idx + 1) / 2,
            forall|i: int| 0 <= i < input@.len() ==> (#[trigger] input@[i])@.len() >= 1,
            forall|i: int| 0 <= i < input@.len() ==> clause_wf((#[trigger] input@[i])@, nvars0),
            forall|i: int| 0 <= i < out@.len() ==> (#[trigger] out@[i])@.len() >= 1,
            forall|i: int| 0 <= i < out@.len() ==> clause_wf((#[trigger] out@[i])@, solver_nvars(*s)),
            nvars0 <= solver_nvars(*s),
            solver_nvars(*s) + total_len(iv.skip(idx as int)) <= nvars0 + total_len(iv),
            nvars0 + total_len(iv) <= usize::MAX,
            total_len(nviews(out@)) + total_len(iv.skip(idx as int)) == total_len(iv),
            cs0.is_prefix_of(solver_clauses(*s)),
            forall|j: int|
                cs0.len() <= j < solver_clauses(*s).len() ==> has_pos_lit(
                    #[trigger] solver_clauses(*s)[j],
                    solver_nvars(*s),
                ),
            forall|j: int|
                cs0.len() <= j < solver_clauses(*s).len() ==> clause_wf(
                    #[trigger] solver_clauses(*s)[j],
                    solver_nvars(*s),
                ),
            forall|asg: Seq<bool>|
                (asg.len() == nvars0 && #[trigger] all_nodes_monotone(asg, iv)) ==> exists|
                    asg2: Seq<bool>,
                |
                    #[trigger] level_ext_ok(
                        asg,
                        asg2,
                        nvars0,
                        solver_nvars(*s),
                        solver_clauses(*s),
                        cs0.len() as int,
                        nviews(out@),
                        sum_counts(asg, iv.take(idx as int)),
                    ),
            forall|asg: Seq<bool>|
                #[trigger] all_clauses_sat(asg, solver_clauses(*s)) ==> (all_nodes_monotone(asg, iv)
                    ==> (all_nodes_monotone(asg, nviews(out@)) && sum_counts(asg, nviews(out@))
                        + sum_counts(asg, iv.skip(idx as int)) >= sum_counts(asg, iv))),
            idx % 2 == 0 ==> 2 * out@.len() == idx,
            forall|pr: int|
                0 <= pr && 2 * pr + 1 < idx ==> (#[trigger] out@[pr])@.len() == input@[2
                    * pr]@.len() + input@[2 * pr + 1]@.len(),
            forall|pr: int, k: int|
                0 <= pr && 2 * pr + 1 < idx && 0 <= k < out@[pr]@.len() ==> !(#[trigger] out@[
                    pr
                ]@[k]).neg && out@[pr]@[k].var >= nvars0,
            idx == n && n % 2 == 1 ==> out@[out@.len() - 1]@ == input@[n as int - 1]@,
            solver_nvars(*s) == nvars0 + total_len(iv.take(2 * ((idx as int) / 2))),
            solver_clauses(*s) == cs0 + pairs_clauses(iv.take(idx as int), nviews(out@)),
            forall|asg: Seq<bool>|
                #[trigger] all_clauses_sat(asg, solver_clauses(*s)) ==> (forall|pr: int|
                    0 <= pr && 2 * pr + 1 < idx ==> ((monotone(asg, input@[2 * pr]@) && monotone(
                        asg,
                        input@[2 * pr + 1]@,
                    )) ==> (monotone(asg, (#[trigger] out@[pr])@) && count_true(asg, out@[pr]@)
                        >= count_true(asg, input@[2 * pr]@) + count_true(
                        asg,
                        input@[2 * pr + 1]@,
                    )))),
        decreases n - idx,
    {
        let ghost out0 = out@;
        let ghost cs_pre = solver_clauses(*s);
        let ghost nv_pre = solver_nvars(*s);
        if idx + 1 < n {
            proof {
                lemma_level_skip_step(iv, idx as int);
                lemma_level_skip_step(iv, idx as int + 1);
                assert(iv[idx as int] == input@[idx as int]@);
                assert(iv[idx as int + 1] == input@[idx as int + 1]@);
            }
            let p = merge_nodes(s, &input[idx], &input[idx + 1]);
            out.push(p);
            proof {
                lemma_prefix_trans(cs0, cs_pre, solver_clauses(*s));
                assert forall|j: int| cs0.len() <= j < solver_clauses(*s).len() implies has_pos_lit(
                    #[trigger] solver_clauses(*s)[j],
                    solver_nvars(*s),
                ) by {
                    if j < cs_pre.len() {
                        assert(solver_clauses(*s)[j] == cs_pre[j]);
                        lemma_has_pos_mono(cs_pre[j], nv_pre as nat, solver_nvars(*s));
                    }
                }
                assert(nviews(out@) =~= nviews(out0).push(p@));
                lemma_total_len_push(nviews(out0), p@);
                // well-formedness of earlier outputs under the grown variable count
                assert forall|i: int| 0 <= i < out@.len() implies clause_wf(
                    (#[trigger] out@[i])@,
                    solver_nvars(*s),
                ) by {
                    if i < out0.len() {
                        assert(out@[i]@ == out0[i]@);
                        assert(clause_wf(out0[i]@, nv_pre));
                        assert forall|k: int| 0 <= k < out@[i]@.len() implies (#[trigger] out@[i]@[k]).var
                            < solver_nvars(*s) by {
                            assert(out@[i]@[k].var < nv_pre);
                        }
                    }
                }
                let csn = solver_clauses(*s);
                assert forall|asg: Seq<bool>| #[trigger] all_clauses_sat(asg, csn) implies (
                all_nodes_monotone(asg, iv) ==> (all_nodes_monotone(asg, nviews(out@)) && sum_counts(
                    asg,
                    nviews(out@),
                ) + sum_counts(asg, iv.skip(idx as int + 2)) >= sum_counts(asg, iv))) by {
                    if all_nodes_monotone(asg, iv) {
                        lemma_sat_prefix(asg, csn, cs_pre);
                        assert(all_nodes_monotone(asg, nviews(out0)) && sum_counts(asg, nviews(out0))
                            + sum_counts(asg, iv.skip(idx as int)) >= sum_counts(asg, iv));
                        assert(monotone(asg, iv[idx as int]));
                        assert(monotone(asg, iv[idx as int + 1]));
                        assert(monotone(asg, p@) && count_true(asg, p@) >= count_true(
                            asg,
                            input@[idx as int]@,
                        ) + count_true(asg, input@[idx as int + 1]@));
                        lemma_sum_counts_push(asg, nviews(out0), p@);
                        assert forall|i: int| 0 <= i < nviews(out@).len() implies monotone(
                            asg,
                            #[trigger] nviews(out@)[i],
                        ) by {
                            if i < out0.len() {
                                assert(nviews(out@)[i] == nviews(out0)[i]);
                            } else {
                                assert(nviews(out@)[i] == p@);
                            }
                        }
                    }
                }
            }
            proof {
                assert forall|j: int| cs0.len() <= j < solver_clauses(*s).len() implies clause_wf(
                    #[trigger] solver_clauses(*s)[j],
                    solver_nvars(*s),
                ) by {
                    if j < cs_pre.len() {
                        assert(solver_clauses(*s)[j] == cs_pre[j]);
                        lemma_clause_wf_mono(cs_pre[j], nv_pre as nat, solver_nvars(*s));
                    }
                }
                assert forall|asg: Seq<bool>| (asg.len() == nvars0
                    && #[trigger] all_nodes_monotone(asg, iv)) implies exists|asg2: Seq<bool>|
                    #[trigger] level_ext_ok(
                        asg,
                        asg2,
                        nvars0,
                        solver_nvars(*s),
                        solver_clauses(*s),
                        cs0.len() as int,
                        nviews(out@),
                        sum_counts(asg, iv.take(idx as int + 2)),
                    ) by {
                    let asg2 = choose|asg2: Seq<bool>|
                        level_ext_ok(
                            asg,
                            asg2,
                            nvars0,
                            nv_pre,
                            cs_pre,
                            cs0.len() as int,
                            nviews(out0),
                            sum_counts(asg, iv.take(idx as int)),
                        );
                    let av = input@[idx as int]@;
                    let bv = input@[idx as int + 1]@;
                    assert(iv[idx as int] == av && iv[idx as int + 1] == bv);
                    assert(monotone(asg, iv[idx as int]));
                    assert(monotone(asg, iv[idx as int + 1]));
                    assert forall|v: int| 0 <= v < nvars0 implies asg2[v] == asg[v] by {
                        assert(asg2.take(nvars0 as int)[v] == asg2[v]);
                        assert(asg2.take(nvars0 as int) == asg);
                    }
                    assert(clause_wf(av, nvars0) && clause_wf(bv, nvars0));
                    lemma_count_true_agree(asg, asg2, av, nvars0);
                    lemma_count_true_agree(asg, asg2, bv, nvars0);
                    assert(merge_pre(asg2, av, bv, nv_pre));
                    let asg3 = merge_ext(asg2, av, bv);
                    assert(asg3.take(nvars0 as int) =~= asg) by {
                        assert forall|v: int| 0 <= v < nvars0 implies asg3[v] == asg[v] by {
                            assert(asg3[v] == asg2[v]);
                        }
                    }
                    assert forall|j: int| cs0.len() <= j < solver_clauses(*s).len() implies
                        clause_sat(asg3, #[trigger] solver_clauses(*s)[j]) by {
                        if j < cs_pre.len() {
                            assert(solver_clauses(*s)[j] == cs_pre[j]);
                            assert(clause_sat(asg2, cs_pre[j]));
                            assert(clause_wf(cs_pre[j], nv_pre));
                            assert forall|v: int| 0 <= v < nv_pre implies asg2[v] == asg3[v] by {
                                assert(asg3[v] == asg2[v]);
                            }
                            lemma_clause_sat_agree(asg2, asg3, cs_pre[j], nv_pre);
                        }
                    }
                    assert forall|i: int| 0 <= i < nviews(out@).len() implies monotone(
                        asg3,
                        #[trigger] nviews(out@)[i],
                    ) by {
                        if i < out0.len() {
                            assert(nviews(out@)[i] == nviews(out0)[i]);
                            assert(monotone(asg2, nviews(out0)[i]));
                            assert(nviews(out0)[i] == out0[i]@);
                            assert(clause_wf(out0[i]@, nv_pre));
                            assert forall|v: int| 0 <= v < nv_pre implies asg2[v] == asg3[v] by {
                                assert(asg3[v] == asg2[v]);
                            }
                            lemma_count_true_agree(asg2, asg3, out0[i]@, nv_pre);
                        } else {
                            assert(nviews(out@)[i] == p@);
                        }
                    }
                    assert forall|v: int| 0 <= v < nv_pre implies asg2[v] == asg3[v] by {
                        assert(asg3[v] == asg2[v]);
                    }
                    assert(forall|i: int|
                        0 <= i < nviews(out0).len() ==> clause_wf(#[trigger] nviews(out0)[i], nv_pre));
                    lemma_sum_counts_agree(asg2, asg3, nviews(out0), nv_pre);
                    lemma_sum_counts_push(asg3, nviews(out0), p@);
                    assert(iv.take(idx as int + 1) =~= iv.take(idx as int).push(iv[idx as int]));
                    lemma_sum_counts_push(asg, iv.take(idx as int), iv[idx as int]);
                    assert(iv.take(idx as int + 2) =~= iv.take(idx as int + 1).push(
                        iv[idx as int + 1],
                    ));
                    lemma_sum_counts_push(asg, iv.take(idx as int + 1), iv[idx as int + 1]);
                    assert(level_ext_ok(
                        asg,
                        asg3,
                        nvars0,
                        solver_nvars(*s),
                        solver_clauses(*s),
                        cs0.len() as int,
                        nviews(out@),
                        sum_counts(asg, iv.take(idx as int + 2)),
                    ));
                }
            }
            proof {
                // exact bookkeeping for the newly merged pair
                assert(idx % 2 == 0);
                lemma_fundamental_div_mod(idx as int, 2);
                assert(2 * ((idx as int) / 2) == idx as int);
                lemma_fundamental_div_mod_converse(idx as int + 2, 2, (idx as int) / 2 + 1, 0);
                assert(2 * (((idx as int) + 2) / 2) == idx as int + 2);
                assert(iv.take(idx as int + 1) =~= iv.take(idx as int).push(iv[idx as int]));
                lemma_total_len_push(iv.take(idx as int), iv[idx as int]);
                assert(iv.take(idx as int + 2) =~= iv.take(idx as int + 1).push(
                    iv[idx as int + 1],
                ));
                lemma_total_len_push(iv.take(idx as int + 1), iv[idx as int + 1]);
                if idx + 2 == n {
                    assert(n % 2 == 0);
                }
                assert(iv.take(idx as int + 2) =~= iv.take(idx as int) + seq![
                    iv[idx as int],
                    iv[idx as int + 1],
                ]);
                assert(iv.take(idx as int).len() == 2 * nviews(out0).len());
                lemma_pairs_clauses_snoc2(
                    iv.take(idx as int),
                    iv[idx as int],
                    iv[idx as int + 1],
                    nviews(out0),
                    p@,
                );
                assert(solver_clauses(*s) =~= cs0 + pairs_clauses(
                    iv.take(idx as int + 2),
                    nviews(out@),
                ));
                assert forall|pr: int| 0 <= pr && 2 * pr + 1 < idx + 2 implies (#[trigger] out@[
                    pr
                ])@.len() == input@[2 * pr]@.len() + input@[2 * pr + 1]@.len() by {
                    if 2 * pr + 1 < idx {
                        assert(out@[pr] == out0[pr]);
                    } else {
                        assert(pr == out0.len() as int);
                        assert(out@[pr] == p);
                    }
                }
                assert forall|pr: int, k: int|
                    0 <= pr && 2 * pr + 1 < idx + 2 && 0 <= k < out@[pr]@.len() implies !(
                #[trigger] out@[pr]@[k]).neg && out@[pr]@[k].var >= nvars0 by {
                    if 2 * pr + 1 < idx {
                        assert(out@[pr] == out0[pr]);
                        assert(!out0[pr]@[k].neg && out0[pr]@[k].var >= nvars0);
                    } else {
                        assert(out@[pr] == p);
                        assert(!p@[k].neg && p@[k].var >= nv_pre);
                    }
                }
                let csn2 = solver_clauses(*s);
                assert forall|asg: Seq<bool>| #[trigger] all_clauses_sat(asg, csn2) implies (
                forall|pr: int|
                    0 <= pr && 2 * pr + 1 < idx + 2 ==> ((monotone(asg, input@[2 * pr]@)
                        && monotone(asg, input@[2 * pr + 1]@)) ==> (monotone(
                        asg,
                        (#[trigger] out@[pr])@,
                    ) && count_true(asg, out@[pr]@) >= count_true(asg, input@[2 * pr]@)
                        + count_true(asg, input@[2 * pr + 1]@)))) by {
                    lemma_sat_prefix(asg, csn2, cs_pre);
                    assert forall|pr: int| 0 <= pr && 2 * pr + 1 < idx + 2 implies ((monotone(
                        asg,
                        input@[2 * pr]@,
                    ) && monotone(asg, input@[2 * pr + 1]@)) ==> (monotone(
                        asg,
                        (#[trigger] out@[pr])@,
                    ) && count_true(asg, out@[pr]@) >= count_true(asg, input@[2 * pr]@)
                        + count_true(asg, input@[2 * pr + 1]@))) by {
                        if 2 * pr + 1 < idx {
                            assert(out@[pr] == out0[pr]);
                        } else {
                            assert(pr == out0.len() as int);
                            assert(out@[pr] == p);
                            assert(input@[2 * pr]@ == iv[idx as int]);
                            assert(input@[2 * pr + 1]@ == iv[idx as int + 1]);
                        }
                    }
                }
            }
            idx = idx + 2;
        } else {
            // leftover odd node: carried through unchanged
            proof {
                lemma_level_skip_step(iv, idx as int);
                assert(iv.skip(idx as int + 1) =~= Seq::<Seq<Lit>>::empty());
                assert(total_len(Seq::<Seq<Lit>>::empty()) == 0);
                assert(iv[idx as int] == input@[idx as int]@);
            }
            let node = &input[idx];
            let mut copy: Vec<Lit> = Vec::new();
            let node_len = node.len();
            for t in 0..node_len
                invariant
                    node_len == node@.len(),
                    copy@ =~= node@.take(t as int),
            {
                copy.push(node[t]);
                assert(copy@ =~= node@.take(t as int + 1));
            }
            assert(copy@ =~= node@);
            out.push(copy);
            proof {
                assert(nviews(out@) =~= nviews(out0).push(input@[idx as int]@));
                lemma_total_len_push(nviews(out0), input@[idx as int]@);
                let csn = solver_clauses(*s);
                assert forall|asg: Seq<bool>| #[trigger] all_clauses_sat(asg, csn) implies (
                all_nodes_monotone(asg, iv) ==> (all_nodes_monotone(asg, nviews(out@)) && sum_counts(
                    asg,
                    nviews(out@),
                ) + sum_counts(asg, iv.skip(idx as int + 1)) >= sum_counts(asg, iv))) by {
                    if all_nodes_monotone(asg, iv) {
                        assert(sum_counts(asg, Seq::<Seq<Lit>>::empty()) == 0);
                        lemma_sum_counts_push(asg, nviews(out0), input@[idx as int]@);
                        assert(monotone(asg, iv[idx as int]));
                        assert forall|i: int| 0 <= i < nviews(out@).len() implies monotone(
                            asg,
                            #[trigger] nviews(out@)[i],
                        ) by {
                            if i < out0.len() {
                                assert(nviews(out@)[i] == nviews(out0)[i]);
                            } else {
                                assert(nviews(out@)[i] == input@[idx as int]@);
                            }
                        }
                    }
                }
            }
            proof {
                assert forall|asg: Seq<bool>| (asg.len() == nvars0
                    && #[trigger] all_nodes_monotone(asg, iv)) implies exists|asg2: Seq<bool>|
                    #[trigger] level_ext_ok(
                        asg,
                        asg2,
                        nvars0,
                        solver_nvars(*s),
                        solver_clauses(*s),
                        cs0.len() as int,
                        nviews(out@),
                        sum_counts(asg, iv.take(idx as int + 1)),
                    ) by {
                    let asg2 = choose|asg2: Seq<bool>|
                        level_ext_ok(
                            asg,
                            asg2,
                            nvars0,
                            nv_pre,
                            cs_pre,
                            cs0.len() as int,
                            nviews(out0),
                            sum_counts(asg, iv.take(idx as int)),
                        );
                    let nd = input@[idx as int]@;
                    assert(iv[idx as int] == nd);
                    assert(monotone(asg, iv[idx as int]));
                    assert forall|v: int| 0 <= v < nvars0 implies asg2[v] == asg[v] by {
                        assert(asg2.take(nvars0 as int)[v] == asg2[v]);
                        assert(asg2.take(nvars0 as int) == asg);
                    }
                    assert(clause_wf(nd, nvars0));
                    lemma_count_true_agree(asg, asg2, nd, nvars0);
                    assert(nviews(out@) =~= nviews(out0).push(nd));
                    lemma_sum_counts_push(asg2, nviews(out0), nd);
                    assert(iv.take(idx as int + 1) =~= iv.take(idx as int).push(iv[idx as int]));
                    lemma_sum_counts_push(asg, iv.take(idx as int), iv[idx as int]);
                    assert forall|i: int| 0 <= i < nviews(out@).len() implies monotone(
                        asg2,
                        #[trigger] nviews(out@)[i],
                    ) by {
                        if i < out0.len() {
                            assert(nviews(out@)[i] == nviews(out0)[i]);
                        } else {
                            assert(nviews(out@)[i] == nd);
                        }
                    }
                    assert(level_ext_ok(
                        asg,
                        asg2,
                        nvars0,
                        solver_nvars(*s),
                        solver_clauses(*s),
                        cs0.len() as int,
                        nviews(out@),
                        sum_counts(asg, iv.take(idx as int + 1)),
                    ));
                }
            }
            proof {
                // the leftover node registers nothing and is carried unchanged
                assert(idx % 2 == 0);
                lemma_fundamental_div_mod(idx as int, 2);
                assert(2 * ((idx as int) / 2) == idx as int);
                lemma_fundamental_div_mod_converse(idx as int + 1, 2, (idx as int) / 2, 1);
                assert((idx as int + 1) / 2 == (idx as int) / 2);
                assert(idx + 1 == n);
                assert(n % 2 == 1) by {
                    lemma_fundamental_div_mod_converse(n as int, 2, (idx as int) / 2, 1);
                }
                assert(iv.take(idx as int + 1) =~= iv.take(idx as int) + seq![iv[idx as int]]);
                assert(iv.take(idx as int).len() == 2 * nviews(out0).len());
                lemma_pairs_clauses_snoc1(
                    iv.take(idx as int),
                    iv[idx as int],
                    nviews(out0),
                    input@[idx as int]@,
                );
                assert(solver_clauses(*s) =~= cs0 + pairs_clauses(
                    iv.take(idx as int + 1),
                    nviews(out@),
                ));
                assert(out@[out@.len() - 1]@ == input@[n as int - 1]@);
                assert forall|pr: int| 0 <= pr && 2 * pr + 1 < idx + 1 implies (#[trigger] out@[
                    pr
                ])@.len() == input@[2 * pr]@.len() + input@[2 * pr + 1]@.len() by {
                    assert(2 * pr + 1 < idx);
                    assert(out@[pr] == out0[pr]);
                }
                assert forall|pr: int, k: int|
                    0 <= pr && 2 * pr + 1 < idx + 1 && 0 <= k < out@[pr]@.len() implies !(
                #[trigger] out@[pr]@[k]).neg && out@[pr]@[k].var >= nvars0 by {
                    assert(2 * pr + 1 < idx);
                    assert(out@[pr] == out0[pr]);
                    assert(!out0[pr]@[k].neg && out0[pr]@[k].var >= nvars0);
                }
                let csn2 = solver_clauses(*s);
                assert forall|asg: Seq<bool>| #[trigger] all_clauses_sat(asg, csn2) implies (
                forall|pr: int|
                    0 <= pr && 2 * pr + 1 < idx + 1 ==> ((monotone(asg, input@[2 * pr]@)
                        && monotone(asg, input@[2 * pr + 1]@)) ==> (monotone(
                        asg,
                        (#[trigger] out@[pr])@,
                    ) && count_true(asg, out@[pr]@) >= count_true(asg, input@[2 * pr]@)
                        + count_true(asg, input@[2 * pr + 1]@)))) by {
                    assert forall|pr: int| 0 <= pr && 2 * pr + 1 < idx + 1 implies ((monotone(
                        asg,
                        input@[2 * pr]@,
                    ) && monotone(asg, input@[2 * pr + 1]@)) ==> (monotone(
                        asg,
                        (#[trigger] out@[pr])@,
                    ) && count_true(asg, out@[pr]@) >= count_true(asg, input@[2 * pr]@)
                        + count_true(asg, input@[2 * pr + 1]@))) by {
                        assert(2 * pr + 1 < idx);
                        assert(out@[pr] == out0[pr]);
                    }
                }
            }
            idx = idx + 1;
        }
    }
    proof {
        assert(iv.take(n as int) =~= iv);
        lemma_fundamental_div_mod(n as int, 2);
        if n % 2 == 1 {
            assert(2 * ((n as int) / 2) == n as int - 1);
            assert(iv.take(n as int) =~= iv.take(n as int - 1).push(iv[n as int - 1]));
            lemma_total_len_push(iv.take(n as int - 1), iv[n as int - 1]);
            assert(iv[n as int - 1] == input@[n as int - 1]@);
        } else {
            assert(2 * ((n as int) / 2) == n as int);
        }
        if n == 1 {
            assert(pairs_clauses(iv.take(1), nviews(out@)) =~= Seq::<Seq<Lit>>::empty());
            assert(solver_clauses(*s) =~= cs0);
            assert(out@.len() == 1);
            assert(out@[0]@ == input@[0]@);
            assert(total_len(iv.take(0)) == 0);
        }
        assert forall|asg: Seq<bool>| (asg.len() == nvars0 && #[trigger] all_nodes_monotone(
            asg,
            nviews(input@),
        )) implies exists|asg2: Seq<bool>|
            #[trigger] level_ext_ok(
                asg,
                asg2,
                nvars0,
                solver_nvars(*s),
                solver_clauses(*s),
                cs0.len() as int,
                nviews(out@),
                sum_counts(asg, nviews(input@)),
            ) by {
            assert(all_nodes_monotone(asg, iv));
            let asg2 = choose|asg2: Seq<bool>|
                level_ext_ok(
                    asg,
                    asg2,
                    nvars0,
                    solver_nvars(*s),
                    solver_clauses(*s),
                    cs0.len() as int,
                    nviews(out@),
                    sum_counts(asg, iv.take(idx as int)),
                );
            assert(sum_counts(asg, iv.take(idx as int)) == sum_counts(asg, nviews(input@)));
            assert(level_ext_ok(
                asg,
                asg2,
                nvars0,
                solver_nvars(*s),
                solver_clauses(*s),
                cs0.len() as int,
                nviews(out@),
                sum_counts(asg, nviews(input@)),
            ));
        }
        assert(iv.skip(n as int) =~= Seq::<Seq<Lit>>::empty());
        assert(total_len(Seq::<Seq<Lit>>::empty()) == 0);
        assert forall|asg: Seq<bool>| #[trigger] all_clauses_sat(asg, solver_clauses(*s)) implies (
        all_nodes_monotone(asg, iv) ==> (all_nodes_monotone(asg, nviews(out@)) && sum_counts(
            asg,
            nviews(out@),
        ) >= sum_counts(asg, iv))) by {
            if all_nodes_monotone(asg, iv) {
                assert(sum_counts(asg, Seq::<Seq<Lit>>::empty()) == 0);
            }
        }
    }
    out
}


/// Build the totalizer network over the given unit literals: register its
/// implication clauses with the solver and return the output sequence, of
/// the same length as the input. Under every assignment satisfying the
/// registered clauses, the output is thermometer-ordered and the number of
/// true outputs is at least the number of true inputs. A single input
/// literal is its own totalizer: it passes through with the solver
/// untouched; otherwise every output is a positive literal of a variable
/// allocated during the call.
pub fn gen_totalizer(s: &mut rsat::cdcl::Solver, lits: &Vec<Lit>) -> (t: Vec<Lit>)
    requires
        lits@.len() >= 1,
        clause_wf(lits@, solver_nvars(*old(s))),
        solver_nvars(*old(s)) + 2 * lits@.len() * lits@.len() <= usize::MAX,
    ensures
        t@.len() == lits@.len(),
        clause_wf(t@, solver_nvars(*final(s))),
        solver_nvars(*old(s)) <= solver_nvars(*final(s)),
        solver_clauses(*old(s)).is_prefix_of(solver_clauses(*final(s))),
        forall|j: int|
            solver_clauses(*old(s)).len() <= j < solver_clauses(*final(s)).len() ==> has_pos_lit(
                #[trigger] solver_clauses(*final(s))[j],
                solver_nvars(*final(s)),
            ),
        forall|asg0: Seq<bool>| #![trigger asg0.len()]
            asg0.len() == solver_nvars(*old(s)) ==> exists|asg2: Seq<bool>|
                #[trigger] tree_ext_ok(
                    asg0,
                    asg2,
                    solver_nvars(*old(s)),
                    solver_nvars(*final(s)),
                    solver_clauses(*final(s)),
                    solver_clauses(*old(s)).len() as int,
                    t@,
                    count_true(asg0, lits@),
                ),
        forall|asg: Seq<bool>|
            #[trigger] all_clauses_sat(asg, solver_clauses(*final(s))) ==> (monotone(asg, t@)
                && count_true(asg, t@) >= count_true(asg, lits@)),
        lits@.len() == 1 ==> (t@ == lits@ && solver_nvars(*final(s)) == solver_nvars(*old(s))
            && solver_clauses(*final(s)) == solver_clauses(*old(s))),
        lits@.len() > 1 ==> (forall|k: int|
            0 <= k < t@.len() ==> !(#[trigger] t@[k]).neg && t@[k].var >= solver_nvars(*old(s))),
{
    let ghost nvars0 = solver_nvars(*s);
    let ghost cs0 = solver_clauses(*s);
    let ghost big_l = lits@.len() as int;
    let l_len = lits.len();
    let mut nodes: Vec<Vec<Lit>> = Vec::new();
    for i in 0..l_len
        invariant
            l_len == lits@.len(),
            nodes@.len() == i,
            solver_nvars(*s) == nvars0,
            solver_clauses(*s) == cs0,
            clause_wf(lits@, nvars0),
            forall|k: int| 0 <= k < nodes@.len() ==> (#[trigger] nodes@[k])@ == seq![lits@[k]],
            total_len(nviews(nodes@)) == i,
            forall|asg: Seq<bool>| #[trigger] sum_counts(asg, nviews(nodes@)) == count_true(
                asg,
                lits@.take(i as int),
            ),
    {
        let ghost nodes0 = nodes@;
        let mut node: Vec<Lit> = Vec::new();
        node.push(lits[i]);
        nodes.push(node);
        proof {
            let ghost nd = nodes@[i as int]@;
            assert(nd =~= seq![lits@[i as int]]);
            assert(nviews(nodes@) =~= nviews(nodes0).push(nd));
            lemma_total_len_push(nviews(nodes0), nd);
            assert forall|asg: Seq<bool>| #[trigger] sum_counts(asg, nviews(nodes@)) == count_true(
                asg,
                lits@.take(i as int + 1),
            ) by {
                lemma_sum_counts_push(asg, nviews(nodes0), nd);
                assert(lits@.take(i as int + 1) =~= lits@.take(i as int) + seq![lits@[i as int]]);
                lemma_count_true_add(asg, lits@.take(i as int), seq![lits@[i as int]]);
                assert(count_true(asg, nd) == (if lit_sat(asg, lits@[i as int]) {
                    1nat
                } else {
                    0nat
                })) by {
                    assert(nd.drop_first() =~= Seq::<Lit>::empty());
                    assert(count_true(asg, Seq::<Lit>::empty()) == 0);
                    assert(nd[0] == lits@[i as int]);
                }
            }
        }
    }
    proof {
        assert(lits@.take(big_l) =~= lits@);
        assert forall|asg: Seq<bool>| #[trigger] all_clauses_sat(asg, solver_clauses(*s)) implies (
        all_nodes_monotone(asg, nviews(nodes@)) && sum_counts(asg, nviews(nodes@)) >= count_true(
            asg,
            lits@,
        )) by {
            assert forall|k: int| 0 <= k < nviews(nodes@).len() implies monotone(
                asg,
                #[trigger] nviews(nodes@)[k],
            ) by {
                assert(nviews(nodes@)[k] == nodes@[k]@);
                assert(nodes@[k]@.len() == 1);
            }
            assert(sum_counts(asg, nviews(nodes@)) == count_true(asg, lits@.take(big_l)));
        }
        assert forall|asg0: Seq<bool>| #![trigger asg0.len()] asg0.len() == nvars0 implies exists|
            asg2: Seq<bool>,
        |
            #[trigger] level_ext_ok(
                asg0,
                asg2,
                nvars0,
                solver_nvars(*s),
                solver_clauses(*s),
                cs0.len() as int,
                nviews(nodes@),
                count_true(asg0, lits@),
            ) by {
            assert(asg0.take(nvars0 as int) =~= asg0);
            assert forall|k: int| 0 <= k < nviews(nodes@).len() implies monotone(
                asg0,
                #[trigger] nviews(nodes@)[k],
            ) by {
                assert(nviews(nodes@)[k] == nodes@[k]@);
                assert(nodes@[k]@.len() == 1);
            }
            assert(sum_counts(asg0, nviews(nodes@)) == count_true(asg0, lits@.take(big_l)));
            assert(level_ext_ok(
                asg0,
                asg0,
                nvars0,
                solver_nvars(*s),
                solver_clauses(*s),
                cs0.len() as int,
                nviews(nodes@),
                count_true(asg0, lits@),
            ));
        }
    }
    proof {
        if big_l == 1 {
            assert(nodes@[0]@ == seq![lits@[0]]);
            assert(lits@ =~= seq![lits@[0]]);
        }
    }
    while nodes.len() > 1
        invariant
            1 <= nodes@.len(),
            nodes@.len() <= big_l,
            big_l == lits@.len(),
            forall|i: int| 0 <= i < nodes@.len() ==> (#[trigger] nodes@[i])@.len() >= 1,
            forall|i: int|
                0 <= i < nodes@.len() ==> clause_wf((#[trigger] nodes@[i])@, solver_nvars(*s)),
            nvars0 <= solver_nvars(*s),
            total_len(nviews(nodes@)) == big_l,
            solver_nvars(*s) + 2 * big_l * nodes@.len() <= nvars0 + 2 * big_l * big_l,
            nvars0 + 2 * big_l * big_l <= usize::MAX,
            cs0.is_prefix_of(solver_clauses(*s)),
            forall|j: int|
                cs0.len() <= j < solver_clauses(*s).len() ==> has_pos_lit(
                    #[trigger] solver_clauses(*s)[j],
                    solver_nvars(*s),
                ),
            forall|j: int|
                cs0.len() <= j < solver_clauses(*s).len() ==> clause_wf(
                    #[trigger] solver_clauses(*s)[j],
                    solver_nvars(*s),
                ),
            forall|asg0: Seq<bool>| #![trigger asg0.len()]
                asg0.len() == nvars0 ==> exists|asg2: Seq<bool>|
                    #[trigger] level_ext_ok(
                        asg0,
                        asg2,
                        nvars0,
                        solver_nvars(*s),
                        solver_clauses(*s),
                        cs0.len() as int,
                        nviews(nodes@),
                        count_true(asg0, lits@),
                    ),
            forall|asg: Seq<bool>|
                #[trigger] all_clauses_sat(asg, solver_clauses(*s)) ==> (all_nodes_monotone(
                    asg,
                    nviews(nodes@),
                ) && sum_counts(asg, nviews(nodes@)) >= count_true(asg, lits@)),
            big_l == 1 ==> (nodes@.len() == 1 && nodes@[0]@ == lits@ && solver_nvars(*s) == nvars0
                && solver_clauses(*s) == cs0),
            big_l > 1 && nodes@.len() == 1 ==> (forall|k: int|
                0 <= k < nodes@[0]@.len() ==> !(#[trigger] nodes@[0]@[k]).neg && nodes@[0]@[k].var
                    >= nvars0),
        decreases nodes@.len(),
    {
        let ghost k = nodes@.len() as int;
        let ghost inodes = nviews(nodes@);
        let ghost cs_pre = solver_clauses(*s);
        let ghost nv_pre = solver_nvars(*s) as int;
        proof {
            assert(nv_pre + total_len(inodes) <= usize::MAX) by (nonlinear_arith)
                requires
                    nv_pre + 2 * big_l * k <= nvars0 + 2 * big_l * big_l,
                    nvars0 + 2 * big_l * big_l <= usize::MAX,
                    total_len(inodes) == big_l,
                    k >= 2,
                    big_l >= 1,
                    nvars0 >= 0,
            ;
        }
        nodes = totalizer_single_level(s, nodes);
        proof {
            lemma_prefix_trans(cs0, cs_pre, solver_clauses(*s));
            assert forall|j: int| cs0.len() <= j < solver_clauses(*s).len() implies has_pos_lit(
                #[trigger] solver_clauses(*s)[j],
                solver_nvars(*s),
            ) by {
                if j < cs_pre.len() {
                    assert(solver_clauses(*s)[j] == cs_pre[j]);
                    lemma_has_pos_mono(cs_pre[j], nv_pre as nat, solver_nvars(*s));
                }
            }
            assert(nodes@.len() == (k + 1) / 2);
            assert((k + 1) / 2 <= k - 1);
            assert(solver_nvars(*s) + 2 * big_l * nodes@.len() <= nvars0 + 2 * big_l * big_l) by (
            nonlinear_arith)
                requires
                    solver_nvars(*s) <= nv_pre + big_l,
                    nodes@.len() <= k - 1,
                    nv_pre + 2 * big_l * k <= nvars0 + 2 * big_l * big_l,
                    big_l >= 1,
                    nodes@.len() >= 0,
            ;
            let csn = solver_clauses(*s);
            assert forall|asg: Seq<bool>| #[trigger] all_clauses_sat(asg, csn) implies (
            all_nodes_monotone(asg, nviews(nodes@)) && sum_counts(asg, nviews(nodes@))
                >= count_true(asg, lits@)) by {
                lemma_sat_prefix(asg, csn, cs_pre);
            }
            assert forall|j: int| cs0.len() <= j < solver_clauses(*s).len() implies clause_wf(
                #[trigger] solver_clauses(*s)[j],
                solver_nvars(*s),
            ) by {
                if j < cs_pre.len() {
                    assert(solver_clauses(*s)[j] == cs_pre[j]);
                    lemma_clause_wf_mono(cs_pre[j], nv_pre as nat, solver_nvars(*s));
                }
            }
            assert forall|asg0: Seq<bool>| #![trigger asg0.len()] asg0.len() == nvars0 implies
                exists|asg2: Seq<bool>|
                    #[trigger] level_ext_ok(
                        asg0,
                        asg2,
                        nvars0,
                        solver_nvars(*s),
                        solver_clauses(*s),
                        cs0.len() as int,
                        nviews(nodes@),
                        count_true(asg0, lits@),
                    ) by {
                let asg2 = choose|asg2: Seq<bool>|
                    #[trigger] level_ext_ok(
                        asg0,
                        asg2,
                        nvars0,
                        nv_pre as nat,
                        cs_pre,
                        cs0.len() as int,
                        inodes,
                        count_true(asg0, lits@),
                    );
                assert(asg2.len() == nv_pre as nat && all_nodes_monotone(asg2, inodes));
                let asg3 = choose|asg3: Seq<bool>|
                    #[trigger] level_ext_ok(
                        asg2,
                        asg3,
                        nv_pre as nat,
                        solver_nvars(*s),
                        solver_clauses(*s),
                        cs_pre.len() as int,
                        nviews(nodes@),
                        sum_counts(asg2, inodes),
                    );
                assert forall|v: int| 0 <= v < nvars0 implies asg3[v] == asg0[v] by {
                    assert(asg3.take(nv_pre as int)[v] == asg3[v]);
                    assert(asg3.take(nv_pre as int) == asg2);
                    assert(asg2.take(nvars0 as int)[v] == asg2[v]);
                    assert(asg2.take(nvars0 as int) == asg0);
                }
                assert(asg3.take(nvars0 as int) =~= asg0);
                assert forall|j: int| cs0.len() <= j < solver_clauses(*s).len() implies clause_sat(
                    asg3,
                    #[trigger] solver_clauses(*s)[j],
                ) by {
                    if j < cs_pre.len() {
                        assert(solver_clauses(*s)[j] == cs_pre[j]);
                        assert(clause_sat(asg2, cs_pre[j]));
                        assert(clause_wf(cs_pre[j], nv_pre as nat));
                        assert forall|v: int| 0 <= v < nv_pre implies asg2[v] == asg3[v] by {
                            assert(asg3.take(nv_pre as int)[v] == asg3[v]);
                            assert(asg3.take(nv_pre as int) == asg2);
                        }
                        lemma_clause_sat_agree(asg2, asg3, cs_pre[j], nv_pre as nat);
                    }
                }
                assert(level_ext_ok(
                    asg0,
                    asg3,
                    nvars0,
                    solver_nvars(*s),
                    solver_clauses(*s),
                    cs0.len() as int,
                    nviews(nodes@),
                    count_true(asg0, lits@),
                ));
            }
            if nodes@.len() == 1 {
                // the final node came out of a merge: fresh positive outputs
                assert(2 * 0 + 1 < inodes.len());
                assert forall|k2: int| 0 <= k2 < nodes@[0]@.len() implies !(
                #[trigger] nodes@[0]@[k2]).neg && nodes@[0]@[k2].var >= nvars0 by {
                    assert(!nodes@[0]@[k2].neg && nodes@[0]@[k2].var >= nv_pre as nat);
                }
            }
        }
    }
    proof {
        assert(nodes@.len() == 1);
        assert(nviews(nodes@).len() == 1);
        assert(nviews(nodes@)[0] == nodes@[0]@);
        assert(nviews(nodes@).drop_first() =~= Seq::<Seq<Lit>>::empty());
        assert(total_len(Seq::<Seq<Lit>>::empty()) == 0);
        assert(nodes@[0]@.len() == big_l);
    }
    let ghost fnodes = nviews(nodes@);
    let t = nodes.pop().unwrap();
    proof {
        assert(t@ == fnodes[0]);
        if big_l == 1 {
            assert(t@ == lits@);
        }
        if big_l > 1 {
            assert forall|k2: int| 0 <= k2 < t@.len() implies !(#[trigger] t@[k2]).neg
                && t@[k2].var >= nvars0 by {
                assert(t@[k2] == fnodes[0][k2]);
            }
        }
        assert forall|asg: Seq<bool>| #[trigger] all_clauses_sat(asg, solver_clauses(*s)) implies (
        monotone(asg, t@) && count_true(asg, t@) >= count_true(asg, lits@)) by {
            assert(monotone(asg, fnodes[0]));
            assert(sum_counts(asg, Seq::<Seq<Lit>>::empty()) == 0);
            assert(sum_counts(asg, fnodes) == count_true(asg, fnodes[0]));
        }
        assert forall|asg0: Seq<bool>| #![trigger asg0.len()] asg0.len() == nvars0 implies exists|
            asg2: Seq<bool>,
        |
            #[trigger] tree_ext_ok(
                asg0,
                asg2,
                nvars0,
                solver_nvars(*s),
                solver_clauses(*s),
                cs0.len() as int,
                t@,
                count_true(asg0, lits@),
            ) by {
            let asg2 = choose|asg2: Seq<bool>|
                #[trigger] level_ext_ok(
                    asg0,
                    asg2,
                    nvars0,
                    solver_nvars(*s),
                    solver_clauses(*s),
                    cs0.len() as int,
                    fnodes,
                    count_true(asg0, lits@),
                );
            assert(monotone(asg2, fnodes[0]));
            assert(sum_counts(asg2, Seq::<Seq<Lit>>::empty()) == 0);
            assert(sum_counts(asg2, fnodes) == count_true(asg2, fnodes[0]));
            assert(tree_ext_ok(
                asg0,
                asg2,
                nvars0,
                solver_nvars(*s),
                solver_clauses(*s),
                cs0.len() as int,
                t@,
                count_true(asg0, lits@),
            ));
        }
    }
    t
}


} // verus!
