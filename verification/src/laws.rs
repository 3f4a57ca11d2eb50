//! The general laws of the library, stated over the mathematical model and
//! proved once and for all: canonicity consequences, satisfiability, and
//! the soundness, projection and functionality laws of picking.

use vstd::prelude::*;

use crate::relation::{proj_sem, proj_sem_upto};
use crate::semantics::{eval_ptr, lemma_eval_indep, lemma_sat, node_ok, nvars_of, wf};
use crate::{Bdd, BddNode, BddVariable};

verus! {

/// Whether any of the first `k` entries of `vs` names position `w`.
pub open spec fn names_upto(vs: Seq<BddVariable>, k: int, w: int) -> bool {
    exists|i: int| 0 <= i < k && (#[trigger] vs[i]).0 as int == w
}

/// Byte-for-byte equal diagrams denote the same function. This is the
/// plain direction of canonicity. The converse — semantic equivalence
/// forcing byte equality — additionally needs the layout to be a function
/// of the node graph; `lemma_positions_distinct` below proves its semantic
/// half, that a well-formed array never stores one function twice.
pub proof fn lemma_equal_diagrams_equal_functions(a: Bdd, b: Bdd, m: Seq<bool>)
    requires
        a@ == b@,
    ensures
        a.sem(m) == b.sem(m),
{
}

/// A well-formed diagram is the one-node `false` diagram exactly when its
/// function has no model: structural and semantic emptiness coincide.
pub proof fn lemma_false_iff_unsat(a: Bdd)
    requires
        a.inv(),
    ensures
        (a@.len() == 1) <==> !(exists|m: Seq<bool>|
            m.len() == a.nv() as int && #[trigger] a.sem(m)),
{
    if a@.len() == 1 {
        assert forall|m: Seq<bool>| m.len() == a.nv() as int implies !#[trigger] a.sem(m) by {
            assert(a.sem(m) == eval_ptr(a@, 0, m));
        }
    } else {
        lemma_sat(a@, a@.len() - 1);
        let m = choose|m: Seq<bool>|
            m.len() == nvars_of(a@) as int && #[trigger] eval_ptr(a@, a@.len() - 1, m);
        assert(a.sem(m));
    }
}


/// The semantic heart of canonicity: in one well-formed array, no two
/// distinct positions denote the same function. Ordering rules out hidden
/// dependence, the no-redundant-test rule makes every decision node depend
/// on its variable, and the no-duplicate rule closes the induction. What
/// this leaves open of byte-for-byte canonicity is only that the
/// DFS-postorder layout is a function of the node graph.
pub proof fn lemma_positions_distinct(nodes: Seq<BddNode>, p: int, q: int)
    requires
        wf(nodes),
        0 <= p < nodes.len(),
        0 <= q < nodes.len(),
        p != q,
    ensures
        exists|m: Seq<bool>|
            m.len() == nvars_of(nodes) as int && #[trigger] eval_ptr(nodes, p, m) != eval_ptr(
                nodes,
                q,
                m,
            ),
    decreases (if p < q {
        q
    } else {
        p
    }),
{
    let n = nvars_of(nodes);
    if p < 2 && q < 2 {
        let m0 = Seq::new(n as nat, |i: int| false);
        assert(m0.len() == n as int && eval_ptr(nodes, p, m0) != eval_ptr(nodes, q, m0));
    } else if p < 2 || q < 2 {
        // One terminal against a decision node: the decision node takes
        // both values, the terminal only one.
        let t = if p < 2 {
            p
        } else {
            q
        };
        let d = if p < 2 {
            q
        } else {
            p
        };
        assert(node_ok(nodes, n, d));
        let nd = nodes[d];
        let v = nd.var.0 as int;
        let lo = nd.low_link.0 as int;
        let hi = nd.high_link.0 as int;
        lemma_positions_distinct(nodes, lo, hi);
        let m0 = choose|m0: Seq<bool>|
            m0.len() == n as int && #[trigger] eval_ptr(nodes, lo, m0) != eval_ptr(nodes, hi, m0);
        let mf = m0.update(v, false);
        let mt = m0.update(v, true);
        lemma_eval_indep(nodes, lo, mf, m0);
        lemma_eval_indep(nodes, hi, mt, m0);
        assert(eval_ptr(nodes, d, mf) == eval_ptr(nodes, lo, m0));
        assert(eval_ptr(nodes, d, mt) == eval_ptr(nodes, hi, m0));
        if eval_ptr(nodes, d, mf) != eval_ptr(nodes, t, mf) {
            assert(mf.len() == n as int && eval_ptr(nodes, p, mf) != eval_ptr(nodes, q, mf));
        } else {
            assert(mt.len() == n as int && eval_ptr(nodes, p, mt) != eval_ptr(nodes, q, mt));
        }
    } else {
        assert(node_ok(nodes, n, p));
        assert(node_ok(nodes, n, q));
        let vp = nodes[p].var.0 as int;
        let vq = nodes[q].var.0 as int;
        if vp != vq {
            // The node testing the smaller variable depends on it; the
            // other's function cannot.
            let a = if vp < vq {
                p
            } else {
                q
            };
            let b = if vp < vq {
                q
            } else {
                p
            };
            let na = nodes[a];
            let va = na.var.0 as int;
            let lo = na.low_link.0 as int;
            let hi = na.high_link.0 as int;
            lemma_positions_distinct(nodes, lo, hi);
            let m0 = choose|m0: Seq<bool>|
                m0.len() == n as int && #[trigger] eval_ptr(nodes, lo, m0) != eval_ptr(
                    nodes,
                    hi,
                    m0,
                );
            let mf = m0.update(va, false);
            let mt = m0.update(va, true);
            lemma_eval_indep(nodes, lo, mf, m0);
            lemma_eval_indep(nodes, hi, mt, m0);
            assert(eval_ptr(nodes, a, mf) == eval_ptr(nodes, lo, m0));
            assert(eval_ptr(nodes, a, mt) == eval_ptr(nodes, hi, m0));
            lemma_eval_indep(nodes, b, mf, mt);
            if eval_ptr(nodes, a, mf) != eval_ptr(nodes, b, mf) {
                assert(mf.len() == n as int && eval_ptr(nodes, p, mf) != eval_ptr(nodes, q, mf));
            } else {
                assert(mt.len() == n as int && eval_ptr(nodes, p, mt) != eval_ptr(nodes, q, mt));
            }
        } else {
            let v = vp;
            let lp = nodes[p].low_link.0 as int;
            let hp = nodes[p].high_link.0 as int;
            let lq = nodes[q].low_link.0 as int;
            let hq = nodes[q].high_link.0 as int;
            if lp != lq {
                lemma_positions_distinct(nodes, lp, lq);
                let m0 = choose|m0: Seq<bool>|
                    m0.len() == n as int && #[trigger] eval_ptr(nodes, lp, m0) != eval_ptr(
                        nodes,
                        lq,
                        m0,
                    );
                let mf = m0.update(v, false);
                lemma_eval_indep(nodes, lp, mf, m0);
                lemma_eval_indep(nodes, lq, mf, m0);
                assert(mf.len() == n as int && eval_ptr(nodes, p, mf) != eval_ptr(nodes, q, mf));
            } else if hp != hq {
                lemma_positions_distinct(nodes, hp, hq);
                let m0 = choose|m0: Seq<bool>|
                    m0.len() == n as int && #[trigger] eval_ptr(nodes, hp, m0) != eval_ptr(
                        nodes,
                        hq,
                        m0,
                    );
                let mt = m0.update(v, true);
                lemma_eval_indep(nodes, hp, mt, m0);
                lemma_eval_indep(nodes, hq, mt, m0);
                assert(mt.len() == n as int && eval_ptr(nodes, p, mt) != eval_ptr(nodes, q, mt));
            } else {
                assert(nodes[p] == nodes[q]);
                assert(false);
            }
        }
    }
}

/// The function a single picking step leaves: models keep `v = false`, or
/// keep `v = true` exactly when their `v = false` variant is no model.
pub open spec fn var_pick_sem(a: Bdd, v: BddVariable, m: Seq<bool>) -> bool {
    a.sem(m) && !(m[v.0 as int] && a.sem(m.update(v.0 as int, false)))
}

/// Picking one variable is functional in it: at most one of its two values
/// completes `m` into a picked model.
pub proof fn lemma_var_pick_functional(a: Bdd, v: BddVariable, m: Seq<bool>)
    requires
        (v.0 as int) < m.len(),
    ensures
        !(var_pick_sem(a, v, m.update(v.0 as int, false)) && var_pick_sem(
            a,
            v,
            m.update(v.0 as int, true),
        )),
{
    let vv = v.0 as int;
    let m0 = m.update(vv, false);
    let m1 = m.update(vv, true);
    assert(m0.update(vv, false) =~= m0);
    assert(m1.update(vv, false) =~= m0);
    assert(m0[vv] == false && m1[vv] == true);
}

/// Picking one variable keeps the projection at that variable: some value
/// of `v` completes `m` into a picked model exactly when some value
/// completes it into an original model.
pub proof fn lemma_var_pick_projection(a: Bdd, v: BddVariable, m: Seq<bool>)
    requires
        (v.0 as int) < m.len(),
    ensures
        (var_pick_sem(a, v, m.update(v.0 as int, false)) || var_pick_sem(
            a,
            v,
            m.update(v.0 as int, true),
        )) == (a.sem(m.update(v.0 as int, false)) || a.sem(m.update(v.0 as int, true))),
{
    let vv = v.0 as int;
    let m0 = m.update(vv, false);
    let m1 = m.update(vv, true);
    assert(m0.update(vv, false) =~= m0);
    assert(m1.update(vv, false) =~= m0);
    assert(m0[vv] == false && m1[vv] == true);
}

/// Existential projection, unrolled variable by variable, is the honest
/// existential: the projected function holds at `m` exactly when some
/// valuation agreeing with `m` outside the projected variables satisfies
/// the original function.
pub proof fn lemma_projection_exists(a: Bdd, vs: Seq<BddVariable>, k: int, m: Seq<bool>)
    requires
        0 <= k <= vs.len(),
        forall|j: int| 0 <= j < k ==> ((#[trigger] vs[j]).0 as int) < m.len(),
    ensures
        proj_sem_upto(a, vs, k, m) <==> exists|m2: Seq<bool>|
            m2.len() == m.len() && (forall|w: int|
                0 <= w < m.len() && !names_upto(vs, k, w) ==> m2[w] == m[w]) && #[trigger] a.sem(
                m2,
            ),
    decreases k,
{
    if k == 0 {
        if proj_sem_upto(a, vs, 0, m) {
            assert(m.len() == m.len() && (forall|w: int|
                0 <= w < m.len() && !names_upto(vs, 0, w) ==> m[w] == m[w]) && a.sem(m));
        }
        if exists|m2: Seq<bool>|
            m2.len() == m.len() && (forall|w: int|
                0 <= w < m.len() && !names_upto(vs, 0, w) ==> m2[w] == m[w]) && #[trigger] a.sem(
                m2,
            ) {
            let m2 = choose|m2: Seq<bool>|
                m2.len() == m.len() && (forall|w: int|
                    0 <= w < m.len() && !names_upto(vs, 0, w) ==> m2[w] == m[w]) && #[trigger] a.sem(
                    m2,
                );
            assert(m2 =~= m);
        }
    } else {
        let v = vs[k - 1].0 as int;
        lemma_projection_exists(a, vs, k - 1, m.update(v, false));
        lemma_projection_exists(a, vs, k - 1, m.update(v, true));
        if proj_sem_upto(a, vs, k, m) {
            let b = if proj_sem_upto(a, vs, k - 1, m.update(v, true)) {
                true
            } else {
                false
            };
            let mb = m.update(v, b);
            let m2 = choose|m2: Seq<bool>|
                m2.len() == mb.len() && (forall|w: int|
                    0 <= w < mb.len() && !names_upto(vs, k - 1, w) ==> m2[w] == mb[w])
                    && #[trigger] a.sem(m2);
            assert forall|w: int| 0 <= w < m.len() && !names_upto(vs, k, w) implies m2[w]
                == m[w] by {
                assert(!names_upto(vs, k - 1, w));
                assert(w != v);
            }
        }
        if exists|m2: Seq<bool>|
            m2.len() == m.len() && (forall|w: int|
                0 <= w < m.len() && !names_upto(vs, k, w) ==> m2[w] == m[w]) && #[trigger] a.sem(
                m2,
            ) {
            let m2 = choose|m2: Seq<bool>|
                m2.len() == m.len() && (forall|w: int|
                    0 <= w < m.len() && !names_upto(vs, k, w) ==> m2[w] == m[w]) && #[trigger] a.sem(
                    m2,
                );
            let b = m2[v];
            let mb = m.update(v, b);
            assert forall|w: int| 0 <= w < mb.len() && !names_upto(vs, k - 1, w) implies m2[w]
                == mb[w] by {
                if w == v {
                } else {
                    if names_upto(vs, k, w) {
                        let j = choose|j: int| 0 <= j < k && (#[trigger] vs[j]).0 as int == w;
                        assert(j != k - 1);
                        assert(names_upto(vs, k - 1, w));
                    }
                }
            }
            assert(proj_sem_upto(a, vs, k - 1, mb));
        }
    }
}

/// The whole-list form of the projection law.
pub proof fn lemma_projection_law(a: Bdd, vs: Seq<BddVariable>, m: Seq<bool>)
    requires
        forall|j: int| 0 <= j < vs.len() ==> ((#[trigger] vs[j]).0 as int) < m.len(),
    ensures
        proj_sem(a, vs, m) <==> exists|m2: Seq<bool>|
            m2.len() == m.len() && (forall|w: int|
                0 <= w < m.len() && !names_upto(vs, vs.len() as int, w) ==> m2[w] == m[w])
                && #[trigger] a.sem(m2),
{
    lemma_projection_exists(a, vs, vs.len() as int, m);
}

} // verus!
