//! The mathematical model of a packed diagram: the Boolean function a node
//! array denotes, and the structural invariants that make the layout
//! canonical.

use vstd::prelude::*;

use crate::{BddNode, BddPointer, BddVariable};

verus! {

/// The `0` terminal record of a universe with `n` variables.
pub open spec fn zero_node(n: u16) -> BddNode {
    BddNode { var: BddVariable(n), low_link: BddPointer(0), high_link: BddPointer(0) }
}

/// The `1` terminal record of a universe with `n` variables.
pub open spec fn one_node(n: u16) -> BddNode {
    BddNode { var: BddVariable(n), low_link: BddPointer(1), high_link: BddPointer(1) }
}

/// The variable count recorded by a node array (read off the `0` terminal).
pub open spec fn nvars_of(nodes: Seq<BddNode>) -> u16 {
    nodes[0].var.0
}

/// Structural soundness of one decision node at position `i`: its variable
/// lies inside the universe, both successors are stored strictly earlier,
/// the test is not redundant, and both successors test strictly larger
/// variables (terminals carry the sentinel `n`).
pub open spec fn node_ok(nodes: Seq<BddNode>, n: u16, i: int) -> bool {
    let nd = nodes[i];
    let lo = nd.low_link.0 as int;
    let hi = nd.high_link.0 as int;
    &&& (nd.var.0 as int) < n as int
    &&& lo < i
    &&& hi < i
    &&& lo != hi
    &&& (nd.var.0 as int) < nodes[lo].var.0 as int
    &&& (nd.var.0 as int) < nodes[hi].var.0 as int
}

/// Well-formedness of a packed node array: the terminal prefix is in place,
/// every decision node is structurally sound, and no two decision nodes
/// carry the same record. The `false` diagram is the one-element array.
pub open spec fn wf(nodes: Seq<BddNode>) -> bool {
    let n = nvars_of(nodes);
    &&& 1 <= nodes.len() <= u32::MAX as int
    &&& nodes[0] == zero_node(n)
    &&& nodes.len() >= 2 ==> nodes[1] == one_node(n)
    &&& forall|i: int| 2 <= i < nodes.len() ==> #[trigger] node_ok(nodes, n, i)
    &&& forall|i: int, j: int|
        2 <= i < nodes.len() && 2 <= j < nodes.len() && i != j ==> #[trigger] nodes[i]
            != #[trigger] nodes[j]
}

/// The Boolean function denoted by position `p` of a node array, evaluated
/// on the valuation `m`. Positions and records that a well-formed array
/// cannot contain evaluate to `false`.
pub open spec fn eval_ptr(nodes: Seq<BddNode>, p: int, m: Seq<bool>) -> bool
    decreases p,
{
    if p == 1 {
        true
    } else if p <= 0 || p >= nodes.len() {
        false
    } else {
        let nd = nodes[p];
        let v = nd.var.0 as int;
        let lo = nd.low_link.0 as int;
        let hi = nd.high_link.0 as int;
        if lo < p && hi < p && v < m.len() {
            if m[v] {
                eval_ptr(nodes, hi, m)
            } else {
                eval_ptr(nodes, lo, m)
            }
        } else {
            false
        }
    }
}

/// Evaluation only reads positions up to `p`, so extending the array on the
/// right never changes the function of an existing position.
pub proof fn lemma_eval_extend(pre: Seq<BddNode>, post: Seq<BddNode>, p: int, m: Seq<bool>)
    requires
        pre.len() <= post.len(),
        forall|q: int| 0 <= q < pre.len() ==> pre[q] == post[q],
        0 <= p < pre.len(),
    ensures
        eval_ptr(pre, p, m) == eval_ptr(post, p, m),
    decreases p,
{
    if p == 1 || p <= 0 {
    } else {
        let nd = pre[p];
        let v = nd.var.0 as int;
        let lo = nd.low_link.0 as int;
        let hi = nd.high_link.0 as int;
        if lo < p && hi < p && v < m.len() {
            lemma_eval_extend(pre, post, lo, m);
            lemma_eval_extend(pre, post, hi, m);
        }
    }
}

/// `lemma_eval_extend`, stated over every position and valuation at once.
pub proof fn lemma_eval_extend_all(pre: Seq<BddNode>, post: Seq<BddNode>)
    requires
        pre.len() <= post.len(),
        forall|q: int| 0 <= q < pre.len() ==> pre[q] == post[q],
    ensures
        forall|p: int, m: Seq<bool>|
            0 <= p < pre.len() ==> #[trigger] eval_ptr(post, p, m) == eval_ptr(pre, p, m),
{
    assert forall|p: int, m: Seq<bool>| 0 <= p < pre.len() implies #[trigger] eval_ptr(post, p, m)
        == eval_ptr(pre, p, m) by {
        lemma_eval_extend(pre, post, p, m);
    }
}

/// The function at position `p` does not depend on variables strictly below
/// the variable tested at `p` (terminals test nothing at all).
pub proof fn lemma_eval_indep(nodes: Seq<BddNode>, p: int, m1: Seq<bool>, m2: Seq<bool>)
    requires
        wf(nodes),
        0 <= p < nodes.len(),
        m1.len() == nvars_of(nodes) as int,
        m2.len() == nvars_of(nodes) as int,
        forall|v: int| nodes[p].var.0 as int <= v < m1.len() ==> m1[v] == m2[v],
    ensures
        eval_ptr(nodes, p, m1) == eval_ptr(nodes, p, m2),
    decreases p,
{
    let n = nvars_of(nodes);
    if p <= 1 {
    } else {
        assert(node_ok(nodes, n, p));
        let nd = nodes[p];
        let v = nd.var.0 as int;
        let lo = nd.low_link.0 as int;
        let hi = nd.high_link.0 as int;
        assert(m1[v] == m2[v]);
        lemma_eval_indep(nodes, lo, m1, m2);
        lemma_eval_indep(nodes, hi, m1, m2);
    }
}

/// Every position other than the `0` terminal is satisfiable in a
/// well-formed array: reduction forbids a node both of whose successors are
/// the `0` terminal, so a path to the `1` terminal always exists.
pub proof fn lemma_sat(nodes: Seq<BddNode>, p: int)
    ensures
        wf(nodes) && 1 <= p < nodes.len() ==> exists|m: Seq<bool>|
            m.len() == nvars_of(nodes) as int && #[trigger] eval_ptr(nodes, p, m),
    decreases p,
{
    if wf(nodes) && 1 <= p < nodes.len() {
        let n = nvars_of(nodes);
        if p == 1 {
            let m0 = Seq::<bool>::new(n as nat, |i: int| false);
            assert(eval_ptr(nodes, 1, m0));
        } else {
            assert(node_ok(nodes, n, p));
            let nd = nodes[p];
            let v = nd.var.0 as int;
            let lo = nd.low_link.0 as int;
            let hi = nd.high_link.0 as int;
            let child = if lo != 0 { lo } else { hi };
            let bit = (lo == 0);
            lemma_sat(nodes, child);
            let m0 = choose|m0: Seq<bool>|
                m0.len() == n as int && #[trigger] eval_ptr(nodes, child, m0);
            let m = m0.update(v, bit);
            assert(m.len() == n as int);
            assert(forall|w: int|
                nodes[child].var.0 as int <= w < m.len() ==> m[w] == m0[w]);
            lemma_eval_indep(nodes, child, m, m0);
            assert(eval_ptr(nodes, p, m));
        }
    }
}

} // verus!
