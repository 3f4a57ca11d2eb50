//! The apply engine: combine two diagrams under an arbitrary binary Boolean
//! connective, producing a canonical result through memoized recursion and
//! node hash-consing.

use std::collections::HashMap;
use vstd::prelude::*;

use crate::semantics::{
    eval_ptr, lemma_eval_extend_all, node_ok, nvars_of, one_node, wf, zero_node,
};
use crate::{Bdd, BddError, BddNode, BddPointer, BddVariable};

verus! {

broadcast use vstd::std_specs::hash::group_hash_axioms;

/// A binary Boolean connective, given by its truth table.
#[derive(Copy, Clone, Debug, PartialEq, Eq, Structural)]
pub struct BooleanOp {
    pub ff: bool,
    pub ft: bool,
    pub tf: bool,
    pub tt: bool,
}

/// The value of the connective on a pair of Booleans.
pub open spec fn op_eval(op: BooleanOp, x: bool, y: bool) -> bool {
    if x {
        if y {
            op.tt
        } else {
            op.tf
        }
    } else {
        if y {
            op.ft
        } else {
            op.ff
        }
    }
}

impl BooleanOp {
    /// Evaluate the truth table.
    pub fn eval(&self, x: bool, y: bool) -> (r: bool)
        ensures
            r == op_eval(*self, x, y),
    {
        if x {
            if y {
                self.tt
            } else {
                self.tf
            }
        } else {
            if y {
                self.ft
            } else {
                self.ff
            }
        }
    }

    /// Conjunction.
    pub fn conj() -> (r: BooleanOp)
        ensures
            forall|x: bool, y: bool| #[trigger] op_eval(r, x, y) == (x && y),
    {
        BooleanOp { ff: false, ft: false, tf: false, tt: true }
    }

    /// Disjunction.
    pub fn disj() -> (r: BooleanOp)
        ensures
            forall|x: bool, y: bool| #[trigger] op_eval(r, x, y) == (x || y),
    {
        BooleanOp { ff: false, ft: true, tf: true, tt: true }
    }

    /// Exclusive disjunction.
    pub fn exclusive() -> (r: BooleanOp)
        ensures
            forall|x: bool, y: bool| #[trigger] op_eval(r, x, y) == (x != y),
    {
        BooleanOp { ff: false, ft: true, tf: true, tt: false }
    }

    /// Implication.
    pub fn implication() -> (r: BooleanOp)
        ensures
            forall|x: bool, y: bool| #[trigger] op_eval(r, x, y) == (!x || y),
    {
        BooleanOp { ff: true, ft: true, tf: false, tt: true }
    }

    /// Equivalence.
    pub fn equivalence() -> (r: BooleanOp)
        ensures
            forall|x: bool, y: bool| #[trigger] op_eval(r, x, y) == (x == y),
    {
        BooleanOp { ff: true, ft: false, tf: false, tt: true }
    }
}

/// A node record packed into one integer, for the hash-consing table.
pub open spec fn enc_node(nd: BddNode) -> u128 {
    ((nd.var.0 as int) * 0x1_0000_0000_0000_0000 + (nd.low_link.0 as int) * 0x1_0000_0000 + (
    nd.high_link.0 as int)) as u128
}

/// A task of the simultaneous descent packed into one integer, for the
/// memoization table; `lb` is the node count of the right operand.
pub open spec fn enc_task(qa: int, qb: int, lb: int) -> u64 {
    (qa * lb + qb) as u64
}

/// The decision variable of a task: the smaller of the two tested
/// variables, with terminals carrying the sentinel.
pub open spec fn level(a: Seq<BddNode>, b: Seq<BddNode>, qa: int, qb: int) -> int {
    if a[qa].var.0 <= b[qb].var.0 {
        a[qa].var.0 as int
    } else {
        b[qb].var.0 as int
    }
}

/// The hash-consing table holds exactly the records of the array under
/// construction, keyed by their packed form.
pub open spec fn cache_ok(c: Map<u128, u32>, nodes: Seq<BddNode>) -> bool {
    &&& forall|k: u128| #[trigger]
        c.contains_key(k) ==> (c[k] as int) < nodes.len() && enc_node(nodes[c[k] as int]) == k
    &&& forall|i: int|
        0 <= i < nodes.len() ==> c.contains_key(#[trigger] enc_node(nodes[i])) && c[enc_node(
            nodes[i],
        )] as int == i
}

/// What one finished task promises about its stored result.
pub open spec fn memo_entry_ok(
    r: int,
    a: Seq<BddNode>,
    b: Seq<BddNode>,
    op: BooleanOp,
    nodes: Seq<BddNode>,
    qa: int,
    qb: int,
) -> bool {
    &&& 0 <= r < nodes.len()
    &&& nodes[r].var.0 as int >= level(a, b, qa, qb)
    &&& forall|m: Seq<bool>|
        m.len() == nvars_of(a) as int ==> #[trigger] eval_ptr(nodes, r, m) == op_eval(
            op,
            eval_ptr(a, qa, m),
            eval_ptr(b, qb, m),
        )
}

/// Soundness of the memoization table as a whole.
pub open spec fn memo_ok(
    mm: Map<u64, u32>,
    a: Seq<BddNode>,
    b: Seq<BddNode>,
    op: BooleanOp,
    nodes: Seq<BddNode>,
) -> bool {
    &&& forall|qa: int, qb: int|
        0 <= qa < a.len() && 0 <= qb < b.len() && mm.contains_key(
            #[trigger] enc_task(qa, qb, b.len() as int),
        ) ==> memo_entry_ok(
            mm[enc_task(qa, qb, b.len() as int)] as int,
            a,
            b,
            op,
            nodes,
            qa,
            qb,
        )
    &&& forall|k: u64| #[trigger] mm.contains_key(k) ==> (k as int) < a.len() * b.len()
}

/// Packing a task is injective over tasks of one right operand.
proof fn lemma_enc_task_inj(qa: int, qb: int, pa: int, pb: int, lb: int)
    requires
        0 <= qa,
        0 <= pa,
        0 <= qb < lb,
        0 <= pb < lb,
        qa * lb + qb <= u64::MAX as int,
        pa * lb + pb <= u64::MAX as int,
        enc_task(qa, qb, lb) == enc_task(pa, pb, lb),
    ensures
        qa == pa,
        qb == pb,
{
    assert(qa * lb + qb == pa * lb + pb);
    assert(qa == pa && qb == pb) by (nonlinear_arith)
        requires
            0 <= qa,
            0 <= pa,
            0 <= qb < lb,
            0 <= pb < lb,
            qa * lb + qb == pa * lb + pb,
    ;
}

/// A packed task number lies below the product of the operand sizes.
proof fn lemma_enc_task_range(qa: int, qb: int, la: int, lb: int)
    requires
        0 <= qa < la,
        0 <= qb < lb,
    ensures
        0 <= qa * lb + qb < la * lb,
{
    assert(0 <= qa * lb + qb < la * lb) by (nonlinear_arith)
        requires
            0 <= qa < la,
            0 <= qb < lb,
    ;
}

/// Packing a node record is injective.
pub(crate) proof fn lemma_enc_node_inj(n1: BddNode, n2: BddNode)
    requires
        enc_node(n1) == enc_node(n2),
    ensures
        n1 == n2,
{
    let a1 = n1.var.0 as int;
    let l1 = n1.low_link.0 as int;
    let h1 = n1.high_link.0 as int;
    let a2 = n2.var.0 as int;
    let l2 = n2.low_link.0 as int;
    let h2 = n2.high_link.0 as int;
    assert(a1 * 0x1_0000_0000_0000_0000 + l1 * 0x1_0000_0000 + h1 == a2 * 0x1_0000_0000_0000_0000
        + l2 * 0x1_0000_0000 + h2);
    assert(a1 == a2 && l1 == l2 && h1 == h2);
}

/// A set of packed task numbers all below `n` holds at most `n` elements.
pub(crate) proof fn lemma_key_set_card(s: Set<u64>, n: int)
    requires
        0 <= n <= u64::MAX as int + 1,
        forall|k: u64| s.contains(k) ==> (k as int) < n,
    ensures
        s.finite(),
        s.len() <= n,
    decreases n,
{
    if n == 0 {
        assert(s =~= Set::<u64>::empty());
    } else {
        let k0: u64 = (n - 1) as u64;
        let s2 = s.remove(k0);
        assert(forall|k: u64| s2.contains(k) ==> (k as int) < n - 1);
        lemma_key_set_card(s2, n - 1);
        if s.contains(k0) {
            assert(s =~= s2.insert(k0));
            assert(s.len() == s2.len() + 1);
        } else {
            assert(s =~= s2);
        }
    }
}

impl Bdd {
    /// One task of the simultaneous descent over `a` and `b`: produce the
    /// canonical node of `op` applied to the functions at `pa` and `pb`,
    /// appending any new nodes to `out`.
    #[verifier::rlimit(100)]
    #[verifier::spinoff_prover]
    fn apply_rec(
        a: &Bdd,
        b: &Bdd,
        op: BooleanOp,
        pa: u32,
        pb: u32,
        out: &mut Vec<BddNode>,
        cache: &mut HashMap<u128, u32>,
        memo: &mut HashMap<u64, u32>,
    ) -> (r: u32)
        requires
            a.inv(),
            b.inv(),
            a.nv() == b.nv(),
            (pa as int) < a@.len(),
            (pb as int) < b@.len(),
            a@.len() * b@.len() + 2 <= u32::MAX as int,
            wf(old(out)@),
            old(out)@.len() >= 2,
            nvars_of(old(out)@) == a.nv(),
            cache_ok(old(cache)@, old(out)@),
            memo_ok(old(memo)@, a@, b@, op, old(out)@),
            old(out)@.len() <= 2 + old(memo)@.dom().len(),
        ensures
            final(out)@.len() >= old(out)@.len(),
            forall|q: int| 0 <= q < old(out)@.len() ==> final(out)@[q] == old(out)@[q],
            wf(final(out)@),
            nvars_of(final(out)@) == a.nv(),
            cache_ok(final(cache)@, final(out)@),
            memo_ok(final(memo)@, a@, b@, op, final(out)@),
            final(out)@.len() <= 2 + final(memo)@.dom().len(),
            forall|k: u64| old(memo)@.contains_key(k) ==> final(memo)@.contains_key(k),
            forall|k: u64|
                final(memo)@.contains_key(k) && !old(memo)@.contains_key(k) ==> exists|
                    qa: int,
                    qb: int,
                |
                    0 <= qa < a@.len() && 0 <= qb < b@.len() && qa + qb <= pa + pb && k
                        == enc_task(qa, qb, b@.len() as int),
            (r as int) < final(out)@.len(),
            (r as int) == final(out)@.len() - 1 || final(out)@.len() == old(out)@.len(),
            final(out)@[r as int].var.0 as int >= level(a@, b@, pa as int, pb as int),
            forall|m: Seq<bool>|
                m.len() == a.nv() as int ==> #[trigger] eval_ptr(final(out)@, r as int, m)
                    == op_eval(op, eval_ptr(a@, pa as int, m), eval_ptr(b@, pb as int, m)),
        decreases pa + pb,
    {
        let ghost n = a.nv();
        let ghost la = a@.len() as int;
        let ghost lb = b@.len() as int;
        if pa < 2 && pb < 2 {
            let value = op.eval(pa == 1, pb == 1);
            let r: u32 = if value {
                1
            } else {
                0
            };
            proof {
                assert(a@[pa as int].var.0 == n);
                assert(b@[pb as int].var.0 == n);
                assert(out@[r as int].var.0 == nvars_of(out@));
                assert forall|m: Seq<bool>| m.len() == n as int implies #[trigger] eval_ptr(
                    out@,
                    r as int,
                    m,
                ) == op_eval(op, eval_ptr(a@, pa as int, m), eval_ptr(b@, pb as int, m)) by {
                    assert(eval_ptr(a@, pa as int, m) == (pa == 1));
                    assert(eval_ptr(b@, pb as int, m) == (pb == 1));
                    assert(eval_ptr(out@, r as int, m) == value);
                }
            }
            return r;
        }
        proof {
            lemma_enc_task_range(pa as int, pb as int, la, lb);
        }
        let key: u64 = (pa as u64) * (b.0.len() as u64) + (pb as u64);
        proof {
            assert(key == enc_task(pa as int, pb as int, lb));
        }
        if let Some(rr) = memo.get(&key) {
            let r = *rr;
            proof {
                assert(memo@.contains_key(key));
                assert(memo_entry_ok(memo@[key] as int, a@, b@, op, out@, pa as int, pb as int));
            }
            return r;
        }
        // The decision variable: the smaller tested variable; terminals
        // carry the sentinel and thus never win against a decision node.
        let va: u16 = a.0[pa as usize].var.0;
        let vb: u16 = b.0[pb as usize].var.0;
        let v: u16 = if va <= vb {
            va
        } else {
            vb
        };
        proof {
            if pa >= 2 {
                assert(node_ok(a@, n, pa as int));
            }
            if pb >= 2 {
                assert(node_ok(b@, n, pb as int));
            }
            assert((v as int) < (n as int));
            assert((v as int) == level(a@, b@, pa as int, pb as int));
        }
        let (alo, ahi): (u32, u32) = if va == v && pa >= 2 {
            (a.0[pa as usize].low_link.0, a.0[pa as usize].high_link.0)
        } else {
            (pa, pa)
        };
        let (blo, bhi): (u32, u32) = if vb == v && pb >= 2 {
            (b.0[pb as usize].low_link.0, b.0[pb as usize].high_link.0)
        } else {
            (pb, pb)
        };
        proof {
            if pa < 2 {
                assert(va == n);
                assert(va != v);
            }
            if pb < 2 {
                assert(vb == n);
                assert(vb != v);
            }
            assert((alo as int + blo as int) < (pa as int + pb as int));
            assert((ahi as int + bhi as int) < (pa as int + pb as int));
            // Cofactor roots test variables strictly above the decision one.
            assert((a@[alo as int].var.0 as int) > v as int);
            assert((a@[ahi as int].var.0 as int) > v as int);
            assert((b@[blo as int].var.0 as int) > v as int);
            assert((b@[bhi as int].var.0 as int) > v as int);
        }
        let ghost memo0 = memo@;
        let ghost out0 = out@;
        let l = Bdd::apply_rec(a, b, op, alo, blo, out, cache, memo);
        let ghost out1 = out@;
        let ghost memo1 = memo@;
        let h = Bdd::apply_rec(a, b, op, ahi, bhi, out, cache, memo);
        let ghost out2 = out@;
        let ghost memo2 = memo@;
        proof {
            lemma_eval_extend_all(out1, out2);
            // No entry for the current pointer pair can have appeared
            // during the two descents, because their entries all carry a
            // strictly smaller pointer sum.
            if memo2.contains_key(key) {
                assert(!memo0.contains_key(key));
                let (qa, qb) = choose|qa: int, qb: int|
                    0 <= qa < la && 0 <= qb < lb && qa + qb < pa as int + pb as int && key
                        == enc_task(qa, qb, lb);
                lemma_enc_task_range(qa, qb, la, lb);
                lemma_enc_task_inj(qa, qb, pa as int, pb as int, lb);
                assert(false);
            }
        }
        // Cofactor evaluation: on any valuation, the operands' functions at
        // `pa` and `pb` follow the branch the valuation picks at `v`.
        proof {
            assert forall|m: Seq<bool>| m.len() == n as int implies (eval_ptr(a@, pa as int, m)
                == if m[v as int] {
                eval_ptr(a@, ahi as int, m)
            } else {
                eval_ptr(a@, alo as int, m)
            }) && (eval_ptr(b@, pb as int, m) == if m[v as int] {
                eval_ptr(b@, bhi as int, m)
            } else {
                eval_ptr(b@, blo as int, m)
            }) by {
                if va == v {
                    assert(node_ok(a@, n, pa as int));
                }
                if vb == v {
                    assert(node_ok(b@, n, pb as int));
                }
            }
        }
        let r: u32;
        if l == h {
            r = l;
            proof {
                assert forall|m: Seq<bool>| m.len() == n as int implies #[trigger] eval_ptr(
                    out2,
                    r as int,
                    m,
                ) == op_eval(op, eval_ptr(a@, pa as int, m), eval_ptr(b@, pb as int, m)) by {
                    assert(eval_ptr(out2, l as int, m) == op_eval(
                        op,
                        eval_ptr(a@, alo as int, m),
                        eval_ptr(b@, blo as int, m),
                    ));
                    assert(eval_ptr(out2, h as int, m) == op_eval(
                        op,
                        eval_ptr(a@, ahi as int, m),
                        eval_ptr(b@, bhi as int, m),
                    ));
                }
            }
        } else {
            let node = BddNode {
                var: BddVariable(v),
                low_link: BddPointer(l),
                high_link: BddPointer(h),
            };
            let nkey: u128 = (node.var.0 as u128) * 0x1_0000_0000_0000_0000
                + (node.low_link.0 as u128) * 0x1_0000_0000 + (node.high_link.0 as u128);
            proof {
                assert(nkey == enc_node(node));
            }
            let cached = cache.get(&nkey);
            match cached {
                Some(ii) => {
                    r = *ii;
                    proof {
                        assert(cache@.contains_key(nkey));
                        assert(enc_node(out2[r as int]) == nkey);
                        lemma_enc_node_inj(out2[r as int], node);
                        assert(out2[r as int] == node);
                        // A terminal record never packs like a decision node.
                        assert(r >= 2) by {
                            if r < 2 {
                                assert(out2[r as int].var.0 == nvars_of(out2));
                            }
                        }
                        assert(node_ok(out2, n, r as int));
                        // A record pointing at a node one descent just
                        // created cannot predate it, so neither descent
                        // pushed anything.
                        assert(out2.len() == out0.len()) by {
                            assert(l < r && h < r);
                            if out2.len() > out1.len() {
                                assert(h as int == out2.len() - 1);
                            }
                            if out1.len() > out0.len() {
                                assert(l as int == out1.len() - 1);
                            }
                        }
                        assert forall|m: Seq<bool>| m.len() == n as int implies #[trigger]
                            eval_ptr(out2, r as int, m) == op_eval(
                            op,
                            eval_ptr(a@, pa as int, m),
                            eval_ptr(b@, pb as int, m),
                        ) by {
                            assert(eval_ptr(out2, r as int, m) == if m[v as int] {
                                eval_ptr(out2, h as int, m)
                            } else {
                                eval_ptr(out2, l as int, m)
                            });
                        }
                    }
                },
                None => {
                    proof {
                        assert(!cache@.contains_key(nkey));
                        // The packed numbers of all pending tasks fit below
                        // the size product, so the table, and with it the
                        // array, stays within pointer range.
                        assert(memo2.dom().finite());
                        assert(!memo2.dom().contains(key));
                        lemma_key_set_card(memo2.dom().insert(key), la * lb);
                        vstd::set::axiom_set_insert_len(memo2.dom(), key);
                        assert(memo2.dom().len() <= la * lb - 1);
                        assert(out2.len() <= 1 + la * lb);
                    }
                    let idx_usize = out.len();
                    let idx: u32 = idx_usize as u32;
                    out.push(node);
                    cache.insert(nkey, idx);
                    r = idx;
                    proof {
                        let out3 = out@;
                        assert(out3 =~= out2.push(node));
                        assert(forall|q: int| 0 <= q < out2.len() ==> out3[q] == out2[q]);
                        lemma_eval_extend_all(out2, out3);
                        // The new record is structurally sound.
                        assert(out3[idx as int] == node);
                        assert(node_ok(out3, n, idx as int));
                        // And it duplicates no earlier record: the table is
                        // complete, and lookup missed.
                        assert forall|i: int| 0 <= i < idx as int implies out3[i] != node by {
                            if out3[i] == node {
                                assert(cache@.contains_key(enc_node(out2[i])));
                            }
                        }
                        assert(wf(out3)) by {
                            assert(forall|i: int|
                                2 <= i < out2.len() ==> node_ok(out2, n, i) && (#[trigger] out3[i])
                                    == out2[i]);
                            assert forall|i: int| 2 <= i < out3.len() implies #[trigger] node_ok(
                                out3,
                                n,
                                i,
                            ) by {
                                if i < out2.len() {
                                    assert(node_ok(out2, n, i));
                                    assert(out3[out2[i].low_link.0 as int] == out2[out2[i].low_link.0 as int]);
                                    assert(out3[out2[i].high_link.0 as int] == out2[out2[i].high_link.0 as int]);
                                }
                            }
                        }
                        // The extended table matches the extended array.
                        assert(cache_ok(cache@, out3)) by {
                            assert forall|k: u128| #[trigger] cache@.contains_key(k) implies (
                            cache@[k] as int) < out3.len() && enc_node(out3[cache@[k] as int])
                                == k by {
                                if k != nkey {
                                    assert(old(cache)@.contains_key(k) || cache@.insert(
                                        nkey,
                                        idx,
                                    ).contains_key(k));
                                }
                            }
                        }
                        assert forall|m: Seq<bool>| m.len() == n as int implies #[trigger]
                            eval_ptr(out3, idx as int, m) == op_eval(
                            op,
                            eval_ptr(a@, pa as int, m),
                            eval_ptr(b@, pb as int, m),
                        ) by {
                            assert(eval_ptr(out3, idx as int, m) == if m[v as int] {
                                eval_ptr(out3, h as int, m)
                            } else {
                                eval_ptr(out3, l as int, m)
                            });
                            assert(eval_ptr(out3, l as int, m) == eval_ptr(out2, l as int, m));
                            assert(eval_ptr(out3, h as int, m) == eval_ptr(out2, h as int, m));
                        }
                        // Memoized entries keep their meaning on the longer
                        // array.
                        assert(memo_ok(memo2, a@, b@, op, out3)) by {
                            assert forall|qa: int, qb: int|
                                0 <= qa < la && 0 <= qb < lb && memo2.contains_key(
                                    #[trigger] enc_task(qa, qb, lb),
                                ) implies memo_entry_ok(
                                memo2[enc_task(qa, qb, lb)] as int,
                                a@,
                                b@,
                                op,
                                out3,
                                qa,
                                qb,
                            ) by {
                                assert(memo_entry_ok(
                                    memo2[enc_task(qa, qb, lb)] as int,
                                    a@,
                                    b@,
                                    op,
                                    out2,
                                    qa,
                                    qb,
                                ));
                            }
                        }
                    }
                },
            }
        }
        let ghost out_fin = out@;
        let ghost memo_pre = memo@;
        memo.insert(key, r);
        proof {
            assert(!memo_pre.contains_key(key));
            assert(memo@ == memo_pre.insert(key, r));
            assert(memo_pre.dom().finite());
            vstd::set::axiom_set_insert_len(memo_pre.dom(), key);
            assert(memo@.dom() =~= memo_pre.dom().insert(key));
            assert(memo@.dom().len() == memo_pre.dom().len() + 1);
            // The freshly inserted entry is sound, and by injectivity of the
            // packing it is the only entry its key can describe.
            assert(memo_entry_ok(r as int, a@, b@, op, out_fin, pa as int, pb as int));
            assert forall|qa: int, qb: int|
                0 <= qa < la && 0 <= qb < lb && memo@.contains_key(
                    #[trigger] enc_task(qa, qb, lb),
                ) implies memo_entry_ok(
                memo@[enc_task(qa, qb, lb)] as int,
                a@,
                b@,
                op,
                out_fin,
                qa,
                qb,
            ) by {
                if enc_task(qa, qb, lb) == key {
                    lemma_enc_task_range(qa, qb, la, lb);
                    lemma_enc_task_inj(qa, qb, pa as int, pb as int, lb);
                } else {
                    assert(memo_pre.contains_key(enc_task(qa, qb, lb)));
                }
            }
            assert forall|k: u64|
                memo@.contains_key(k) && !memo0.contains_key(k) implies exists|qa: int, qb: int|
                0 <= qa < la && 0 <= qb < lb && qa + qb <= pa as int + pb as int && k == enc_task(
                qa,
                qb,
                lb,
            ) by {
                if k != key {
                    assert(memo2.contains_key(k));
                }
            }
        }
        r
    }

    /// Combine two diagrams of one universe under an arbitrary binary
    /// connective. The result is canonical, and its function is the
    /// connective applied pointwise to the operands' functions.
    pub fn apply(&self, other: &Bdd, op: BooleanOp) -> (r: Bdd)
        requires
            self.inv(),
            other.inv(),
            self.nv() == other.nv(),
            self@.len() * other@.len() + 2 <= u32::MAX as int,
        ensures
            r.inv(),
            r.nv() == self.nv(),
            r@.len() <= 2 + self@.len() * other@.len(),
            forall|m: Seq<bool>|
                m.len() == self.nv() as int ==> #[trigger] r.sem(m) == op_eval(
                    op,
                    self.sem(m),
                    other.sem(m),
                ),
    {
        let n = self.num_vars();
        let ghost la = self@.len() as int;
        let ghost lb = other@.len() as int;
        let mut out: Vec<BddNode> = vec![BddNode::mk_zero(n), BddNode::mk_one(n)];
        let mut cache: HashMap<u128, u32> = HashMap::new();
        let mut memo: HashMap<u64, u32> = HashMap::new();
        let zkey: u128 = (n as u128) * 0x1_0000_0000_0000_0000;
        let okey: u128 = zkey + 0x1_0000_0000 + 1;
        proof {
            assert(zkey == enc_node(zero_node(n)));
            assert(okey == enc_node(one_node(n)));
            if zkey == okey {
                lemma_enc_node_inj(zero_node(n), one_node(n));
            }
        }
        cache.insert(zkey, 0);
        cache.insert(okey, 1);
        proof {
            assert(out@.len() == 2);
            assert(out@[0] == zero_node(n));
            assert(out@[1] == one_node(n));
            assert(wf(out@));
            assert(cache_ok(cache@, out@)) by {
                assert forall|i: int|
                    0 <= i < out@.len() implies cache@.contains_key(
                    #[trigger] enc_node(out@[i]),
                ) && cache@[enc_node(out@[i])] as int == i by {
                    if i == 0 {
                        assert(enc_node(out@[0]) == zkey);
                    } else {
                        assert(enc_node(out@[1]) == okey);
                    }
                }
            }
            assert(memo_ok(memo@, self@, other@, op, out@));
        }
        let pa: u32 = (self.0.len() - 1) as u32;
        let pb: u32 = (other.0.len() - 1) as u32;
        let root = Bdd::apply_rec(self, other, op, pa, pb, &mut out, &mut cache, &mut memo);
        proof {
            // The node table never outgrows the task table by more than the
            // two terminals, and every task number lies below the size
            // product.
            lemma_key_set_card(memo@.dom(), la * lb);
            assert(out@.len() <= 2 + la * lb);
        }
        if root == 0 {
            let r = Bdd::mk_false(n);
            proof {
                assert forall|m: Seq<bool>| m.len() == self.nv() as int implies #[trigger] r.sem(m)
                    == op_eval(op, self.sem(m), other.sem(m)) by {
                    assert(eval_ptr(out@, 0, m) == op_eval(
                        op,
                        eval_ptr(self@, pa as int, m),
                        eval_ptr(other@, pb as int, m),
                    ));
                }
            }
            r
        } else {
            proof {
                assert(root as int == out@.len() - 1);
            }
            let r = Bdd(out);
            r
        }
    }

    /// Like `apply`, with the preconditions turned into reported errors: a
    /// shape mismatch names both variable counts, and a size product beyond
    /// the pointer range is reported before any node is built.
    pub fn try_apply(&self, other: &Bdd, op: BooleanOp) -> (r: Result<Bdd, BddError>)
        requires
            self.inv(),
            other.inv(),
        ensures
            match r {
                Ok(b) => {
                    &&& self.nv() == other.nv()
                    &&& self@.len() * other@.len() + 2 <= u32::MAX as int
                    &&& b.inv()
                    &&& b.nv() == self.nv()
                    &&& b@.len() <= 2 + self@.len() * other@.len()
                    &&& forall|m: Seq<bool>|
                        m.len() == self.nv() as int ==> #[trigger] b.sem(m) == op_eval(
                            op,
                            self.sem(m),
                            other.sem(m),
                        )
                },
                Err(BddError::ShapeMismatch { left, right }) => left == self.nv() && right
                    == other.nv() && left != right,
                Err(BddError::TooLarge) => self.nv() == other.nv() && self@.len() * other@.len()
                    + 2 > u32::MAX as int,
                Err(_) => false,
            },
    {
        let left = self.num_vars();
        let right = other.num_vars();
        if left != right {
            return Err(BddError::ShapeMismatch { left, right });
        }
        proof {
            assert((self@.len() as int) * (other@.len() as int) <= (u32::MAX as int) * (
            u32::MAX as int)) by (nonlinear_arith)
                requires
                    0 <= self@.len() as int <= u32::MAX as int,
                    0 <= other@.len() as int <= u32::MAX as int,
            ;
        }
        let product: u128 = (self.0.len() as u128) * (other.0.len() as u128);
        if product + 2 > u32::MAX as u128 {
            return Err(BddError::TooLarge);
        }
        Ok(self.apply(other, op))
    }

    /// The conjunction of two diagrams.
    pub fn and(&self, other: &Bdd) -> (r: Bdd)
        requires
            self.inv(),
            other.inv(),
            self.nv() == other.nv(),
            self@.len() * other@.len() + 2 <= u32::MAX as int,
        ensures
            r.inv(),
            r.nv() == self.nv(),
            r@.len() <= 2 + self@.len() * other@.len(),
            forall|m: Seq<bool>|
                m.len() == self.nv() as int ==> #[trigger] r.sem(m) == (self.sem(m) && other.sem(
                    m,
                )),
    {
        self.apply(other, BooleanOp::conj())
    }

    /// The disjunction of two diagrams.
    pub fn or(&self, other: &Bdd) -> (r: Bdd)
        requires
            self.inv(),
            other.inv(),
            self.nv() == other.nv(),
            self@.len() * other@.len() + 2 <= u32::MAX as int,
        ensures
            r.inv(),
            r.nv() == self.nv(),
            r@.len() <= 2 + self@.len() * other@.len(),
            forall|m: Seq<bool>|
                m.len() == self.nv() as int ==> #[trigger] r.sem(m) == (self.sem(m) || other.sem(
                    m,
                )),
    {
        self.apply(other, BooleanOp::disj())
    }

    /// The exclusive disjunction of two diagrams.
    pub fn xor(&self, other: &Bdd) -> (r: Bdd)
        requires
            self.inv(),
            other.inv(),
            self.nv() == other.nv(),
            self@.len() * other@.len() + 2 <= u32::MAX as int,
        ensures
            r.inv(),
            r.nv() == self.nv(),
            r@.len() <= 2 + self@.len() * other@.len(),
            forall|m: Seq<bool>|
                m.len() == self.nv() as int ==> #[trigger] r.sem(m) == (self.sem(m) != other.sem(
                    m,
                )),
    {
        self.apply(other, BooleanOp::exclusive())
    }

    /// The implication of two diagrams.
    pub fn imp(&self, other: &Bdd) -> (r: Bdd)
        requires
            self.inv(),
            other.inv(),
            self.nv() == other.nv(),
            self@.len() * other@.len() + 2 <= u32::MAX as int,
        ensures
            r.inv(),
            r.nv() == self.nv(),
            r@.len() <= 2 + self@.len() * other@.len(),
            forall|m: Seq<bool>|
                m.len() == self.nv() as int ==> #[trigger] r.sem(m) == (!self.sem(m) || other.sem(
                    m,
                )),
    {
        self.apply(other, BooleanOp::implication())
    }

    /// The equivalence of two diagrams.
    pub fn iff(&self, other: &Bdd) -> (r: Bdd)
        requires
            self.inv(),
            other.inv(),
            self.nv() == other.nv(),
            self@.len() * other@.len() + 2 <= u32::MAX as int,
        ensures
            r.inv(),
            r.nv() == self.nv(),
            r@.len() <= 2 + self@.len() * other@.len(),
            forall|m: Seq<bool>|
                m.len() == self.nv() as int ==> #[trigger] r.sem(m) == (self.sem(m) == other.sem(
                    m,
                )),
    {
        self.apply(other, BooleanOp::equivalence())
    }
}

/// The image of a pointer under the terminal swap of negation.
pub open spec fn swap_ptr(p: u32) -> u32 {
    if p == 0 {
        1
    } else if p == 1 {
        0
    } else {
        p
    }
}

/// The image of a node record under the terminal swap of negation.
pub open spec fn swap_node(nd: BddNode) -> BddNode {
    BddNode {
        var: nd.var,
        low_link: BddPointer(swap_ptr(nd.low_link.0)),
        high_link: BddPointer(swap_ptr(nd.high_link.0)),
    }
}

/// Swapping the two terminals in every link negates the function at every
/// decision node.
proof fn lemma_eval_swap(orig: Seq<BddNode>, swapped: Seq<BddNode>, p: int, m: Seq<bool>)
    requires
        wf(orig),
        swapped.len() == orig.len(),
        forall|q: int| 0 <= q < 2 && q < orig.len() ==> swapped[q] == orig[q],
        forall|q: int| 2 <= q < orig.len() ==> swapped[q] == swap_node(orig[q]),
        2 <= p < orig.len(),
        m.len() == nvars_of(orig) as int,
    ensures
        eval_ptr(swapped, p, m) == !eval_ptr(orig, p, m),
    decreases p,
{
    let n = nvars_of(orig);
    assert(node_ok(orig, n, p));
    let nd = orig[p];
    let v = nd.var.0 as int;
    let lo = nd.low_link.0 as int;
    let hi = nd.high_link.0 as int;
    let slo = swap_ptr(nd.low_link.0) as int;
    let shi = swap_ptr(nd.high_link.0) as int;
    assert(swapped[p] == swap_node(nd));
    assert(0 <= slo < p && 0 <= shi < p && slo != shi);
    assert(eval_ptr(swapped, p, m) == if m[v] {
        eval_ptr(swapped, shi, m)
    } else {
        eval_ptr(swapped, slo, m)
    });
    assert(eval_ptr(orig, p, m) == if m[v] {
        eval_ptr(orig, hi, m)
    } else {
        eval_ptr(orig, lo, m)
    });
    let c = if m[v] {
        hi
    } else {
        lo
    };
    let sc = if m[v] {
        shi
    } else {
        slo
    };
    if c >= 2 {
        assert(sc == c);
        lemma_eval_swap(orig, swapped, c, m);
    } else if c == 0 {
        assert(sc == 1);
        assert(eval_ptr(swapped, 1, m));
        assert(!eval_ptr(orig, 0, m));
    } else {
        assert(sc == 0);
        assert(!eval_ptr(swapped, 0, m));
        assert(eval_ptr(orig, 1, m));
    }
}

impl Bdd {
    /// The negation of a diagram: the same nodes with the two terminals
    /// exchanged in every link.
    #[verifier::rlimit(60)]
    pub fn not(&self) -> (r: Bdd)
        requires
            self.inv(),
        ensures
            r.inv(),
            r.nv() == self.nv(),
            r@.len() <= self@.len() + 1,
            forall|m: Seq<bool>|
                m.len() == self.nv() as int ==> #[trigger] r.sem(m) == !self.sem(m),
    {
        let n = self.num_vars();
        if self.0.len() == 1 {
            return Bdd::mk_true(n);
        }
        if self.0.len() == 2 {
            return Bdd::mk_false(n);
        }
        let mut out: Vec<BddNode> = vec![BddNode::mk_zero(n), BddNode::mk_one(n)];
        let mut i: usize = 2;
        while i < self.0.len()
            invariant
                self.inv(),
                n == self.nv(),
                2 <= i <= self@.len(),
                out@.len() == i,
                out@[0] == zero_node(n),
                out@[1] == one_node(n),
                forall|q: int| 2 <= q < i ==> out@[q] == swap_node(self@[q]),
            decreases self@.len() - i,
        {
            let nd = self.0[i];
            let lo: u32 = if nd.low_link.0 == 0 {
                1
            } else if nd.low_link.0 == 1 {
                0
            } else {
                nd.low_link.0
            };
            let hi: u32 = if nd.high_link.0 == 0 {
                1
            } else if nd.high_link.0 == 1 {
                0
            } else {
                nd.high_link.0
            };
            out.push(BddNode { var: nd.var, low_link: BddPointer(lo), high_link: BddPointer(hi) });
            i = i + 1;
        }
        proof {
            let orig = self@;
            let swapped = out@;
            assert(swapped.len() == orig.len());
            assert(wf(swapped)) by {
                assert forall|q: int| 2 <= q < swapped.len() implies #[trigger] node_ok(
                    swapped,
                    n,
                    q,
                ) by {
                    assert(node_ok(orig, n, q));
                }
                assert forall|q1: int, q2: int|
                    2 <= q1 < swapped.len() && 2 <= q2 < swapped.len() && q1 != q2 implies
                    #[trigger] swapped[q1] != #[trigger] swapped[q2] by {
                    assert(orig[q1] != orig[q2]);
                }
            }
            assert forall|m: Seq<bool>| m.len() == self.nv() as int implies #[trigger] eval_ptr(
                swapped,
                swapped.len() - 1,
                m,
            ) == !eval_ptr(orig, orig.len() - 1, m) by {
                lemma_eval_swap(orig, swapped, orig.len() - 1, m);
            }
        }
        Bdd(out)
    }
}

} // verus!
