//! Variable restriction: the cofactor of a diagram at one variable, built
//! canonically by a memoized walk with node hash-consing.

use std::collections::HashMap;
use vstd::prelude::*;

use crate::apply::{cache_ok, enc_node, lemma_enc_node_inj, lemma_key_set_card};
use crate::semantics::{
    eval_ptr, lemma_eval_extend_all, node_ok, nvars_of, one_node, wf, zero_node,
};
use crate::{Bdd, BddNode, BddPointer, BddVariable};

verus! {

broadcast use vstd::std_specs::hash::group_hash_axioms;

/// Soundness of the restriction memo table: every stored pointer denotes
/// the cofactor of its source node.
pub open spec fn rmemo_ok(
    mm: Map<u64, u32>,
    a: Seq<BddNode>,
    v: u16,
    bit: bool,
    nodes: Seq<BddNode>,
) -> bool {
    forall|k: u64| #[trigger]
        mm.contains_key(k) ==> {
            let r = mm[k] as int;
            &&& 2 <= (k as int) < a.len()
            &&& 0 <= r < nodes.len()
            &&& nodes[r].var.0 as int >= a[k as int].var.0 as int
            &&& forall|m: Seq<bool>|
                m.len() == nvars_of(a) as int ==> #[trigger] eval_ptr(nodes, r, m) == eval_ptr(
                    a,
                    k as int,
                    m.update(v as int, bit),
                )
        }
}

impl Bdd {
    /// One step of the restriction walk over `a`: produce the canonical
    /// node of the cofactor of the function at `p`, appending any new nodes
    /// to `out`.
    #[verifier::rlimit(100)]
    #[verifier::spinoff_prover]
    fn restrict_rec(
        a: &Bdd,
        v: u16,
        bit: bool,
        p: u32,
        out: &mut Vec<BddNode>,
        cache: &mut HashMap<u128, u32>,
        memo: &mut HashMap<u64, u32>,
    ) -> (r: u32)
        requires
            a.inv(),
            (v as int) < a.nv() as int,
            (p as int) < a@.len(),
            wf(old(out)@),
            old(out)@.len() >= 2,
            nvars_of(old(out)@) == a.nv(),
            cache_ok(old(cache)@, old(out)@),
            rmemo_ok(old(memo)@, a@, v, bit, old(out)@),
            old(out)@.len() <= 2 + old(memo)@.dom().len(),
        ensures
            final(out)@.len() >= old(out)@.len(),
            forall|q: int| 0 <= q < old(out)@.len() ==> final(out)@[q] == old(out)@[q],
            wf(final(out)@),
            nvars_of(final(out)@) == a.nv(),
            cache_ok(final(cache)@, final(out)@),
            rmemo_ok(final(memo)@, a@, v, bit, final(out)@),
            final(out)@.len() <= 2 + final(memo)@.dom().len(),
            forall|k: u64| old(memo)@.contains_key(k) ==> final(memo)@.contains_key(k),
            forall|k: u64|
                final(memo)@.contains_key(k) && !old(memo)@.contains_key(k) ==> (k as int)
                    <= p as int,
            (r as int) < final(out)@.len(),
            (r as int) == final(out)@.len() - 1 || final(out)@.len() == old(out)@.len(),
            final(out)@[r as int].var.0 as int >= a@[p as int].var.0 as int,
            forall|m: Seq<bool>|
                m.len() == a.nv() as int ==> #[trigger] eval_ptr(final(out)@, r as int, m)
                    == eval_ptr(a@, p as int, m.update(v as int, bit)),
        decreases p,
    {
        let ghost n = a.nv();
        let ghost la = a@.len() as int;
        if p < 2 {
            proof {
                assert(a@[p as int].var.0 == n);
                assert(out@[p as int].var.0 == nvars_of(out@));
                assert forall|m: Seq<bool>| m.len() == n as int implies #[trigger] eval_ptr(
                    out@,
                    p as int,
                    m,
                ) == eval_ptr(a@, p as int, m.update(v as int, bit)) by {
                    assert(eval_ptr(out@, p as int, m) == (p == 1));
                    assert(eval_ptr(a@, p as int, m.update(v as int, bit)) == (p == 1));
                }
            }
            return p;
        }
        let key: u64 = p as u64;
        if let Some(rr) = memo.get(&key) {
            let r = *rr;
            proof {
                assert(memo@.contains_key(key));
            }
            return r;
        }
        proof {
            assert(node_ok(a@, n, p as int));
        }
        let nd = a.0[p as usize];
        let w: u16 = nd.var.0;
        let r: u32;
        let ghost memo0 = memo@;
        let ghost out0 = out@;
        if w == v {
            let c: u32 = if bit {
                nd.high_link.0
            } else {
                nd.low_link.0
            };
            r = Bdd::restrict_rec(a, v, bit, c, out, cache, memo);
            proof {
                assert forall|m: Seq<bool>| m.len() == n as int implies #[trigger] eval_ptr(
                    out@,
                    r as int,
                    m,
                ) == eval_ptr(a@, p as int, m.update(v as int, bit)) by {
                    let mu = m.update(v as int, bit);
                    assert(mu[v as int] == bit);
                    assert(eval_ptr(a@, p as int, mu) == eval_ptr(a@, c as int, mu));
                }
                assert((out@[r as int].var.0 as int) >= a@[p as int].var.0 as int) by {
                    assert((out@[r as int].var.0 as int) >= a@[c as int].var.0 as int);
                }
            }
        } else {
            let l = Bdd::restrict_rec(a, v, bit, nd.low_link.0, out, cache, memo);
            let ghost out1 = out@;
            let ghost memo1 = memo@;
            let h = Bdd::restrict_rec(a, v, bit, nd.high_link.0, out, cache, memo);
            let ghost out2 = out@;
            let ghost memo2 = memo@;
            proof {
                lemma_eval_extend_all(out1, out2);
            }
            // On any valuation of the remaining variables, the source
            // function at `p` follows the branch picked at `w`, which the
            // restriction does not touch.
            proof {
                assert forall|m: Seq<bool>| m.len() == n as int implies eval_ptr(
                    a@,
                    p as int,
                    m.update(v as int, bit),
                ) == (if m[w as int] {
                    eval_ptr(a@, nd.high_link.0 as int, m.update(v as int, bit))
                } else {
                    eval_ptr(a@, nd.low_link.0 as int, m.update(v as int, bit))
                }) by {
                    let mu = m.update(v as int, bit);
                    assert(mu[w as int] == m[w as int]);
                }
            }
            if l == h {
                r = l;
                proof {
                    assert forall|m: Seq<bool>| m.len() == n as int implies #[trigger] eval_ptr(
                        out@,
                        r as int,
                        m,
                    ) == eval_ptr(a@, p as int, m.update(v as int, bit)) by {
                        assert(eval_ptr(out2, l as int, m) == eval_ptr(
                            a@,
                            nd.low_link.0 as int,
                            m.update(v as int, bit),
                        ));
                        assert(eval_ptr(out2, h as int, m) == eval_ptr(
                            a@,
                            nd.high_link.0 as int,
                            m.update(v as int, bit),
                        ));
                    }
                }
            } else {
                let node = BddNode {
                    var: BddVariable(w),
                    low_link: BddPointer(l),
                    high_link: BddPointer(h),
                };
                let nkey: u128 = (node.var.0 as u128) * 0x1_0000_0000_0000_0000
                    + (node.low_link.0 as u128) * 0x1_0000_0000 + (node.high_link.0 as u128);
                proof {
                    assert(nkey == enc_node(node));
                }
                let cached = cache.get(&nkey);
                match cached {
                    Some(ii) => {
                        r = *ii;
                        proof {
                            assert(cache@.contains_key(nkey));
                            assert(enc_node(out2[r as int]) == nkey);
                            lemma_enc_node_inj(out2[r as int], node);
                            assert(out2[r as int] == node);
                            assert(r >= 2) by {
                                if r < 2 {
                                    assert(out2[r as int].var.0 == nvars_of(out2));
                                }
                            }
                            assert(node_ok(out2, n, r as int));
                            assert(out2.len() == out0.len()) by {
                                assert(l < r && h < r);
                                if out2.len() > out1.len() {
                                    assert(h as int == out2.len() - 1);
                                }
                                if out1.len() > out0.len() {
                                    assert(l as int == out1.len() - 1);
                                }
                            }
                            assert forall|m: Seq<bool>| m.len() == n as int implies #[trigger]
                                eval_ptr(out2, r as int, m) == eval_ptr(
                                a@,
                                p as int,
                                m.update(v as int, bit),
                            ) by {
                                assert(eval_ptr(out2, r as int, m) == if m[w as int] {
                                    eval_ptr(out2, h as int, m)
                                } else {
                                    eval_ptr(out2, l as int, m)
                                });
                            }
                        }
                    },
                    None => {
                        proof {
                            assert(!cache@.contains_key(nkey));
                            assert(memo2.dom().finite());
                            assert(!memo2.dom().contains(0u64));
                            assert(!memo2.dom().contains(1u64));
                            assert(!memo2.dom().contains(p as u64));
                            let s = memo2.dom().insert(0u64).insert(1u64).insert(p as u64);
                            assert(forall|k: u64| s.contains(k) ==> (k as int) < la);
                            lemma_key_set_card(s, la);
                            vstd::set::axiom_set_insert_len(memo2.dom(), 0u64);
                            vstd::set::axiom_set_insert_len(memo2.dom().insert(0u64), 1u64);
                            vstd::set::axiom_set_insert_len(
                                memo2.dom().insert(0u64).insert(1u64),
                                p as u64,
                            );
                            assert(memo2.dom().len() <= la - 3);
                            assert(out2.len() <= la - 1);
                        }
                        let idx: u32 = out.len() as u32;
                        out.push(node);
                        cache.insert(nkey, idx);
                        r = idx;
                        proof {
                            let out3 = out@;
                            assert(out3 =~= out2.push(node));
                            assert(forall|q: int| 0 <= q < out2.len() ==> out3[q] == out2[q]);
                            lemma_eval_extend_all(out2, out3);
                            assert(out3[idx as int] == node);
                            assert(node_ok(out3, n, idx as int));
                            assert forall|i: int| 0 <= i < idx as int implies out3[i] != node by {
                                if out3[i] == node {
                                    assert(cache@.contains_key(enc_node(out2[i])));
                                }
                            }
                            assert(wf(out3)) by {
                                assert(forall|i: int|
                                    2 <= i < out2.len() ==> node_ok(out2, n, i) && (
                                    #[trigger] out3[i]) == out2[i]);
                                assert forall|i: int| 2 <= i < out3.len() implies #[trigger]
                                    node_ok(out3, n, i) by {
                                    if i < out2.len() {
                                        assert(node_ok(out2, n, i));
                                        assert(out3[out2[i].low_link.0 as int] == out2[out2[i].low_link.0 as int]);
                                        assert(out3[out2[i].high_link.0 as int] == out2[out2[i].high_link.0 as int]);
                                    }
                                }
                            }
                            assert(cache_ok(cache@, out3)) by {
                                assert forall|k: u128| #[trigger] cache@.contains_key(k) implies (
                                cache@[k] as int) < out3.len() && enc_node(out3[cache@[k] as int])
                                    == k by {
                                    if k != nkey {
                                        assert(old(cache)@.contains_key(k) || cache@.insert(
                                            nkey,
                                            idx,
                                        ).contains_key(k));
                                    }
                                }
                            }
                            assert forall|m: Seq<bool>| m.len() == n as int implies #[trigger]
                                eval_ptr(out3, idx as int, m) == eval_ptr(
                                a@,
                                p as int,
                                m.update(v as int, bit),
                            ) by {
                                assert(eval_ptr(out3, idx as int, m) == if m[w as int] {
                                    eval_ptr(out3, h as int, m)
                                } else {
                                    eval_ptr(out3, l as int, m)
                                });
                                assert(eval_ptr(out3, l as int, m) == eval_ptr(out2, l as int, m));
                                assert(eval_ptr(out3, h as int, m) == eval_ptr(out2, h as int, m));
                            }
                            assert(rmemo_ok(memo2, a@, v, bit, out3)) by {
                                assert forall|k: u64| #[trigger]
                                    memo2.contains_key(k) implies 2 <= (k as int) < la && 0 <= (
                                memo2[k] as int) < out3.len() && out3[memo2[k] as int].var.0 as int
                                    >= a@[k as int].var.0 as int && forall|m: Seq<bool>|
                                    m.len() == n as int ==> #[trigger] eval_ptr(
                                        out3,
                                        memo2[k] as int,
                                        m,
                                    ) == eval_ptr(a@, k as int, m.update(v as int, bit)) by {
                                    assert(2 <= (k as int) < la);
                                    assert(0 <= (memo2[k] as int) < out2.len());
                                    assert forall|m: Seq<bool>|
                                        m.len() == n as int implies #[trigger] eval_ptr(
                                        out3,
                                        memo2[k] as int,
                                        m,
                                    ) == eval_ptr(a@, k as int, m.update(v as int, bit)) by {
                                        assert(eval_ptr(out3, memo2[k] as int, m) == eval_ptr(
                                            out2,
                                            memo2[k] as int,
                                            m,
                                        ));
                                    }
                                }
                            }
                        }
                    },
                }
            }
        }
        let ghost out_fin = out@;
        let ghost memo_pre = memo@;
        memo.insert(key, r);
        proof {
            assert(!memo0.contains_key(key));
            if memo_pre.contains_key(key) {
                assert((key as int) <= p as int && (key as int) < p as int);
            }
            assert(!memo_pre.contains_key(key));
            assert(memo@ == memo_pre.insert(key, r));
            assert(memo_pre.dom().finite());
            vstd::set::axiom_set_insert_len(memo_pre.dom(), key);
            assert(memo@.dom() =~= memo_pre.dom().insert(key));
            assert(memo@.dom().len() == memo_pre.dom().len() + 1);
            assert(rmemo_ok(memo@, a@, v, bit, out_fin)) by {
                assert forall|k: u64| #[trigger] memo@.contains_key(k) && k != key implies
                    memo_pre.contains_key(k) by {}
            }
        }
        r
    }

    /// The cofactor of this diagram at `var`: the function with `var` fixed
    /// to `value`. The result never tests `var`.
    pub fn var_restrict(&self, var: BddVariable, value: bool) -> (r: Bdd)
        requires
            self.inv(),
            (var.0 as int) < self.nv() as int,
        ensures
            r.inv(),
            r.nv() == self.nv(),
            r@.len() <= self@.len(),
            forall|m: Seq<bool>|
                m.len() == self.nv() as int ==> #[trigger] r.sem(m) == self.sem(
                    m.update(var.0 as int, value),
                ),
    {
        let n = self.num_vars();
        if self.0.len() == 1 {
            return Bdd::mk_false(n);
        }
        let mut out: Vec<BddNode> = vec![BddNode::mk_zero(n), BddNode::mk_one(n)];
        let mut cache: HashMap<u128, u32> = HashMap::new();
        let mut memo: HashMap<u64, u32> = HashMap::new();
        let zkey: u128 = (n as u128) * 0x1_0000_0000_0000_0000;
        let okey: u128 = zkey + 0x1_0000_0000 + 1;
        proof {
            assert(zkey == enc_node(zero_node(n)));
            assert(okey == enc_node(one_node(n)));
            if zkey == okey {
                lemma_enc_node_inj(zero_node(n), one_node(n));
            }
        }
        cache.insert(zkey, 0);
        cache.insert(okey, 1);
        proof {
            assert(out@.len() == 2);
            assert(out@[0] == zero_node(n));
            assert(out@[1] == one_node(n));
            assert(wf(out@));
            assert(cache_ok(cache@, out@)) by {
                assert forall|i: int|
                    0 <= i < out@.len() implies cache@.contains_key(
                    #[trigger] enc_node(out@[i]),
                ) && cache@[enc_node(out@[i])] as int == i by {
                    if i == 0 {
                        assert(enc_node(out@[0]) == zkey);
                    } else {
                        assert(enc_node(out@[1]) == okey);
                    }
                }
            }
            assert(rmemo_ok(memo@, self@, var.0, value, out@));
        }
        let p: u32 = (self.0.len() - 1) as u32;
        let root = Bdd::restrict_rec(self, var.0, value, p, &mut out, &mut cache, &mut memo);
        if root == 0 {
            let r = Bdd::mk_false(n);
            proof {
                assert forall|m: Seq<bool>| m.len() == self.nv() as int implies #[trigger] r.sem(m)
                    == self.sem(m.update(var.0 as int, value)) by {
                    assert(eval_ptr(out@, 0, m) == eval_ptr(
                        self@,
                        p as int,
                        m.update(var.0 as int, value),
                    ));
                }
            }
            r
        } else {
            proof {
                assert(root as int == out@.len() - 1);
                assert(out@.len() <= self@.len()) by {
                    assert(memo@.dom().finite());
                    assert(!memo@.dom().contains(0u64));
                    assert(!memo@.dom().contains(1u64));
                    vstd::set::axiom_set_insert_len(memo@.dom(), 0u64);
                    vstd::set::axiom_set_insert_len(memo@.dom().insert(0u64), 1u64);
                    let s = memo@.dom().insert(0u64).insert(1u64);
                    assert(forall|k: u64| s.contains(k) ==> (k as int) < self@.len());
                    lemma_key_set_card(s, self@.len() as int);
                    assert(memo@.dom().len() <= self@.len() - 2);
                }
            }
            let r = Bdd(out);
            r
        }
    }
}

} // verus!
