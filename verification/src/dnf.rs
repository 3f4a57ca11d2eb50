//! Cubes and disjunctive normal forms: building a canonical diagram from a
//! list of cubes by recursive splitting, and enumerating the paths of a
//! diagram as cubes.

use std::collections::HashMap;
use vstd::prelude::*;

use crate::apply::{cache_ok, enc_node, lemma_enc_node_inj};
use crate::semantics::{
    eval_ptr, lemma_eval_extend_all, node_ok, nvars_of, one_node, wf, zero_node,
};
use crate::valuation::{cube_matches, val_of};
use crate::{Bdd, BddError, BddNode, BddPartialValuation, BddPointer, BddVariable};

verus! {

broadcast use vstd::std_specs::hash::group_hash_axioms;

/// Powers of two, for bounding how many nodes a split can create.
pub open spec fn two_pow(k: nat) -> nat
    decreases k,
{
    if k == 0 {
        1nat
    } else {
        2 * two_pow((k - 1) as nat)
    }
}

proof fn lemma_two_pow_mono(a: nat, b: nat)
    requires
        a <= b,
    ensures
        1 <= two_pow(a) <= two_pow(b),
    decreases b,
{
    if b == 0 {
    } else if a == b {
        lemma_two_pow_mono(0, (a - 1) as nat);
    } else {
        lemma_two_pow_mono(a, (b - 1) as nat);
    }
}

/// Whether `m` satisfies every literal of the cube `c` at variables `v` and
/// above.
pub open spec fn cube_matches_above(c: Seq<Option<bool>>, v: int, m: Seq<bool>) -> bool {
    forall|w: int|
        v <= w < m.len() ==> match #[trigger] val_of(c, w) {
            Some(b) => m[w] == b,
            None => true,
        }
}

/// Whether some live cube is satisfied by `m` at variables `v` and above.
pub open spec fn some_cube_matches_above(
    dnf: Seq<BddPartialValuation>,
    live: Seq<usize>,
    v: int,
    m: Seq<bool>,
) -> bool {
    exists|i: int| 0 <= i < live.len() && cube_matches_above(dnf[live[i] as int]@, v, m)
}

/// Every cube constrains only variables below `n`, and its backing vector
/// stays addressable by variable indices.
pub open spec fn dnf_ok(dnf: Seq<BddPartialValuation>, n: u16) -> bool {
    forall|c: int|
        0 <= c < dnf.len() ==> (forall|w: int|
            val_of((#[trigger] dnf[c])@, w) is Some ==> 0 <= w < n as int)
}

/// For valuations of the universe's length, matching a valid cube from
/// variable 0 on is matching it outright.
proof fn lemma_matches_above_zero(c: Seq<Option<bool>>, n: u16, m: Seq<bool>)
    requires
        forall|w: int| val_of(c, w) is Some ==> 0 <= w < n as int,
        m.len() == n as int,
    ensures
        cube_matches_above(c, 0, m) == cube_matches(c, m),
{
    if cube_matches_above(c, 0, m) {
        assert forall|v: int| 0 <= v < c.len() implies (match #[trigger] c[v] {
            Some(b) => 0 <= v < m.len() && m[v] == b,
            None => true,
        }) by {
            assert(val_of(c, v) == c[v]);
        }
    }
    if cube_matches(c, m) {
        assert forall|w: int| 0 <= w < m.len() implies (match #[trigger] val_of(c, w) {
            Some(b) => m[w] == b,
            None => true,
        }) by {
            if val_of(c, w) is Some {
                assert(0 <= w < c.len());
                assert(c[w] == val_of(c, w));
            }
        }
    }
}

/// Extending a cube by one fresh literal refines what it matches by
/// exactly that literal.
proof fn lemma_matches_extend(
    c0: Seq<Option<bool>>,
    c1: Seq<Option<bool>>,
    w: int,
    b: bool,
    m: Seq<bool>,
)
    requires
        val_of(c0, w) is None,
        val_of(c1, w) == Some(b),
        forall|v: int| v != w ==> val_of(c1, v) == val_of(c0, v),
        0 <= w < m.len(),
    ensures
        cube_matches(c1, m) == (cube_matches(c0, m) && m[w] == b),
{
    if cube_matches(c1, m) {
        assert forall|v: int| 0 <= v < c0.len() implies (match #[trigger] c0[v] {
            Some(x) => 0 <= v < m.len() && m[v] == x,
            None => true,
        }) by {
            assert(val_of(c0, v) == c0[v]);
            if c0[v] is Some {
                assert(val_of(c1, v) == c0[v]);
                assert(0 <= v < c1.len());
                assert(c1[v] == c0[v]);
            }
        }
        assert(0 <= w < c1.len());
        assert(c1[w] == Some(b));
        assert(m[w] == b);
    }
    if cube_matches(c0, m) && m[w] == b {
        assert forall|v: int| 0 <= v < c1.len() implies (match #[trigger] c1[v] {
            Some(x) => 0 <= v < m.len() && m[v] == x,
            None => true,
        }) by {
            assert(val_of(c1, v) == c1[v]);
            if c1[v] is Some {
                if v == w {
                } else {
                    assert(val_of(c0, v) == c1[v]);
                    assert(0 <= v < c0.len());
                    assert(c0[v] == c1[v]);
                }
            }
        }
    }
}

impl Bdd {
    /// Whether some live cube constrains the given variable.
    fn any_mentions(dnf: &[BddPartialValuation], live: &Vec<usize>, var: BddVariable) -> (r: bool)
        requires
            forall|i: int| 0 <= i < live@.len() ==> (#[trigger] live@[i]) < dnf@.len(),
        ensures
            r == exists|i: int|
                0 <= i < live@.len() && val_of(dnf@[#[trigger] live@[i] as int]@, var.0 as int)
                    is Some,
    {
        let mut i: usize = 0;
        while i < live.len()
            invariant
                i <= live@.len(),
                forall|q: int| 0 <= q < live@.len() ==> (#[trigger] live@[q]) < dnf@.len(),
                forall|q: int|
                    0 <= q < i ==> !(val_of(dnf@[#[trigger] live@[q] as int]@, var.0 as int)
                        is Some),
            decreases live@.len() - i,
        {
            if dnf[live[i]].get_value(var).is_some() {
                return true;
            }
            i = i + 1;
        }
        false
    }

    /// One task of the recursive split: build the canonical node of the
    /// disjunction of the live cubes, restricted to variables `v` and
    /// above, appending any new nodes to `out`.
    #[verifier::rlimit(100)]
    #[verifier::spinoff_prover]
    fn dnf_rec(
        dnf: &[BddPartialValuation],
        n: u16,
        v: u16,
        live: &Vec<usize>,
        out: &mut Vec<BddNode>,
        cache: &mut HashMap<u128, u32>,
    ) -> (res: Result<u32, BddError>)
        requires
            dnf_ok(dnf@, n),
            v <= n,
            forall|i: int| 0 <= i < live@.len() ==> (#[trigger] live@[i]) < dnf@.len(),
            wf(old(out)@),
            old(out)@.len() >= 2,
            nvars_of(old(out)@) == n,
            cache_ok(old(cache)@, old(out)@),
        ensures
            final(out)@.len() >= old(out)@.len(),
            forall|q: int| 0 <= q < old(out)@.len() ==> final(out)@[q] == old(out)@[q],
            wf(final(out)@),
            nvars_of(final(out)@) == n,
            cache_ok(final(cache)@, final(out)@),
            final(out)@.len() <= old(out)@.len() + 2 * two_pow((n - v) as nat) - 1,
            match res {
                Ok(r) => {
                    &&& (r as int) < final(out)@.len()
                    &&& (r as int) == final(out)@.len() - 1 || final(out)@.len() == old(
                        out,
                    )@.len()
                    &&& final(out)@[r as int].var.0 as int >= v as int
                    &&& forall|m: Seq<bool>|
                        m.len() == n as int ==> #[trigger] eval_ptr(final(out)@, r as int, m)
                            == some_cube_matches_above(dnf@, live@, v as int, m)
                },
                Err(e) => e == BddError::TooLarge && final(out)@.len() + 1 > u32::MAX as int,
            },
        decreases n - v,
    {
        proof {
            lemma_two_pow_mono(0, (n - v) as nat);
        }
        if live.len() == 0 {
            proof {
                assert forall|m: Seq<bool>| m.len() == n as int implies #[trigger] eval_ptr(
                    out@,
                    0,
                    m,
                ) == some_cube_matches_above(dnf@, live@, v as int, m) by {
                    assert(!some_cube_matches_above(dnf@, live@, v as int, m));
                }
            }
            return Ok(0);
        }
        // Advance past variables no live cube constrains: conditioning on
        // them would only build a redundant test.
        let mut w: u16 = v;
        while w < n && !Bdd::any_mentions(dnf, live, BddVariable(w))
            invariant
                dnf_ok(dnf@, n),
                v <= w <= n,
                forall|i: int| 0 <= i < live@.len() ==> (#[trigger] live@[i]) < dnf@.len(),
                forall|i: int, u: int|
                    0 <= i < live@.len() && v as int <= u < w as int ==> !(#[trigger] val_of(
                        dnf@[live@[i] as int]@,
                        u,
                    ) is Some),
            decreases n - w,
        {
            w = w + 1;
        }
        proof {
            // Skipped variables place no constraint, so matching from `v`
            // and matching from `w` agree.
            assert forall|m: Seq<bool>| m.len() == n as int implies some_cube_matches_above(
                dnf@,
                live@,
                v as int,
                m,
            ) == some_cube_matches_above(dnf@, live@, w as int, m) by {
                assert forall|i: int| 0 <= i < live@.len() implies cube_matches_above(
                    dnf@[#[trigger] live@[i] as int]@,
                    v as int,
                    m,
                ) == cube_matches_above(dnf@[live@[i] as int]@, w as int, m) by {}
            }
            lemma_two_pow_mono((n - w) as nat, (n - v) as nat);
        }
        if w == n {
            proof {
                assert forall|m: Seq<bool>| m.len() == n as int implies #[trigger] eval_ptr(
                    out@,
                    1,
                    m,
                ) == some_cube_matches_above(dnf@, live@, v as int, m) by {
                    assert(cube_matches_above(dnf@[live@[0] as int]@, n as int, m));
                    assert(some_cube_matches_above(dnf@, live@, n as int, m));
                }
            }
            return Ok(1);
        }
        // Split the live cubes on `w`; a cube unconstrained at `w` survives
        // on both sides.
        let var = BddVariable(w);
        let mut var_true: Vec<usize> = Vec::new();
        let mut var_false: Vec<usize> = Vec::new();
        let mut i: usize = 0;
        while i < live.len()
            invariant
                forall|q: int| 0 <= q < live@.len() ==> (#[trigger] live@[q]) < dnf@.len(),
                i <= live@.len(),
                var.0 == w,
                forall|k: int|
                    0 <= k < var_true@.len() ==> (#[trigger] var_true@[k]) < dnf@.len(),
                forall|k: int|
                    0 <= k < var_false@.len() ==> (#[trigger] var_false@[k]) < dnf@.len(),
                forall|k: int|
                    0 <= k < var_true@.len() ==> val_of(
                        dnf@[(#[trigger] var_true@[k]) as int]@,
                        w as int,
                    ) != Some(false),
                forall|k: int|
                    0 <= k < var_false@.len() ==> val_of(
                        dnf@[(#[trigger] var_false@[k]) as int]@,
                        w as int,
                    ) != Some(true),
                forall|q: int|
                    0 <= q < i && val_of(dnf@[(#[trigger] live@[q]) as int]@, w as int) != Some(
                        false,
                    ) ==> exists|k: int|
                        0 <= k < var_true@.len() && #[trigger] var_true@[k] == live@[q],
                forall|q: int|
                    0 <= q < i && val_of(dnf@[(#[trigger] live@[q]) as int]@, w as int) != Some(
                        true,
                    ) ==> exists|k: int|
                        0 <= k < var_false@.len() && #[trigger] var_false@[k] == live@[q],
                forall|k: int|
                    0 <= k < var_true@.len() ==> exists|q: int|
                        0 <= q < live@.len() && #[trigger] var_true@[k] == live@[q],
                forall|k: int|
                    0 <= k < var_false@.len() ==> exists|q: int|
                        0 <= q < live@.len() && #[trigger] var_false@[k] == live@[q],
            decreases live@.len() - i,
        {
            let cube = live[i];
            let ghost tv0 = var_true@;
            let ghost fv0 = var_false@;
            match dnf[cube].get_value(var) {
                Some(true) => {
                    var_true.push(cube);
                },
                Some(false) => {
                    var_false.push(cube);
                },
                None => {
                    var_true.push(cube);
                    var_false.push(cube);
                },
            }
            proof {
                assert forall|q: int|
                    0 <= q < i + 1 && val_of(dnf@[(#[trigger] live@[q]) as int]@, w as int)
                        != Some(false) implies exists|k: int|
                    0 <= k < var_true@.len() && #[trigger] var_true@[k] == live@[q] by {
                    if q < i {
                        let k = choose|k: int| 0 <= k < tv0.len() && #[trigger] tv0[k] == live@[q];
                        assert(var_true@[k] == live@[q]);
                    } else {
                        assert(var_true@[var_true@.len() - 1] == live@[q]);
                    }
                }
                assert forall|q: int|
                    0 <= q < i + 1 && val_of(dnf@[(#[trigger] live@[q]) as int]@, w as int)
                        != Some(true) implies exists|k: int|
                    0 <= k < var_false@.len() && #[trigger] var_false@[k] == live@[q] by {
                    if q < i {
                        let k = choose|k: int| 0 <= k < fv0.len() && #[trigger] fv0[k] == live@[q];
                        assert(var_false@[k] == live@[q]);
                    } else {
                        assert(var_false@[var_false@.len() - 1] == live@[q]);
                    }
                }
                assert forall|k: int| 0 <= k < var_true@.len() implies exists|q: int|
                    0 <= q < live@.len() && #[trigger] var_true@[k] == live@[q] by {
                    if k < tv0.len() {
                        let q = choose|q: int| 0 <= q < live@.len() && #[trigger] tv0[k] == live@[q];
                        assert(var_true@[k] == live@[q]);
                    } else {
                        assert(var_true@[k] == live@[i as int]);
                    }
                }
                assert forall|k: int| 0 <= k < var_false@.len() implies exists|q: int|
                    0 <= q < live@.len() && #[trigger] var_false@[k] == live@[q] by {
                    if k < fv0.len() {
                        let q = choose|q: int| 0 <= q < live@.len() && #[trigger] fv0[k] == live@[q];
                        assert(var_false@[k] == live@[q]);
                    } else {
                        assert(var_false@[k] == live@[i as int]);
                    }
                }
            }
            i = i + 1;
        }
        let ghost out0 = out@;
        let low = match Bdd::dnf_rec(dnf, n, w + 1, &var_false, out, cache) {
            Ok(p) => p,
            Err(e) => {
                return Err(e);
            },
        };
        let ghost out1 = out@;
        let high = match Bdd::dnf_rec(dnf, n, w + 1, &var_true, out, cache) {
            Ok(p) => p,
            Err(e) => {
                return Err(e);
            },
        };
        let ghost out2 = out@;
        proof {
            lemma_eval_extend_all(out1, out2);
            lemma_two_pow_mono((n - w - 1) as nat, (n - v) as nat);
            assert(two_pow((n - w) as nat) == 2 * two_pow((n - w - 1) as nat));
            // The two halves cover the live set exactly, so on either value
            // of `w` the split preserves the disjunction.
            assert forall|m: Seq<bool>| m.len() == n as int implies some_cube_matches_above(
                dnf@,
                live@,
                w as int,
                m,
            ) == (if m[w as int] {
                some_cube_matches_above(dnf@, var_true@, w as int + 1, m)
            } else {
                some_cube_matches_above(dnf@, var_false@, w as int + 1, m)
            }) by {
                if m[w as int] {
                    if some_cube_matches_above(dnf@, live@, w as int, m) {
                        let q = choose|q: int|
                            0 <= q < live@.len() && cube_matches_above(
                                dnf@[live@[q] as int]@,
                                w as int,
                                m,
                            );
                        assert(val_of(dnf@[live@[q] as int]@, w as int) != Some(false));
                        let k = choose|k: int|
                            0 <= k < var_true@.len() && var_true@[k] == live@[q];
                        assert(cube_matches_above(dnf@[var_true@[k] as int]@, w as int + 1, m));
                    }
                    if some_cube_matches_above(dnf@, var_true@, w as int + 1, m) {
                        let k = choose|k: int|
                            0 <= k < var_true@.len() && cube_matches_above(
                                dnf@[var_true@[k] as int]@,
                                w as int + 1,
                                m,
                            );
                        let q = choose|q: int|
                            0 <= q < live@.len() && var_true@[k] == live@[q];
                        assert(cube_matches_above(dnf@[live@[q] as int]@, w as int, m)) by {
                            assert(val_of(dnf@[live@[q] as int]@, w as int) != Some(false));
                        }
                    }
                } else {
                    if some_cube_matches_above(dnf@, live@, w as int, m) {
                        let q = choose|q: int|
                            0 <= q < live@.len() && cube_matches_above(
                                dnf@[live@[q] as int]@,
                                w as int,
                                m,
                            );
                        assert(val_of(dnf@[live@[q] as int]@, w as int) != Some(true));
                        let k = choose|k: int|
                            0 <= k < var_false@.len() && var_false@[k] == live@[q];
                        assert(cube_matches_above(dnf@[var_false@[k] as int]@, w as int + 1, m));
                    }
                    if some_cube_matches_above(dnf@, var_false@, w as int + 1, m) {
                        let k = choose|k: int|
                            0 <= k < var_false@.len() && cube_matches_above(
                                dnf@[var_false@[k] as int]@,
                                w as int + 1,
                                m,
                            );
                        let q = choose|q: int|
                            0 <= q < live@.len() && var_false@[k] == live@[q];
                        assert(cube_matches_above(dnf@[live@[q] as int]@, w as int, m)) by {
                            assert(val_of(dnf@[live@[q] as int]@, w as int) != Some(true));
                        }
                    }
                }
            }
        }
        if high == low {
            return Ok(high);
        }
        let node = BddNode {
            var,
            low_link: BddPointer(low),
            high_link: BddPointer(high),
        };
        let nkey: u128 = (node.var.0 as u128) * 0x1_0000_0000_0000_0000 + (node.low_link.0 as u128)
            * 0x1_0000_0000 + (node.high_link.0 as u128);
        proof {
            assert(nkey == enc_node(node));
        }
        let cached = cache.get(&nkey);
        match cached {
            Some(ii) => {
                let r = *ii;
                proof {
                    assert(cache@.contains_key(nkey));
                    assert(enc_node(out2[r as int]) == nkey);
                    lemma_enc_node_inj(out2[r as int], node);
                    assert(out2[r as int] == node);
                    assert(r >= 2) by {
                        if r < 2 {
                            assert(out2[r as int].var.0 == nvars_of(out2));
                        }
                    }
                    assert(node_ok(out2, n, r as int));
                    assert(out2.len() == out0.len()) by {
                        assert(low < r && high < r);
                        if out2.len() > out1.len() {
                            assert(high as int == out2.len() - 1);
                        }
                        if out1.len() > out0.len() {
                            assert(low as int == out1.len() - 1);
                        }
                    }
                    assert forall|m: Seq<bool>| m.len() == n as int implies #[trigger] eval_ptr(
                        out2,
                        r as int,
                        m,
                    ) == some_cube_matches_above(dnf@, live@, v as int, m) by {
                        assert(eval_ptr(out2, r as int, m) == if m[w as int] {
                            eval_ptr(out2, high as int, m)
                        } else {
                            eval_ptr(out2, low as int, m)
                        });
                    }
                }
                Ok(r)
            },
            None => {
                if out.len() > (u32::MAX - 1) as usize {
                    return Err(BddError::TooLarge);
                }
                let idx: u32 = out.len() as u32;
                out.push(node);
                cache.insert(nkey, idx);
                proof {
                    let out3 = out@;
                    assert(out3 =~= out2.push(node));
                    assert(forall|q: int| 0 <= q < out2.len() ==> out3[q] == out2[q]);
                    lemma_eval_extend_all(out2, out3);
                    assert(out3[idx as int] == node);
                    assert(node_ok(out3, n, idx as int));
                    assert forall|i2: int| 0 <= i2 < idx as int implies out3[i2] != node by {
                        if out3[i2] == node {
                            assert(cache@.contains_key(enc_node(out2[i2])));
                        }
                    }
                    assert(wf(out3)) by {
                        assert(forall|i2: int|
                            2 <= i2 < out2.len() ==> node_ok(out2, n, i2) && (#[trigger] out3[i2])
                                == out2[i2]);
                        assert forall|i2: int| 2 <= i2 < out3.len() implies #[trigger] node_ok(
                            out3,
                            n,
                            i2,
                        ) by {
                            if i2 < out2.len() {
                                assert(node_ok(out2, n, i2));
                                assert(out3[out2[i2].low_link.0 as int] == out2[out2[i2].low_link.0 as int]);
                                assert(out3[out2[i2].high_link.0 as int] == out2[out2[i2].high_link.0 as int]);
                            }
                        }
                    }
                    assert(cache_ok(cache@, out3)) by {
                        assert forall|k: u128| #[trigger] cache@.contains_key(k) implies (
                        cache@[k] as int) < out3.len() && enc_node(out3[cache@[k] as int])
                            == k by {
                            if k != nkey {
                                assert(old(cache)@.contains_key(k) || cache@.insert(
                                    nkey,
                                    idx,
                                ).contains_key(k));
                            }
                        }
                    }
                    assert forall|m: Seq<bool>| m.len() == n as int implies #[trigger] eval_ptr(
                        out3,
                        idx as int,
                        m,
                    ) == some_cube_matches_above(dnf@, live@, v as int, m) by {
                        assert(eval_ptr(out3, idx as int, m) == if m[w as int] {
                            eval_ptr(out3, high as int, m)
                        } else {
                            eval_ptr(out3, low as int, m)
                        });
                        assert(eval_ptr(out3, low as int, m) == eval_ptr(out2, low as int, m));
                        assert(eval_ptr(out3, high as int, m) == eval_ptr(out2, high as int, m));
                    }
                }
                Ok(idx)
            },
        }
    }

    /// Build the canonical diagram of a disjunction of cubes by recursive
    /// splitting over the variable order. The empty list denotes `false`.
    /// Reports the first out-of-range variable any cube constrains; a
    /// universe of at most 30 variables never exhausts the pointer range.
    #[verifier::rlimit(60)]
    pub fn mk_dnf(num_vars: u16, dnf: &[BddPartialValuation]) -> (r: Result<Bdd, BddError>)
        requires
            forall|c: int|
                0 <= c < dnf@.len() ==> (#[trigger] dnf@[c])@.len() <= u16::MAX as int + 1,
        ensures
            match r {
                Ok(b) => {
                    &&& dnf_ok(dnf@, num_vars)
                    &&& b.inv()
                    &&& b.nv() == num_vars
                    &&& forall|m: Seq<bool>|
                        m.len() == num_vars as int ==> #[trigger] b.sem(m) == exists|c: int|
                            0 <= c < dnf@.len() && cube_matches((#[trigger] dnf@[c])@, m)
                },
                Err(BddError::InvalidVariable(bad)) => exists|c: int|
                    0 <= c < dnf@.len() && (forall|c2: int|
                        0 <= c2 < c ==> (forall|w: int|
                            val_of((#[trigger] dnf@[c2])@, w) is Some ==> 0 <= w
                                < num_vars as int)) && (bad.0 as int) >= num_vars as int && val_of(
                        (#[trigger] dnf@[c])@,
                        bad.0 as int,
                    ) is Some && (forall|w: int|
                        0 <= w < bad.0 as int && val_of(dnf@[c]@, w) is Some ==> w
                            < num_vars as int),
                Err(BddError::TooLarge) => dnf_ok(dnf@, num_vars) && num_vars > 30
                    && dnf@.len() > 0,
                Err(_) => false,
            },
    {
        let n = num_vars;
        // Validate every cube first: malformed input is reported
        // before anything is built.
        let mut c: usize = 0;
        while c < dnf.len()
            invariant
                n == num_vars,
                forall|c2: int|
                    0 <= c2 < dnf@.len() ==> (#[trigger] dnf@[c2])@.len() <= u16::MAX as int + 1,
                forall|c2: int|
                    0 <= c2 < c ==> (forall|w: int|
                        val_of((#[trigger] dnf@[c2])@, w) is Some ==> 0 <= w < n as int),
                c <= dnf@.len(),
            decreases dnf@.len() - c,
        {
            let cube = &dnf[c];
            let mut j: usize = 0;
            while j < cube.0.len()
                invariant
                    n == num_vars,
                    cube == &dnf[c as int],
                    c < dnf@.len(),
                    cube@.len() <= u16::MAX as int + 1,
                    j <= cube@.len(),
                    forall|w: int|
                        0 <= w < j && val_of(cube@, w) is Some ==> w < n as int,
                    forall|c2: int|
                        0 <= c2 < c ==> (forall|w: int|
                            val_of((#[trigger] dnf@[c2])@, w) is Some ==> 0 <= w < n as int),
                decreases cube@.len() - j,
            {
                if cube.0[j].is_some() && j >= n as usize {
                    proof {
                        let bad = BddVariable(j as u16);
                        assert(bad.0 as int == j as int);
                        assert(cube@ == (dnf@[c as int])@);
                        assert(cube@[j as int] is Some);
                        assert(val_of((dnf@[c as int])@, bad.0 as int) is Some);
                        assert(0 <= (c as int) < dnf@.len() && (forall|c2: int|
                            0 <= c2 < c as int ==> (forall|w: int|
                                val_of((#[trigger] dnf@[c2])@, w) is Some ==> 0 <= w
                                    < num_vars as int)) && (bad.0 as int) >= num_vars as int
                            && val_of((dnf@[c as int])@, bad.0 as int) is Some && (forall|w: int|
                            0 <= w < bad.0 as int && val_of(dnf@[c as int]@, w) is Some ==> w
                                < num_vars as int));
                    }
                    return Err(BddError::InvalidVariable(BddVariable(j as u16)));
                }
                proof {
                    assert(val_of(cube@, j as int) == cube@[j as int]);
                }
                j = j + 1;
            }
            proof {
                assert forall|w: int| val_of((dnf@[c as int])@, w) is Some implies 0 <= w
                    < n as int by {
                    assert(0 <= w < cube@.len());
                }
            }
            c = c + 1;
        }
        if dnf.len() == 0 {
            let b = Bdd::mk_false(n);
            proof {
                assert forall|m: Seq<bool>| m.len() == n as int implies #[trigger] b.sem(m) == (
                exists|c2: int| 0 <= c2 < dnf@.len() && cube_matches((#[trigger] dnf@[c2])@, m))
                    by {}
            }
            return Ok(b);
        }
        let mut out: Vec<BddNode> = vec![BddNode::mk_zero(n), BddNode::mk_one(n)];
        let mut cache: HashMap<u128, u32> = HashMap::new();
        let zkey: u128 = (n as u128) * 0x1_0000_0000_0000_0000;
        let okey: u128 = zkey + 0x1_0000_0000 + 1;
        proof {
            assert(zkey == enc_node(zero_node(n)));
            assert(okey == enc_node(one_node(n)));
            if zkey == okey {
                lemma_enc_node_inj(zero_node(n), one_node(n));
            }
        }
        cache.insert(zkey, 0);
        cache.insert(okey, 1);
        proof {
            assert(wf(out@));
            assert(cache_ok(cache@, out@)) by {
                assert forall|i: int|
                    0 <= i < out@.len() implies cache@.contains_key(
                    #[trigger] enc_node(out@[i]),
                ) && cache@[enc_node(out@[i])] as int == i by {
                    if i == 0 {
                        assert(enc_node(out@[0]) == zkey);
                    } else {
                        assert(enc_node(out@[1]) == okey);
                    }
                }
            }
        }
        let mut live: Vec<usize> = Vec::new();
        let mut i: usize = 0;
        while i < dnf.len()
            invariant
                i <= dnf@.len(),
                live@.len() == i,
                forall|q: int| 0 <= q < i ==> (#[trigger] live@[q]) == q,
            decreases dnf@.len() - i,
        {
            live.push(i);
            i = i + 1;
        }
        let root = match Bdd::dnf_rec(dnf, n, 0, &live, &mut out, &mut cache) {
            Ok(p) => p,
            Err(e) => {
                proof {
                    // Within 30 variables the split cannot reach the
                    // pointer cap: the whole recursion adds under 2^31
                    // nodes.
                    if n <= 30 {
                        lemma_two_pow_mono((n - 0) as nat, 30nat);
                        assert(two_pow(30nat) == 0x4000_0000nat) by {
                            reveal_with_fuel(two_pow, 32);
                        }
                        assert(false);
                    }
                }
                return Err(BddError::TooLarge);
            },
        };
        proof {
            assert forall|m: Seq<bool>| m.len() == n as int implies some_cube_matches_above(
                dnf@,
                live@,
                0,
                m,
            ) == (exists|c2: int|
                0 <= c2 < dnf@.len() && cube_matches((#[trigger] dnf@[c2])@, m)) by {
                if some_cube_matches_above(dnf@, live@, 0, m) {
                    let q = choose|q: int|
                        0 <= q < live@.len() && cube_matches_above(dnf@[live@[q] as int]@, 0, m);
                    lemma_matches_above_zero(dnf@[live@[q] as int]@, n, m);
                }
                if exists|c2: int| 0 <= c2 < dnf@.len() && cube_matches((#[trigger] dnf@[c2])@, m) {
                    let c2 = choose|c2: int|
                        0 <= c2 < dnf@.len() && cube_matches((#[trigger] dnf@[c2])@, m);
                    lemma_matches_above_zero(dnf@[c2]@, n, m);
                    assert(live@[c2] == c2);
                    assert(cube_matches_above(dnf@[live@[c2] as int]@, 0, m));
                }
            }
        }
        if root == 0 {
            let b = Bdd::mk_false(n);
            proof {
                assert forall|m: Seq<bool>| m.len() == n as int implies #[trigger] b.sem(m) == (
                exists|c2: int| 0 <= c2 < dnf@.len() && cube_matches((#[trigger] dnf@[c2])@, m))
                    by {
                    assert(eval_ptr(out@, 0, m) == some_cube_matches_above(dnf@, live@, 0, m));
                }
            }
            Ok(b)
        } else {
            proof {
                assert(root as int == out@.len() - 1);
            }
            let b = Bdd(out);
            Ok(b)
        }
    }

    /// A conjunction of literals as a canonical diagram: a single spine
    /// from the largest constrained variable down to the root. Reports the
    /// first out-of-range entry and the first entry repeating a variable.
    pub fn mk_cube(num_vars: u16, values: &[(BddVariable, bool)]) -> (r: Result<Bdd, BddError>)
        ensures
            match r {
                Ok(b) => {
                    &&& b.inv()
                    &&& b.nv() == num_vars
                    &&& forall|m: Seq<bool>|
                        m.len() == num_vars as int ==> #[trigger] b.sem(m)
                            == crate::relation::assigns_match(values@, m)
                },
                Err(BddError::InvalidVariable(bad)) => exists|j: int|
                    0 <= j < values@.len() && (#[trigger] values@[j]).0 == bad && (bad.0 as int)
                        >= num_vars as int && (forall|i: int|
                        0 <= i < j ==> ((#[trigger] values@[i]).0.0 as int) < num_vars as int && (
                        forall|i2: int| 0 <= i2 < i ==> values@[i2].0 != values@[i].0)),
                Err(BddError::DuplicateVariable(bad)) => exists|j: int|
                    0 <= j < values@.len() && (#[trigger] values@[j]).0 == bad && ((
                    bad.0 as int) < num_vars as int) && (exists|i: int|
                        0 <= i < j && values@[i].0 == bad) && (forall|i: int|
                        0 <= i < j ==> ((#[trigger] values@[i]).0.0 as int) < num_vars as int && (
                        forall|i2: int| 0 <= i2 < i ==> values@[i2].0 != values@[i].0)),
                Err(_) => false,
            },
    {
        let n = num_vars;
        let mut j: usize = 0;
        while j < values.len()
            invariant
                n == num_vars,
                j <= values@.len(),
                forall|i: int|
                    0 <= i < j ==> ((#[trigger] values@[i]).0.0 as int) < n as int && (forall|
                        i2: int,
                    |
                        0 <= i2 < i ==> values@[i2].0 != values@[i].0),
            decreases values@.len() - j,
        {
            let (var, _) = values[j];
            if var.0 >= n {
                proof {
                    assert(0 <= (j as int) < values@.len() && values@[j as int].0 == var && (
                    var.0 as int) >= num_vars as int && (forall|i: int|
                        0 <= i < j as int ==> ((#[trigger] values@[i]).0.0 as int)
                            < num_vars as int && (forall|i2: int|
                            0 <= i2 < i ==> values@[i2].0 != values@[i].0)));
                }
                return Err(BddError::InvalidVariable(var));
            }
            let mut i: usize = 0;
            while i < j
                invariant
                    n == num_vars,
                    i <= j < values@.len(),
                    var == values@[j as int].0,
                    (var.0 as int) < n as int,
                    forall|i2: int| 0 <= i2 < i ==> values@[i2].0 != var,
                    forall|i2: int|
                        0 <= i2 < j ==> ((#[trigger] values@[i2]).0.0 as int) < n as int && (
                        forall|i3: int| 0 <= i3 < i2 ==> values@[i3].0 != values@[i2].0),
                decreases j - i,
            {
                if values[i].0.0 == var.0 {
                    proof {
                        assert(values@[i as int].0 == var);
                        assert(0 <= (j as int) < values@.len() && values@[j as int].0 == var && ((
                        var.0 as int) < num_vars as int) && (exists|i2: int|
                            0 <= i2 < j as int && values@[i2].0 == var) && (forall|i2: int|
                            0 <= i2 < j as int ==> ((#[trigger] values@[i2]).0.0 as int)
                                < num_vars as int && (forall|i3: int|
                                0 <= i3 < i2 ==> values@[i3].0 != values@[i2].0)));
                    }
                    return Err(BddError::DuplicateVariable(var));
                }
                i = i + 1;
            }
            j = j + 1;
        }
        let cube = BddPartialValuation::from_values(values);
        let mut nodes: Vec<BddNode> = vec![BddNode::mk_zero(n), BddNode::mk_one(n)];
        let mut cur: u32 = 1;
        let mut v: u16 = n;
        while v > 0
            invariant
                n == num_vars,
                v <= n,
                forall|w: u16| val_of(cube@, w as int) == crate::valuation::assigned(values@, w),
                wf(nodes@),
                nvars_of(nodes@) == n,
                nodes@.len() >= 2,
                nodes@.len() <= 2 + (n as int - v as int),
                1 <= (cur as int) < nodes@.len(),
                (cur as int) == nodes@.len() - 1,
                (nodes@[cur as int].var.0 as int) >= v as int,
                forall|q: int| 2 <= q < nodes@.len() ==> ((#[trigger] nodes@[q]).var.0 as int)
                    >= v as int,
                forall|m: Seq<bool>|
                    m.len() == n as int ==> #[trigger] eval_ptr(nodes@, cur as int, m) == (forall|
                        w: int,
                    |
                        v as int <= w < n as int ==> match #[trigger] val_of(cube@, w) {
                            Some(b) => m[w] == b,
                            None => true,
                        }),
            decreases v,
        {
            v = v - 1;
            let constraint = cube.get_value(BddVariable(v));
            if let Some(value) = constraint {
                let ghost nodes0 = nodes@;
                let ghost cur0 = cur as int;
                let (lo, hi): (u32, u32) = if value {
                    (0, cur)
                } else {
                    (cur, 0)
                };
                let node = BddNode {
                    var: BddVariable(v),
                    low_link: BddPointer(lo),
                    high_link: BddPointer(hi),
                };
                let idx: u32 = nodes.len() as u32;
                nodes.push(node);
                cur = idx;
                proof {
                    let nodes1 = nodes@;
                    assert(forall|q: int| 0 <= q < nodes0.len() ==> nodes1[q] == nodes0[q]);
                    lemma_eval_extend_all(nodes0, nodes1);
                    assert(node_ok(nodes1, n, idx as int)) by {
                        assert(nodes1[cur0] == nodes0[cur0]);
                        assert((nodes0[cur0].var.0 as int) >= v as int + 1);
                        assert((nodes1[cur0].var.0 as int) > v as int);
                        assert(nodes1[0] == zero_node(n));
                    }
                    assert(wf(nodes1)) by {
                        assert forall|i2: int| 2 <= i2 < nodes1.len() implies #[trigger] node_ok(
                            nodes1,
                            n,
                            i2,
                        ) by {
                            if i2 < nodes0.len() {
                                assert(node_ok(nodes0, n, i2));
                                assert(nodes1[nodes0[i2].low_link.0 as int] == nodes0[nodes0[i2].low_link.0 as int]);
                                assert(nodes1[nodes0[i2].high_link.0 as int] == nodes0[nodes0[i2].high_link.0 as int]);
                            }
                        }
                        // The spine tests strictly decreasing variables, so
                        // no two records agree.
                        assert forall|q1: int, q2: int|
                            2 <= q1 < nodes1.len() && 2 <= q2 < nodes1.len() && q1 != q2 implies
                            #[trigger] nodes1[q1] != #[trigger] nodes1[q2] by {
                            if q1 < idx as int && q2 < idx as int {
                                assert(nodes0[q1] != nodes0[q2]);
                            } else if q1 == idx as int && q2 < idx as int {
                                assert((nodes0[q2].var.0 as int) >= v as int + 1);
                            } else if q2 == idx as int && q1 < idx as int {
                                assert((nodes0[q1].var.0 as int) >= v as int + 1);
                            }
                        }
                    }
                    assert forall|m: Seq<bool>| m.len() == n as int implies #[trigger] eval_ptr(
                        nodes1,
                        cur as int,
                        m,
                    ) == (forall|w: int|
                        v as int <= w < n as int ==> match #[trigger] val_of(cube@, w) {
                            Some(b) => m[w] == b,
                            None => true,
                        }) by {
                        assert(eval_ptr(nodes1, idx as int, m) == if m[v as int] {
                            eval_ptr(nodes1, hi as int, m)
                        } else {
                            eval_ptr(nodes1, lo as int, m)
                        });
                        assert(eval_ptr(nodes1, cur0, m) == eval_ptr(nodes0, cur0, m));
                        if eval_ptr(nodes1, idx as int, m) {
                            assert(m[v as int] == value);
                        }
                        if m[v as int] == value && (forall|w: int|
                            v as int + 1 <= w < n as int ==> match #[trigger] val_of(cube@, w) {
                                Some(b) => m[w] == b,
                                None => true,
                            }) {
                            assert(eval_ptr(nodes1, idx as int, m));
                        }
                    }
                }
            } else {
                proof {
                    assert forall|m: Seq<bool>| m.len() == n as int implies #[trigger] eval_ptr(
                        nodes@,
                        cur as int,
                        m,
                    ) == (forall|w: int|
                        v as int <= w < n as int ==> match #[trigger] val_of(cube@, w) {
                            Some(b) => m[w] == b,
                            None => true,
                        }) by {}
                }
            }
        }
        let b = Bdd(nodes);
        proof {
            assert forall|m: Seq<bool>| m.len() == n as int implies #[trigger] b.sem(m)
                == crate::relation::assigns_match(values@, m) by {
                assert(b.sem(m) == eval_ptr(b@, cur as int, m));
                if b.sem(m) {
                    assert forall|q: int| 0 <= q < values@.len() implies m[(
                    #[trigger] values@[q]).0.0 as int] == values@[q].1 by {
                        let w = values@[q].0.0;
                        crate::valuation::lemma_assigned_of_clean(values@, q);
                        assert(val_of(cube@, w as int) == Some(values@[q].1));
                    }
                }
                if crate::relation::assigns_match(values@, m) {
                    assert forall|w: int|
                        0 <= w < n as int implies match #[trigger] val_of(cube@, w) {
                        Some(b2) => m[w] == b2,
                        None => true,
                    } by {
                        if val_of(cube@, w) is Some {
                            crate::valuation::lemma_assigned_some(values@, w as u16);
                        }
                    }
                }
            }
        }
        Ok(b)
    }
}


impl Bdd {
    /// One step of the path enumeration: record, below the current path,
    /// every route from `p` to the `1` terminal.
    #[verifier::rlimit(100)]
    #[verifier::spinoff_prover]
    fn to_dnf_rec(
        a: &Bdd,
        p: u32,
        path: &BddPartialValuation,
        results: &mut Vec<BddPartialValuation>,
    )
        requires
            a.inv(),
            (p as int) < a@.len(),
            forall|w: int| val_of(path@, w) is Some ==> 0 <= w < a@[p as int].var.0 as int,
            path@.len() <= a@[p as int].var.0 as int,
        ensures
            final(results)@.len() >= old(results)@.len(),
            forall|q: int| 0 <= q < old(results)@.len() ==> final(results)@[q] == old(
                results,
            )@[q],
            forall|i: int|
                old(results)@.len() <= i < final(results)@.len() ==> (forall|w: int|
                    val_of((#[trigger] final(results)@[i])@, w) is Some ==> 0 <= w < nvars_of(a@)
                        as int) && (#[trigger] final(results)@[i])@.len() <= nvars_of(a@) as int,
            forall|m: Seq<bool>|
                m.len() == nvars_of(a@) as int ==> ((exists|i: int|
                    old(results)@.len() <= i < final(results)@.len() && cube_matches(
                        (#[trigger] final(results)@[i])@,
                        m,
                    )) == (cube_matches(path@, m) && eval_ptr(a@, p as int, m))),
            // Each recorded cube keeps every literal of the path so far.
            forall|i: int, w: int|
                old(results)@.len() <= i < final(results)@.len() && val_of(path@, w) is Some
                    ==> #[trigger] val_of((final(results)@[i])@, w) == val_of(path@, w),
            // Distinct recorded cubes exclude each other.
            forall|i: int, j: int, m: Seq<bool>|
                old(results)@.len() <= i < j < final(results)@.len() && m.len() == nvars_of(a@)
                    as int ==> !(#[trigger] cube_matches((final(results)@[i])@, m)
                    && #[trigger] cube_matches((final(results)@[j])@, m)),
            p == 0 ==> final(results)@.len() == old(results)@.len(),
            p == 1 ==> final(results)@.len() == old(results)@.len() + 1
                && (final(results)@[old(results)@.len() as int])@ == path@,
        decreases p,
    {
        let ghost n = nvars_of(a@);
        if p == 0 {
            return ;
        }
        if p == 1 {
            let ghost len0 = results@.len() as int;
            results.push(path.duplicate());
            proof {
                assert(results@[len0]@ == path@);
                assert forall|m: Seq<bool>| m.len() == n as int implies ((exists|i: int|
                    len0 <= i < results@.len() && cube_matches((#[trigger] results@[i])@, m)) == (
                cube_matches(path@, m) && eval_ptr(a@, 1, m))) by {
                    if cube_matches(path@, m) {
                        assert(cube_matches(results@[len0]@, m));
                    }
                }
            }
            return ;
        }
        proof {
            assert(node_ok(a@, n, p as int));
        }
        let nd = a.0[p as usize];
        let w = nd.var;
        let lo = nd.low_link.0;
        let hi = nd.high_link.0;
        let ghost len0 = results@.len() as int;
        let mut branch = path.duplicate();
        branch.set_value(w, false);
        proof {
            assert(forall|v: int|
                v != w.0 as int ==> val_of(branch@, v) == val_of(path@, v));
            assert(val_of(branch@, w.0 as int) == Some(false));
            assert(branch@.len() <= w.0 as int + 1);
            assert(branch@.len() <= a@[lo as int].var.0 as int);
        }
        if lo != 0 {
            Bdd::to_dnf_rec(a, lo, &branch, results);
        }
        let ghost mid = results@.len() as int;
        let ghost branch_lo = branch@;
        let mut branch2 = path.duplicate();
        branch2.set_value(w, true);
        proof {
            assert(forall|v: int|
                v != w.0 as int ==> val_of(branch2@, v) == val_of(path@, v));
            assert(val_of(branch2@, w.0 as int) == Some(true));
            assert(branch2@.len() <= a@[hi as int].var.0 as int);
        }
        if hi != 0 {
            Bdd::to_dnf_rec(a, hi, &branch2, results);
        }
        proof {
            let fin = results@;
            assert(forall|q: int| 0 <= q < mid ==> fin[q] == results@[q]);
            assert forall|m: Seq<bool>| m.len() == n as int implies ((exists|i: int|
                len0 <= i < fin.len() && cube_matches((#[trigger] fin[i])@, m)) == (cube_matches(
                path@,
                m,
            ) && eval_ptr(a@, p as int, m))) by {
                lemma_matches_extend(path@, branch_lo, w.0 as int, false, m);
                lemma_matches_extend(path@, branch2@, w.0 as int, true, m);
                assert(eval_ptr(a@, p as int, m) == if m[w.0 as int] {
                    eval_ptr(a@, hi as int, m)
                } else {
                    eval_ptr(a@, lo as int, m)
                });
                // The two recorded ranges are told apart by the literal at
                // the decision variable.
                assert((exists|i: int|
                    len0 <= i < mid && cube_matches((#[trigger] fin[i])@, m)) == (cube_matches(
                    branch_lo,
                    m,
                ) && eval_ptr(a@, lo as int, m))) by {
                    if lo == 0 {
                    } else {
                        assert forall|i: int|
                            len0 <= i < mid && cube_matches((#[trigger] fin[i])@, m) implies (
                        cube_matches(branch_lo, m) && eval_ptr(a@, lo as int, m)) by {}
                    }
                }
                assert((exists|i: int|
                    mid <= i < fin.len() && cube_matches((#[trigger] fin[i])@, m)) == (
                cube_matches(branch2@, m) && eval_ptr(a@, hi as int, m))) by {
                    if hi == 0 {
                    }
                }
                if exists|i: int| len0 <= i < fin.len() && cube_matches((#[trigger] fin[i])@, m) {
                    let i = choose|i: int|
                        len0 <= i < fin.len() && cube_matches((#[trigger] fin[i])@, m);
                    if i < mid {
                    } else {
                    }
                }
            }
        }
    }

    /// Every route from the root to the `1` terminal, as the cube of the
    /// variables tested along it. The disjunction of the returned cubes is
    /// the function of this diagram.
    pub fn to_dnf(&self) -> (r: Vec<BddPartialValuation>)
        requires
            self.inv(),
        ensures
            forall|i: int|
                0 <= i < r@.len() ==> (forall|w: int|
                    val_of((#[trigger] r@[i])@, w) is Some ==> 0 <= w < self.nv() as int) && (
                #[trigger] r@[i])@.len() <= u16::MAX as int + 1,
            forall|m: Seq<bool>|
                m.len() == self.nv() as int ==> #[trigger] self.sem(m) == exists|i: int|
                    0 <= i < r@.len() && cube_matches((#[trigger] r@[i])@, m),
            forall|i: int, j: int, m: Seq<bool>|
                0 <= i < j < r@.len() && m.len() == self.nv() as int ==> !(
                #[trigger] cube_matches((r@[i])@, m) && #[trigger] cube_matches((r@[j])@, m)),
            self@.len() == 1 ==> r@.len() == 0,
            self@.len() == 2 ==> r@.len() == 1 && (r@[0])@.len() == 0,
    {
        let mut results: Vec<BddPartialValuation> = Vec::new();
        let start = BddPartialValuation::empty();
        let root: u32 = (self.0.len() - 1) as u32;
        proof {
            if root >= 2 {
                assert(node_ok(self@, self.nv(), root as int));
            }
        }
        Bdd::to_dnf_rec(self, root, &start, &mut results);
        proof {
            assert forall|m: Seq<bool>| m.len() == self.nv() as int implies #[trigger] self.sem(m)
                == (exists|i: int|
                0 <= i < results@.len() && cube_matches((#[trigger] results@[i])@, m)) by {
                assert(cube_matches(start@, m));
            }
        }
        results
    }
}

} // verus!
