//! Extraction queries: the lexicographically first and last satisfying
//! valuations and paths of a diagram.

use vstd::prelude::*;

use crate::semantics::{eval_ptr, node_ok, nvars_of, wf};
use crate::valuation::{cube_matches, val_of};
use crate::{Bdd, BddNode, BddPartialValuation, BddValuation, BddVariable};

verus! {

/// `x` is strictly below `y` in the lexicographic order restricted to the
/// first `cut` positions, variable 0 most significant and `false < true`.
pub open spec fn lex_lt_upto(x: Seq<bool>, y: Seq<bool>, cut: int) -> bool {
    exists|k: int|
        0 <= k < cut && !x[k] && y[k] && (forall|i: int| 0 <= i < k ==> x[i] == y[i])
}

/// `x` is at or below `y` on the first `cut` positions.
pub open spec fn lex_le_upto(x: Seq<bool>, y: Seq<bool>, cut: int) -> bool {
    (forall|w: int| 0 <= w < cut ==> x[w] == y[w]) || lex_lt_upto(x, y, cut)
}

/// `x` is strictly above `y` on the first `cut` positions.
pub open spec fn lex_gt_upto(x: Seq<bool>, y: Seq<bool>, cut: int) -> bool {
    exists|k: int|
        0 <= k < cut && x[k] && !y[k] && (forall|i: int| 0 <= i < k ==> x[i] == y[i])
}

/// `x` is at or above `y` on the first `cut` positions.
pub open spec fn lex_ge_upto(x: Seq<bool>, y: Seq<bool>, cut: int) -> bool {
    (forall|w: int| 0 <= w < cut ==> x[w] == y[w]) || lex_gt_upto(x, y, cut)
}

/// The completion of a cube that sets every unconstrained variable to
/// `false`.
pub open spec fn false_completion(c: Seq<Option<bool>>, n: u16) -> Seq<bool> {
    Seq::new(n as nat, |w: int| val_of(c, w) == Some(true))
}

/// The completion of a cube that sets every unconstrained variable to
/// `true`.
pub open spec fn true_completion(c: Seq<Option<bool>>, n: u16) -> Seq<bool> {
    Seq::new(n as nat, |w: int| val_of(c, w) != Some(false))
}


/// The literal the first-path descent records for variable `w` below
/// position `p`: at a decision node the descent goes low unless the low
/// successor is the `0` terminal, and records the branch it takes.
pub open spec fn first_path_entry(nodes: Seq<BddNode>, p: int, w: int) -> Option<bool>
    decreases p,
{
    if p <= 1 || p >= nodes.len() {
        None
    } else {
        let nd = nodes[p];
        let lo = nd.low_link.0 as int;
        let hi = nd.high_link.0 as int;
        if 0 <= lo < p && 0 <= hi < p {
            if w == nd.var.0 as int {
                Some(lo == 0)
            } else if lo == 0 {
                first_path_entry(nodes, hi, w)
            } else {
                first_path_entry(nodes, lo, w)
            }
        } else {
            None
        }
    }
}

/// The literal the last-path descent records for variable `w` below
/// position `p`: the descent goes high unless the high successor is the
/// `0` terminal.
pub open spec fn last_path_entry(nodes: Seq<BddNode>, p: int, w: int) -> Option<bool>
    decreases p,
{
    if p <= 1 || p >= nodes.len() {
        None
    } else {
        let nd = nodes[p];
        let lo = nd.low_link.0 as int;
        let hi = nd.high_link.0 as int;
        if 0 <= lo < p && 0 <= hi < p {
            if w == nd.var.0 as int {
                Some(hi != 0)
            } else if hi == 0 {
                last_path_entry(nodes, lo, w)
            } else {
                last_path_entry(nodes, hi, w)
            }
        } else {
            None
        }
    }
}

/// Two sequences that differ somewhere below `cut` have a first position
/// where they differ.
proof fn lemma_first_diff(x: Seq<bool>, y: Seq<bool>, cut: int)
    requires
        0 <= cut <= x.len(),
        cut <= y.len(),
        !(forall|w: int| 0 <= w < cut ==> x[w] == y[w]),
    ensures
        exists|k: int|
            0 <= k < cut && x[k] != y[k] && (forall|i: int| 0 <= i < k ==> x[i] == y[i]),
    decreases cut,
{
    if forall|w: int| 0 <= w < cut - 1 ==> x[w] == y[w] {
        assert(x[cut - 1] != y[cut - 1]);
    } else {
        lemma_first_diff(x, y, cut - 1);
        let k = choose|k: int|
            0 <= k < cut - 1 && x[k] != y[k] && (forall|i: int| 0 <= i < k ==> x[i] == y[i]);
        assert(0 <= k < cut && x[k] != y[k] && (forall|i: int| 0 <= i < k ==> x[i] == y[i]));
    }
}


/// A cube whose constraints all appear in a second cube is matched by
/// every valuation matching the second.
proof fn lemma_cube_matches_sub(c1: Seq<Option<bool>>, c2: Seq<Option<bool>>, m: Seq<bool>)
    requires
        forall|v: int| val_of(c1, v) is Some ==> val_of(c2, v) == val_of(c1, v),
        cube_matches(c2, m),
    ensures
        cube_matches(c1, m),
{
    assert forall|v: int| 0 <= v < c1.len() implies (match #[trigger] c1[v] {
        Some(b) => 0 <= v < m.len() && m[v] == b,
        None => true,
    }) by {
        assert(val_of(c1, v) == c1[v]);
        if c1[v] is Some {
            assert(val_of(c2, v) == c1[v]);
            assert(0 <= v < c2.len());
            assert(c2[v] == c1[v]);
        }
    }
}

/// A completion of a cube matches the cube, provided every constraint
/// stays below `n`.
proof fn lemma_completion_matches(c: Seq<Option<bool>>, n: u16, fc: Seq<bool>)
    requires
        forall|w: int| val_of(c, w) is Some ==> 0 <= w < n as int,
        fc.len() == n as int,
        forall|w: int| 0 <= w < n as int && val_of(c, w) is Some ==> fc[w] == (val_of(c, w)
            == Some(true)),
    ensures
        cube_matches(c, fc),
{
    assert forall|v: int| 0 <= v < c.len() implies (match #[trigger] c[v] {
        Some(b) => 0 <= v < fc.len() && fc[v] == b,
        None => true,
    }) by {
        assert(val_of(c, v) == c[v]);
        if c[v] is Some {
            assert(0 <= v < n as int);
        }
    }
}

impl Bdd {
    /// The lexicographically first satisfying valuation: variable 0 most
    /// significant, `false < true`, untested variables defaulting to
    /// `false`. `None` exactly for the `false` diagram.
    #[verifier::rlimit(100)]
    #[verifier::spinoff_prover]
    pub fn first_valuation(&self) -> (r: Option<BddValuation>)
        requires
            self.inv(),
        ensures
            match r {
                None => self@.len() == 1,
                Some(val) => {
                    &&& self@.len() >= 2
                    &&& val@.len() == self.nv() as int
                    &&& self.sem(val@)
                    &&& forall|m: Seq<bool>|
                        m.len() == self.nv() as int && #[trigger] self.sem(m) ==> lex_le_upto(
                            val@,
                            m,
                            self.nv() as int,
                        )
                },
            },
    {
        if self.0.len() == 1 {
            return None;
        }
        let n = self.num_vars();
        let ghost nn = n as int;
        let mut val = BddValuation::all_false(n);
        let mut node: u32 = (self.0.len() - 1) as u32;
        proof {
            if node >= 2 {
                assert(node_ok(self@, n, node as int));
            }
            let cut = self@[node as int].var.0 as int;
            assert(cut <= nn);
            assert forall|m: Seq<bool>| m.len() == nn && #[trigger] self.sem(m) implies
                lex_le_upto(val@, m, cut) by {
                if !(forall|w: int| 0 <= w < cut ==> val@[w] == m[w]) {
                    lemma_first_diff(val@, m, cut);
                }
            }
        }
        while node >= 2
            invariant
                self.inv(),
                n == self.nv(),
                nn == n as int,
                1 <= (node as int) < self@.len(),
                val@.len() == nn,
                // Variables at or above the current decision stay `false`.
                forall|w: int| self@[node as int].var.0 as int <= w < nn ==> !val@[w],
                // Any valuation agreeing with the chosen prefix evaluates
                // the whole diagram as it evaluates the current node.
                forall|m: Seq<bool>|
                    m.len() == nn && (forall|w: int|
                        0 <= w < self@[node as int].var.0 as int ==> m[w] == val@[w])
                        ==> #[trigger] self.sem(m) == eval_ptr(self@, node as int, m),
                // No model lies lexicographically below the chosen prefix.
                forall|m: Seq<bool>|
                    m.len() == nn && #[trigger] self.sem(m) ==> lex_le_upto(
                        val@,
                        m,
                        self@[node as int].var.0 as int,
                    ),
            decreases node,
        {
            let ghost val0 = val@;
            let ghost node0 = node as int;
            let ghost cut0 = self@[node as int].var.0 as int;
            proof {
                assert(node_ok(self@, n, node as int));
            }
            let nd = self.0[node as usize];
            let w = nd.var;
            if self.0[node as usize].low_link.0 == 0 {
                val.set(w);
                node = nd.high_link.0;
            } else {
                node = nd.low_link.0;
            }
            proof {
                let cut1 = self@[node as int].var.0 as int;
                let go_high = self@[node0].low_link.0 == 0;
                assert(cut0 < cut1);
                assert(cut1 <= nn) by {
                    if node >= 2 {
                        assert(node_ok(self@, n, node as int));
                    }
                }
                assert(node >= 1) by {
                    if go_high {
                        assert(self@[node0].low_link.0 != self@[node0].high_link.0);
                    }
                }
                // The evaluation invariant moves one step down.
                assert forall|m: Seq<bool>|
                    m.len() == nn && (forall|w2: int| 0 <= w2 < cut1 ==> m[w2] == val@[w2]) implies
                    #[trigger] self.sem(m) == eval_ptr(self@, node as int, m) by {
                    assert(forall|w2: int| 0 <= w2 < cut0 ==> m[w2] == val0[w2]);
                    assert(self.sem(m) == eval_ptr(self@, node0, m));
                    assert(m[cut0] == val@[cut0]);
                }
                // Minimality moves one step down.
                assert forall|m: Seq<bool>| m.len() == nn && #[trigger] self.sem(m) implies
                    lex_le_upto(val@, m, cut1) by {
                    assert(lex_le_upto(val0, m, cut0));
                    if lex_lt_upto(val0, m, cut0) {
                        let k = choose|k: int|
                            0 <= k < cut0 && !val0[k] && m[k] && (forall|i: int|
                                0 <= i < k ==> val0[i] == m[i]);
                        assert(!val@[k] && m[k] && (forall|i: int| 0 <= i < k ==> val@[i] == m[i]));
                        assert(lex_lt_upto(val@, m, cut1));
                    } else {
                        // The prefix agreed; the model follows the same
                        // branch at the decision variable or sits above.
                        assert(self.sem(m) == eval_ptr(self@, node0, m));
                        if go_high {
                            if !m[cut0] {
                                assert(eval_ptr(self@, node0, m) == eval_ptr(self@, 0, m));
                                assert(false);
                            }
                            assert(m[cut0] == val@[cut0]);
                        }
                        if !go_high && m[cut0] {
                            assert(!val@[cut0] && m[cut0] && (forall|i: int|
                                0 <= i < cut0 ==> val@[i] == m[i]));
                            assert(lex_lt_upto(val@, m, cut1));
                        } else {
                            if forall|w2: int| 0 <= w2 < cut1 ==> val@[w2] == m[w2] {
                            } else {
                                lemma_first_diff(val@, m, cut1);
                                let k = choose|k: int|
                                    0 <= k < cut1 && val@[k] != m[k] && (forall|i: int|
                                        0 <= i < k ==> val@[i] == m[i]);
                                assert(k > cut0);
                                assert(!val@[k] && m[k]);
                                assert(lex_lt_upto(val@, m, cut1));
                            }
                        }
                    }
                }
            }
        }
        proof {
            assert(node == 1) by {
                if node == 0 {
                    assert((node as int) >= 1);
                }
            }
            assert(self@[1].var.0 == n);
            assert(self.sem(val@)) by {
                assert(forall|w: int| 0 <= w < n as int ==> val@[w] == val@[w]);
                assert(self.sem(val@) == eval_ptr(self@, 1, val@));
            }
        }
        Some(val)
    }

    /// The lexicographically last satisfying valuation: untested variables
    /// defaulting to `true`. `None` exactly for the `false` diagram.
    #[verifier::rlimit(100)]
    #[verifier::spinoff_prover]
    pub fn last_valuation(&self) -> (r: Option<BddValuation>)
        requires
            self.inv(),
        ensures
            match r {
                None => self@.len() == 1,
                Some(val) => {
                    &&& self@.len() >= 2
                    &&& val@.len() == self.nv() as int
                    &&& self.sem(val@)
                    &&& forall|m: Seq<bool>|
                        m.len() == self.nv() as int && #[trigger] self.sem(m) ==> lex_ge_upto(
                            val@,
                            m,
                            self.nv() as int,
                        )
                },
            },
    {
        if self.0.len() == 1 {
            return None;
        }
        let n = self.num_vars();
        let ghost nn = n as int;
        let mut val = BddValuation::all_true(n);
        let mut node: u32 = (self.0.len() - 1) as u32;
        proof {
            if node >= 2 {
                assert(node_ok(self@, n, node as int));
            }
            let cut = self@[node as int].var.0 as int;
            assert(cut <= nn);
            assert forall|m: Seq<bool>| m.len() == nn && #[trigger] self.sem(m) implies
                lex_ge_upto(val@, m, cut) by {
                if !(forall|w: int| 0 <= w < cut ==> val@[w] == m[w]) {
                    lemma_first_diff(val@, m, cut);
                }
            }
        }
        while node >= 2
            invariant
                self.inv(),
                n == self.nv(),
                nn == n as int,
                1 <= (node as int) < self@.len(),
                val@.len() == nn,
                forall|w: int| self@[node as int].var.0 as int <= w < nn ==> val@[w],
                forall|m: Seq<bool>|
                    m.len() == nn && (forall|w: int|
                        0 <= w < self@[node as int].var.0 as int ==> m[w] == val@[w])
                        ==> #[trigger] self.sem(m) == eval_ptr(self@, node as int, m),
                forall|m: Seq<bool>|
                    m.len() == nn && #[trigger] self.sem(m) ==> lex_ge_upto(
                        val@,
                        m,
                        self@[node as int].var.0 as int,
                    ),
            decreases node,
        {
            let ghost val0 = val@;
            let ghost node0 = node as int;
            let ghost cut0 = self@[node as int].var.0 as int;
            proof {
                assert(node_ok(self@, n, node as int));
            }
            let nd = self.0[node as usize];
            let w = nd.var;
            if self.0[node as usize].high_link.0 == 0 {
                val.clear(w);
                node = nd.low_link.0;
            } else {
                node = nd.high_link.0;
            }
            proof {
                let cut1 = self@[node as int].var.0 as int;
                let go_low = self@[node0].high_link.0 == 0;
                assert(cut0 < cut1);
                assert(cut1 <= nn) by {
                    if node >= 2 {
                        assert(node_ok(self@, n, node as int));
                    }
                }
                assert(node >= 1) by {
                    if go_low {
                        assert(self@[node0].low_link.0 != self@[node0].high_link.0);
                    }
                }
                assert forall|m: Seq<bool>|
                    m.len() == nn && (forall|w2: int| 0 <= w2 < cut1 ==> m[w2] == val@[w2]) implies
                    #[trigger] self.sem(m) == eval_ptr(self@, node as int, m) by {
                    assert(forall|w2: int| 0 <= w2 < cut0 ==> m[w2] == val0[w2]);
                    assert(self.sem(m) == eval_ptr(self@, node0, m));
                    assert(m[cut0] == val@[cut0]);
                }
                assert forall|m: Seq<bool>| m.len() == nn && #[trigger] self.sem(m) implies
                    lex_ge_upto(val@, m, cut1) by {
                    assert(lex_ge_upto(val0, m, cut0));
                    if lex_gt_upto(val0, m, cut0) {
                        let k = choose|k: int|
                            0 <= k < cut0 && val0[k] && !m[k] && (forall|i: int|
                                0 <= i < k ==> val0[i] == m[i]);
                        assert(val@[k] && !m[k] && (forall|i: int| 0 <= i < k ==> val@[i] == m[i]));
                        assert(lex_gt_upto(val@, m, cut1));
                    } else {
                        assert(self.sem(m) == eval_ptr(self@, node0, m));
                        if go_low {
                            if m[cut0] {
                                assert(eval_ptr(self@, node0, m) == eval_ptr(self@, 0, m));
                                assert(false);
                            }
                            assert(m[cut0] == val@[cut0]);
                        }
                        if !go_low && !m[cut0] {
                            assert(val@[cut0] && !m[cut0] && (forall|i: int|
                                0 <= i < cut0 ==> val@[i] == m[i]));
                            assert(lex_gt_upto(val@, m, cut1));
                        } else {
                            if forall|w2: int| 0 <= w2 < cut1 ==> val@[w2] == m[w2] {
                            } else {
                                lemma_first_diff(val@, m, cut1);
                                let k = choose|k: int|
                                    0 <= k < cut1 && val@[k] != m[k] && (forall|i: int|
                                        0 <= i < k ==> val@[i] == m[i]);
                                assert(k > cut0);
                                assert(val@[k] && !m[k]);
                                assert(lex_gt_upto(val@, m, cut1));
                            }
                        }
                    }
                }
            }
        }
        proof {
            assert(node == 1);
            assert(self@[1].var.0 == n);
            assert(self.sem(val@)) by {
                assert(self.sem(val@) == eval_ptr(self@, 1, val@));
            }
        }
        Some(val)
    }

    /// The lexicographically first path to the `1` terminal, as the cube of
    /// exactly the variables tested along it. Its all-`false` completion is
    /// the lexicographically first satisfying valuation.
    #[verifier::rlimit(100)]
    #[verifier::spinoff_prover]
    pub fn first_path(&self) -> (r: Option<BddPartialValuation>)
        requires
            self.inv(),
        ensures
            match r {
                None => self@.len() == 1,
                Some(c) => {
                    &&& self@.len() >= 2
                    &&& forall|w: int| val_of(c@, w) is Some ==> 0 <= w < self.nv() as int
                    &&& forall|w: int|
                        #[trigger] val_of(c@, w) == first_path_entry(self@, self@.len() - 1, w)
                    &&& forall|m: Seq<bool>|
                        m.len() == self.nv() as int && #[trigger] cube_matches(c@, m)
                            ==> self.sem(m)
                    &&& self.sem(false_completion(c@, self.nv()))
                    &&& forall|m: Seq<bool>|
                        m.len() == self.nv() as int && #[trigger] self.sem(m) ==> lex_le_upto(
                            false_completion(c@, self.nv()),
                            m,
                            self.nv() as int,
                        )
                },
            },
    {
        if self.0.len() == 1 {
            return None;
        }
        let n = self.num_vars();
        let ghost nn = n as int;
        let mut path = BddPartialValuation::empty();
        let mut node: u32 = (self.0.len() - 1) as u32;
        proof {
            if node >= 2 {
                assert(node_ok(self@, n, node as int));
            }
            let cut = self@[node as int].var.0 as int;
            assert(cut <= nn);
            let fc = false_completion(path@, n);
            assert(forall|w: int| 0 <= w < nn ==> !fc[w]);
            assert forall|m: Seq<bool>| m.len() == nn && #[trigger] self.sem(m) implies
                lex_le_upto(fc, m, cut) by {
                if !(forall|w: int| 0 <= w < cut ==> fc[w] == m[w]) {
                    lemma_first_diff(fc, m, cut);
                }
            }
        }
        while node >= 2
            invariant
                self.inv(),
                n == self.nv(),
                nn == n as int,
                1 <= (node as int) < self@.len(),
                // Only variables below the current decision are constrained.
                forall|w: int|
                    self@[node as int].var.0 as int <= w ==> val_of(path@, w) is None,
                forall|w: int| val_of(path@, w) is Some ==> 0 <= w < nn,
                // The cube so far, together with the descent below the
                // current node, is exactly the whole descent's cube.
                forall|w: int|
                    #[trigger] first_path_entry(self@, self@.len() - 1, w) == (if val_of(
                        path@,
                        w,
                    ) is Some {
                        val_of(path@, w)
                    } else {
                        first_path_entry(self@, node as int, w)
                    }),
                // Valuations matching the path reach the current node.
                forall|m: Seq<bool>|
                    m.len() == nn && #[trigger] cube_matches(path@, m) ==> self.sem(m) == eval_ptr(
                        self@,
                        node as int,
                        m,
                    ),
                // Valuations agreeing with the all-`false` completion below
                // the decision reach the current node.
                forall|m: Seq<bool>|
                    m.len() == nn && (forall|w: int|
                        0 <= w < self@[node as int].var.0 as int ==> m[w] == false_completion(
                            path@,
                            n,
                        )[w]) ==> #[trigger] self.sem(m) == eval_ptr(self@, node as int, m),
                // No model lies below the completed prefix.
                forall|m: Seq<bool>|
                    m.len() == nn && #[trigger] self.sem(m) ==> lex_le_upto(
                        false_completion(path@, n),
                        m,
                        self@[node as int].var.0 as int,
                    ),
            decreases node,
        {
            let ghost path0 = path@;
            let ghost fc0 = false_completion(path0, n);
            let ghost node0 = node as int;
            let ghost cut0 = self@[node as int].var.0 as int;
            proof {
                assert(node_ok(self@, n, node as int));
            }
            let nd = self.0[node as usize];
            let w = nd.var;
            let go_high = self.0[node as usize].low_link.0 == 0;
            if go_high {
                path.set_value(w, true);
                node = nd.high_link.0;
            } else {
                path.set_value(w, false);
                node = nd.low_link.0;
            }
            proof {
                let fc1 = false_completion(path@, n);
                let cut1 = self@[node as int].var.0 as int;
                assert(cut0 < cut1);
                assert(cut1 <= nn) by {
                    if node >= 2 {
                        assert(node_ok(self@, n, node as int));
                    }
                }
                assert(node >= 1) by {
                    if go_high {
                        assert(self@[node0].low_link.0 != self@[node0].high_link.0);
                    }
                }
                assert(forall|v2: int|
                    0 <= v2 < nn && v2 != cut0 ==> fc1[v2] == fc0[v2] && val_of(path@, v2)
                        == val_of(path0, v2));
                assert(fc1[cut0] == go_high);
                assert(forall|w2: int| cut1 <= w2 ==> val_of(path@, w2) is None);
                // Path-matching valuations follow the taken branch.
                assert forall|m: Seq<bool>|
                    m.len() == nn && #[trigger] cube_matches(path@, m) implies self.sem(m)
                        == eval_ptr(self@, node as int, m) by {
                    lemma_cube_matches_sub(path0, path@, m);
                    assert(cube_matches(path0, m));
                    assert(self.sem(m) == eval_ptr(self@, node0, m));
                    assert(val_of(path@, cut0) == Some(go_high));
                    assert(m[cut0] == go_high);
                }
                // Completion-agreeing valuations follow the taken branch.
                assert forall|m: Seq<bool>|
                    m.len() == nn && (forall|w2: int| 0 <= w2 < cut1 ==> m[w2] == fc1[w2]) implies
                    #[trigger] self.sem(m) == eval_ptr(self@, node as int, m) by {
                    assert(forall|w2: int| 0 <= w2 < cut0 ==> m[w2] == fc0[w2]);
                    assert(self.sem(m) == eval_ptr(self@, node0, m));
                    assert(m[cut0] == fc1[cut0]);
                }
                // Minimality moves one step down.
                assert forall|m: Seq<bool>| m.len() == nn && #[trigger] self.sem(m) implies
                    lex_le_upto(fc1, m, cut1) by {
                    assert(lex_le_upto(fc0, m, cut0));
                    if lex_lt_upto(fc0, m, cut0) {
                        let k = choose|k: int|
                            0 <= k < cut0 && !fc0[k] && m[k] && (forall|i: int|
                                0 <= i < k ==> fc0[i] == m[i]);
                        assert(!fc1[k] && m[k] && (forall|i: int| 0 <= i < k ==> fc1[i] == m[i]));
                        assert(lex_lt_upto(fc1, m, cut1));
                    } else {
                        assert(self.sem(m) == eval_ptr(self@, node0, m));
                        if go_high {
                            if !m[cut0] {
                                assert(eval_ptr(self@, node0, m) == eval_ptr(self@, 0, m));
                                assert(false);
                            }
                            assert(m[cut0] == fc1[cut0]);
                        }
                        if !go_high && m[cut0] {
                            assert(!fc1[cut0] && m[cut0] && (forall|i: int|
                                0 <= i < cut0 ==> fc1[i] == m[i]));
                            assert(lex_lt_upto(fc1, m, cut1));
                        } else {
                            if forall|w2: int| 0 <= w2 < cut1 ==> fc1[w2] == m[w2] {
                            } else {
                                lemma_first_diff(fc1, m, cut1);
                                let k = choose|k: int|
                                    0 <= k < cut1 && fc1[k] != m[k] && (forall|i: int|
                                        0 <= i < k ==> fc1[i] == m[i]);
                                assert(k > cut0);
                                assert(val_of(path@, k) is None);
                                assert(!fc1[k] && m[k]);
                                assert(lex_lt_upto(fc1, m, cut1));
                            }
                        }
                    }
                }
            }
        }
        proof {
            assert(node == 1);
            assert(self@[1].var.0 == n);
            let fc = false_completion(path@, n);
            lemma_completion_matches(path@, n, fc);
            assert(cube_matches(path@, fc));
            assert(self.sem(fc)) by {
                assert(self.sem(fc) == eval_ptr(self@, 1, fc));
            }
        }
        Some(path)
    }

    /// The lexicographically last path to the `1` terminal, as the cube of
    /// exactly the variables tested along it. Its all-`true` completion is
    /// the lexicographically last satisfying valuation.
    #[verifier::rlimit(100)]
    #[verifier::spinoff_prover]
    pub fn last_path(&self) -> (r: Option<BddPartialValuation>)
        requires
            self.inv(),
        ensures
            match r {
                None => self@.len() == 1,
                Some(c) => {
                    &&& self@.len() >= 2
                    &&& forall|w: int| val_of(c@, w) is Some ==> 0 <= w < self.nv() as int
                    &&& forall|w: int|
                        #[trigger] val_of(c@, w) == last_path_entry(self@, self@.len() - 1, w)
                    &&& forall|m: Seq<bool>|
                        m.len() == self.nv() as int && #[trigger] cube_matches(c@, m)
                            ==> self.sem(m)
                    &&& self.sem(true_completion(c@, self.nv()))
                    &&& forall|m: Seq<bool>|
                        m.len() == self.nv() as int && #[trigger] self.sem(m) ==> lex_ge_upto(
                            true_completion(c@, self.nv()),
                            m,
                            self.nv() as int,
                        )
                },
            },
    {
        if self.0.len() == 1 {
            return None;
        }
        let n = self.num_vars();
        let ghost nn = n as int;
        let mut path = BddPartialValuation::empty();
        let mut node: u32 = (self.0.len() - 1) as u32;
        proof {
            if node >= 2 {
                assert(node_ok(self@, n, node as int));
            }
            let cut = self@[node as int].var.0 as int;
            assert(cut <= nn);
            let tc = true_completion(path@, n);
            assert(forall|w: int| 0 <= w < nn ==> tc[w]);
            assert forall|m: Seq<bool>| m.len() == nn && #[trigger] self.sem(m) implies
                lex_ge_upto(tc, m, cut) by {
                if !(forall|w: int| 0 <= w < cut ==> tc[w] == m[w]) {
                    lemma_first_diff(tc, m, cut);
                }
            }
        }
        while node >= 2
            invariant
                self.inv(),
                n == self.nv(),
                nn == n as int,
                1 <= (node as int) < self@.len(),
                forall|w: int|
                    self@[node as int].var.0 as int <= w ==> val_of(path@, w) is None,
                forall|w: int| val_of(path@, w) is Some ==> 0 <= w < nn,
                forall|w: int|
                    #[trigger] last_path_entry(self@, self@.len() - 1, w) == (if val_of(
                        path@,
                        w,
                    ) is Some {
                        val_of(path@, w)
                    } else {
                        last_path_entry(self@, node as int, w)
                    }),
                forall|m: Seq<bool>|
                    m.len() == nn && #[trigger] cube_matches(path@, m) ==> self.sem(m) == eval_ptr(
                        self@,
                        node as int,
                        m,
                    ),
                forall|m: Seq<bool>|
                    m.len() == nn && (forall|w: int|
                        0 <= w < self@[node as int].var.0 as int ==> m[w] == true_completion(
                            path@,
                            n,
                        )[w]) ==> #[trigger] self.sem(m) == eval_ptr(self@, node as int, m),
                forall|m: Seq<bool>|
                    m.len() == nn && #[trigger] self.sem(m) ==> lex_ge_upto(
                        true_completion(path@, n),
                        m,
                        self@[node as int].var.0 as int,
                    ),
            decreases node,
        {
            let ghost path0 = path@;
            let ghost tc0 = true_completion(path0, n);
            let ghost node0 = node as int;
            let ghost cut0 = self@[node as int].var.0 as int;
            proof {
                assert(node_ok(self@, n, node as int));
            }
            let nd = self.0[node as usize];
            let w = nd.var;
            let go_low = self.0[node as usize].high_link.0 == 0;
            if go_low {
                path.set_value(w, false);
                node = nd.low_link.0;
            } else {
                path.set_value(w, true);
                node = nd.high_link.0;
            }
            proof {
                let tc1 = true_completion(path@, n);
                let cut1 = self@[node as int].var.0 as int;
                assert(cut0 < cut1);
                assert(cut1 <= nn) by {
                    if node >= 2 {
                        assert(node_ok(self@, n, node as int));
                    }
                }
                assert(node >= 1) by {
                    if go_low {
                        assert(self@[node0].low_link.0 != self@[node0].high_link.0);
                    }
                }
                assert(forall|v2: int|
                    0 <= v2 < nn && v2 != cut0 ==> tc1[v2] == tc0[v2] && val_of(path@, v2)
                        == val_of(path0, v2));
                assert(tc1[cut0] == !go_low);
                assert(forall|w2: int| cut1 <= w2 ==> val_of(path@, w2) is None);
                assert forall|m: Seq<bool>|
                    m.len() == nn && #[trigger] cube_matches(path@, m) implies self.sem(m)
                        == eval_ptr(self@, node as int, m) by {
                    lemma_cube_matches_sub(path0, path@, m);
                    assert(cube_matches(path0, m));
                    assert(self.sem(m) == eval_ptr(self@, node0, m));
                    assert(val_of(path@, cut0) == Some(!go_low));
                    assert(m[cut0] == !go_low);
                }
                assert forall|m: Seq<bool>|
                    m.len() == nn && (forall|w2: int| 0 <= w2 < cut1 ==> m[w2] == tc1[w2]) implies
                    #[trigger] self.sem(m) == eval_ptr(self@, node as int, m) by {
                    assert(forall|w2: int| 0 <= w2 < cut0 ==> m[w2] == tc0[w2]);
                    assert(self.sem(m) == eval_ptr(self@, node0, m));
                    assert(m[cut0] == tc1[cut0]);
                }
                assert forall|m: Seq<bool>| m.len() == nn && #[trigger] self.sem(m) implies
                    lex_ge_upto(tc1, m, cut1) by {
                    assert(lex_ge_upto(tc0, m, cut0));
                    if lex_gt_upto(tc0, m, cut0) {
                        let k = choose|k: int|
                            0 <= k < cut0 && tc0[k] && !m[k] && (forall|i: int|
                                0 <= i < k ==> tc0[i] == m[i]);
                        assert(tc1[k] && !m[k] && (forall|i: int| 0 <= i < k ==> tc1[i] == m[i]));
                        assert(lex_gt_upto(tc1, m, cut1));
                    } else {
                        assert(self.sem(m) == eval_ptr(self@, node0, m));
                        if go_low {
                            if m[cut0] {
                                assert(eval_ptr(self@, node0, m) == eval_ptr(self@, 0, m));
                                assert(false);
                            }
                            assert(m[cut0] == tc1[cut0]);
                        }
                        if !go_low && !m[cut0] {
                            assert(tc1[cut0] && !m[cut0] && (forall|i: int|
                                0 <= i < cut0 ==> tc1[i] == m[i]));
                            assert(lex_gt_upto(tc1, m, cut1));
                        } else {
                            if forall|w2: int| 0 <= w2 < cut1 ==> tc1[w2] == m[w2] {
                            } else {
                                lemma_first_diff(tc1, m, cut1);
                                let k = choose|k: int|
                                    0 <= k < cut1 && tc1[k] != m[k] && (forall|i: int|
                                        0 <= i < k ==> tc1[i] == m[i]);
                                assert(k > cut0);
                                assert(val_of(path@, k) is None);
                                assert(tc1[k] && !m[k]);
                                assert(lex_gt_upto(tc1, m, cut1));
                            }
                        }
                    }
                }
            }
        }
        proof {
            assert(node == 1);
            assert(self@[1].var.0 == n);
            let tc = true_completion(path@, n);
            assert forall|w: int|
                0 <= w < n as int && val_of(path@, w) is Some implies #[trigger] tc[w] == (val_of(
                path@,
                w,
            ) == Some(true)) by {
                let entry = val_of(path@, w);
                assert(tc[w] == (entry != Some(false)));
                if entry == Some(true) {
                } else {
                    assert(entry == Some(false));
                }
            }
            lemma_completion_matches(path@, n, tc);
            assert(cube_matches(path@, tc));
            assert(self.sem(tc)) by {
                assert(self.sem(tc) == eval_ptr(self@, 1, tc));
            }
        }
        Some(path)
    }
}


/// The number of `true` entries of `m` at positions `from` and above.
pub open spec fn cnt_true(m: Seq<bool>, from: int) -> int
    decreases m.len() - from,
{
    if from < 0 || from >= m.len() {
        0
    } else {
        (if m[from] {
            1int
        } else {
            0
        }) + cnt_true(m, from + 1)
    }
}

/// The number of `false` entries of `m` at positions `from` and above.
pub open spec fn cnt_false(m: Seq<bool>, from: int) -> int
    decreases m.len() - from,
{
    if from < 0 || from >= m.len() {
        0
    } else {
        (if m[from] {
            0int
        } else {
            1
        }) + cnt_false(m, from + 1)
    }
}

/// The largest number of `true` assignments, at the tested variable and
/// above, over the models of the function at position `p`.
pub open spec fn best_pos(nodes: Seq<BddNode>, p: int) -> int
    decreases p,
{
    if p <= 1 || p >= nodes.len() {
        0
    } else {
        let nd = nodes[p];
        let v = nd.var.0 as int;
        let lo = nd.low_link.0 as int;
        let hi = nd.high_link.0 as int;
        if 0 <= lo < p && 0 <= hi < p {
            let bl = best_pos(nodes, lo) + nodes[lo].var.0 - v - 1;
            let bh = best_pos(nodes, hi) + nodes[hi].var.0 - v - 1 + 1;
            if lo == 0 {
                bh
            } else if hi == 0 {
                bl
            } else if bh > bl {
                bh
            } else {
                bl
            }
        } else {
            0
        }
    }
}

/// The branch that attains `best_pos` (`true` for the high successor);
/// ties go to the low successor, which keeps the result lexicographically
/// first.
pub open spec fn best_pos_dir(nodes: Seq<BddNode>, p: int) -> bool {
    let nd = nodes[p];
    let v = nd.var.0 as int;
    let lo = nd.low_link.0 as int;
    let hi = nd.high_link.0 as int;
    let bl = best_pos(nodes, lo) + nodes[lo].var.0 - v - 1;
    let bh = best_pos(nodes, hi) + nodes[hi].var.0 - v - 1 + 1;
    if lo == 0 {
        true
    } else if hi == 0 {
        false
    } else {
        bh > bl
    }
}

/// The largest number of `false` assignments, at the tested variable and
/// above, over the models of the function at position `p`.
pub open spec fn best_neg(nodes: Seq<BddNode>, p: int) -> int
    decreases p,
{
    if p <= 1 || p >= nodes.len() {
        0
    } else {
        let nd = nodes[p];
        let v = nd.var.0 as int;
        let lo = nd.low_link.0 as int;
        let hi = nd.high_link.0 as int;
        if 0 <= lo < p && 0 <= hi < p {
            let bl = best_neg(nodes, lo) + nodes[lo].var.0 - v - 1 + 1;
            let bh = best_neg(nodes, hi) + nodes[hi].var.0 - v - 1;
            if lo == 0 {
                bh
            } else if hi == 0 {
                bl
            } else if bh > bl {
                bh
            } else {
                bl
            }
        } else {
            0
        }
    }
}

/// The branch that attains `best_neg`; ties go to the low successor.
pub open spec fn best_neg_dir(nodes: Seq<BddNode>, p: int) -> bool {
    let nd = nodes[p];
    let v = nd.var.0 as int;
    let lo = nd.low_link.0 as int;
    let hi = nd.high_link.0 as int;
    let bl = best_neg(nodes, lo) + nodes[lo].var.0 - v - 1 + 1;
    let bh = best_neg(nodes, hi) + nodes[hi].var.0 - v - 1;
    if lo == 0 {
        true
    } else if hi == 0 {
        false
    } else {
        bh > bl
    }
}

/// Counting from an earlier position adds at most the window in between,
/// and at least nothing.
proof fn lemma_cnt_true_range(m: Seq<bool>, a: int, b: int)
    requires
        0 <= a <= b <= m.len(),
    ensures
        cnt_true(m, b) <= cnt_true(m, a) <= (b - a) + cnt_true(m, b),
    decreases b - a,
{
    if a < b {
        lemma_cnt_true_range(m, a + 1, b);
    }
}

proof fn lemma_cnt_false_range(m: Seq<bool>, a: int, b: int)
    requires
        0 <= a <= b <= m.len(),
    ensures
        cnt_false(m, b) <= cnt_false(m, a) <= (b - a) + cnt_false(m, b),
    decreases b - a,
{
    if a < b {
        lemma_cnt_false_range(m, a + 1, b);
    }
}

/// Clearing a `true` position removes exactly one from every count that
/// covers it.
proof fn lemma_cnt_true_clear(m: Seq<bool>, w: int, a: int)
    requires
        0 <= w < m.len(),
        m[w],
        0 <= a <= m.len(),
    ensures
        cnt_true(m.update(w, false), a) == cnt_true(m, a) - (if a <= w {
            1int
        } else {
            0
        }),
    decreases m.len() - a,
{
    if a < m.len() {
        lemma_cnt_true_clear(m, w, a + 1);
    }
}

/// Setting a `false` position removes exactly one from every `false` count
/// that covers it.
proof fn lemma_cnt_false_set(m: Seq<bool>, w: int, a: int)
    requires
        0 <= w < m.len(),
        !m[w],
        0 <= a <= m.len(),
    ensures
        cnt_false(m.update(w, true), a) == cnt_false(m, a) - (if a <= w {
            1int
        } else {
            0
        }),
    decreases m.len() - a,
{
    if a < m.len() {
        lemma_cnt_false_set(m, w, a + 1);
    }
}

proof fn lemma_cnt_true_constant(m: Seq<bool>, a: int, value: bool)
    requires
        0 <= a <= m.len(),
        forall|w: int| 0 <= w < m.len() ==> m[w] == value,
    ensures
        cnt_true(m, a) == if value {
            m.len() - a
        } else {
            0
        },
        cnt_false(m, a) == if value {
            0
        } else {
            m.len() - a
        },
    decreases m.len() - a,
{
    if a < m.len() {
        lemma_cnt_true_constant(m, a + 1, value);
    }
}


/// A count that meets the window bound exactly pins every window position.
proof fn lemma_cnt_true_window_full(m: Seq<bool>, a: int, b: int)
    requires
        0 <= a <= b <= m.len(),
        cnt_true(m, a) == (b - a) + cnt_true(m, b),
    ensures
        forall|w: int| a <= w < b ==> m[w],
    decreases b - a,
{
    if a < b {
        lemma_cnt_true_range(m, a + 1, b);
        assert(m[a]);
        lemma_cnt_true_window_full(m, a + 1, b);
    }
}

proof fn lemma_cnt_false_window_full(m: Seq<bool>, a: int, b: int)
    requires
        0 <= a <= b <= m.len(),
        cnt_false(m, a) == (b - a) + cnt_false(m, b),
    ensures
        forall|w: int| a <= w < b ==> !m[w],
    decreases b - a,
{
    if a < b {
        lemma_cnt_false_range(m, a + 1, b);
        assert(!m[a]);
        lemma_cnt_false_window_full(m, a + 1, b);
    }
}

/// Sequences that agree on a window contribute the same counts over it.
proof fn lemma_cnt_agree(m: Seq<bool>, v: Seq<bool>, a: int, b: int)
    requires
        0 <= a <= b,
        b <= m.len(),
        b <= v.len(),
        m.len() == v.len(),
        forall|w: int| a <= w < b ==> m[w] == v[w],
    ensures
        cnt_true(m, a) - cnt_true(m, b) == cnt_true(v, a) - cnt_true(v, b),
        cnt_false(m, a) - cnt_false(m, b) == cnt_false(v, a) - cnt_false(v, b),
    decreases b - a,
{
    if a < b {
        lemma_cnt_agree(m, v, a + 1, b);
    }
}

/// The count over an all-`true` (or all-`false`) tail is its length.
proof fn lemma_cnt_tail(m: Seq<bool>, a: int, value: bool)
    requires
        0 <= a <= m.len(),
        forall|w: int| a <= w < m.len() ==> m[w] == value,
    ensures
        cnt_true(m, a) == if value {
            m.len() - a
        } else {
            0
        },
        cnt_false(m, a) == if value {
            0
        } else {
            m.len() - a
        },
    decreases m.len() - a,
{
    if a < m.len() {
        lemma_cnt_tail(m, a + 1, value);
    }
}

/// The best counts stay within the room the variable order leaves, and
/// never drop below zero.
proof fn lemma_best_bounds(nodes: Seq<BddNode>, p: int)
    requires
        wf(nodes),
        0 <= p < nodes.len(),
    ensures
        0 <= best_pos(nodes, p),
        best_pos(nodes, p) + nodes[p].var.0 as int <= nvars_of(nodes) as int,
        0 <= best_neg(nodes, p),
        best_neg(nodes, p) + nodes[p].var.0 as int <= nvars_of(nodes) as int,
    decreases p,
{
    let n = nvars_of(nodes);
    if p <= 1 {
    } else {
        assert(node_ok(nodes, n, p));
        let nd = nodes[p];
        lemma_best_bounds(nodes, nd.low_link.0 as int);
        lemma_best_bounds(nodes, nd.high_link.0 as int);
    }
}

/// No model of the function at `p` assigns more `true` values, from the
/// tested variable on, than `best_pos` allows.
proof fn lemma_best_pos_upper(nodes: Seq<BddNode>, p: int, m: Seq<bool>)
    requires
        wf(nodes),
        0 <= p < nodes.len(),
        m.len() == nvars_of(nodes) as int,
        eval_ptr(nodes, p, m),
    ensures
        cnt_true(m, nodes[p].var.0 as int) <= best_pos(nodes, p),
    decreases p,
{
    let n = nvars_of(nodes);
    if p <= 1 {
        assert(nodes[p].var.0 == n);
    } else {
        assert(node_ok(nodes, n, p));
        let nd = nodes[p];
        let v = nd.var.0 as int;
        let lo = nd.low_link.0 as int;
        let hi = nd.high_link.0 as int;
        if m[v] {
            assert(eval_ptr(nodes, hi, m));
            assert(hi != 0) by {
                if hi == 0 {
                    assert(!eval_ptr(nodes, 0, m));
                }
            }
            lemma_best_pos_upper(nodes, hi, m);
            lemma_cnt_true_range(m, v + 1, nodes[hi].var.0 as int);
        } else {
            assert(eval_ptr(nodes, lo, m));
            assert(lo != 0) by {
                if lo == 0 {
                    assert(!eval_ptr(nodes, 0, m));
                }
            }
            lemma_best_pos_upper(nodes, lo, m);
            lemma_cnt_true_range(m, v + 1, nodes[lo].var.0 as int);
        }
    }
}

/// No model of the function at `p` assigns more `false` values, from the
/// tested variable on, than `best_neg` allows.
proof fn lemma_best_neg_upper(nodes: Seq<BddNode>, p: int, m: Seq<bool>)
    requires
        wf(nodes),
        0 <= p < nodes.len(),
        m.len() == nvars_of(nodes) as int,
        eval_ptr(nodes, p, m),
    ensures
        cnt_false(m, nodes[p].var.0 as int) <= best_neg(nodes, p),
    decreases p,
{
    let n = nvars_of(nodes);
    if p <= 1 {
        assert(nodes[p].var.0 == n);
    } else {
        assert(node_ok(nodes, n, p));
        let nd = nodes[p];
        let v = nd.var.0 as int;
        let lo = nd.low_link.0 as int;
        let hi = nd.high_link.0 as int;
        if m[v] {
            assert(eval_ptr(nodes, hi, m));
            assert(hi != 0) by {
                if hi == 0 {
                    assert(!eval_ptr(nodes, 0, m));
                }
            }
            lemma_best_neg_upper(nodes, hi, m);
            lemma_cnt_false_range(m, v + 1, nodes[hi].var.0 as int);
        } else {
            assert(eval_ptr(nodes, lo, m));
            assert(lo != 0) by {
                if lo == 0 {
                    assert(!eval_ptr(nodes, 0, m));
                }
            }
            lemma_best_neg_upper(nodes, lo, m);
            lemma_cnt_false_range(m, v + 1, nodes[lo].var.0 as int);
        }
    }
}

impl Bdd {
    /// A satisfying valuation with the greatest number of `true`
    /// assignments, found by dynamic programming over the packed array
    /// (children precede their parents) and a walk along the recorded
    /// directions. Ties go to the lexicographically first maximizer,
    /// variable 0 most significant. `None` exactly for the `false`
    /// diagram.
    #[verifier::rlimit(100)]
    #[verifier::spinoff_prover]
    pub fn most_positive_valuation(&self) -> (r: Option<BddValuation>)
        requires
            self.inv(),
        ensures
            match r {
                None => self@.len() == 1,
                Some(val) => {
                    &&& self@.len() >= 2
                    &&& val@.len() == self.nv() as int
                    &&& self.sem(val@)
                    &&& forall|m: Seq<bool>|
                        m.len() == self.nv() as int && #[trigger] self.sem(m) ==> cnt_true(m, 0)
                            <= cnt_true(val@, 0)
                    &&& forall|m: Seq<bool>|
                        m.len() == self.nv() as int && #[trigger] self.sem(m) && cnt_true(m, 0)
                            == cnt_true(val@, 0) ==> lex_le_upto(val@, m, self.nv() as int)
                },
            },
    {
        if self.0.len() == 1 {
            return None;
        }
        let n = self.num_vars();
        let ghost nn = n as int;
        let mut cache: Vec<(u16, bool)> = Vec::new();
        cache.push((0, true));
        cache.push((0, true));
        let mut i: usize = 2;
        while i < self.0.len()
            invariant
                self.inv(),
                n == self.nv(),
                2 <= i <= self@.len(),
                cache@.len() == i,
                forall|j: int|
                    2 <= j < i ==> ((#[trigger] cache@[j]).0 as int) == best_pos(self@, j)
                        && cache@[j].1 == best_pos_dir(self@, j),
            decreases self@.len() - i,
        {
            let nd = self.0[i];
            let v = nd.var.0;
            let lo = nd.low_link.0 as usize;
            let hi = nd.high_link.0 as usize;
            proof {
                assert(node_ok(self@, n, i as int));
                lemma_best_bounds(self@, lo as int);
                lemma_best_bounds(self@, hi as int);
            }
            let low_base: u16 = if lo < 2 {
                0
            } else {
                cache[lo].0
            };
            let high_base: u16 = if hi < 2 {
                0
            } else {
                cache[hi].0
            };
            let low_diff: u16 = low_base + (self.0[lo].var.0 - v - 1);
            let high_diff: u16 = high_base + (self.0[hi].var.0 - v - 1);
            let entry: (u16, bool) = if lo == 0 {
                (high_diff + 1, true)
            } else if hi == 0 {
                (low_diff, false)
            } else if high_diff + 1 > low_diff {
                (high_diff + 1, true)
            } else {
                (low_diff, false)
            };
            cache.push(entry);
            proof {
                assert((low_base as int) == best_pos(self@, lo as int));
                assert((high_base as int) == best_pos(self@, hi as int));
                assert((cache@[i as int].0 as int) == best_pos(self@, i as int));
                assert(cache@[i as int].1 == best_pos_dir(self@, i as int));
            }
            i = i + 1;
        }
        let mut val = BddValuation::all_true(n);
        let mut node: u32 = (self.0.len() - 1) as u32;
        let ghost root = node as int;
        let ghost target = self@[root].var.0 as int + best_pos(self@, root);
        proof {
            lemma_cnt_true_constant(val@, 0, true);
            if node >= 2 {
                assert(node_ok(self@, n, root));
            }
            let cut = self@[root].var.0 as int;
            assert(cut <= nn);
            // A maximizer fills everything below the root's variable, so it
            // starts out agreeing with the all-true valuation.
            assert forall|m: Seq<bool>|
                m.len() == nn && #[trigger] self.sem(m) && cnt_true(m, 0) == target implies
                lex_le_upto(val@, m, cut) by {
                lemma_best_pos_upper(self@, root, m);
                lemma_cnt_true_range(m, 0, cut);
                assert(cnt_true(m, 0) == cut + cnt_true(m, cut));
                lemma_cnt_true_window_full(m, 0, cut);
            }
        }
        while node >= 2
            invariant
                self.inv(),
                n == self.nv(),
                nn == n as int,
                1 <= (node as int) < self@.len(),
                val@.len() == nn,
                cache@.len() == self@.len(),
                forall|j: int|
                    2 <= j < self@.len() ==> ((#[trigger] cache@[j]).0 as int) == best_pos(
                        self@,
                        j,
                    ) && cache@[j].1 == best_pos_dir(self@, j),
                forall|w: int| self@[node as int].var.0 as int <= w < nn ==> val@[w],
                forall|m: Seq<bool>|
                    m.len() == nn && (forall|w: int|
                        0 <= w < self@[node as int].var.0 as int ==> m[w] == val@[w])
                        ==> #[trigger] self.sem(m) == eval_ptr(self@, node as int, m),
                cnt_true(val@, 0) + best_pos(self@, node as int) - (nn
                    - self@[node as int].var.0 as int) == target,
                forall|m: Seq<bool>|
                    m.len() == nn && #[trigger] self.sem(m) && cnt_true(m, 0) == target
                        ==> lex_le_upto(val@, m, self@[node as int].var.0 as int),
            decreases node,
        {
            let ghost val0 = val@;
            let ghost node0 = node as int;
            let ghost cut0 = self@[node as int].var.0 as int;
            proof {
                assert(node_ok(self@, n, node as int));
            }
            let nd = self.0[node as usize];
            let dir = cache[node as usize].1;
            if dir {
                node = nd.high_link.0;
            } else {
                val.clear(nd.var);
                node = nd.low_link.0;
            }
            proof {
                let cut1 = self@[node as int].var.0 as int;
                assert(cut0 < cut1);
                assert(cut1 <= nn) by {
                    if node >= 2 {
                        assert(node_ok(self@, n, node as int));
                    }
                }
                assert(dir == best_pos_dir(self@, node0));
                assert(node >= 1) by {
                    if dir {
                    } else {
                    }
                }
                if dir {
                    assert(best_pos(self@, node0) == best_pos(self@, node as int) + cut1 - cut0
                        - 1 + 1);
                } else {
                    assert(best_pos(self@, node0) == best_pos(self@, node as int) + cut1 - cut0
                        - 1);
                    lemma_cnt_true_clear(val0, cut0, 0);
                    assert(val@ == val0.update(cut0, false));
                    assert(cnt_true(val@, 0) == cnt_true(val0, 0) - 1);
                }
                assert forall|m: Seq<bool>|
                    m.len() == nn && (forall|w2: int| 0 <= w2 < cut1 ==> m[w2] == val@[w2]) implies
                    #[trigger] self.sem(m) == eval_ptr(self@, node as int, m) by {
                    assert(forall|w2: int| 0 <= w2 < cut0 ==> m[w2] == val0[w2]);
                    assert(self.sem(m) == eval_ptr(self@, node0, m));
                    assert(m[cut0] == val@[cut0]);
                }
                // A maximizer follows the recorded direction and fills the
                // skipped window, so it stays level with the walk.
                let lo0 = self@[node0].low_link.0 as int;
                let hi0 = self@[node0].high_link.0 as int;
                assert forall|m: Seq<bool>|
                    m.len() == nn && #[trigger] self.sem(m) && cnt_true(m, 0) == target implies
                    lex_le_upto(val@, m, cut1) by {
                    assert(lex_le_upto(val0, m, cut0));
                    if lex_lt_upto(val0, m, cut0) {
                        let k = choose|k: int|
                            0 <= k < cut0 && !val0[k] && m[k] && (forall|i2: int|
                                0 <= i2 < k ==> val0[i2] == m[i2]);
                        assert(!val@[k] && m[k] && (forall|i2: int|
                            0 <= i2 < k ==> val@[i2] == m[i2]));
                        assert(lex_lt_upto(val@, m, cut1));
                    } else {
                        assert(self.sem(m) == eval_ptr(self@, node0, m));
                        lemma_cnt_tail(val0, cut0, true);
                        lemma_cnt_agree(m, val0, 0, cut0);
                        assert(cnt_true(m, cut0) == best_pos(self@, node0));
                        if dir {
                            if !m[cut0] {
                                assert(eval_ptr(self@, node0, m) == eval_ptr(self@, lo0, m));
                                assert(lo0 != 0);
                                lemma_best_pos_upper(self@, lo0, m);
                                lemma_cnt_true_range(m, cut0 + 1, self@[lo0].var.0 as int);
                                assert(false);
                            }
                            assert(eval_ptr(self@, node0, m) == eval_ptr(self@, hi0, m));
                            lemma_best_pos_upper(self@, hi0, m);
                            lemma_cnt_true_range(m, cut0 + 1, cut1);
                            assert(cnt_true(m, cut0 + 1) == (cut1 - cut0 - 1) + cnt_true(
                                m,
                                cut1,
                            ));
                            lemma_cnt_true_window_full(m, cut0 + 1, cut1);
                            assert(forall|w2: int| 0 <= w2 < cut1 ==> val@[w2] == m[w2]);
                        } else {
                            if m[cut0] {
                                assert(!val@[cut0] && m[cut0] && (forall|i2: int|
                                    0 <= i2 < cut0 ==> val@[i2] == m[i2]));
                                assert(lex_lt_upto(val@, m, cut1));
                            } else {
                                assert(eval_ptr(self@, node0, m) == eval_ptr(self@, lo0, m));
                                lemma_best_pos_upper(self@, lo0, m);
                                lemma_cnt_true_range(m, cut0 + 1, cut1);
                                assert(cnt_true(m, cut0 + 1) == (cut1 - cut0 - 1) + cnt_true(
                                    m,
                                    cut1,
                                ));
                                lemma_cnt_true_window_full(m, cut0 + 1, cut1);
                                assert(forall|w2: int| 0 <= w2 < cut1 ==> val@[w2] == m[w2]);
                            }
                        }
                    }
                }
            }
        }
        proof {
            assert(node == 1);
            assert(self@[1].var.0 as int == nn);
            assert(self.sem(val@)) by {
                assert(self.sem(val@) == eval_ptr(self@, 1, val@));
            }
            assert(cnt_true(val@, 0) == target);
            assert forall|m: Seq<bool>| m.len() == nn && #[trigger] self.sem(m) implies cnt_true(
                m,
                0,
            ) <= cnt_true(val@, 0) by {
                lemma_cnt_true_range(m, 0, self@[root].var.0 as int);
                lemma_best_pos_upper(self@, root, m);
            }
        }
        Some(val)
    }

    /// A satisfying valuation with the greatest number of `false`
    /// assignments, the mirror of `most_positive_valuation`; ties again go
    /// to the lexicographically first such valuation. `None` exactly for
    /// the `false` diagram.
    #[verifier::rlimit(100)]
    #[verifier::spinoff_prover]
    pub fn most_negative_valuation(&self) -> (r: Option<BddValuation>)
        requires
            self.inv(),
        ensures
            match r {
                None => self@.len() == 1,
                Some(val) => {
                    &&& self@.len() >= 2
                    &&& val@.len() == self.nv() as int
                    &&& self.sem(val@)
                    &&& forall|m: Seq<bool>|
                        m.len() == self.nv() as int && #[trigger] self.sem(m) ==> cnt_true(val@, 0)
                            <= cnt_true(m, 0)
                    &&& forall|m: Seq<bool>|
                        m.len() == self.nv() as int && #[trigger] self.sem(m) && cnt_true(m, 0)
                            == cnt_true(val@, 0) ==> lex_le_upto(val@, m, self.nv() as int)
                },
            },
    {
        if self.0.len() == 1 {
            return None;
        }
        let n = self.num_vars();
        let ghost nn = n as int;
        let mut cache: Vec<(u16, bool)> = Vec::new();
        cache.push((0, true));
        cache.push((0, true));
        let mut i: usize = 2;
        while i < self.0.len()
            invariant
                self.inv(),
                n == self.nv(),
                2 <= i <= self@.len(),
                cache@.len() == i,
                forall|j: int|
                    2 <= j < i ==> ((#[trigger] cache@[j]).0 as int) == best_neg(self@, j)
                        && cache@[j].1 == best_neg_dir(self@, j),
            decreases self@.len() - i,
        {
            let nd = self.0[i];
            let v = nd.var.0;
            let lo = nd.low_link.0 as usize;
            let hi = nd.high_link.0 as usize;
            proof {
                assert(node_ok(self@, n, i as int));
                lemma_best_bounds(self@, lo as int);
                lemma_best_bounds(self@, hi as int);
            }
            let low_base: u16 = if lo < 2 {
                0
            } else {
                cache[lo].0
            };
            let high_base: u16 = if hi < 2 {
                0
            } else {
                cache[hi].0
            };
            let low_diff: u16 = low_base + (self.0[lo].var.0 - v - 1);
            let high_diff: u16 = high_base + (self.0[hi].var.0 - v - 1);
            let entry: (u16, bool) = if lo == 0 {
                (high_diff, true)
            } else if hi == 0 {
                (low_diff + 1, false)
            } else if high_diff > low_diff + 1 {
                (high_diff, true)
            } else {
                (low_diff + 1, false)
            };
            cache.push(entry);
            proof {
                assert((low_base as int) == best_neg(self@, lo as int));
                assert((high_base as int) == best_neg(self@, hi as int));
                assert((cache@[i as int].0 as int) == best_neg(self@, i as int));
                assert(cache@[i as int].1 == best_neg_dir(self@, i as int));
            }
            i = i + 1;
        }
        let mut val = BddValuation::all_false(n);
        let mut node: u32 = (self.0.len() - 1) as u32;
        let ghost root = node as int;
        let ghost target = self@[root].var.0 as int + best_neg(self@, root);
        proof {
            lemma_cnt_true_constant(val@, 0, false);
            if node >= 2 {
                assert(node_ok(self@, n, root));
            }
            let cut = self@[root].var.0 as int;
            assert(cut <= nn);
            // A minimizer clears everything below the root's variable, so
            // it starts out agreeing with the all-false valuation.
            assert forall|m: Seq<bool>|
                m.len() == nn && #[trigger] self.sem(m) && cnt_false(m, 0) == target implies
                lex_le_upto(val@, m, cut) by {
                lemma_best_neg_upper(self@, root, m);
                lemma_cnt_false_range(m, 0, cut);
                assert(cnt_false(m, 0) == cut + cnt_false(m, cut));
                lemma_cnt_false_window_full(m, 0, cut);
            }
        }
        while node >= 2
            invariant
                self.inv(),
                n == self.nv(),
                nn == n as int,
                1 <= (node as int) < self@.len(),
                val@.len() == nn,
                cache@.len() == self@.len(),
                forall|j: int|
                    2 <= j < self@.len() ==> ((#[trigger] cache@[j]).0 as int) == best_neg(
                        self@,
                        j,
                    ) && cache@[j].1 == best_neg_dir(self@, j),
                forall|w: int| self@[node as int].var.0 as int <= w < nn ==> !val@[w],
                forall|m: Seq<bool>|
                    m.len() == nn && (forall|w: int|
                        0 <= w < self@[node as int].var.0 as int ==> m[w] == val@[w])
                        ==> #[trigger] self.sem(m) == eval_ptr(self@, node as int, m),
                cnt_false(val@, 0) + best_neg(self@, node as int) - (nn
                    - self@[node as int].var.0 as int) == target,
                forall|m: Seq<bool>|
                    m.len() == nn && #[trigger] self.sem(m) && cnt_false(m, 0) == target
                        ==> lex_le_upto(val@, m, self@[node as int].var.0 as int),
            decreases node,
        {
            let ghost val0 = val@;
            let ghost node0 = node as int;
            let ghost cut0 = self@[node as int].var.0 as int;
            proof {
                assert(node_ok(self@, n, node as int));
            }
            let nd = self.0[node as usize];
            let dir = cache[node as usize].1;
            if dir {
                val.set(nd.var);
                node = nd.high_link.0;
            } else {
                node = nd.low_link.0;
            }
            proof {
                let cut1 = self@[node as int].var.0 as int;
                assert(cut0 < cut1);
                assert(cut1 <= nn) by {
                    if node >= 2 {
                        assert(node_ok(self@, n, node as int));
                    }
                }
                assert(dir == best_neg_dir(self@, node0));
                assert(node >= 1) by {
                    if dir {
                    } else {
                    }
                }
                if dir {
                    assert(best_neg(self@, node0) == best_neg(self@, node as int) + cut1 - cut0
                        - 1);
                    lemma_cnt_false_set(val0, cut0, 0);
                    assert(val@ == val0.update(cut0, true));
                    assert(cnt_false(val@, 0) == cnt_false(val0, 0) - 1);
                } else {
                    assert(best_neg(self@, node0) == best_neg(self@, node as int) + cut1 - cut0
                        - 1 + 1);
                }
                assert forall|m: Seq<bool>|
                    m.len() == nn && (forall|w2: int| 0 <= w2 < cut1 ==> m[w2] == val@[w2]) implies
                    #[trigger] self.sem(m) == eval_ptr(self@, node as int, m) by {
                    assert(forall|w2: int| 0 <= w2 < cut0 ==> m[w2] == val0[w2]);
                    assert(self.sem(m) == eval_ptr(self@, node0, m));
                    assert(m[cut0] == val@[cut0]);
                }
                // A minimizer follows the recorded direction and clears
                // the skipped window, so it stays level with the walk.
                let lo0 = self@[node0].low_link.0 as int;
                let hi0 = self@[node0].high_link.0 as int;
                assert forall|m: Seq<bool>|
                    m.len() == nn && #[trigger] self.sem(m) && cnt_false(m, 0) == target implies
                    lex_le_upto(val@, m, cut1) by {
                    assert(lex_le_upto(val0, m, cut0));
                    if lex_lt_upto(val0, m, cut0) {
                        let k = choose|k: int|
                            0 <= k < cut0 && !val0[k] && m[k] && (forall|i2: int|
                                0 <= i2 < k ==> val0[i2] == m[i2]);
                        assert(!val@[k] && m[k] && (forall|i2: int|
                            0 <= i2 < k ==> val@[i2] == m[i2]));
                        assert(lex_lt_upto(val@, m, cut1));
                    } else {
                        assert(self.sem(m) == eval_ptr(self@, node0, m));
                        lemma_cnt_tail(val0, cut0, false);
                        lemma_cnt_agree(m, val0, 0, cut0);
                        assert(cnt_false(m, cut0) == best_neg(self@, node0));
                        if dir {
                            if !m[cut0] {
                                assert(eval_ptr(self@, node0, m) == eval_ptr(self@, lo0, m));
                                assert(lo0 != 0);
                                lemma_best_neg_upper(self@, lo0, m);
                                lemma_cnt_false_range(m, cut0 + 1, self@[lo0].var.0 as int);
                                assert(false);
                            }
                            assert(eval_ptr(self@, node0, m) == eval_ptr(self@, hi0, m));
                            lemma_best_neg_upper(self@, hi0, m);
                            lemma_cnt_false_range(m, cut0 + 1, cut1);
                            assert(cnt_false(m, cut0 + 1) == (cut1 - cut0 - 1) + cnt_false(
                                m,
                                cut1,
                            ));
                            lemma_cnt_false_window_full(m, cut0 + 1, cut1);
                            assert(forall|w2: int| 0 <= w2 < cut1 ==> val@[w2] == m[w2]);
                        } else {
                            if m[cut0] {
                                assert(!val@[cut0] && m[cut0] && (forall|i2: int|
                                    0 <= i2 < cut0 ==> val@[i2] == m[i2]));
                                assert(lex_lt_upto(val@, m, cut1));
                            } else {
                                assert(eval_ptr(self@, node0, m) == eval_ptr(self@, lo0, m));
                                lemma_best_neg_upper(self@, lo0, m);
                                lemma_cnt_false_range(m, cut0 + 1, cut1);
                                assert(cnt_false(m, cut0 + 1) == (cut1 - cut0 - 1) + cnt_false(
                                    m,
                                    cut1,
                                ));
                                lemma_cnt_false_window_full(m, cut0 + 1, cut1);
                                assert(forall|w2: int| 0 <= w2 < cut1 ==> val@[w2] == m[w2]);
                            }
                        }
                    }
                }
            }
        }
        proof {
            assert(node == 1);
            assert(self@[1].var.0 as int == nn);
            assert(self.sem(val@)) by {
                assert(self.sem(val@) == eval_ptr(self@, 1, val@));
            }
            assert(cnt_false(val@, 0) == target);
            assert forall|m: Seq<bool>| m.len() == nn && #[trigger] self.sem(m) implies cnt_true(
                val@,
                0,
            ) <= cnt_true(m, 0) by {
                lemma_cnt_false_range(m, 0, self@[root].var.0 as int);
                lemma_best_neg_upper(self@, root, m);
                assert(cnt_false(m, 0) <= cnt_false(val@, 0));
                // Trading `false` counts for `true` counts over the fixed
                // length.
                lemma_cnt_sum(m, 0);
                lemma_cnt_sum(val@, 0);
            }
            // Popcount ties are exactly `false`-count ties.
            assert forall|m: Seq<bool>|
                m.len() == nn && #[trigger] self.sem(m) && cnt_true(m, 0) == cnt_true(val@, 0)
                    implies lex_le_upto(val@, m, nn) by {
                lemma_cnt_sum(m, 0);
                lemma_cnt_sum(val@, 0);
                assert(cnt_false(m, 0) == target);
            }
        }
        Some(val)
    }
}

/// `true` and `false` counts partition the positions.
proof fn lemma_cnt_sum(m: Seq<bool>, a: int)
    requires
        0 <= a <= m.len(),
    ensures
        cnt_true(m, a) + cnt_false(m, a) == m.len() - a,
    decreases m.len() - a,
{
    if a < m.len() {
        lemma_cnt_sum(m, a + 1);
    }
}

} // verus!
