//! Relational operators: selection, existential projection and witness
//! picking, together with their iterated and randomized forms.

use vstd::prelude::*;

use crate::{Bdd, BddError, BddNode, BddVariable};

verus! {

/// Whether `m` satisfies every `(variable, value)` constraint among the
/// first `k` entries of `pairs`.
pub open spec fn assigns_match_upto(
    pairs: Seq<(BddVariable, bool)>,
    k: int,
    m: Seq<bool>,
) -> bool {
    forall|j: int| 0 <= j < k ==> m[(#[trigger] pairs[j]).0.0 as int] == pairs[j].1
}

/// Whether `m` satisfies every constraint of `pairs`.
pub open spec fn assigns_match(pairs: Seq<(BddVariable, bool)>, m: Seq<bool>) -> bool {
    assigns_match_upto(pairs, pairs.len() as int, m)
}

/// The function left after existentially projecting the first `k` entries
/// of `vs` out of `a`.
pub open spec fn proj_sem_upto(a: Bdd, vs: Seq<BddVariable>, k: int, m: Seq<bool>) -> bool
    decreases k,
{
    if k <= 0 {
        a.sem(m)
    } else {
        proj_sem_upto(a, vs, k - 1, m.update(vs[k - 1].0 as int, false)) || proj_sem_upto(
            a,
            vs,
            k - 1,
            m.update(vs[k - 1].0 as int, true),
        )
    }
}

/// The function left after existentially projecting every entry of `vs`
/// out of `a`.
pub open spec fn proj_sem(a: Bdd, vs: Seq<BddVariable>, m: Seq<bool>) -> bool {
    proj_sem_upto(a, vs, vs.len() as int, m)
}

/// Whether any entry of `vs` at position `k` or later names variable `w`.
pub open spec fn picked_from(vs: Seq<BddVariable>, k: int, w: int) -> bool {
    exists|i: int| k <= i < vs.len() && ((#[trigger] vs[i]).0 as int) == w
}

/// Whether `m2` agrees with `m` at every position not named by an entry of
/// `vs` at position `k` or later.
pub open spec fn agrees_outside(m2: Seq<bool>, m: Seq<bool>, vs: Seq<BddVariable>, k: int) -> bool {
    forall|w: int| 0 <= w < m.len() && !picked_from(vs, k, w) ==> m2[w] == m[w]
}

/// Whether some completion of the entries of `vs` at position `k` or later
/// turns `m` into a model of `f`.
pub open spec fn has_pick_completion(f: Bdd, vs: Seq<BddVariable>, k: int, m: Seq<bool>) -> bool {
    exists|m2: Seq<bool>|
        m2.len() == m.len() && #[trigger] agrees_outside(m2, m, vs, k) && f.sem(m2)
}

/// Introduction form of `has_pick_completion`.
pub proof fn lemma_completion_intro(
    f: Bdd,
    vs: Seq<BddVariable>,
    k: int,
    m: Seq<bool>,
    m2: Seq<bool>,
)
    requires
        m2.len() == m.len(),
        agrees_outside(m2, m, vs, k),
        f.sem(m2),
    ensures
        has_pick_completion(f, vs, k, m),
{
}

/// Elimination form of `has_pick_completion`: hand back one completion.
pub proof fn lemma_completion_elim(f: Bdd, vs: Seq<BddVariable>, k: int, m: Seq<bool>) -> (m2: Seq<
    bool,
>)
    requires
        has_pick_completion(f, vs, k, m),
    ensures
        m2.len() == m.len(),
        agrees_outside(m2, m, vs, k),
        f.sem(m2),
{
    choose|m2: Seq<bool>|
        m2.len() == m.len() && #[trigger] agrees_outside(m2, m, vs, k) && f.sem(m2)
}

/// What one picking step does, as a relation between the diagram before
/// and after it: a model survives unless it carries the dispreferred value
/// of the step's variable while its preferred variant extends, over the
/// still-unpicked entries, to an earlier survivor.
pub open spec fn pick_step_rel(
    prev: Bdd,
    next: Bdd,
    vs: Seq<BddVariable>,
    j: int,
    prefer: bool,
) -> bool {
    forall|m: Seq<bool>|
        m.len() == prev.nv() as int ==> #[trigger] next.sem(m) == (prev.sem(m) && !(
        m[vs[j].0 as int] == !prefer && has_pick_completion(
            prev,
            vs,
            j + 1,
            m.update(vs[j].0 as int, prefer),
        )))
}

/// One picking step keeps the completions over the whole picked list:
/// some completion of `m` survives the step exactly when one survived
/// before it.
pub proof fn lemma_step_preserves_completion(
    prev: Bdd,
    next: Bdd,
    vs: Seq<BddVariable>,
    j: int,
    prefer: bool,
    m: Seq<bool>,
)
    requires
        pick_step_rel(prev, next, vs, j, prefer),
        0 <= j < vs.len(),
        (vs[j].0 as int) < prev.nv() as int,
        !picked_from(vs, j + 1, vs[j].0 as int),
        m.len() == prev.nv() as int,
    ensures
        has_pick_completion(next, vs, 0, m) == has_pick_completion(prev, vs, 0, m),
{
    let v = vs[j].0 as int;
    if has_pick_completion(next, vs, 0, m) {
        let m2 = lemma_completion_elim(next, vs, 0, m);
        assert(prev.sem(m2));
        lemma_completion_intro(prev, vs, 0, m, m2);
    }
    if has_pick_completion(prev, vs, 0, m) {
        let m2 = lemma_completion_elim(prev, vs, 0, m);
        let mp = m2.update(v, prefer);
        assert(picked_from(vs, 0, v));
        assert(agrees_outside(mp, m, vs, 0));
        if prev.sem(mp) {
            // The preferred variant survives the step outright.
            assert(mp[v] == prefer);
            assert(next.sem(mp));
            lemma_completion_intro(next, vs, 0, m, mp);
        } else {
            assert(m2[v] == !prefer) by {
                if m2[v] == prefer {
                    assert(m2.update(v, prefer) =~= m2);
                }
            }
            if has_pick_completion(prev, vs, j + 1, m2.update(v, prefer)) {
                // Some other completion survives with the preferred value;
                // it also survives the step.
                let m4 = lemma_completion_elim(prev, vs, j + 1, m2.update(v, prefer));
                assert(m4[v] == prefer);
                assert(next.sem(m4));
                assert(agrees_outside(m4, m, vs, 0)) by {
                    assert forall|w: int|
                        0 <= w < m.len() && !picked_from(vs, 0, w) implies m4[w] == m[w] by {
                        assert(!picked_from(vs, j + 1, w)) by {
                            if picked_from(vs, j + 1, w) {
                                let t = choose|t: int|
                                    j + 1 <= t < vs.len() && ((#[trigger] vs[t]).0 as int) == w;
                                assert(picked_from(vs, 0, w));
                            }
                        }
                        assert(m4[w] == mp[w]);
                        assert(w != v);
                    }
                }
                lemma_completion_intro(next, vs, 0, m, m4);
            } else {
                // No preferred variant survives, so the witness itself
                // does.
                assert(next.sem(m2));
                lemma_completion_intro(next, vs, 0, m, m2);
            }
        }
    }
}


/// In a pairwise-distinct list, the entry at `j` is not named again later.
proof fn lemma_distinct_not_suffix(vs: Seq<BddVariable>, j: int)
    requires
        0 <= j < vs.len(),
        forall|q: int, q2: int|
            0 <= q2 < q < vs.len() ==> (#[trigger] vs[q2]) != (#[trigger] vs[q]),
    ensures
        !picked_from(vs, j + 1, vs[j].0 as int),
{
    if picked_from(vs, j + 1, vs[j].0 as int) {
        let t = choose|t: int|
            j + 1 <= t < vs.len() && ((#[trigger] vs[t]).0 as int) == vs[j].0 as int;
        assert(vs[j] != vs[t]);
    }
}

/// A model of the last stage of a picking chain is a model of every stage.
proof fn lemma_chain_sound(
    stages: Seq<Bdd>,
    prefs: Seq<bool>,
    vs: Seq<BddVariable>,
    j: int,
    m: Seq<bool>,
)
    requires
        stages.len() == vs.len() + 1,
        prefs.len() == vs.len(),
        forall|t: int|
            0 <= t < vs.len() ==> #[trigger] pick_step_rel(stages[t], stages[t + 1], vs, t, prefs[t]),
        forall|t: int| 0 <= t < stages.len() ==> (#[trigger] stages[t]).nv() == stages[0].nv(),
        0 <= j < stages.len(),
        m.len() == stages[0].nv() as int,
        stages.last().sem(m),
    ensures
        stages[j].sem(m),
    decreases stages.len() - j,
{
    if j < stages.len() - 1 {
        lemma_chain_sound(stages, prefs, vs, j + 1, m);
        assert(pick_step_rel(stages[j], stages[j + 1], vs, j, prefs[j]));
    }
}

/// Two models of the last stage of a picking chain that agree outside the
/// picked variables, and on the first `j` picked variables, are equal.
proof fn lemma_chain_equal_from(
    stages: Seq<Bdd>,
    prefs: Seq<bool>,
    vs: Seq<BddVariable>,
    j: int,
    m1: Seq<bool>,
    m2: Seq<bool>,
)
    requires
        stages.len() == vs.len() + 1,
        prefs.len() == vs.len(),
        forall|t: int|
            0 <= t < vs.len() ==> #[trigger] pick_step_rel(stages[t], stages[t + 1], vs, t, prefs[t]),
        forall|t: int| 0 <= t < stages.len() ==> (#[trigger] stages[t]).nv() == stages[0].nv(),
        forall|t: int| 0 <= t < vs.len() ==> ((#[trigger] vs[t]).0 as int) < stages[0].nv() as int,
        forall|q: int, q2: int|
            0 <= q2 < q < vs.len() ==> (#[trigger] vs[q2]) != (#[trigger] vs[q]),
        m1.len() == stages[0].nv() as int,
        m2.len() == m1.len(),
        stages.last().sem(m1),
        stages.last().sem(m2),
        agrees_outside(m1, m2, vs, 0),
        0 <= j <= vs.len(),
        forall|t: int| 0 <= t < j ==> m1[(#[trigger] vs[t]).0 as int] == m2[vs[t].0 as int],
    ensures
        m1 =~= m2,
    decreases vs.len() - j,
{
    if j == vs.len() {
        assert forall|w: int| 0 <= w < m1.len() implies m1[w] == m2[w] by {
            if picked_from(vs, 0, w) {
                let t = choose|t: int| 0 <= t < vs.len() && ((#[trigger] vs[t]).0 as int) == w;
            }
        }
    } else {
        let v = vs[j].0 as int;
        assert(m1[v] == m2[v]) by {
            lemma_chain_sound(stages, prefs, vs, j + 1, m1);
            lemma_chain_sound(stages, prefs, vs, j + 1, m2);
            lemma_chain_sound(stages, prefs, vs, j, m1);
            lemma_chain_sound(stages, prefs, vs, j, m2);
            assert(pick_step_rel(stages[j], stages[j + 1], vs, j, prefs[j]));
            lemma_distinct_not_suffix(vs, j);
            if m1[v] != m2[v] {
                // One of the two carries the dispreferred value; the other
                // witnesses the completion its survival forbids.
                let (ma, mb) = if m1[v] == !prefs[j] {
                    (m1, m2)
                } else {
                    (m2, m1)
                };
                assert(ma[v] == !prefs[j] && mb[v] == prefs[j]);
                assert(!has_pick_completion(stages[j], vs, j + 1, ma.update(v, prefs[j])));
                assert(agrees_outside(mb, ma.update(v, prefs[j]), vs, j + 1)) by {
                    let mau = ma.update(v, prefs[j]);
                    assert forall|w: int|
                        0 <= w < mau.len() && !picked_from(vs, j + 1, w) implies mb[w]
                        == mau[w] by {
                        if w == v {
                        } else if picked_from(vs, 0, w) {
                            let t = choose|t: int|
                                0 <= t < vs.len() && ((#[trigger] vs[t]).0 as int) == w;
                            assert(t <= j);
                            assert(t < j);
                        }
                    }
                }
                lemma_completion_intro(
                    stages[j],
                    vs,
                    j + 1,
                    ma.update(v, prefs[j]),
                    mb,
                );
                assert(false);
            }
        }
        lemma_chain_equal_from(stages, prefs, vs, j + 1, m1, m2);
    }
}

impl Bdd {
    /// A node-for-node copy of this diagram.
    fn duplicate(&self) -> (r: Bdd)
        ensures
            r@ == self@,
    {
        let mut nodes: Vec<BddNode> = Vec::new();
        let mut i: usize = 0;
        while i < self.0.len()
            invariant
                i <= self@.len(),
                nodes@.len() == i,
                forall|q: int| 0 <= q < i ==> nodes@[q] == self@[q],
            decreases self@.len() - i,
        {
            nodes.push(self.0[i]);
            i = i + 1;
        }
        proof {
            assert(nodes@ =~= self@);
        }
        Bdd(nodes)
    }

    /// Restrict to the models where `var` carries `value`: the conjunction
    /// of this diagram with the literal.
    pub fn var_select(&self, var: BddVariable, value: bool) -> (r: Bdd)
        requires
            self.inv(),
            (var.0 as int) < self.nv() as int,
            self@.len() * 3 + 2 <= u32::MAX as int,
        ensures
            r.inv(),
            r.nv() == self.nv(),
            r@.len() <= 2 + self@.len() * 3,
            forall|m: Seq<bool>|
                m.len() == self.nv() as int ==> #[trigger] r.sem(m) == (self.sem(m) && m[var.0 as int]
                    == value),
    {
        let n = self.num_vars();
        let lit = Bdd::mk_literal(n, var, value);
        self.and(&lit)
    }

    /// Restrict with every `(variable, value)` entry in turn. Reports the
    /// first entry naming a variable outside the universe; reports
    /// exhaustion if an intermediate diagram would leave the pointer range.
    pub fn select(&self, assignments: &[(BddVariable, bool)]) -> (r: Result<Bdd, BddError>)
        requires
            self.inv(),
        ensures
            match r {
                Ok(b) => {
                    &&& b.inv()
                    &&& b.nv() == self.nv()
                    &&& forall|i: int|
                        0 <= i < assignments@.len() ==> ((#[trigger] assignments@[i]).0.0 as int)
                            < self.nv() as int
                    &&& forall|m: Seq<bool>|
                        m.len() == self.nv() as int ==> #[trigger] b.sem(m) == (self.sem(m)
                            && assigns_match(assignments@, m))
                    &&& assignments@.len() == 0 ==> b@ == self@
                },
                Err(BddError::InvalidVariable(v)) => exists|j: int|
                    0 <= j < assignments@.len() && ((#[trigger] assignments@[j]).0.0 as int)
                        >= self.nv() as int && v == assignments@[j].0 && (forall|i: int|
                        0 <= i < j ==> ((#[trigger] assignments@[i]).0.0 as int)
                            < self.nv() as int),
                Err(BddError::TooLarge) => {
                    &&& forall|i: int|
                        0 <= i < assignments@.len() ==> ((#[trigger] assignments@[i]).0.0 as int)
                            < self.nv() as int
                    &&& assignments@.len() > 0
                    &&& assignments@.len() == 1 ==> self@.len() * 3 + 2 > u32::MAX as int
                },
                Err(_) => false,
            },
    {
        let n = self.num_vars();
        let mut j: usize = 0;
        while j < assignments.len()
            invariant
                j <= assignments@.len(),
                n == self.nv(),
                forall|i: int|
                    0 <= i < j ==> ((#[trigger] assignments@[i]).0.0 as int) < n as int,
            decreases assignments@.len() - j,
        {
            if assignments[j].0.0 >= n {
                return Err(BddError::InvalidVariable(assignments[j].0));
            }
            j = j + 1;
        }
        let mut result = self.duplicate();
        let mut i: usize = 0;
        while i < assignments.len()
            invariant
                i <= assignments@.len(),
                self.inv(),
                n == self.nv(),
                result.inv(),
                result.nv() == n,
                forall|q: int|
                    0 <= q < assignments@.len() ==> ((#[trigger] assignments@[q]).0.0 as int)
                        < n as int,
                forall|m: Seq<bool>|
                    m.len() == n as int ==> #[trigger] result.sem(m) == (self.sem(m)
                        && assigns_match_upto(assignments@, i as int, m)),
                i == 0 ==> result@ == self@,
            decreases assignments@.len() - i,
        {
            let size: u128 = result.0.len() as u128;
            if size * 3 + 2 > u32::MAX as u128 {
                return Err(BddError::TooLarge);
            }
            let (var, value) = assignments[i];
            result = result.var_select(var, value);
            i = i + 1;
        }
        Ok(result)
    }

    /// Existentially project `var` out: the disjunction of both cofactors.
    /// The result no longer tests `var`.
    pub fn var_project(&self, var: BddVariable) -> (r: Bdd)
        requires
            self.inv(),
            (var.0 as int) < self.nv() as int,
            self@.len() * self@.len() + 2 <= u32::MAX as int,
        ensures
            r.inv(),
            r.nv() == self.nv(),
            r@.len() <= 2 + self@.len() * self@.len(),
            forall|m: Seq<bool>|
                m.len() == self.nv() as int ==> #[trigger] r.sem(m) == (self.sem(
                    m.update(var.0 as int, false),
                ) || self.sem(m.update(var.0 as int, true))),
    {
        let lo = self.var_restrict(var, false);
        let hi = self.var_restrict(var, true);
        proof {
            assert(lo@.len() * hi@.len() <= self@.len() * self@.len()) by (nonlinear_arith)
                requires
                    0 <= lo@.len() <= self@.len(),
                    0 <= hi@.len() <= self@.len(),
            ;
        }
        let r = lo.or(&hi);
        proof {
            assert(r@.len() <= 2 + self@.len() * self@.len());
        }
        r
    }

    /// Existentially project every listed variable out, in list order.
    pub fn project(&self, variables: &[BddVariable]) -> (r: Result<Bdd, BddError>)
        requires
            self.inv(),
        ensures
            match r {
                Ok(b) => {
                    &&& b.inv()
                    &&& b.nv() == self.nv()
                    &&& forall|i: int|
                        0 <= i < variables@.len() ==> ((#[trigger] variables@[i]).0 as int)
                            < self.nv() as int
                    &&& forall|m: Seq<bool>|
                        m.len() == self.nv() as int ==> #[trigger] b.sem(m) == proj_sem(
                            *self,
                            variables@,
                            m,
                        )
                    &&& variables@.len() == 0 ==> b@ == self@
                },
                Err(BddError::InvalidVariable(v)) => exists|j: int|
                    0 <= j < variables@.len() && ((#[trigger] variables@[j]).0 as int)
                        >= self.nv() as int && v == variables@[j] && (forall|i: int|
                        0 <= i < j ==> ((#[trigger] variables@[i]).0 as int) < self.nv() as int),
                Err(BddError::TooLarge) => {
                    &&& forall|i: int|
                        0 <= i < variables@.len() ==> ((#[trigger] variables@[i]).0 as int)
                            < self.nv() as int
                    &&& variables@.len() > 0
                    &&& variables@.len() == 1 ==> self@.len() * self@.len() + 2
                        > u32::MAX as int
                },
                Err(_) => false,
            },
    {
        let n = self.num_vars();
        let mut j: usize = 0;
        while j < variables.len()
            invariant
                j <= variables@.len(),
                n == self.nv(),
                forall|i: int| 0 <= i < j ==> ((#[trigger] variables@[i]).0 as int) < n as int,
            decreases variables@.len() - j,
        {
            if variables[j].0 >= n {
                return Err(BddError::InvalidVariable(variables[j]));
            }
            j = j + 1;
        }
        let mut result = self.duplicate();
        let mut i: usize = 0;
        while i < variables.len()
            invariant
                i <= variables@.len(),
                self.inv(),
                n == self.nv(),
                result.inv(),
                result.nv() == n,
                forall|q: int|
                    0 <= q < variables@.len() ==> ((#[trigger] variables@[q]).0 as int) < n as int,
                forall|m: Seq<bool>|
                    m.len() == n as int ==> #[trigger] result.sem(m) == proj_sem_upto(
                        *self,
                        variables@,
                        i as int,
                        m,
                    ),
                i == 0 ==> result@ == self@,
            decreases variables@.len() - i,
        {
            let size: u128 = result.0.len() as u128;
            proof {
                assert((size as int) * (size as int) <= (u32::MAX as int) * (u32::MAX as int))
                    by (nonlinear_arith)
                    requires
                        0 <= size as int <= u32::MAX as int,
                ;
            }
            if size * size + 2 > u32::MAX as u128 {
                return Err(BddError::TooLarge);
            }
            result = result.var_project(variables[i]);
            i = i + 1;
        }
        Ok(result)
    }

    /// Keep, for each model of the projection at `var`, exactly one value
    /// of `var`, preferring `false`.
    pub fn var_pick(&self, var: BddVariable) -> (r: Bdd)
        requires
            self.inv(),
            (var.0 as int) < self.nv() as int,
            self@.len() * (3 * self@.len() + 3) + 2 <= u32::MAX as int,
        ensures
            r.inv(),
            r.nv() == self.nv(),
            forall|m: Seq<bool>|
                m.len() == self.nv() as int ==> #[trigger] r.sem(m) == (self.sem(m) && !(
                m[var.0 as int] && self.sem(m.update(var.0 as int, false)))),
    {
        let n = self.num_vars();
        let ghost len0 = self@.len() as int;
        proof {
            assert(len0 * (3 * len0 + 3) >= 1 * (3 * len0 + 3)) by (nonlinear_arith)
                requires
                    len0 >= 1,
            ;
        }
        let cofactor = self.var_restrict(var, false);
        let lit = Bdd::mk_var(n, var);
        proof {
            assert(3 * cofactor@.len() + 2 <= 3 * len0 + 2);
        }
        let blocked = lit.and(&cofactor);
        let keep = blocked.not();
        proof {
            assert(blocked@.len() <= 2 + 3 * cofactor@.len());
            assert(keep@.len() <= 3 * len0 + 3);
            assert(self@.len() * keep@.len() <= len0 * (3 * len0 + 3)) by (nonlinear_arith)
                requires
                    0 <= len0,
                    0 <= keep@.len() <= 3 * len0 + 3,
                    self@.len() == len0,
            ;
        }
        let r = self.and(&keep);
        proof {
            assert forall|m: Seq<bool>| m.len() == self.nv() as int implies #[trigger] r.sem(m)
                == (self.sem(m) && !(m[var.0 as int] && self.sem(
                m.update(var.0 as int, false),
            ))) by {
                assert(keep.sem(m) == !blocked.sem(m));
                assert(blocked.sem(m) == (lit.sem(m) && cofactor.sem(m)));
            }
        }
        r
    }

    /// Like `var_pick`, but the preferred value is drawn from the
    /// generator: for every model of the projection, either value of `var`
    /// is equally likely to be the kept one. Whatever is drawn, the result
    /// implies this diagram, agrees with it after projecting `var`, and
    /// keeps at most one value of `var` per remaining model.
    pub fn var_pick_random(&self, var: BddVariable, rng: &mut rand::rngs::StdRng) -> (r: Bdd)
        requires
            self.inv(),
            (var.0 as int) < self.nv() as int,
            self@.len() * (3 * self@.len() + 3) + 2 <= u32::MAX as int,
        ensures
            r.inv(),
            r.nv() == self.nv(),
            forall|m: Seq<bool>|
                m.len() == self.nv() as int ==> (#[trigger] r.sem(m) ==> self.sem(m)),
            forall|m: Seq<bool>|
                m.len() == self.nv() as int ==> ((#[trigger] r.sem(m.update(var.0 as int, false))
                    || r.sem(m.update(var.0 as int, true))) == (self.sem(
                    m.update(var.0 as int, false),
                ) || self.sem(m.update(var.0 as int, true)))),
            forall|m: Seq<bool>|
                m.len() == self.nv() as int ==> !(#[trigger] r.sem(m.update(var.0 as int, false))
                    && r.sem(m.update(var.0 as int, true))),
    {
        let n = self.num_vars();
        let ghost len0 = self@.len() as int;
        let prefer_true = crate::rng::coin(rng);
        let r: Bdd;
        if prefer_true {
            proof {
                assert(len0 * (3 * len0 + 3) >= 1 * (3 * len0 + 3)) by (nonlinear_arith)
                    requires
                        len0 >= 1,
                ;
            }
            let cofactor = self.var_restrict(var, true);
            let lit = Bdd::mk_not_var(n, var);
            proof {
                assert(3 * cofactor@.len() + 2 <= 3 * len0 + 2);
            }
            let blocked = lit.and(&cofactor);
            let keep = blocked.not();
            proof {
                assert(keep@.len() <= 3 * len0 + 3);
                assert(self@.len() * keep@.len() <= len0 * (3 * len0 + 3)) by (nonlinear_arith)
                    requires
                        0 <= len0,
                        0 <= keep@.len() <= 3 * len0 + 3,
                        self@.len() == len0,
                ;
            }
            r = self.and(&keep);
            proof {
                assert forall|m: Seq<bool>| m.len() == self.nv() as int implies #[trigger] r.sem(m)
                    == (self.sem(m) && !(!m[var.0 as int] && self.sem(
                    m.update(var.0 as int, true),
                ))) by {
                    assert(keep.sem(m) == !blocked.sem(m));
                    assert(blocked.sem(m) == (lit.sem(m) && cofactor.sem(m)));
                }
            }
        } else {
            r = self.var_pick(var);
        }
        proof {
            let v = var.0 as int;
            assert forall|m: Seq<bool>| m.len() == self.nv() as int && #[trigger] r.sem(m)
                implies self.sem(m) by {}
            assert forall|m: Seq<bool>| m.len() == self.nv() as int implies ((#[trigger] r.sem(
                m.update(v, false),
            ) || r.sem(m.update(v, true))) == (self.sem(m.update(v, false)) || self.sem(
                m.update(v, true),
            ))) && !(r.sem(m.update(v, false)) && r.sem(m.update(v, true))) by {
                let m0 = m.update(v, false);
                let m1 = m.update(v, true);
                assert(m0.update(v, true) =~= m1);
                assert(m1.update(v, false) =~= m0);
                assert(m0.update(v, false) =~= m0);
                assert(m1.update(v, true) =~= m1);
                assert(m0[v] == false && m1[v] == true);
            }
        }
        r
    }

    /// Pick every listed variable, in list order: for each valuation of
    /// the unlisted variables, exactly the lexicographically least
    /// satisfying completion of the listed variables survives. Listing a
    /// variable twice is reported, as is one outside the universe.
    pub fn pick(&self, variables: &[BddVariable]) -> (r: Result<Bdd, BddError>)
        requires
            self.inv(),
        ensures
            match r {
                Ok(b) => {
                    &&& b.inv()
                    &&& b.nv() == self.nv()
                    &&& forall|i: int|
                        0 <= i < variables@.len() ==> ((#[trigger] variables@[i]).0 as int)
                            < self.nv() as int
                    &&& forall|m: Seq<bool>|
                        m.len() == self.nv() as int ==> (#[trigger] b.sem(m) ==> self.sem(m))
                    &&& forall|m: Seq<bool>|
                        m.len() == self.nv() as int ==> #[trigger] has_pick_completion(
                            b,
                            variables@,
                            0,
                            m,
                        ) == has_pick_completion(*self, variables@, 0, m)
                    &&& forall|m1: Seq<bool>, m2: Seq<bool>|
                        m1.len() == self.nv() as int && m2.len() == m1.len() && #[trigger] b.sem(
                            m1,
                        ) && #[trigger] b.sem(m2) && agrees_outside(m1, m2, variables@, 0)
                            ==> m1 == m2
                    &&& variables@.len() == 0 ==> b@ == self@
                },
                Err(BddError::InvalidVariable(v)) => exists|j: int|
                    0 <= j < variables@.len() && ((#[trigger] variables@[j]).0 as int)
                        >= self.nv() as int && v == variables@[j] && (forall|i: int|
                        0 <= i < j ==> ((#[trigger] variables@[i]).0 as int) < self.nv() as int),
                Err(BddError::DuplicateVariable(v)) => exists|j: int|
                    0 <= j < variables@.len() && v == #[trigger] variables@[j] && (exists|i: int|
                        0 <= i < j && #[trigger] variables@[i] == v) && (forall|i: int|
                        0 <= i < variables@.len() ==> ((#[trigger] variables@[i]).0 as int)
                            < self.nv() as int),
                Err(BddError::TooLarge) => {
                    &&& forall|i: int|
                        0 <= i < variables@.len() ==> ((#[trigger] variables@[i]).0 as int)
                            < self.nv() as int
                    &&& variables@.len() > 0
                    &&& forall|q: int, q2: int|
                        0 <= q2 < q < variables@.len() ==> (#[trigger] variables@[q2]) != (
                        #[trigger] variables@[q])
                },
                Err(_) => false,
            },
    {
        let n = self.num_vars();
        let mut j: usize = 0;
        while j < variables.len()
            invariant
                j <= variables@.len(),
                n == self.nv(),
                forall|i: int| 0 <= i < j ==> ((#[trigger] variables@[i]).0 as int) < n as int,
            decreases variables@.len() - j,
        {
            if variables[j].0 >= n {
                return Err(BddError::InvalidVariable(variables[j]));
            }
            j = j + 1;
        }
        let mut j2: usize = 0;
        while j2 < variables.len()
            invariant
                j2 <= variables@.len(),
                n == self.nv(),
                forall|i: int|
                    0 <= i < variables@.len() ==> ((#[trigger] variables@[i]).0 as int) < n as int,
                forall|q: int, i: int|
                    0 <= i < q < j2 ==> (#[trigger] variables@[i]) != (#[trigger] variables@[q]),
            decreases variables@.len() - j2,
        {
            let mut i2: usize = 0;
            while i2 < j2
                invariant
                    i2 <= j2 < variables@.len(),
                    n == self.nv(),
                    forall|i: int|
                        0 <= i < variables@.len() ==> ((#[trigger] variables@[i]).0 as int)
                            < n as int,
                    forall|i: int|
                        0 <= i < i2 ==> (#[trigger] variables@[i]) != variables@[j2 as int],
                decreases j2 - i2,
            {
                if variables[i2].0 == variables[j2].0 {
                    proof {
                        assert(variables@[i2 as int] == variables@[j2 as int]);
                        assert(exists|i3: int|
                            0 <= i3 < j2 as int && variables@[i3] == variables@[j2 as int]);
                        assert(0 <= (j2 as int) < variables@.len() && variables@[j2 as int]
                            == variables@[j2 as int]);
                    }
                    return Err(BddError::DuplicateVariable(variables[j2]));
                }
                i2 = i2 + 1;
            }
            j2 = j2 + 1;
        }
        let mut result = self.duplicate();
        let ghost mut stages: Seq<Bdd> = seq![result];
        let ghost mut prefs: Seq<bool> = Seq::empty();
        proof {
            assert forall|m: Seq<bool>| m.len() == n as int implies #[trigger]
                has_pick_completion(result, variables@, 0, m) == has_pick_completion(
                *self,
                variables@,
                0,
                m,
            ) by {
                if has_pick_completion(result, variables@, 0, m) {
                    let m2 = lemma_completion_elim(result, variables@, 0, m);
                    assert((*self).sem(m2));
                    lemma_completion_intro(*self, variables@, 0, m, m2);
                }
                if has_pick_completion(*self, variables@, 0, m) {
                    let m2 = lemma_completion_elim(*self, variables@, 0, m);
                    assert(result.sem(m2));
                    lemma_completion_intro(result, variables@, 0, m, m2);
                }
            }
        }
        let mut i: usize = 0;
        while i < variables.len()
            invariant
                i <= variables@.len(),
                self.inv(),
                n == self.nv(),
                result.inv(),
                result.nv() == n,
                forall|q: int|
                    0 <= q < variables@.len() ==> ((#[trigger] variables@[q]).0 as int) < n as int,
                forall|q: int, q2: int|
                    0 <= q2 < q < variables@.len() ==> (#[trigger] variables@[q2]) != (
                    #[trigger] variables@[q]),
                forall|m: Seq<bool>|
                    m.len() == n as int ==> (#[trigger] result.sem(m) ==> self.sem(m)),
                forall|m: Seq<bool>|
                    m.len() == n as int ==> #[trigger] has_pick_completion(
                        result,
                        variables@,
                        0,
                        m,
                    ) == has_pick_completion(*self, variables@, 0, m),
                stages.len() == i + 1,
                prefs.len() == i as int,
                result == stages[i as int],
                forall|t: int|
                    0 <= t < stages.len() ==> (#[trigger] stages[t]).inv() && stages[t].nv() == n,
                forall|t: int|
                    0 <= t < i as int ==> #[trigger] pick_step_rel(
                        stages[t],
                        stages[t + 1],
                        variables@,
                        t,
                        prefs[t],
                    ),
                i == 0 ==> result@ == self@,
            decreases variables@.len() - i,
        {
            let v = variables[i];
            let ghost prev = result;
            result = match Bdd::pick_step(self, result, variables, i, v, false) {
                Ok(b) => b,
                Err(e) => {
                    return Err(e);
                },
            };
            proof {
                let ghost stages0 = stages;
                let ghost prefs0 = prefs;
                stages = stages0.push(result);
                prefs = prefs0.push(false);
                assert(stages[i as int] == prev);
                assert(stages[i as int + 1] == result);
                assert forall|t: int| 0 <= t < i as int + 1 implies #[trigger] pick_step_rel(
                    stages[t],
                    stages[t + 1],
                    variables@,
                    t,
                    prefs[t],
                ) by {
                    if t < i as int {
                        assert(stages[t] == stages0[t]);
                        assert(stages[t + 1] == stages0[t + 1]);
                        assert(prefs[t] == prefs0[t]);
                        assert(pick_step_rel(stages0[t], stages0[t + 1], variables@, t, prefs0[t]));
                    }
                }
                assert forall|m: Seq<bool>|
                    m.len() == n as int && #[trigger] result.sem(m) implies self.sem(m) by {
                    assert(prev.sem(m));
                }
                assert forall|m: Seq<bool>| m.len() == n as int implies #[trigger]
                    has_pick_completion(result, variables@, 0, m) == has_pick_completion(
                    *self,
                    variables@,
                    0,
                    m,
                ) by {
                    lemma_distinct_not_suffix(variables@, i as int);
                    lemma_step_preserves_completion(
                        prev,
                        result,
                        variables@,
                        i as int,
                        false,
                        m,
                    );
                }
            }
            i = i + 1;
        }
        proof {
            assert forall|m1: Seq<bool>, m2: Seq<bool>|
                m1.len() == n as int && m2.len() == m1.len() && #[trigger] result.sem(m1)
                    && #[trigger] result.sem(m2) && agrees_outside(m1, m2, variables@, 0) implies
                m1 == m2 by {
                assert(stages.last() == result);
                lemma_chain_equal_from(stages, prefs, variables@, 0, m1, m2);
                assert(m1 =~= m2);
            }
        }
        Ok(result)
    }

    /// One picking step: block `v = avoid_flip` models whose flipped
    /// variant extends, over the still-unpicked entries, to a survivor.
    /// The preferred value of `v` is `prefer` (`false` keeps the least).
    #[verifier::rlimit(100)]
    #[verifier::spinoff_prover]
    fn pick_step(
        a: &Bdd,
        result: Bdd,
        variables: &[BddVariable],
        i: usize,
        v: BddVariable,
        prefer: bool,
    ) -> (r: Result<Bdd, BddError>)
        requires
            a.inv(),
            result.inv(),
            result.nv() == a.nv(),
            (i as int) < variables@.len(),
            v == variables@[i as int],
            (v.0 as int) < a.nv() as int,
            forall|q: int|
                0 <= q < variables@.len() ==> ((#[trigger] variables@[q]).0 as int)
                    < a.nv() as int,
            forall|q: int, q2: int|
                0 <= q2 < q < variables@.len() ==> (#[trigger] variables@[q2]) != (
                #[trigger] variables@[q]),
        ensures
            match r {
                Ok(b) => {
                    &&& b.inv()
                    &&& b.nv() == a.nv()
                    &&& pick_step_rel(result, b, variables@, i as int, prefer)
                },
                Err(e) => e == BddError::TooLarge,
            },
    {
        let n = a.num_vars();
        // The still-unpicked entries, projected away from the preferred
        // cofactor.
        let total: usize = variables.len();
        let mut rest: Vec<BddVariable> = Vec::new();
        proof {
            assert((i as int) + 1 <= total as int);
        }
        let mut q: usize = i + 1;
        while q < variables.len()
            invariant
                i as int + 1 <= q as int <= variables@.len(),
                rest@.len() == q - i - 1,
                forall|t: int| 0 <= t < rest@.len() ==> rest@[t] == variables@[i as int + 1 + t],
            decreases variables@.len() - q,
        {
            rest.push(variables[q]);
            q = q + 1;
        }
        let cofactor = result.var_restrict(v, prefer);
        let reachable = match cofactor.project(&rest) {
            Ok(b) => b,
            Err(e) => {
                proof {
                    if e is InvalidVariable {
                        assert(false);
                    }
                }
                return Err(BddError::TooLarge);
            },
        };
        let small: u128 = reachable.0.len() as u128;
        proof {
            assert((small as int) * 3 <= (u32::MAX as int) * 3) by (nonlinear_arith)
                requires
                    0 <= small as int <= u32::MAX as int,
            ;
        }
        if small * 3 + 2 > u32::MAX as u128 {
            return Err(BddError::TooLarge);
        }
        let lit = Bdd::mk_literal(n, v, !prefer);
        let blocked = lit.and(&reachable);
        let keep = blocked.not();
        let big: u128 = result.0.len() as u128;
        let keep_len: u128 = keep.0.len() as u128;
        proof {
            assert((big as int) * (keep_len as int) <= (u32::MAX as int) * (u32::MAX as int))
                by (nonlinear_arith)
                requires
                    0 <= big as int <= u32::MAX as int,
                    0 <= keep_len as int <= u32::MAX as int,
            ;
        }
        if big * keep_len + 2 > u32::MAX as u128 {
            return Err(BddError::TooLarge);
        }
        let picked = result.and(&keep);
        proof {
            let vv = v.0 as int;
            let nn = a.nv() as int;
            assert forall|m: Seq<bool>| m.len() == nn implies #[trigger] picked.sem(m) == (
            result.sem(m) && !(m[vv] == !prefer && exists|m2: Seq<bool>|
                m2.len() == m.len() && (forall|w: int|
                    0 <= w < m.len() && !picked_from(variables@, i as int + 1, w) ==> m2[w]
                        == m.update(vv, prefer)[w]) && #[trigger] result.sem(m2))) by {
                assert(picked.sem(m) == (result.sem(m) && !(m[vv] == !prefer && reachable.sem(
                    m,
                ))));
                crate::laws::lemma_projection_exists(cofactor, rest@, rest@.len() as int, m);
                // The projected cofactor holds exactly when some completion
                // of the unpicked entries survives with `v` at the
                // preferred value.
                assert(reachable.sem(m) == (exists|m2: Seq<bool>|
                    m2.len() == m.len() && (forall|w: int|
                        0 <= w < m.len() && !picked_from(variables@, i as int + 1, w) ==> m2[w]
                            == m.update(vv, prefer)[w]) && #[trigger] result.sem(m2))) by {
                    assert(reachable.sem(m) == proj_sem(cofactor, rest@, m));
                    assert forall|w: int|
                        crate::laws::names_upto(rest@, rest@.len() as int, w) == picked_from(
                            variables@,
                            i as int + 1,
                            w,
                        ) by {
                        if crate::laws::names_upto(rest@, rest@.len() as int, w) {
                            let t = choose|t: int|
                                0 <= t < rest@.len() && ((#[trigger] rest@[t]).0 as int) == w;
                            assert(variables@[i as int + 1 + t].0 as int == w);
                        }
                        if picked_from(variables@, i as int + 1, w) {
                            let t = choose|t: int|
                                i as int + 1 <= t < variables@.len() && ((
                                #[trigger] variables@[t]).0 as int) == w;
                            assert(rest@[t - i - 1].0 as int == w);
                        }
                    }
                    assert(!picked_from(variables@, i as int + 1, vv)) by {
                        if picked_from(variables@, i as int + 1, vv) {
                            let t = choose|t: int|
                                i as int + 1 <= t < variables@.len() && ((
                                #[trigger] variables@[t]).0 as int) == vv;
                            assert(variables@[t].0 == v.0);
                            assert(variables@[t] != variables@[i as int]);
                        }
                    }
                    if proj_sem(cofactor, rest@, m) {
                        let m2 = choose|m2: Seq<bool>|
                            m2.len() == m.len() && (forall|w: int|
                                0 <= w < m.len() && !crate::laws::names_upto(
                                    rest@,
                                    rest@.len() as int,
                                    w,
                                ) ==> m2[w] == m[w]) && #[trigger] cofactor.sem(m2);
                        let m3 = m2.update(vv, prefer);
                        assert(cofactor.sem(m2) == result.sem(m2.update(vv, prefer)));
                        assert(result.sem(m3));
                        assert forall|w: int|
                            0 <= w < m.len() && !picked_from(variables@, i as int + 1, w) implies
                            m3[w] == m.update(vv, prefer)[w] by {}
                    }
                    if exists|m2: Seq<bool>|
                        m2.len() == m.len() && (forall|w: int|
                            0 <= w < m.len() && !picked_from(variables@, i as int + 1, w)
                                ==> m2[w] == m.update(vv, prefer)[w]) && #[trigger] result.sem(
                        m2,
                    ) {
                        let m3 = choose|m2: Seq<bool>|
                            m2.len() == m.len() && (forall|w: int|
                                0 <= w < m.len() && !picked_from(variables@, i as int + 1, w)
                                    ==> m2[w] == m.update(vv, prefer)[w]) && #[trigger] result.sem(
                                m2,
                            );
                        let m4 = m3.update(vv, m[vv]);
                        assert(m3[vv] == prefer);
                        assert(m3.update(vv, prefer) =~= m3);
                        assert(cofactor.sem(m4) == result.sem(m4.update(vv, prefer)));
                        assert(m4.update(vv, prefer) =~= m3);
                        assert(cofactor.sem(m4));
                        assert forall|w: int|
                            0 <= w < m.len() && !crate::laws::names_upto(
                                rest@,
                                rest@.len() as int,
                                w,
                            ) implies m4[w] == m[w] by {}
                        assert(proj_sem(cofactor, rest@, m));
                    }
                }
            }
        }
        proof {
            let vv = v.0 as int;
            assert(pick_step_rel(result, picked, variables@, i as int, prefer)) by {
                assert forall|m: Seq<bool>| m.len() == result.nv() as int implies #[trigger]
                    picked.sem(m) == (result.sem(m) && !(m[variables@[i as int].0 as int]
                    == !prefer && has_pick_completion(
                    result,
                    variables@,
                    i as int + 1,
                    m.update(variables@[i as int].0 as int, prefer),
                ))) by {
                    let mu = m.update(vv, prefer);
                    assert(variables@[i as int].0 as int == vv);
                    // The already-established step formula, with its raw
                    // existential replaced by the named completion
                    // predicate.
                    assert((exists|m2: Seq<bool>|
                        m2.len() == m.len() && (forall|w: int|
                            0 <= w < m.len() && !picked_from(variables@, i as int + 1, w)
                                ==> m2[w] == m.update(vv, prefer)[w]) && #[trigger] result.sem(
                        m2,
                    )) == has_pick_completion(result, variables@, i as int + 1, mu)) by {
                        if exists|m2: Seq<bool>|
                            m2.len() == m.len() && (forall|w: int|
                                0 <= w < m.len() && !picked_from(variables@, i as int + 1, w)
                                    ==> m2[w] == m.update(vv, prefer)[w]) && #[trigger] result.sem(
                            m2,
                        ) {
                            let m2 = choose|m2: Seq<bool>|
                                m2.len() == m.len() && (forall|w: int|
                                    0 <= w < m.len() && !picked_from(variables@, i as int + 1, w)
                                        ==> m2[w] == m.update(vv, prefer)[w])
                                    && #[trigger] result.sem(m2);
                            assert(agrees_outside(m2, mu, variables@, i as int + 1)) by {
                                assert forall|w: int|
                                    0 <= w < mu.len() && !picked_from(
                                        variables@,
                                        i as int + 1,
                                        w,
                                    ) implies m2[w] == mu[w] by {}
                            }
                            lemma_completion_intro(result, variables@, i as int + 1, mu, m2);
                        }
                        if has_pick_completion(result, variables@, i as int + 1, mu) {
                            let m2 = lemma_completion_elim(
                                result,
                                variables@,
                                i as int + 1,
                                mu,
                            );
                            assert(forall|w: int|
                                0 <= w < m.len() && !picked_from(variables@, i as int + 1, w)
                                    ==> m2[w] == m.update(vv, prefer)[w]);
                        }
                    }
                }
            }
        }
        Ok(picked)
    }

    /// Pick every listed variable with a drawn preferred value per
    /// variable: per valuation of the unlisted variables, exactly one
    /// satisfying completion of the listed variables survives, each
    /// variable keeping its drawn value whenever the diagram allows it.
    /// Whatever is drawn, the result implies this diagram.
    pub fn pick_random(&self, variables: &[BddVariable], rng: &mut rand::rngs::StdRng) -> (r:
        Result<Bdd, BddError>)
        requires
            self.inv(),
        ensures
            match r {
                Ok(b) => {
                    &&& b.inv()
                    &&& b.nv() == self.nv()
                    &&& forall|i: int|
                        0 <= i < variables@.len() ==> ((#[trigger] variables@[i]).0 as int)
                            < self.nv() as int
                    &&& forall|m: Seq<bool>|
                        m.len() == self.nv() as int ==> (#[trigger] b.sem(m) ==> self.sem(m))
                    &&& forall|m: Seq<bool>|
                        m.len() == self.nv() as int ==> #[trigger] has_pick_completion(
                            b,
                            variables@,
                            0,
                            m,
                        ) == has_pick_completion(*self, variables@, 0, m)
                    &&& forall|m1: Seq<bool>, m2: Seq<bool>|
                        m1.len() == self.nv() as int && m2.len() == m1.len() && #[trigger] b.sem(
                            m1,
                        ) && #[trigger] b.sem(m2) && agrees_outside(m1, m2, variables@, 0)
                            ==> m1 == m2
                    &&& variables@.len() == 0 ==> b@ == self@
                },
                Err(BddError::InvalidVariable(v)) => exists|j: int|
                    0 <= j < variables@.len() && ((#[trigger] variables@[j]).0 as int)
                        >= self.nv() as int && v == variables@[j] && (forall|i: int|
                        0 <= i < j ==> ((#[trigger] variables@[i]).0 as int) < self.nv() as int),
                Err(BddError::DuplicateVariable(v)) => exists|j: int|
                    0 <= j < variables@.len() && v == #[trigger] variables@[j] && (exists|i: int|
                        0 <= i < j && #[trigger] variables@[i] == v) && (forall|i: int|
                        0 <= i < variables@.len() ==> ((#[trigger] variables@[i]).0 as int)
                            < self.nv() as int),
                Err(BddError::TooLarge) => {
                    &&& forall|i: int|
                        0 <= i < variables@.len() ==> ((#[trigger] variables@[i]).0 as int)
                            < self.nv() as int
                    &&& variables@.len() > 0
                    &&& forall|q: int, q2: int|
                        0 <= q2 < q < variables@.len() ==> (#[trigger] variables@[q2]) != (
                        #[trigger] variables@[q])
                },
                Err(_) => false,
            },
    {
        let n = self.num_vars();
        let mut j: usize = 0;
        while j < variables.len()
            invariant
                j <= variables@.len(),
                n == self.nv(),
                forall|i: int| 0 <= i < j ==> ((#[trigger] variables@[i]).0 as int) < n as int,
            decreases variables@.len() - j,
        {
            if variables[j].0 >= n {
                return Err(BddError::InvalidVariable(variables[j]));
            }
            j = j + 1;
        }
        let mut j2: usize = 0;
        while j2 < variables.len()
            invariant
                j2 <= variables@.len(),
                n == self.nv(),
                forall|i: int|
                    0 <= i < variables@.len() ==> ((#[trigger] variables@[i]).0 as int) < n as int,
                forall|q: int, i: int|
                    0 <= i < q < j2 ==> (#[trigger] variables@[i]) != (#[trigger] variables@[q]),
            decreases variables@.len() - j2,
        {
            let mut i2: usize = 0;
            while i2 < j2
                invariant
                    i2 <= j2 < variables@.len(),
                    n == self.nv(),
                    forall|i: int|
                        0 <= i < variables@.len() ==> ((#[trigger] variables@[i]).0 as int)
                            < n as int,
                    forall|i: int|
                        0 <= i < i2 ==> (#[trigger] variables@[i]) != variables@[j2 as int],
                decreases j2 - i2,
            {
                if variables[i2].0 == variables[j2].0 {
                    proof {
                        assert(variables@[i2 as int] == variables@[j2 as int]);
                        assert(exists|i3: int|
                            0 <= i3 < j2 as int && variables@[i3] == variables@[j2 as int]);
                        assert(0 <= (j2 as int) < variables@.len() && variables@[j2 as int]
                            == variables@[j2 as int]);
                    }
                    return Err(BddError::DuplicateVariable(variables[j2]));
                }
                i2 = i2 + 1;
            }
            j2 = j2 + 1;
        }
        let mut result = self.duplicate();
        let ghost mut stages: Seq<Bdd> = seq![result];
        let ghost mut prefs: Seq<bool> = Seq::empty();
        proof {
            assert forall|m: Seq<bool>| m.len() == n as int implies #[trigger]
                has_pick_completion(result, variables@, 0, m) == has_pick_completion(
                *self,
                variables@,
                0,
                m,
            ) by {
                if has_pick_completion(result, variables@, 0, m) {
                    let m2 = lemma_completion_elim(result, variables@, 0, m);
                    assert((*self).sem(m2));
                    lemma_completion_intro(*self, variables@, 0, m, m2);
                }
                if has_pick_completion(*self, variables@, 0, m) {
                    let m2 = lemma_completion_elim(*self, variables@, 0, m);
                    assert(result.sem(m2));
                    lemma_completion_intro(result, variables@, 0, m, m2);
                }
            }
        }
        let mut i: usize = 0;
        while i < variables.len()
            invariant
                i <= variables@.len(),
                self.inv(),
                n == self.nv(),
                result.inv(),
                result.nv() == n,
                forall|q: int|
                    0 <= q < variables@.len() ==> ((#[trigger] variables@[q]).0 as int) < n as int,
                forall|q: int, q2: int|
                    0 <= q2 < q < variables@.len() ==> (#[trigger] variables@[q2]) != (
                    #[trigger] variables@[q]),
                forall|m: Seq<bool>|
                    m.len() == n as int ==> (#[trigger] result.sem(m) ==> self.sem(m)),
                forall|m: Seq<bool>|
                    m.len() == n as int ==> #[trigger] has_pick_completion(
                        result,
                        variables@,
                        0,
                        m,
                    ) == has_pick_completion(*self, variables@, 0, m),
                stages.len() == i + 1,
                prefs.len() == i as int,
                result == stages[i as int],
                forall|t: int|
                    0 <= t < stages.len() ==> (#[trigger] stages[t]).inv() && stages[t].nv() == n,
                forall|t: int|
                    0 <= t < i as int ==> #[trigger] pick_step_rel(
                        stages[t],
                        stages[t + 1],
                        variables@,
                        t,
                        prefs[t],
                    ),
                i == 0 ==> result@ == self@,
            decreases variables@.len() - i,
        {
            let v = variables[i];
            let prefer = crate::rng::coin(rng);
            let ghost prev = result;
            result = match Bdd::pick_step(self, result, variables, i, v, prefer) {
                Ok(b) => b,
                Err(e) => {
                    return Err(e);
                },
            };
            proof {
                let ghost stages0 = stages;
                let ghost prefs0 = prefs;
                stages = stages0.push(result);
                prefs = prefs0.push(prefer);
                assert(stages[i as int] == prev);
                assert(stages[i as int + 1] == result);
                assert forall|t: int| 0 <= t < i as int + 1 implies #[trigger] pick_step_rel(
                    stages[t],
                    stages[t + 1],
                    variables@,
                    t,
                    prefs[t],
                ) by {
                    if t < i as int {
                        assert(stages[t] == stages0[t]);
                        assert(stages[t + 1] == stages0[t + 1]);
                        assert(prefs[t] == prefs0[t]);
                        assert(pick_step_rel(stages0[t], stages0[t + 1], variables@, t, prefs0[t]));
                    }
                }
                assert forall|m: Seq<bool>|
                    m.len() == n as int && #[trigger] result.sem(m) implies self.sem(m) by {
                    assert(prev.sem(m));
                }
                assert forall|m: Seq<bool>| m.len() == n as int implies #[trigger]
                    has_pick_completion(result, variables@, 0, m) == has_pick_completion(
                    *self,
                    variables@,
                    0,
                    m,
                ) by {
                    lemma_distinct_not_suffix(variables@, i as int);
                    lemma_step_preserves_completion(
                        prev,
                        result,
                        variables@,
                        i as int,
                        prefer,
                        m,
                    );
                }
            }
            i = i + 1;
        }
        proof {
            assert forall|m1: Seq<bool>, m2: Seq<bool>|
                m1.len() == n as int && m2.len() == m1.len() && #[trigger] result.sem(m1)
                    && #[trigger] result.sem(m2) && agrees_outside(m1, m2, variables@, 0) implies
                m1 == m2 by {
                assert(stages.last() == result);
                lemma_chain_equal_from(stages, prefs, variables@, 0, m1, m2);
                assert(m1 =~= m2);
            }
        }
        Ok(result)
    }
}

} // verus!
