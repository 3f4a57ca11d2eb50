//! Full and partial valuations of the Boolean variables of a universe.

use vstd::prelude::*;

use crate::BddVariable;

verus! {

/// A dense assignment of every variable of the universe to a Boolean value.
#[derive(Clone, Debug, PartialEq, Eq)]
pub struct BddValuation(pub Vec<bool>);

impl View for BddValuation {
    type V = Seq<bool>;

    open spec fn view(&self) -> Seq<bool> {
        self.0@
    }
}

impl BddValuation {
    /// The valuation assigning `false` to all `num_vars` variables.
    pub fn all_false(num_vars: u16) -> (r: BddValuation)
        ensures
            r@ == Seq::new(num_vars as nat, |i: int| false),
    {
        let mut values: Vec<bool> = Vec::new();
        let mut i: u16 = 0;
        while i < num_vars
            invariant
                i <= num_vars,
                values@ =~= Seq::new(i as nat, |j: int| false),
            decreases num_vars - i,
        {
            values.push(false);
            i = i + 1;
        }
        assert(values@ =~= Seq::new(num_vars as nat, |i: int| false));
        BddValuation(values)
    }

    /// The valuation assigning `true` to all `num_vars` variables.
    pub fn all_true(num_vars: u16) -> (r: BddValuation)
        ensures
            r@ == Seq::new(num_vars as nat, |i: int| true),
    {
        let mut values: Vec<bool> = Vec::new();
        let mut i: u16 = 0;
        while i < num_vars
            invariant
                i <= num_vars,
                values@ =~= Seq::new(i as nat, |j: int| true),
            decreases num_vars - i,
        {
            values.push(true);
            i = i + 1;
        }
        assert(values@ =~= Seq::new(num_vars as nat, |i: int| true));
        BddValuation(values)
    }

    /// Assign `true` to the given variable.
    pub fn set(&mut self, var: BddVariable)
        requires
            (var.0 as int) < old(self)@.len(),
        ensures
            final(self)@ == old(self)@.update(var.0 as int, true),
    {
        self.0.set(var.0 as usize, true);
    }

    /// Assign `false` to the given variable.
    pub fn clear(&mut self, var: BddVariable)
        requires
            (var.0 as int) < old(self)@.len(),
        ensures
            final(self)@ == old(self)@.update(var.0 as int, false),
    {
        self.0.set(var.0 as usize, false);
    }

    /// The value assigned to the given variable.
    pub fn value(&self, var: BddVariable) -> (r: bool)
        requires
            (var.0 as int) < self@.len(),
        ensures
            r == self@[var.0 as int],
    {
        self.0[var.0 as usize]
    }

    /// How many variables this valuation assigns.
    pub fn num_vars(&self) -> (r: usize)
        ensures
            r == self@.len(),
    {
        self.0.len()
    }
}

/// The constraint a partial valuation places on one variable: its stored
/// entry inside the bounds of the backing vector, unconstrained outside.
pub open spec fn val_of(c: Seq<Option<bool>>, v: int) -> Option<bool> {
    if 0 <= v < c.len() {
        c[v]
    } else {
        None
    }
}

/// Whether the full valuation `m` satisfies every literal of the cube `c`.
pub open spec fn cube_matches(c: Seq<Option<bool>>, m: Seq<bool>) -> bool {
    forall|v: int|
        0 <= v < c.len() ==> match #[trigger] c[v] {
            Some(b) => 0 <= v < m.len() && m[v] == b,
            None => true,
        }
}

/// Whether the cube `c` constrains only variables below `n`.
pub open spec fn cube_valid(c: Seq<Option<bool>>, n: u16) -> bool {
    forall|v: int| n as int <= v < c.len() ==> (#[trigger] c[v]) is None
}

/// The constraint placed on variable `v` by a list of `(variable, value)`
/// pairs, the last entry winning.
pub open spec fn assigned(pairs: Seq<(BddVariable, bool)>, v: u16) -> Option<bool>
    decreases pairs.len(),
{
    if pairs.len() == 0 {
        None
    } else if pairs.last().0.0 == v {
        Some(pairs.last().1)
    } else {
        assigned(pairs.drop_last(), v)
    }
}

/// In a list of pairs with pairwise distinct variables, every entry is the
/// one its variable resolves to.
pub proof fn lemma_assigned_of_clean(pairs: Seq<(BddVariable, bool)>, q: int)
    requires
        0 <= q < pairs.len(),
        forall|i: int, j: int| 0 <= i < j < pairs.len() ==> (#[trigger] pairs[i]).0 != (
        #[trigger] pairs[j]).0,
    ensures
        assigned(pairs, pairs[q].0.0) == Some(pairs[q].1),
    decreases pairs.len(),
{
    if q == pairs.len() - 1 {
    } else {
        assert(pairs.last().0 != pairs[q].0);
        assert(pairs.drop_last()[q] == pairs[q]);
        lemma_assigned_of_clean(pairs.drop_last(), q);
    }
}

/// A resolved constraint comes from some entry of the list.
pub proof fn lemma_assigned_some(pairs: Seq<(BddVariable, bool)>, v: u16)
    requires
        assigned(pairs, v) is Some,
    ensures
        exists|j: int|
            0 <= j < pairs.len() && (#[trigger] pairs[j]).0.0 == v && Some(pairs[j].1) == assigned(
                pairs,
                v,
            ),
    decreases pairs.len(),
{
    if pairs.last().0.0 == v {
        assert(pairs[pairs.len() - 1].0.0 == v && Some(pairs[pairs.len() - 1].1) == assigned(
            pairs,
            v,
        ));
    } else {
        lemma_assigned_some(pairs.drop_last(), v);
        let j = choose|j: int|
            0 <= j < pairs.drop_last().len() && (#[trigger] pairs.drop_last()[j]).0.0 == v && Some(
                pairs.drop_last()[j].1,
            ) == assigned(pairs.drop_last(), v);
        assert(pairs[j] == pairs.drop_last()[j]);
        assert(pairs[j].0.0 == v && Some(pairs[j].1) == assigned(pairs, v));
    }
}

/// A sparse assignment: each variable is mapped to a Boolean value or left
/// unconstrained. A conjunction of literals (a cube) is written this way.
#[derive(Clone, Debug, PartialEq, Eq)]
pub struct BddPartialValuation(pub Vec<Option<bool>>);

impl View for BddPartialValuation {
    type V = Seq<Option<bool>>;

    open spec fn view(&self) -> Seq<Option<bool>> {
        self.0@
    }
}

impl BddPartialValuation {
    /// The partial valuation constraining nothing.
    pub fn empty() -> (r: BddPartialValuation)
        ensures
            r@.len() == 0,
    {
        BddPartialValuation(Vec::new())
    }

    /// The constraint placed on the given variable, if any.
    pub fn get_value(&self, var: BddVariable) -> (r: Option<bool>)
        ensures
            r == val_of(self@, var.0 as int),
    {
        if (var.0 as usize) < self.0.len() {
            self.0[var.0 as usize]
        } else {
            None
        }
    }

    /// Constrain the given variable to `value`.
    pub fn set_value(&mut self, var: BddVariable, value: bool)
        ensures
            final(self)@.len() == if old(self)@.len() >= var.0 as int + 1 {
                old(self)@.len() as int
            } else {
                var.0 as int + 1
            },
            forall|v: int|
                0 <= v < final(self)@.len() ==> final(self)@[v] == (if v == var.0 as int {
                    Some(value)
                } else {
                    val_of(old(self)@, v)
                }),
    {
        while self.0.len() < var.0 as usize + 1
            invariant
                forall|v: int|
                    0 <= v < self@.len() ==> #[trigger] self@[v] == val_of(old(self)@, v),
                self@.len() >= old(self)@.len(),
                old(self)@.len() >= var.0 as int + 1 ==> self@.len() == old(self)@.len(),
                old(self)@.len() < var.0 as int + 1 ==> self@.len() <= var.0 as int + 1,
            decreases var.0 as int + 1 - self@.len(),
        {
            self.0.push(None);
        }
        self.0.set(var.0 as usize, Some(value));
    }

    /// Remove any constraint on the given variable.
    pub fn unset_value(&mut self, var: BddVariable)
        ensures
            final(self)@.len() == old(self)@.len(),
            forall|v: int|
                0 <= v < final(self)@.len() ==> final(self)@[v] == (if v == var.0 as int {
                    None::<bool>
                } else {
                    val_of(old(self)@, v)
                }),
    {
        if (var.0 as usize) < self.0.len() {
            self.0.set(var.0 as usize, None);
        }
    }

    /// An entry-for-entry copy of this partial valuation.
    pub fn duplicate(&self) -> (r: BddPartialValuation)
        ensures
            r@ == self@,
    {
        let mut entries: Vec<Option<bool>> = Vec::new();
        let mut i: usize = 0;
        while i < self.0.len()
            invariant
                i <= self@.len(),
                entries@.len() == i,
                forall|q: int| 0 <= q < i ==> entries@[q] == self@[q],
            decreases self@.len() - i,
        {
            entries.push(self.0[i]);
            i = i + 1;
        }
        proof {
            assert(entries@ =~= self@);
        }
        BddPartialValuation(entries)
    }

    /// The partial valuation built by applying the given `(variable, value)`
    /// pairs in order, later entries overriding earlier ones.
    pub fn from_values(values: &[(BddVariable, bool)]) -> (r: BddPartialValuation)
        ensures
            forall|v: u16| val_of(r@, v as int) == assigned(values@, v),
    {
        let mut result = BddPartialValuation::empty();
        let mut i: usize = 0;
        while i < values.len()
            invariant
                i <= values@.len(),
                forall|v: u16| val_of(result@, v as int) == assigned(values@.take(i as int), v),
            decreases values@.len() - i,
        {
            let (var, value) = values[i];
            result.set_value(var, value);
            proof {
                assert(values@.take(i as int + 1).drop_last() =~= values@.take(i as int));
                assert(values@.take(i as int + 1).last() == values@[i as int]);
                assert forall|v: u16| val_of(result@, v as int) == assigned(
                    values@.take(i as int + 1),
                    v,
                ) by {
                    if v == var.0 {
                    } else {
                        assert(val_of(result@, v as int) == assigned(values@.take(i as int), v));
                    }
                }
            }
            i = i + 1;
        }
        proof {
            assert(values@.take(values@.len() as int) =~= values@);
        }
        result
    }
}

} // verus!
