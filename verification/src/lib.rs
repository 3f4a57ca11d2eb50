//! Reduced ordered binary decision diagrams (ROBDDs) stored as packed node
//! arrays. A diagram owns its nodes in DFS-postorder layout: index 0 is the
//! `0` terminal, index 1 the `1` terminal, the root is the last index.

use vstd::prelude::*;

pub mod semantics;
pub mod valuation;
pub mod apply;
pub mod restrict;
pub mod rng;
pub mod relation;
pub mod extract;
pub mod dnf;
pub mod laws;

pub use crate::valuation::{BddValuation, BddPartialValuation};
pub use crate::apply::BooleanOp;
use crate::semantics::{eval_ptr, nvars_of, one_node, wf, zero_node};

verus! {

/// The recoverable failures of diagram constructors and operators.
#[derive(Copy, Clone, Debug, PartialEq, Eq, Structural)]
pub enum BddError {
    /// A variable with index at or above the universe's variable count.
    InvalidVariable(BddVariable),
    /// Two literals of one cube name the same variable.
    DuplicateVariable(BddVariable),
    /// A binary operation was handed diagrams over different universes.
    ShapeMismatch { left: u16, right: u16 },
    /// The node count would leave the range a pointer can address.
    TooLarge,
}

/// Identifier of one Boolean variable of a diagram's universe.
#[derive(Copy, Clone, Debug, PartialEq, Eq, Structural, Hash)]
pub struct BddVariable(pub u16);

/// Index of one node inside a diagram's node array. Pointer 0 is the `0`
/// terminal and pointer 1 is the `1` terminal; larger values address
/// decision nodes.
#[derive(Copy, Clone, Debug, PartialEq, Eq, Structural, Hash)]
pub struct BddPointer(pub u32);

/// One node record: the tested variable together with the low and high
/// successor pointers. Terminal nodes carry the variable count itself as a
/// sentinel variable and point at themselves.
#[derive(Copy, Clone, Debug, PartialEq, Eq, Structural, Hash)]
pub struct BddNode {
    pub var: BddVariable,
    pub low_link: BddPointer,
    pub high_link: BddPointer,
}

/// An array-packed binary decision diagram.
#[derive(Clone, Debug, PartialEq, Eq)]
pub struct Bdd(pub Vec<BddNode>);

impl View for Bdd {
    type V = Seq<BddNode>;

    open spec fn view(&self) -> Seq<BddNode> {
        self.0@
    }
}

impl BddPointer {
    /// Pointer to the `0` terminal.
    pub fn zero() -> (r: Self)
        ensures
            r.0 == 0,
    {
        BddPointer(0)
    }

    /// Pointer to the `1` terminal.
    pub fn one() -> (r: Self)
        ensures
            r.0 == 1,
    {
        BddPointer(1)
    }

    pub fn is_zero(&self) -> (r: bool)
        ensures
            r == (self.0 == 0),
    {
        self.0 == 0
    }

    pub fn is_one(&self) -> (r: bool)
        ensures
            r == (self.0 == 1),
    {
        self.0 == 1
    }

    pub fn is_terminal(&self) -> (r: bool)
        ensures
            r == (self.0 < 2),
    {
        self.0 < 2
    }

    /// Terminal pointer for a Boolean constant.
    pub fn from_bool(value: bool) -> (r: Self)
        ensures
            r.0 == (if value { 1int } else { 0int }),
    {
        if value {
            BddPointer(1)
        } else {
            BddPointer(0)
        }
    }

    /// The pointer as a position in the node array.
    pub fn to_index(self) -> (r: usize)
        ensures
            r == self.0 as usize,
    {
        self.0 as usize
    }
}

impl BddNode {
    /// The `0` terminal node of a universe with `num_vars` variables.
    pub fn mk_zero(num_vars: u16) -> (r: BddNode)
        ensures
            r == zero_node(num_vars),
    {
        BddNode { var: BddVariable(num_vars), low_link: BddPointer(0), high_link: BddPointer(0) }
    }

    /// The `1` terminal node of a universe with `num_vars` variables.
    pub fn mk_one(num_vars: u16) -> (r: BddNode)
        ensures
            r == one_node(num_vars),
    {
        BddNode { var: BddVariable(num_vars), low_link: BddPointer(1), high_link: BddPointer(1) }
    }

    /// A decision node testing `var`.
    pub fn mk_node(var: BddVariable, low_link: BddPointer, high_link: BddPointer) -> (r: BddNode)
        ensures
            r == (BddNode { var, low_link, high_link }),
    {
        BddNode { var, low_link, high_link }
    }
}

impl Bdd {
    /// The structural well-formedness invariant: terminal prefix, agreeing
    /// variable counts, ordered variables, no redundant test, no duplicate
    /// node, children stored before parents.
    pub open spec fn inv(self) -> bool {
        wf(self@)
    }

    /// Number of variables of the universe this diagram speaks about.
    pub open spec fn nv(self) -> u16 {
        nvars_of(self@)
    }

    /// The Boolean function denoted by this diagram, on a full valuation.
    pub open spec fn sem(self, m: Seq<bool>) -> bool {
        eval_ptr(self@, self@.len() - 1, m)
    }

    /// The number of nodes in this diagram (terminals counted).
    pub fn size(&self) -> (r: usize)
        ensures
            r == self@.len(),
    {
        self.0.len()
    }

    /// Number of variables in the corresponding universe.
    pub fn num_vars(&self) -> (r: u16)
        requires
            self@.len() >= 1,
        ensures
            r == self.nv(),
    {
        self.0[0].var.0
    }

    /// Pointer to the root of the diagram: always the last node.
    pub fn root_pointer(&self) -> (r: BddPointer)
        requires
            1 <= self@.len() <= u32::MAX,
        ensures
            r.0 == self@.len() - 1,
    {
        BddPointer((self.0.len() - 1) as u32)
    }

    /// The low successor of the node at the given position.
    pub fn low_link_of(&self, node: &BddPointer) -> (r: BddPointer)
        requires
            node.0 < self@.len(),
        ensures
            r == self@[node.0 as int].low_link,
    {
        self.0[node.0 as usize].low_link
    }

    /// The high successor of the node at the given position.
    pub fn high_link_of(&self, node: &BddPointer) -> (r: BddPointer)
        requires
            node.0 < self@.len(),
        ensures
            r == self@[node.0 as int].high_link,
    {
        self.0[node.0 as usize].high_link
    }

    /// The decision variable of the node at the given position. Terminal
    /// nodes do not have one, so they are ruled out here.
    pub fn var_of(&self, node: &BddPointer) -> (r: BddVariable)
        requires
            2 <= node.0 < self@.len(),
        ensures
            r == self@[node.0 as int].var,
    {
        self.0[node.0 as usize].var
    }

    /// A new diagram for the `false` function: the `0` terminal alone.
    pub fn mk_false(num_vars: u16) -> (r: Bdd)
        ensures
            r.inv(),
            r.nv() == num_vars,
            r@.len() == 1,
            forall|m: Seq<bool>| !r.sem(m),
    {
        let nodes: Vec<BddNode> = vec![BddNode::mk_zero(num_vars)];
        Bdd(nodes)
    }

    /// A new diagram for the `true` function: both terminals, rooted at `1`.
    pub fn mk_true(num_vars: u16) -> (r: Bdd)
        ensures
            r.inv(),
            r.nv() == num_vars,
            r@.len() == 2,
            forall|m: Seq<bool>| r.sem(m),
    {
        let nodes: Vec<BddNode> = vec![BddNode::mk_zero(num_vars), BddNode::mk_one(num_vars)];
        Bdd(nodes)
    }

    /// The diagram of the positive literal `var`: a single decision node
    /// with the `0` terminal as low successor and the `1` terminal as high.
    pub fn mk_var(num_vars: u16, var: BddVariable) -> (r: Bdd)
        requires
            (var.0 as int) < num_vars as int,
        ensures
            r.inv(),
            r.nv() == num_vars,
            r@.len() == 3,
            forall|m: Seq<bool>|
                m.len() == num_vars as int ==> #[trigger] r.sem(m) == m[var.0 as int],
    {
        Bdd::mk_literal(num_vars, var, true)
    }

    /// The diagram of the negative literal `!var`.
    pub fn mk_not_var(num_vars: u16, var: BddVariable) -> (r: Bdd)
        requires
            (var.0 as int) < num_vars as int,
        ensures
            r.inv(),
            r.nv() == num_vars,
            r@.len() == 3,
            forall|m: Seq<bool>|
                m.len() == num_vars as int ==> #[trigger] r.sem(m) == !m[var.0 as int],
    {
        Bdd::mk_literal(num_vars, var, false)
    }

    /// The diagram of one literal: satisfied exactly when `var` carries
    /// `value`.
    pub fn mk_literal(num_vars: u16, var: BddVariable, value: bool) -> (r: Bdd)
        requires
            (var.0 as int) < num_vars as int,
        ensures
            r.inv(),
            r.nv() == num_vars,
            r@.len() == 3,
            forall|m: Seq<bool>|
                m.len() == num_vars as int ==> #[trigger] r.sem(m) == (m[var.0 as int] == value),
    {
        let (lo, hi): (u32, u32) = if value {
            (0, 1)
        } else {
            (1, 0)
        };
        let nodes: Vec<BddNode> = vec![
            BddNode::mk_zero(num_vars),
            BddNode::mk_one(num_vars),
            BddNode { var, low_link: BddPointer(lo), high_link: BddPointer(hi) },
        ];
        let r = Bdd(nodes);
        proof {
            assert(r@[0] == zero_node(num_vars));
            assert(r@[1] == one_node(num_vars));
            assert(crate::semantics::node_ok(r@, num_vars, 2));
            assert forall|m: Seq<bool>| m.len() == num_vars as int implies #[trigger] r.sem(m) == (
            m[var.0 as int] == value) by {
                assert(eval_ptr(r@, 0, m) == false);
                assert(eval_ptr(r@, 1, m) == true);
                assert(r.sem(m) == eval_ptr(r@, 2, m));
            }
        }
        r
    }

    /// True exactly when this diagram is the canonical `true` diagram.
    pub fn is_true(&self) -> (r: bool)
        ensures
            r == (self@.len() == 2),
    {
        self.0.len() == 2
    }

    /// True exactly when this diagram is the canonical `false` diagram.
    pub fn is_false(&self) -> (r: bool)
        ensures
            r == (self@.len() == 1),
    {
        self.0.len() == 1
    }

    /// Evaluate this diagram on a full valuation by walking from the root.
    pub fn eval(&self, valuation: &BddValuation) -> (r: bool)
        requires
            self.inv(),
            valuation@.len() == self.nv() as int,
        ensures
            r == self.sem(valuation@),
    {
        let mut node: u32 = (self.0.len() - 1) as u32;
        while node >= 2
            invariant
                self.inv(),
                valuation@.len() == self.nv() as int,
                (node as int) < self@.len(),
                self.sem(valuation@) == eval_ptr(self@, node as int, valuation@),
            decreases node,
        {
            proof {
                assert(crate::semantics::node_ok(self@, self.nv(), node as int));
            }
            let nd = self.0[node as usize];
            node = if valuation.0[nd.var.0 as usize] {
                nd.high_link.0
            } else {
                nd.low_link.0
            };
        }
        node == 1
    }

    /// Append a node, making it the new root. This is the raw builder step
    /// used by the constructors; callers are responsible for keeping the
    /// layout invariants.
    pub fn push_node(&mut self, node: BddNode)
        ensures
            final(self)@ == old(self)@.push(node),
    {
        self.0.push(node);
    }

    /// All positions of this diagram in array order, terminals first.
    pub fn pointers(&self) -> (r: Vec<BddPointer>)
        requires
            self@.len() <= u32::MAX,
        ensures
            r@.len() == self@.len(),
            forall|i: int| 0 <= i < r@.len() ==> (#[trigger] r@[i]).0 == i,
    {
        let mut out: Vec<BddPointer> = Vec::new();
        let mut i: usize = 0;
        while i < self.0.len()
            invariant
                i <= self@.len(),
                self@.len() <= u32::MAX,
                out@.len() == i,
                forall|j: int| 0 <= j < i ==> (#[trigger] out@[j]).0 == j,
            decreases self@.len() - i,
        {
            out.push(BddPointer(i as u32));
            i = i + 1;
        }
        out
    }
}

} // verus!
