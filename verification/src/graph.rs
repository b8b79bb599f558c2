//! The equivalence graph: classes of interchangeable nodes, stored by index.

use vstd::prelude::*;

verus! {

/// Operation kind of a node of the arithmetic language.
#[derive(Clone, Copy, Debug, PartialEq, Eq, Structural)]
pub enum Op {
    Constant(i32),
    Add,
    Mul,
    Minus,
    Rot,
    SumVec,
    Neg,
    Square,
    Mod,
    Symbol(u32),
}

/// One operation together with the identifiers of its operand classes.
#[derive(Debug)]
pub struct Node {
    pub op: Op,
    pub children: Vec<usize>,
}

impl Node {
    /// A node without operands.
    pub open spec fn is_leaf_spec(&self) -> bool {
        self.children@.len() == 0
    }

/// Whether the node has no operands.
    pub fn is_leaf(&self) -> (r: bool)
        ensures
            r == self.is_leaf_spec(),
    {
        self.children.len() == 0
    }

    /// The same operation over the same operands.
    pub open spec fn same_as(&self, other: &Node) -> bool {
        self.op == other.op && self.children@ == other.children@
    }

/// A copy of the node.
    pub fn duplicate(&self) -> (r: Node)
        ensures
            r.same_as(self),
    {
        let mut children: Vec<usize> = Vec::new();
        let mut k: usize = 0;
        while k < self.children.len()
            invariant
                k <= self.children.len(),
                children@ == self.children@.take(k as int),
            decreases self.children.len() - k,
        {
            children.push(self.children[k]);
            k = k + 1;
        }
        assert(self.children@.take(self.children@.len() as int) == self.children@);
        Node { op: self.op, children }
    }
}

/// An equivalence class of nodes.
#[derive(Debug)]
pub struct EClass {
    /// This class's identifier.
    pub id: usize,
    /// The interchangeable nodes of the class.
    pub nodes: Vec<Node>,
    /// The constant that the class is known to denote, if any.
    pub data: Option<i32>,
}

impl EClass {
    /// Whether the class holds no node.
    pub fn is_empty(&self) -> (r: bool)
        ensures
            r == (self.nodes@.len() == 0),
    {
        self.nodes.len() == 0
    }

    /// The number of nodes in the class.
    pub fn len(&self) -> (r: usize)
        ensures
            r == self.nodes@.len(),
    {
        self.nodes.len()
    }

    /// The nodes of the class, in order.
    pub fn iter(&self) -> (r: &[Node])
        ensures
            r@ == self.nodes@,
    {
        self.nodes.as_slice()
    }

    /// Removes the first `length` nodes and keeps the rest in order.
    pub fn clear_nodes(&mut self, length: usize)
        requires
            length <= old(self).nodes@.len(),
        ensures
            final(self).nodes@ == old(self).nodes@.subrange(
                length as int,
                old(self).nodes@.len() as int,
            ),
            final(self).id == old(self).id,
            final(self).data == old(self).data,
    {
        let rest = self.nodes.split_off(length);
        self.nodes = rest;
    }

    /// The positions below `upto` whose node has no operand, ascending.
    pub open spec fn leaf_positions(&self, upto: int) -> Seq<int>
        decreases upto,
    {
        if upto <= 0 {
            Seq::empty()
        } else if self.nodes@[upto - 1].is_leaf_spec() {
            self.leaf_positions(upto - 1).push(upto - 1)
        } else {
            self.leaf_positions(upto - 1)
        }
    }

    /// The nodes without operands, in the order in which the class holds
    /// them.
    pub fn leaves(&self) -> (r: Vec<&Node>)
        ensures
            r@.len() == self.leaf_positions(self.nodes@.len() as int).len(),
            forall|k: int|
                0 <= k < r@.len() ==> *(#[trigger] r@[k]) == self.nodes@[self.leaf_positions(
                    self.nodes@.len() as int,
                )[k]],
    {
        let mut out: Vec<&Node> = Vec::new();
        let mut i: usize = 0;
        while i < self.nodes.len()
            invariant
                i <= self.nodes.len(),
                out@.len() == self.leaf_positions(i as int).len(),
                forall|k: int|
                    0 <= k < out@.len() ==> *(#[trigger] out@[k]) == self.nodes@[self.leaf_positions(
                        i as int,
                    )[k]],
            decreases self.nodes.len() - i,
        {
            if self.nodes[i].is_leaf() {
                out.push(&self.nodes[i]);
            }
            i = i + 1;
        }
        out
    }
}

impl EClass {
    /// All nodes without operands are the same node: they have no operands
    /// to differ in, so they are the same operation.
    pub open spec fn unique_leaves_spec(&self) -> bool {
        forall|i: int, k: int|
            0 <= i < self.nodes@.len() && 0 <= k < self.nodes@.len() && (
            #[trigger] self.nodes@[i]).is_leaf_spec() && (#[trigger] self.nodes@[k]).is_leaf_spec()
                ==> self.nodes@[i].op == self.nodes@[k].op
    }

    /// Whether the nodes without operands are all the same node.
    pub fn unique_leaves(&self) -> (r: bool)
        ensures
            r == self.unique_leaves_spec(),
    {
        let mut first: Option<usize> = None;
        let mut i: usize = 0;
        while i < self.nodes.len()
            invariant
                i <= self.nodes@.len(),
                first.is_none() ==> forall|k: int| 0 <= k < i ==> !(#[trigger] self.nodes@[k]).is_leaf_spec(),
                first.is_some() ==> first.unwrap() < i && self.nodes@[first.unwrap() as int].is_leaf_spec()
                    && forall|k: int|
                    0 <= k < i && (#[trigger] self.nodes@[k]).is_leaf_spec() ==> self.nodes@[k].op
                        == self.nodes@[first.unwrap() as int].op,
            decreases self.nodes.len() - i,
        {
            if self.nodes[i].is_leaf() {
                match first {
                    None => {
                        first = Some(i);
                    },
                    Some(f) => {
                        if !(self.nodes[i].op == self.nodes[f].op) {
                            return false;
                        }
                    },
                }
            }
            i = i + 1;
        }
        true
    }

    /// States that the nodes without operands are all the same node: it
    /// may only be called on a class of which this holds.
    pub fn assert_unique_leaves(&self)
        requires
            self.unique_leaves_spec(),
    {
    }
}

/// The constant-folding analysis: what is known of a class's value.
#[derive(Clone, Copy, Debug, Default)]
pub struct ConstantFold;

impl ConstantFold {
    /// Whether a merge replaces the target's knowledge: only where the
    /// target knew nothing and the source knows a constant.
    pub fn merge(&self, to: &Option<i32>, from: Option<i32>) -> (r: bool)
        ensures
            r == (to.is_none() && from.is_some()),
    {
        to.is_none() && from.is_some()
    }
}

/// A finished equivalence graph. Class `k` stands at position `k`; every
/// identifier below `canon.len()` resolves to the position of its class.
#[derive(Debug)]
pub struct EGraph {
    pub classes: Vec<EClass>,
    pub canon: Vec<usize>,
}

impl EGraph {
    /// Well-formedness: identifiers resolve to classes, a class's own
    /// position is its canonical identifier, and operands are identifiers.
    pub open spec fn wf(&self) -> bool {
        &&& self.classes@.len() <= self.canon@.len()
        &&& forall|i: int| 0 <= i < self.canon@.len() ==> #[trigger] self.canon@[i] < self.classes@.len()
        &&& forall|k: int|
            0 <= k < self.classes@.len() ==> self.canon@[k] == k && (#[trigger] self.classes@[k]).id
                == k
        &&& forall|k: int, j: int, m: int|
            0 <= k < self.classes@.len() && 0 <= j < self.classes@[k].nodes@.len() && 0 <= m
                < self.classes@[k].nodes@[j].children@.len()
                ==> #[trigger] self.classes@[k].nodes@[j].children@[m] < self.canon@.len()
    }

    /// Every class holds at least one node.
    pub open spec fn populated(&self) -> bool {
        forall|k: int| 0 <= k < self.classes@.len() ==> (#[trigger] self.classes@[k]).nodes@.len() > 0
    }

    /// The class that identifier `id` resolves to.
    pub open spec fn find_spec(&self, id: int) -> int {
        self.canon@[id] as int
    }

    /// The class of operand `m` of node `j` of class `k`.
    pub open spec fn child(&self, k: int, j: int, m: int) -> int {
        self.find_spec(self.classes@[k].nodes@[j].children@[m] as int)
    }

    /// Canonicalizes an identifier.
    pub fn find(&self, id: usize) -> (r: usize)
        requires
            self.wf(),
            id < self.canon@.len(),
        ensures
            r == self.find_spec(id as int),
            r < self.classes@.len(),
    {
        self.canon[id]
    }

    /// The number of nodes in the first `upto` classes.
    pub open spec fn node_count(&self, upto: int) -> nat
        decreases upto,
    {
        if upto <= 0 {
            0
        } else {
            self.node_count(upto - 1) + self.classes@[upto - 1].nodes@.len()
        }
    }

    /// The number of nodes in the graph, or `u64::MAX` where it is larger.
    pub fn total_number_of_nodes(&self) -> (r: u64)
        ensures
            r == if self.node_count(self.classes@.len() as int) <= u64::MAX {
                self.node_count(self.classes@.len() as int)
            } else {
                u64::MAX as nat
            },
    {
        let mut total: u64 = 0;
        let mut k: usize = 0;
        while k < self.classes.len()
            invariant
                k <= self.classes.len(),
                total == if self.node_count(k as int) <= u64::MAX {
                    self.node_count(k as int)
                } else {
                    u64::MAX as nat
                },
            decreases self.classes.len() - k,
        {
            let n: u64 = self.classes[k].nodes.len() as u64;
            total = if n > u64::MAX - total {
                u64::MAX
            } else {
                total + n
            };
            k = k + 1;
        }
        total
    }
}

} // verus!
