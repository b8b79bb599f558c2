//! Cost tuples, the weights that rank them, and the pluggable cost function.

use vstd::prelude::*;
use crate::graph::{Node, Op};

verus! {

/// The three components of a cost.
#[derive(Clone, Copy, Debug, PartialEq, Eq, Structural)]
pub struct Cost {
    pub depth: i64,
    pub mul_depth: i64,
    pub op_cost: i64,
}

/// The tunable constants of one extraction policy: the weights of the three
/// cost components, and the unit costs of an operation and of a literal.
#[derive(Clone, Copy, Debug, PartialEq, Eq, Structural)]
pub struct Config {
    pub alpha: u32,
    pub beta: u32,
    pub gamma: u32,
    pub op: u32,
    pub literal: u32,
}

impl Config {
    /// The weighted sum by which costs are ranked.
    pub open spec fn scalar_spec(&self, c: Cost) -> int {
        self.alpha * c.depth + self.beta * c.mul_depth + self.gamma * c.op_cost
    }

/// The weighted sum of `c`, computed.
    pub fn scalar(&self, c: &Cost) -> (r: i128)
        ensures
            r == self.scalar_spec(*c),
    {
        let a: i128 = self.alpha as i128;
        let b: i128 = self.beta as i128;
        let g: i128 = self.gamma as i128;
        let d: i128 = c.depth as i128;
        let m: i128 = c.mul_depth as i128;
        let o: i128 = c.op_cost as i128;
        proof {
            lemma_product_bound(a as int, d as int);
            lemma_product_bound(b as int, m as int);
            lemma_product_bound(g as int, o as int);
        }
        a * d + b * m + g * o
    }

    /// What one shared class of the given kind takes off a parent's
    /// operation cost.
    pub open spec fn shared_unit_spec(&self, op: Op) -> int {
        match op {
            Op::Add | Op::Minus | Op::Neg => self.op as int,
            Op::Rot => self.op * 50,
            Op::Square => self.op * 80,
            Op::Mul => self.op * 100,
            _ => self.literal as int,
        }
    }

/// The unit that a shared class of kind `op` takes off, computed.
    pub fn shared_unit(&self, op: Op) -> (r: i64)
        ensures
            r == self.shared_unit_spec(op),
    {
        let unit: i64 = self.op as i64;
        match op {
            Op::Add | Op::Minus | Op::Neg => unit,
            Op::Rot => unit * 50,
            Op::Square => unit * 80,
            Op::Mul => unit * 100,
            _ => self.literal as i64,
        }
    }
}

/// A weight times a component stays far inside `i128`.
pub proof fn lemma_product_bound(w: int, x: int)
    requires
        0 <= w <= u32::MAX,
        i64::MIN <= x <= i64::MAX,
    ensures
        -0x8000_0000_0000_0000_0000_0000 <= w * x <= 0x8000_0000_0000_0000_0000_0000,
{
    assert(w * x <= 0x8000_0000_0000_0000_0000_0000) by (nonlinear_arith)
        requires
            0 <= w <= 0xffff_ffff,
            x <= 0x7fff_ffff_ffff_ffff,
    ;
    assert(w * x >= -0x8000_0000_0000_0000_0000_0000) by (nonlinear_arith)
        requires
            0 <= w <= 0xffff_ffff,
            x >= -0x8000_0000_0000_0000,
    ;
}

/// Whether `a` ranks strictly before `b`: an unknown cost is worse than any
/// known one, and known costs rank by their weighted sum.
pub open spec fn rank_less(cfg: Config, a: Option<Cost>, b: Option<Cost>) -> bool {
    match (a, b) {
        (Some(x), Some(y)) => cfg.scalar_spec(x) < cfg.scalar_spec(y),
        (Some(_), None) => true,
        _ => false,
    }
}

/// Whether `a` ranks strictly before `b`, computed.
pub fn is_better(cfg: &Config, a: &Option<Cost>, b: &Option<Cost>) -> (r: bool)
    ensures
        r == rank_less(*cfg, *a, *b),
{
    match (a, b) {
        (Some(x), Some(y)) => cfg.scalar(x) < cfg.scalar(y),
        (Some(_), None) => true,
        _ => false,
    }
}

/// Operation kinds whose result is computed at run time rather than known
/// as a constant.
pub open spec fn non_constant_spec(op: Op) -> bool {
    matches!(op, Op::Add | Op::Rot | Op::Mul | Op::Minus | Op::Square)
}

/// Whether `op` is of a non-constant kind, computed.
pub fn non_constant(op: Op) -> (r: bool)
    ensures
        r == non_constant_spec(op),
{
    match op {
        Op::Add | Op::Rot | Op::Mul | Op::Minus | Op::Square => true,
        _ => false,
    }
}

/// The nearest `i64` to `x`.
pub open spec fn clamp(x: int) -> i64 {
    if x < i64::MIN {
        i64::MIN
    } else if x > i64::MAX {
        i64::MAX
    } else {
        x as i64
    }
}

/// The largest of `kids`, and 0 where there is none or all are negative.
pub open spec fn max_of(kids: Seq<i64>) -> int
    decreases kids.len(),
{
    if kids.len() == 0 {
        0
    } else if kids.last() > max_of(kids.drop_last()) {
        kids.last() as int
    } else {
        max_of(kids.drop_last())
    }
}

/// The sum of `kids`.
pub open spec fn sum_of(kids: Seq<i64>) -> int
    decreases kids.len(),
{
    if kids.len() == 0 {
        0
    } else {
        sum_of(kids.drop_last()) + kids.last()
    }
}

/// A cost function: the cost of a node from its operation and from the
/// costs already known of its operands, one value per operand in order.
pub trait CostFunction {
/// The depth of a node of kind `op` over operands of depths `kids`.
    spec fn depth_of(&self, op: Op, kids: Seq<i64>) -> i64;

/// The multiplicative depth of a node of kind `op` over operands of
/// multiplicative depths `kids`.
    spec fn mul_depth_of(&self, op: Op, kids: Seq<i64>) -> i64;

/// The operation cost of a node of kind `op` over operands of operation
/// costs `kids`.
    spec fn op_costs_of(&self, op: Op, kids: Seq<i64>) -> i64;

/// Computes the depth of `node`.
    fn depth(&self, node: &Node, kids: &Vec<i64>) -> (r: i64)
        requires
            kids@.len() == node.children@.len(),
        ensures
            r == self.depth_of(node.op, kids@),
    ;

/// Computes the multiplicative depth of `node`.
    fn mul_depth(&self, node: &Node, kids: &Vec<i64>) -> (r: i64)
        requires
            kids@.len() == node.children@.len(),
        ensures
            r == self.mul_depth_of(node.op, kids@),
    ;

/// Computes the operation cost of `node`.
    fn op_costs(&self, node: &Node, kids: &Vec<i64>) -> (r: i64)
        requires
            kids@.len() == node.children@.len(),
        ensures
            r == self.op_costs_of(node.op, kids@),
    ;
}

/// The additive cost model: a node is one level deeper than its deepest
/// operand, a multiplication or squaring adds one multiplicative level, and
/// the operation cost is the node's own unit plus that of its operands.
/// Results that leave `i64` stop at its ends.
#[derive(Clone, Copy, Debug)]
pub struct StepCost {
    /// What one node adds to the depth.
    pub level: u32,
    /// What one multiplication adds to the multiplicative depth.
    pub mul_level: u32,
    /// The unit cost of an addition, subtraction or negation.
    pub op: u32,
    /// The unit cost of a leaf.
    pub literal: u32,
}

impl StepCost {
    /// The operation cost of one node of the given kind, operands apart.
    pub open spec fn unit_spec(&self, op: Op) -> int {
        match op {
            Op::Add | Op::Minus | Op::Neg => self.op as int,
            Op::Rot => self.op * 50,
            Op::Square => self.op * 80,
            Op::Mul => self.op * 100,
            _ => self.literal as int,
        }
    }

/// The operation cost of one node of kind `op`, computed.
    pub fn unit(&self, op: Op) -> (r: i64)
        ensures
            r == self.unit_spec(op),
    {
        let unit: i64 = self.op as i64;
        match op {
            Op::Add | Op::Minus | Op::Neg => unit,
            Op::Rot => unit * 50,
            Op::Square => unit * 80,
            Op::Mul => unit * 100,
            _ => self.literal as i64,
        }
    }
}

/// The largest of `kids` or 0, computed.
pub fn largest(kids: &Vec<i64>) -> (r: i64)
    ensures
        r == max_of(kids@),
        r >= 0,
{
    let mut best: i64 = 0;
    let mut k: usize = 0;
    while k < kids.len()
        invariant
            k <= kids.len(),
            best == max_of(kids@.take(k as int)),
            best >= 0,
        decreases kids.len() - k,
    {
        assert(kids@.take(k + 1).drop_last() == kids@.take(k as int));
        if kids[k] > best {
            best = kids[k];
        }
        k = k + 1;
    }
    assert(kids@.take(kids@.len() as int) == kids@);
    best
}

/// The sum of `kids`, computed.
pub fn total(kids: &Vec<i64>) -> (r: i128)
    ensures
        r == sum_of(kids@),
{
    let mut acc: i128 = 0;
    let mut k: usize = 0;
    while k < kids.len()
        invariant
            k <= kids.len(),
            acc == sum_of(kids@.take(k as int)),
            -0x8000_0000_0000_0000 * k <= acc <= 0x8000_0000_0000_0000 * k,
        decreases kids.len() - k,
    {
        assert(kids@.take(k + 1).drop_last() == kids@.take(k as int));
        acc = acc + kids[k] as i128;
        k = k + 1;
    }
    assert(kids@.take(kids@.len() as int) == kids@);
    acc
}

/// The nearest `i64` to `x`, computed.
pub fn clamp_to_i64(x: i128) -> (r: i64)
    ensures
        r == clamp(x as int),
{
    if x < i64::MIN as i128 {
        i64::MIN
    } else if x > i64::MAX as i128 {
        i64::MAX
    } else {
        x as i64
    }
}

impl CostFunction for StepCost {
    open spec fn depth_of(&self, op: Op, kids: Seq<i64>) -> i64 {
        clamp(self.level + max_of(kids))
    }

    open spec fn mul_depth_of(&self, op: Op, kids: Seq<i64>) -> i64 {
        if op == Op::Mul || op == Op::Square {
            clamp(self.mul_level + max_of(kids))
        } else {
            clamp(max_of(kids))
        }
    }

    open spec fn op_costs_of(&self, op: Op, kids: Seq<i64>) -> i64 {
        clamp(self.unit_spec(op) + sum_of(kids))
    }

    fn depth(&self, node: &Node, kids: &Vec<i64>) -> (r: i64) {
        let top: i64 = largest(kids);
        clamp_to_i64(self.level as i128 + top as i128)
    }

    fn mul_depth(&self, node: &Node, kids: &Vec<i64>) -> (r: i64) {
        let top: i64 = largest(kids);
        match node.op {
            Op::Mul | Op::Square => clamp_to_i64(self.mul_level as i128 + top as i128),
            _ => top,
        }
    }

    fn op_costs(&self, node: &Node, kids: &Vec<i64>) -> (r: i64) {
        let sum: i128 = total(kids);
        let unit: i64 = self.unit(node.op);
        if sum > 0x4000_0000_0000_0000_0000_0000_0000 {
            i64::MAX
        } else if sum < -0x4000_0000_0000_0000_0000_0000_0000 {
            i64::MIN
        } else {
            clamp_to_i64(unit as i128 + sum)
        }
    }
}

} // verus!
