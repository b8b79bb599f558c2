use egraphs::cost::{CostFunction, Config, Cost, StepCost};
use egraphs::graph::{ConstantFold, EClass, EGraph, Node, Op};
use egraphs::order::cmp;
use egraphs::rules::{rules, RuleSet};
use std::cmp::Ordering;

fn leaf(value: i32) -> Node {
    Node { op: Op::Constant(value), children: vec![] }
}

fn node(op: Op, children: Vec<usize>) -> Node {
    Node { op, children }
}

fn class(id: usize, nodes: Vec<Node>) -> EClass {
    EClass { id, nodes, data: None }
}

#[test]
fn empty_class_reports_empty() {
    let c = class(0, vec![]);
    assert!(c.is_empty());
    assert_eq!(c.len(), 0);
    assert_eq!(c.iter().len(), 0);
}

#[test]
fn class_len_and_iter_follow_nodes() {
    let c = class(3, vec![leaf(1), node(Op::Neg, vec![3]), leaf(7)]);
    assert!(!c.is_empty());
    assert_eq!(c.len(), 3);
    let ops: Vec<Op> = c.iter().iter().map(|n| n.op).collect();
    assert_eq!(ops, vec![Op::Constant(1), Op::Neg, Op::Constant(7)]);
}

#[test]
fn clear_nodes_drops_the_front() {
    let mut c = class(1, vec![leaf(1), leaf(2), leaf(3)]);
    c.clear_nodes(2);
    assert_eq!(c.len(), 1);
    assert_eq!(c.nodes[0].op, Op::Constant(3));
    assert_eq!(c.id, 1);
    c.clear_nodes(0);
    assert_eq!(c.len(), 1);
    c.clear_nodes(1);
    assert!(c.is_empty());
}

#[test]
fn leaves_keep_order_and_skip_operations() {
    let c = class(
        0,
        vec![node(Op::Add, vec![1, 2]), leaf(4), node(Op::Neg, vec![1]), node(Op::Symbol(9), vec![])],
    );
    let leaves = c.leaves();
    assert_eq!(leaves.len(), 2);
    assert_eq!(leaves[0].op, Op::Constant(4));
    assert_eq!(leaves[1].op, Op::Symbol(9));
}

#[test]
fn node_duplicate_is_the_same_node() {
    let n = node(Op::Mul, vec![4, 2]);
    let d = n.duplicate();
    assert_eq!(d.op, Op::Mul);
    assert_eq!(d.children, vec![4, 2]);
    assert!(!n.is_leaf());
    assert!(leaf(0).is_leaf());
}

#[test]
fn merge_only_fills_unknown_targets() {
    let fold = ConstantFold;
    assert!(fold.merge(&None, Some(3)));
    assert!(!fold.merge(&Some(1), Some(3)));
    assert!(!fold.merge(&None, None));
    assert!(!fold.merge(&Some(1), None));
}

#[test]
fn find_resolves_aliases() {
    let g = EGraph { classes: vec![class(0, vec![leaf(1)]), class(1, vec![leaf(2)])], canon: vec![0, 1, 1, 0] };
    assert_eq!(g.find(0), 0);
    assert_eq!(g.find(1), 1);
    assert_eq!(g.find(2), 1);
    assert_eq!(g.find(3), 0);
    assert_eq!(g.total_number_of_nodes(), 2);
}

#[test]
fn scalar_is_the_weighted_sum() {
    let cfg = Config { alpha: 2, beta: 3, gamma: 5, op: 1, literal: 1 };
    let c = Cost { depth: 7, mul_depth: -1, op_cost: 11 };
    assert_eq!(cfg.scalar(&c), 2 * 7 - 3 + 5 * 11);
    let wide = Config { alpha: u32::MAX, beta: u32::MAX, gamma: u32::MAX, op: 1, literal: 1 };
    let top = Cost { depth: i64::MAX, mul_depth: i64::MAX, op_cost: i64::MAX };
    assert_eq!(wide.scalar(&top), 3 * (u32::MAX as i128) * (i64::MAX as i128));
}

#[test]
fn shared_units_follow_the_kind_table() {
    let cfg = Config { alpha: 1, beta: 1, gamma: 1, op: 2, literal: 7 };
    assert_eq!(cfg.shared_unit(Op::Add), 2);
    assert_eq!(cfg.shared_unit(Op::Minus), 2);
    assert_eq!(cfg.shared_unit(Op::Neg), 2);
    assert_eq!(cfg.shared_unit(Op::Rot), 100);
    assert_eq!(cfg.shared_unit(Op::Square), 160);
    assert_eq!(cfg.shared_unit(Op::Mul), 200);
    assert_eq!(cfg.shared_unit(Op::Constant(4)), 7);
    assert_eq!(cfg.shared_unit(Op::Symbol(0)), 7);
    assert_eq!(cfg.shared_unit(Op::SumVec), 7);
    assert_eq!(cfg.shared_unit(Op::Mod), 7);
}

#[test]
fn unknown_cost_is_greater_than_known() {
    let cfg = Config { alpha: 1, beta: 1, gamma: 1, op: 1, literal: 1 };
    let a = Some(Cost { depth: 100, mul_depth: 100, op_cost: 100 });
    assert_eq!(cmp(&cfg, &None, &None), Ordering::Equal);
    assert_eq!(cmp(&cfg, &None, &a), Ordering::Greater);
    assert_eq!(cmp(&cfg, &a, &None), Ordering::Less);
}

#[test]
fn known_costs_compare_by_weighted_sum() {
    let cfg = Config { alpha: 1, beta: 0, gamma: 2, op: 1, literal: 1 };
    let a = Some(Cost { depth: 4, mul_depth: 50, op_cost: 1 });
    let b = Some(Cost { depth: 0, mul_depth: 0, op_cost: 3 });
    let c = Some(Cost { depth: 7, mul_depth: 0, op_cost: 0 });
    assert_eq!(cmp(&cfg, &a, &b), Ordering::Equal);
    assert_eq!(cmp(&cfg, &a, &c), Ordering::Less);
    assert_eq!(cmp(&cfg, &c, &a), Ordering::Greater);
}

#[test]
fn step_cost_adds_units_and_levels() {
    let cf = StepCost { level: 1, mul_level: 1, op: 1, literal: 1 };
    let add = node(Op::Add, vec![0, 1]);
    let mul = node(Op::Mul, vec![0, 1]);
    let sq = node(Op::Square, vec![0]);
    assert_eq!(cf.depth(&add, &vec![2, 5]), 6);
    assert_eq!(cf.mul_depth(&add, &vec![2, 5]), 5);
    assert_eq!(cf.mul_depth(&mul, &vec![2, 5]), 6);
    assert_eq!(cf.mul_depth(&sq, &vec![3]), 4);
    assert_eq!(cf.op_costs(&add, &vec![2, 5]), 8);
    assert_eq!(cf.op_costs(&mul, &vec![2, 5]), 107);
    assert_eq!(cf.op_costs(&sq, &vec![3]), 83);
    assert_eq!(cf.op_costs(&node(Op::Rot, vec![0, 1]), &vec![0, 0]), 50);
    assert_eq!(cf.op_costs(&leaf(3), &vec![]), 1);
    assert_eq!(cf.depth(&leaf(3), &vec![]), 1);
}

#[test]
fn step_cost_stops_at_the_ends_of_i64() {
    let cf = StepCost { level: 1, mul_level: 1, op: 1, literal: 1 };
    let add = node(Op::Add, vec![0, 1]);
    assert_eq!(cf.op_costs(&add, &vec![i64::MAX, i64::MAX]), i64::MAX);
    assert_eq!(cf.op_costs(&add, &vec![i64::MIN, i64::MIN]), i64::MIN);
    assert_eq!(cf.depth(&add, &vec![i64::MAX, 0]), i64::MAX);
    assert_eq!(cf.depth(&add, &vec![-5, -9]), 1);
}

#[test]
fn leaves_of_one_kind_are_unique() {
    let same = class(0, vec![leaf(4), node(Op::Add, vec![1, 2]), leaf(4)]);
    assert!(same.unique_leaves());
    same.assert_unique_leaves();
    let differ = class(0, vec![leaf(4), node(Op::Add, vec![1, 2]), leaf(5)]);
    assert!(!differ.unique_leaves());
    let mixed = class(0, vec![leaf(4), node(Op::Symbol(4), vec![])]);
    assert!(!mixed.unique_leaves());
    assert!(class(0, vec![node(Op::Neg, vec![0])]).unique_leaves());
    assert!(class(0, vec![]).unique_leaves());
}

#[test]
fn rule_sets_follow_the_switches() {
    assert_eq!(rules(8, true, true), vec![RuleSet::Axiomatic(8), RuleSet::Rotation(8)]);
    assert_eq!(rules(8, false, true), vec![RuleSet::Specific(8), RuleSet::Rotation(8)]);
    assert_eq!(rules(4, true, false), vec![RuleSet::Axiomatic(4)]);
    assert_eq!(rules(4, false, false), vec![RuleSet::Specific(4)]);
}
