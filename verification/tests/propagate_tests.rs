use egraphs::cost::{Config, Cost, StepCost};
use egraphs::cycles::find_cycles;
use egraphs::graph::{EClass, EGraph, Node, Op};
use egraphs::propagate::{find_costs, make_pass, node_total_cost, unresolved, ClassCost, CostTable};

fn leaf(value: i32) -> Node {
    Node { op: Op::Constant(value), children: vec![] }
}

fn node(op: Op, children: Vec<usize>) -> Node {
    Node { op, children }
}

fn graph(classes: Vec<Vec<Node>>) -> EGraph {
    let n = classes.len();
    EGraph {
        classes: classes
            .into_iter()
            .enumerate()
            .map(|(id, nodes)| EClass { id, nodes, data: None })
            .collect(),
        canon: (0..n).collect(),
    }
}

fn unit_config() -> Config {
    Config { alpha: 1, beta: 0, gamma: 1, op: 1, literal: 1 }
}

fn flat_cost() -> StepCost {
    StepCost { level: 0, mul_level: 0, op: 1, literal: 0 }
}

fn unit_cost() -> StepCost {
    StepCost { level: 1, mul_level: 1, op: 1, literal: 1 }
}

fn known(depth: i64, mul_depth: i64, op_cost: i64, op: Op) -> Option<ClassCost> {
    Some(ClassCost { cost: Cost { depth, mul_depth, op_cost }, node: 0, op })
}

#[test]
fn node_cost_waits_for_operands() {
    let g = graph(vec![vec![leaf(1)], vec![node(Op::Neg, vec![0])]]);
    let t = CostTable { costs: vec![None, None], subs: vec![vec![false; 2]; 2] };
    assert_eq!(node_total_cost(&unit_cost(), &unit_config(), &g, &t, 1, 0), None);
    assert_eq!(
        node_total_cost(&unit_cost(), &unit_config(), &g, &t, 0, 0),
        Some(Cost { depth: 1, mul_depth: 0, op_cost: 1 })
    );
}

#[test]
fn one_operand_keeps_base_cost() {
    let g = graph(vec![vec![leaf(1)], vec![node(Op::Square, vec![0])]]);
    let t = CostTable {
        costs: vec![known(1, 0, 1, Op::Constant(1)), None],
        subs: vec![vec![false; 2]; 2],
    };
    assert_eq!(
        node_total_cost(&unit_cost(), &unit_config(), &g, &t, 1, 0),
        Some(Cost { depth: 2, mul_depth: 1, op_cost: 81 })
    );
}

#[test]
fn same_operand_twice_is_paid_once() {
    let g = graph(vec![vec![leaf(1)], vec![node(Op::Add, vec![0, 0]), node(Op::Mul, vec![0, 0])]]);
    let t = CostTable {
        costs: vec![known(1, 0, 1, Op::Constant(1)), None],
        subs: vec![vec![false; 2]; 2],
    };
    // base 1 + 1 + 1 = 3, less the operand's 1
    assert_eq!(
        node_total_cost(&unit_cost(), &unit_config(), &g, &t, 1, 0),
        Some(Cost { depth: 2, mul_depth: 0, op_cost: 2 })
    );
    // base 100 + 1 + 1 = 102, less the operand's 1; a constant operand gives no saving
    assert_eq!(
        node_total_cost(&unit_cost(), &unit_config(), &g, &t, 1, 1),
        Some(Cost { depth: 2, mul_depth: 1, op_cost: 101 })
    );
}

#[test]
fn squared_operand_of_a_product_is_paid_once() {
    // A: leaf, B: square(A), C: mul(B, B)
    let g = graph(vec![vec![leaf(1)], vec![node(Op::Square, vec![0])], vec![node(Op::Mul, vec![1, 1])]]);
    let found = find_costs(&unit_cost(), &unit_config(), &g, 10);
    assert!(found.converged);
    let a = found.table.costs[0].unwrap();
    let b = found.table.costs[1].unwrap();
    let c = found.table.costs[2].unwrap();
    assert_eq!(a.cost.op_cost, 1);
    assert_eq!(b.cost.op_cost, 81);
    // base 100 + 81 + 81 = 262; less 99 as an operand is not a constant; less B's 81 once
    assert_eq!(c.cost.op_cost, 262 - 99 - 81);
    assert_eq!(c.cost.depth, 3);
    assert_eq!(c.cost.mul_depth, 2);
    assert_eq!(c.op, Op::Mul);
}

#[test]
fn nested_operand_is_paid_once() {
    // 0: leaf, 1: neg(0), 2: add(1, 0): class 0 is below class 1
    let g = graph(vec![vec![leaf(1)], vec![node(Op::Neg, vec![0])], vec![node(Op::Add, vec![1, 0])]]);
    let t = CostTable {
        costs: vec![known(1, 0, 1, Op::Constant(1)), known(2, 0, 2, Op::Neg), None],
        subs: vec![vec![false, false, false], vec![true, false, false], vec![false, false, false]],
    };
    // base 1 + 2 + 1 = 4, less class 0's 1
    assert_eq!(
        node_total_cost(&unit_cost(), &unit_config(), &g, &t, 2, 0),
        Some(Cost { depth: 3, mul_depth: 0, op_cost: 3 })
    );
    let g2 = graph(vec![vec![leaf(1)], vec![node(Op::Neg, vec![0])], vec![node(Op::Add, vec![0, 1])]]);
    assert_eq!(
        node_total_cost(&unit_cost(), &unit_config(), &g2, &t, 2, 0),
        Some(Cost { depth: 3, mul_depth: 0, op_cost: 3 })
    );
}

#[test]
fn common_descendants_are_paid_by_kind() {
    // 0: leaf, 1: rot-like class, 2 and 3 both depend on 0 and 1, 4: add(2, 3)
    let g = graph(vec![
        vec![leaf(1)],
        vec![node(Op::Rot, vec![0, 0])],
        vec![node(Op::Neg, vec![1])],
        vec![node(Op::Square, vec![1])],
        vec![node(Op::Add, vec![2, 3]), node(Op::Mul, vec![2, 3])],
    ]);
    let t = CostTable {
        costs: vec![
            known(1, 0, 1, Op::Constant(1)),
            known(2, 0, 51, Op::Rot),
            known(3, 0, 52, Op::Neg),
            known(3, 1, 131, Op::Square),
            None,
        ],
        subs: vec![
            vec![false; 5],
            vec![true, false, false, false, false],
            vec![true, true, false, false, false],
            vec![true, true, false, false, false],
            vec![false; 5],
        ],
    };
    // base 1 + 52 + 131 = 184; shared: class 0 (literal 1) and class 1 (rotation 50)
    assert_eq!(
        node_total_cost(&unit_cost(), &unit_config(), &g, &t, 4, 0),
        Some(Cost { depth: 4, mul_depth: 1, op_cost: 184 - 51 })
    );
    // base 100 + 52 + 131 = 283; less 99, less the shared 51
    assert_eq!(
        node_total_cost(&unit_cost(), &unit_config(), &g, &t, 4, 1),
        Some(Cost { depth: 4, mul_depth: 2, op_cost: 283 - 99 - 51 })
    );
}

#[test]
fn discounted_cost_outside_i64_is_unknown() {
    let g = graph(vec![vec![leaf(1)], vec![node(Op::Add, vec![0, 0])]]);
    let t = CostTable {
        costs: vec![known(0, 0, i64::MIN, Op::Constant(1)), None],
        subs: vec![vec![false; 2]; 2],
    };
    // the cost function stops at i64::MIN, and the operand's i64::MIN comes off once
    assert_eq!(
        node_total_cost(&unit_cost(), &unit_config(), &g, &t, 1, 0),
        Some(Cost { depth: 1, mul_depth: 0, op_cost: 0 })
    );
    let t2 = CostTable {
        costs: vec![known(0, 0, i64::MAX, Op::Constant(1)), None],
        subs: vec![vec![false; 2]; 2],
    };
    assert_eq!(
        node_total_cost(&unit_cost(), &unit_config(), &g, &t2, 1, 0),
        Some(Cost { depth: 1, mul_depth: 0, op_cost: 0 })
    );
    let neg = graph(vec![vec![leaf(1)], vec![leaf(2)], vec![node(Op::Mul, vec![0, 1])]]);
    let t3 = CostTable {
        costs: vec![known(0, 0, i64::MIN, Op::Add), known(0, 0, -200, Op::Add), None],
        subs: vec![vec![false; 3]; 3],
    };
    // base stops at i64::MIN, and the saving of 99 leaves the range
    assert_eq!(node_total_cost(&unit_cost(), &unit_config(), &neg, &t3, 2, 0), None);
}

#[test]
fn pass_picks_first_of_least_cost() {
    let g = graph(vec![
        vec![leaf(2)],
        vec![leaf(3)],
        vec![node(Op::Minus, vec![0, 1]), node(Op::Add, vec![0, 1]), node(Op::Mul, vec![0, 1])],
    ]);
    let t = CostTable {
        costs: vec![known(0, 0, 0, Op::Constant(2)), known(0, 0, 0, Op::Constant(3)), None],
        subs: vec![vec![false; 3]; 3],
    };
    let pass = make_pass(&flat_cost(), &unit_config(), &g, &t, 2);
    let best = pass.best.unwrap();
    assert_eq!(best.node, 0);
    assert_eq!(best.op, Op::Minus);
    assert_eq!(best.cost, Cost { depth: 0, mul_depth: 0, op_cost: 1 });
    assert_eq!(pass.subs, vec![true, true, false]);
    assert_eq!(
        pass.node_costs,
        vec![
            Some(Cost { depth: 0, mul_depth: 0, op_cost: 1 }),
            Some(Cost { depth: 0, mul_depth: 0, op_cost: 1 }),
            Some(Cost { depth: 0, mul_depth: 0, op_cost: 100 }),
        ]
    );
}

#[test]
fn pass_without_known_node_proposes_nothing() {
    let g = graph(vec![vec![node(Op::Neg, vec![1])], vec![node(Op::Neg, vec![0])]]);
    let t = CostTable { costs: vec![None, None], subs: vec![vec![false; 2]; 2] };
    let pass = make_pass(&unit_cost(), &unit_config(), &g, &t, 0);
    assert!(pass.best.is_none());
    assert_eq!(pass.node_costs, vec![None]);
}

#[test]
fn sum_beats_product_of_two_leaves() {
    let g = graph(vec![
        vec![leaf(2)],
        vec![leaf(3)],
        vec![node(Op::Add, vec![0, 1]), node(Op::Mul, vec![0, 1])],
    ]);
    let cfg = Config { alpha: 1, beta: 0, gamma: 1, op: 1, literal: 0 };
    let found = find_costs(&flat_cost(), &cfg, &g, 10);
    assert!(found.converged);
    assert_eq!(found.passes, 2);
    let c = found.table.costs[2].unwrap();
    assert_eq!(c.node, 0);
    assert_eq!(c.op, Op::Add);
    assert_eq!(cfg.scalar(&c.cost), 1);
    assert_eq!(found.node_costs[2][1], Some(Cost { depth: 0, mul_depth: 0, op_cost: 100 }));
    assert_eq!(found.node_costs[0][0], Some(Cost { depth: 0, mul_depth: 0, op_cost: 0 }));
    assert!(unresolved(&found.table).is_empty());
}

#[test]
fn recorded_cost_is_least_in_every_class() {
    let g = graph(vec![
        vec![node(Op::Mul, vec![1, 2]), node(Op::Add, vec![1, 2]), node(Op::Rot, vec![1, 1])],
        vec![leaf(1), node(Op::Neg, vec![2])],
        vec![node(Op::Square, vec![3]), node(Op::Symbol(1), vec![])],
        vec![leaf(5)],
    ]);
    let cfg = Config { alpha: 3, beta: 7, gamma: 1, op: 1, literal: 1 };
    let cf = unit_cost();
    let found = find_costs(&cf, &cfg, &g, 20);
    assert!(found.converged);
    for c in 0..4 {
        let recorded = found.table.costs[c].unwrap();
        for j in 0..g.classes[c].nodes.len() {
            if let Some(other) = node_total_cost(&cf, &cfg, &g, &found.table, c, j) {
                assert!(cfg.scalar(&recorded.cost) <= cfg.scalar(&other));
            }
            assert_eq!(found.node_costs[c][j], node_total_cost(&cf, &cfg, &g, &found.table, c, j));
        }
    }
}

#[test]
fn chain_converges_within_its_length() {
    // class k depends on class k + 1; the leaf is last, so each scan resolves one more class
    let g = graph(vec![
        vec![node(Op::Neg, vec![1])],
        vec![node(Op::Neg, vec![2])],
        vec![node(Op::Neg, vec![3])],
        vec![leaf(1)],
    ]);
    let found = find_costs(&unit_cost(), &unit_config(), &g, 100);
    assert!(found.converged);
    assert!(found.passes <= 5);
    assert_eq!(found.passes, 5);
    assert_eq!(found.table.costs[0].unwrap().cost, Cost { depth: 4, mul_depth: 0, op_cost: 4 });
    assert_eq!(found.table.subs[0], vec![false, true, true, true]);
    assert!(find_cycles(&g).is_empty());
}

#[test]
fn scan_limit_stops_the_propagation() {
    let g = graph(vec![
        vec![node(Op::Neg, vec![1])],
        vec![node(Op::Neg, vec![2])],
        vec![node(Op::Neg, vec![3])],
        vec![leaf(1)],
    ]);
    let found = find_costs(&unit_cost(), &unit_config(), &g, 2);
    assert!(!found.converged);
    assert_eq!(found.passes, 2);
    assert_eq!(unresolved(&found.table), vec![0, 1]);
    let none = find_costs(&unit_cost(), &unit_config(), &g, 0);
    assert!(!none.converged);
    assert_eq!(none.passes, 0);
    assert_eq!(unresolved(&none.table), vec![0, 1, 2, 3]);
}

#[test]
fn classes_on_a_bare_cycle_stay_unresolved() {
    let g = graph(vec![
        vec![node(Op::Neg, vec![1])],
        vec![node(Op::Neg, vec![0])],
        vec![leaf(1)],
    ]);
    let found = find_costs(&unit_cost(), &unit_config(), &g, 10);
    assert!(found.converged);
    assert_eq!(unresolved(&found.table), vec![0, 1]);
    assert!(found.table.costs[2].is_some());
}

#[test]
fn cycle_through_two_classes_is_reported_once() {
    let g = graph(vec![vec![node(Op::Neg, vec![1]), leaf(1)], vec![node(Op::Neg, vec![0])]]);
    assert_eq!(find_cycles(&g), vec![(0, 0)]);
}

#[test]
fn self_loop_is_reported() {
    let g = graph(vec![vec![leaf(1), node(Op::Add, vec![0, 1])], vec![leaf(2)]]);
    assert_eq!(find_cycles(&g), vec![(0, 1)]);
}

#[test]
fn shared_operands_are_no_cycle() {
    let g = graph(vec![
        vec![node(Op::Add, vec![1, 2])],
        vec![node(Op::Neg, vec![2])],
        vec![leaf(1)],
    ]);
    assert!(find_cycles(&g).is_empty());
}
