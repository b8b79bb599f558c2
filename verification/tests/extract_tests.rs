use egraphs::cost::{Config, Cost, StepCost};
use egraphs::extract::{solve, solve_multiple, ExtractError};
use egraphs::graph::{EClass, EGraph, Node, Op};
use egraphs::lp_extractor::LpExtractor;
use egraphs::assignment::{row_satisfied, satisfies};
use egraphs::program::{force_roots, is_flagged, prepare_model, Column, Program, Row, Term};

fn leaf(value: i32) -> Node {
    Node { op: Op::Constant(value), children: vec![] }
}

fn node(op: Op, children: Vec<usize>) -> Node {
    Node { op, children }
}

fn graph(classes: Vec<Vec<Node>>) -> EGraph {
    let n = classes.len();
    EGraph {
        classes: classes
            .into_iter()
            .enumerate()
            .map(|(id, nodes)| EClass { id, nodes, data: None })
            .collect(),
        canon: (0..n).collect(),
    }
}

fn sum_or_product() -> EGraph {
    graph(vec![vec![leaf(2)], vec![leaf(3)], vec![node(Op::Add, vec![0, 1]), node(Op::Mul, vec![0, 1])]])
}

fn config() -> Config {
    Config { alpha: 1, beta: 0, gamma: 1, op: 1, literal: 0 }
}

fn flat_cost() -> StepCost {
    StepCost { level: 0, mul_level: 0, op: 1, literal: 0 }
}

fn feasible(p: &Program, x: &[i64]) -> bool {
    for (k, col) in p.cols.iter().enumerate() {
        if x[k] < col.lower || x[k] > col.upper {
            return false;
        }
    }
    for row in p.rows.iter() {
        let value: i64 = row.terms.iter().map(|t| t.coef * x[t.col]).sum();
        if let Some(lower) = row.lower {
            if value < lower {
                return false;
            }
        }
        if let Some(upper) = row.upper {
            if value > upper {
                return false;
            }
        }
    }
    true
}

fn objective(p: &Program, x: &[i64]) -> i128 {
    p.cols.iter().enumerate().map(|(k, col)| col.objective * (x[k] as i128)).sum()
}

/// Every 0/1 assignment of the activities and choices, orders left at 0.
fn assignments(p: &Program) -> Vec<Vec<i64>> {
    let binary: Vec<usize> = (0..p.cols.len()).filter(|&k| p.vars.iter().all(|v| v.order != k)).collect();
    let mut all = Vec::new();
    for bits in 0..(1u32 << binary.len()) {
        let mut x = vec![0i64; p.cols.len()];
        for (i, &k) in binary.iter().enumerate() {
            x[k] = ((bits >> i) & 1) as i64;
        }
        all.push(x);
    }
    all
}

fn best_assignment(p: &Program) -> Option<Vec<i64>> {
    let mut best: Option<Vec<i64>> = None;
    for x in assignments(p) {
        if feasible(p, &x) {
            let better = match &best {
                None => true,
                Some(b) => objective(p, &x) < objective(p, b),
            };
            if better {
                best = Some(x);
            }
        }
    }
    best
}

#[test]
fn program_lays_out_columns_by_class() {
    let g = sum_or_product();
    let costs = vec![
        vec![Some(Cost { depth: 0, mul_depth: 0, op_cost: 0 })],
        vec![None],
        vec![
            Some(Cost { depth: 2, mul_depth: 9, op_cost: 1 }),
            Some(Cost { depth: 0, mul_depth: 0, op_cost: 100 }),
        ],
    ];
    let p = prepare_model(&config(), &g, &vec![], &costs);
    assert_eq!(p.cols.len(), 10);
    assert_eq!(p.vars.len(), 3);
    assert_eq!((p.vars[0].active, p.vars[0].order, p.vars[0].nodes.clone()), (0, 1, vec![2]));
    assert_eq!((p.vars[1].active, p.vars[1].order, p.vars[1].nodes.clone()), (3, 4, vec![5]));
    assert_eq!((p.vars[2].active, p.vars[2].order, p.vars[2].nodes.clone()), (6, 7, vec![8, 9]));
    assert_eq!(p.cols[0], Column { lower: 0, upper: 1, integer: true, objective: 0 });
    assert_eq!(p.cols[1], Column { lower: 0, upper: 4, integer: true, objective: 0 });
    assert_eq!(p.cols[5], Column { lower: 0, upper: 1, integer: true, objective: 0 });
    assert_eq!(p.cols[8], Column { lower: 0, upper: 1, integer: true, objective: 3 });
    assert_eq!(p.cols[9], Column { lower: 0, upper: 1, integer: true, objective: 100 });
}

#[test]
fn program_states_choice_and_link_rows() {
    let g = sum_or_product();
    let costs = vec![vec![None], vec![None], vec![None, None]];
    let p = prepare_model(&config(), &g, &vec![], &costs);
    assert_eq!(p.rows.len(), 7);
    assert_eq!((p.rows[0].lower, p.rows[0].upper), (Some(0), Some(0)));
    assert_eq!(p.rows[0].terms, vec![Term { col: 0, coef: -1 }, Term { col: 2, coef: 1 }]);
    assert_eq!(
        p.rows[2].terms,
        vec![Term { col: 6, coef: -1 }, Term { col: 8, coef: 1 }, Term { col: 9, coef: 1 }]
    );
    assert_eq!((p.rows[3].lower, p.rows[3].upper), (None, Some(0)));
    assert_eq!(p.rows[3].terms, vec![Term { col: 8, coef: 1 }, Term { col: 0, coef: -1 }]);
    assert_eq!(p.rows[4].terms, vec![Term { col: 8, coef: 1 }, Term { col: 3, coef: -1 }]);
    assert_eq!(p.rows[5].terms, vec![Term { col: 9, coef: 1 }, Term { col: 0, coef: -1 }]);
    assert_eq!(p.rows[6].terms, vec![Term { col: 9, coef: 1 }, Term { col: 3, coef: -1 }]);
}

#[test]
fn cyclic_nodes_are_pinned_and_unlinked() {
    let g = graph(vec![vec![node(Op::Neg, vec![1]), leaf(1)], vec![node(Op::Neg, vec![0])]]);
    let cycles = vec![(0, 0)];
    assert!(is_flagged(&cycles, 0, 0));
    assert!(!is_flagged(&cycles, 0, 1));
    assert!(!is_flagged(&cycles, 1, 0));
    let costs = vec![vec![None, None], vec![None]];
    let p = prepare_model(&config(), &g, &cycles, &costs);
    assert_eq!(p.cols[p.vars[0].nodes[0]].upper, 0);
    assert_eq!(p.cols[p.vars[0].nodes[0]].lower, 0);
    assert_eq!(p.cols[p.vars[0].nodes[1]].upper, 1);
    // two choice rows and the one link of class 1's node
    assert_eq!(p.rows.len(), 3);
    assert_eq!(
        p.rows[2].terms,
        vec![Term { col: p.vars[1].nodes[0], coef: 1 }, Term { col: p.vars[0].active, coef: -1 }]
    );
    for x in assignments(&p) {
        if feasible(&p, &x) {
            assert_eq!(x[p.vars[0].nodes[0]], 0);
        }
    }
}

#[test]
fn roots_are_forced_active() {
    let g = sum_or_product();
    let costs = vec![vec![None], vec![None], vec![None, None]];
    let p = prepare_model(&config(), &g, &vec![], &costs);
    let rows = p.rows.len();
    let forced = force_roots(p, &g, &vec![2]);
    assert_eq!(forced.cols[6], Column { lower: 1, upper: 1, integer: true, objective: 0 });
    assert_eq!(forced.cols[0].lower, 0);
    assert_eq!(forced.cols[3].lower, 0);
    assert_eq!(forced.cols[8].lower, 0);
    assert_eq!(forced.rows.len(), rows);
}

#[test]
fn active_classes_have_one_chosen_node() {
    let g = sum_or_product();
    let costs = vec![vec![None], vec![None], vec![None, None]];
    let p = force_roots(prepare_model(&config(), &g, &vec![], &costs), &g, &vec![2]);
    let mut seen = 0;
    for x in assignments(&p) {
        if feasible(&p, &x) {
            seen += 1;
            for v in p.vars.iter() {
                let chosen: i64 = v.nodes.iter().map(|&k| x[k]).sum();
                assert_eq!(chosen, x[v.active]);
            }
            assert_eq!(x[p.vars[2].active], 1);
            assert_eq!(x[p.vars[0].active], 1);
            assert_eq!(x[p.vars[1].active], 1);
        }
    }
    assert_eq!(seen, 2);
}

#[test]
fn extraction_picks_the_sum() {
    let g = sum_or_product();
    let cfg = config();
    let ex = LpExtractor::new(&g, &flat_cost(), cfg, 10);
    assert!(ex.converged);
    assert!(ex.cycles.is_empty());
    let ex = ex.with_roots(&g, &vec![2]);
    let x = best_assignment(&ex.program).unwrap();
    assert_eq!(objective(&ex.program, &x), 1);
    let out = ex.solve(&g, &x, 2).unwrap();
    assert_eq!(out.expr.nodes.len(), 3);
    let root = &out.expr.nodes[out.roots[0]];
    assert_eq!(root.op, Op::Add);
    assert_eq!(out.roots, vec![2]);
    assert_eq!(out.expr.nodes[root.children[0]].op, Op::Constant(2));
    assert_eq!(out.expr.nodes[root.children[1]].op, Op::Constant(3));
    assert_eq!(cfg.scalar(&ex.costs.costs[2].unwrap().cost), 1);
}

#[test]
fn rebuilt_nodes_follow_their_operands() {
    // 0: add(1, 2), 1: neg(2), 2: square(3), 3: leaf; class 2 is shared
    let g = graph(vec![
        vec![node(Op::Add, vec![1, 2])],
        vec![node(Op::Neg, vec![2])],
        vec![node(Op::Square, vec![3])],
        vec![leaf(1)],
    ]);
    let costs = vec![vec![None], vec![None], vec![None], vec![None]];
    let p = prepare_model(&config(), &g, &vec![], &costs);
    let x = vec![1i64, 0, 1, 1, 0, 1, 1, 0, 1, 1, 0, 1];
    let out = solve_multiple(&p, &g, &x, &vec![0, 2]).unwrap();
    assert_eq!(out.expr.nodes.len(), 4);
    for (i, n) in out.expr.nodes.iter().enumerate() {
        for &child in n.children.iter() {
            assert!(child < i);
        }
    }
    let ops: Vec<Op> = out.expr.nodes.iter().map(|n| n.op).collect();
    assert_eq!(ops, vec![Op::Constant(1), Op::Square, Op::Neg, Op::Add]);
    assert_eq!(out.expr.nodes[3].children, vec![2, 1]);
    assert_eq!(out.roots, vec![3, 1]);
    assert_eq!(out.ids, vec![Some(3), Some(2), Some(1), Some(0)]);
}

#[test]
fn only_needed_classes_are_rebuilt() {
    let g = sum_or_product();
    let costs = vec![vec![None], vec![None], vec![None, None]];
    let p = prepare_model(&config(), &g, &vec![], &costs);
    let x = vec![1i64, 0, 1, 1, 0, 1, 1, 0, 0, 1];
    let out = solve(&p, &g, &x, 0).unwrap();
    assert_eq!(out.expr.nodes.len(), 1);
    assert_eq!(out.ids, vec![Some(0), None, None]);
    let product = solve(&p, &g, &x, 2).unwrap();
    assert_eq!(product.expr.nodes[product.roots[0]].op, Op::Mul);
}

#[test]
fn first_positive_choice_wins() {
    let g = sum_or_product();
    let costs = vec![vec![None], vec![None], vec![None, None]];
    let p = prepare_model(&config(), &g, &vec![], &costs);
    let x = vec![1i64, 0, 1, 1, 0, 1, 1, 0, 1, 1];
    let out = solve(&p, &g, &x, 2).unwrap();
    assert_eq!(out.expr.nodes[out.roots[0]].op, Op::Add);
}

#[test]
fn inactive_root_is_an_error() {
    let g = sum_or_product();
    let costs = vec![vec![None], vec![None], vec![None, None]];
    let p = prepare_model(&config(), &g, &vec![], &costs);
    let x = vec![0i64; 10];
    assert_eq!(solve(&p, &g, &x, 2).unwrap_err(), ExtractError::Inactive(2));
}

#[test]
fn active_class_without_choice_is_an_error() {
    let g = sum_or_product();
    let costs = vec![vec![None], vec![None], vec![None, None]];
    let p = prepare_model(&config(), &g, &vec![], &costs);
    let x = vec![1i64, 0, 1, 1, 0, 0, 1, 0, 1, 0];
    assert_eq!(solve(&p, &g, &x, 2).unwrap_err(), ExtractError::NoChoice(1));
}

#[test]
fn chosen_cycle_is_an_error() {
    let g = graph(vec![vec![node(Op::Neg, vec![1]), leaf(1)], vec![node(Op::Neg, vec![0])]]);
    let costs = vec![vec![None, None], vec![None]];
    let p = prepare_model(&config(), &g, &vec![], &costs);
    // class 0: active 0, order 1, nodes 2 and 3; class 1: active 4, order 5, node 6
    let x = vec![1i64, 0, 1, 0, 1, 0, 1];
    let err = solve(&p, &g, &x, 0).unwrap_err();
    assert_eq!(err, ExtractError::Cyclic(0));
    let fine = vec![1i64, 0, 0, 1, 1, 0, 1];
    let out = solve(&p, &g, &fine, 1).unwrap();
    let ops: Vec<Op> = out.expr.nodes.iter().map(|n| n.op).collect();
    assert_eq!(ops, vec![Op::Constant(1), Op::Neg]);
}

#[test]
fn aliases_of_a_root_resolve_to_its_class() {
    let mut g = sum_or_product();
    g.canon.push(2);
    let costs = vec![vec![None], vec![None], vec![None, None]];
    let p = force_roots(prepare_model(&config(), &g, &vec![], &costs), &g, &vec![3]);
    assert_eq!(p.cols[6].lower, 1);
    let x = vec![1i64, 0, 1, 1, 0, 1, 1, 0, 1, 0];
    let out = solve(&p, &g, &x, 3).unwrap();
    assert_eq!(out.expr.nodes[out.roots[0]].op, Op::Add);
}

#[test]
fn cheapest_node_on_a_cycle_is_never_selected() {
    // class 0: neg(1) or a leaf; class 1: neg(0)
    let g = graph(vec![vec![node(Op::Neg, vec![1]), leaf(1)], vec![node(Op::Neg, vec![0])]]);
    let ex = LpExtractor::new(&g, &flat_cost(), config(), 10);
    assert_eq!(ex.cycles, vec![(0, 0)]);
    let ex = ex.with_roots(&g, &vec![1]);
    let mut seen = 0;
    for x in assignments(&ex.program) {
        if feasible(&ex.program, &x) {
            seen += 1;
            assert_eq!(x[ex.program.vars[0].nodes[0]], 0);
            let out = ex.solve(&g, &x, 1).unwrap();
            for (i, n) in out.expr.nodes.iter().enumerate() {
                assert!(n.children.iter().all(|&child| child < i));
            }
            let ops: Vec<Op> = out.expr.nodes.iter().map(|n| n.op).collect();
            assert_eq!(ops, vec![Op::Constant(1), Op::Neg]);
        }
    }
    assert_eq!(seen, 1);
}

#[test]
fn every_feasible_selection_is_rebuilt() {
    let g = graph(vec![
        vec![node(Op::Add, vec![1, 2]), node(Op::Mul, vec![2, 2])],
        vec![node(Op::Neg, vec![2]), leaf(4)],
        vec![node(Op::Square, vec![3]), node(Op::Rot, vec![3, 3])],
        vec![leaf(1)],
    ]);
    let ex = LpExtractor::new(&g, &flat_cost(), config(), 10).with_roots(&g, &vec![0]);
    let mut seen = 0;
    for x in assignments(&ex.program) {
        if feasible(&ex.program, &x) {
            seen += 1;
            let out = ex.solve(&g, &x, 0).unwrap();
            for (i, n) in out.expr.nodes.iter().enumerate() {
                assert!(n.children.iter().all(|&child| child < i));
            }
        }
    }
    assert_eq!(seen, 10);
}

#[test]
fn assignments_are_tested_against_bounds_and_rows() {
    let g = sum_or_product();
    let costs = vec![vec![None], vec![None], vec![None, None]];
    let p = force_roots(prepare_model(&config(), &g, &vec![], &costs), &g, &vec![2]);
    for x in assignments(&p) {
        assert_eq!(satisfies(&p, &x), feasible(&p, &x));
    }
    // the sum is chosen, both leaves are active and chosen
    assert!(satisfies(&p, &vec![1, 0, 1, 1, 0, 1, 1, 0, 1, 0]));
    // an order above the number of nodes
    assert!(!satisfies(&p, &vec![1, 5, 1, 1, 0, 1, 1, 0, 1, 0]));
    // the root is not active
    assert!(!satisfies(&p, &vec![1, 0, 1, 1, 0, 1, 0, 0, 0, 0]));
    // a chosen node with an inactive operand class
    assert!(!satisfies(&p, &vec![0, 0, 0, 1, 0, 1, 1, 0, 1, 0]));
    // too few values
    assert!(!satisfies(&p, &vec![1, 0, 1]));
}

#[test]
fn rows_that_leave_the_machine_integers_fail() {
    let wide = Row {
        lower: None,
        upper: None,
        terms: vec![Term { col: 0, coef: i64::MAX }, Term { col: 0, coef: i64::MAX }, Term { col: 0, coef: i64::MAX }],
    };
    assert!(!row_satisfied(&wide, &vec![i64::MAX]));
    assert!(row_satisfied(&wide, &vec![1]));
    let dangling = Row { lower: None, upper: None, terms: vec![Term { col: 3, coef: 1 }] };
    assert!(!row_satisfied(&dangling, &vec![1]));
    let equal = Row { lower: Some(2), upper: Some(2), terms: vec![Term { col: 0, coef: 2 }, Term { col: 1, coef: -1 }] };
    assert!(row_satisfied(&equal, &vec![3, 4]));
    assert!(!row_satisfied(&equal, &vec![3, 5]));
    assert!(!row_satisfied(&equal, &vec![3, 3]));
}
