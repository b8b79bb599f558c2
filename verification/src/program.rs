//! The integer program that selects one node per active class.

use vstd::prelude::*;
use crate::cost::{Config, Cost};
use crate::graph::EGraph;

verus! {

/// A variable of the program: its bounds, whether it is integral, and its
/// coefficient in the objective, which is minimised.
#[derive(Clone, Copy, Debug, PartialEq, Eq, Structural)]
pub struct Column {
    pub lower: i64,
    pub upper: i64,
    pub integer: bool,
    pub objective: i128,
}

/// One summand of a constraint: a coefficient times a variable.
#[derive(Clone, Copy, Debug, PartialEq, Eq, Structural)]
pub struct Term {
    pub col: usize,
    pub coef: i64,
}

/// A linear constraint: the sum of its terms lies between the bounds that
/// are given.
#[derive(Debug)]
pub struct Row {
    pub lower: Option<i64>,
    pub upper: Option<i64>,
    pub terms: Vec<Term>,
}

/// The variables of one class: whether it is active, its order, and for
/// each of its nodes whether that node is chosen.
#[derive(Debug)]
pub struct ClassVars {
    pub active: usize,
    pub order: usize,
    pub nodes: Vec<usize>,
}

/// A minimisation program over bounded variables and linear constraints.
#[derive(Debug)]
pub struct Program {
    pub cols: Vec<Column>,
    pub rows: Vec<Row>,
    pub vars: Vec<ClassVars>,
}

/// The weighted sum of a node's cost, and 0 for a node without cost.
pub open spec fn coefficient(cfg: Config, cost: Option<Cost>) -> int {
    match cost {
        Some(x) => cfg.scalar_spec(x),
        None => 0,
    }
}

/// The value of `terms` under the assignment `x`.
pub open spec fn row_value(terms: Seq<Term>, x: Seq<int>) -> int
    decreases terms.len(),
{
    if terms.len() == 0 {
        0
    } else {
        row_value(terms.drop_last(), x) + terms.last().coef * x[terms.last().col as int]
    }
}

/// The terms of a class's choice constraint: minus its activity, plus each
/// of its nodes' choices.
pub open spec fn choice_terms(v: &ClassVars) -> Seq<Term> {
    Seq::new(
        v.nodes@.len() + 1,
        |k: int|
            if k == 0 {
                Term { col: v.active, coef: -1i64 }
            } else {
                Term { col: v.nodes@[k - 1], coef: 1 }
            },
    )
}

/// The terms of "a chosen node's operand class is active": the node's
/// choice minus the class's activity.
pub open spec fn link_terms(node: usize, active: usize) -> Seq<Term> {
    seq![Term { col: node, coef: 1i64 }, Term { col: active, coef: -1i64 }]
}

/// Where the first column of class `c` stands: each class takes two
/// columns and one per node.
pub open spec fn base(g: &EGraph, c: int) -> int {
    2 * c + g.node_count(c)
}

/// The largest order of a class: the number of nodes of the graph, as far
/// as `i64` reaches.
pub open spec fn order_limit(g: &EGraph) -> int {
    if g.node_count(g.classes@.len() as int) <= i64::MAX {
        g.node_count(g.classes@.len() as int) as int
    } else {
        i64::MAX as int
    }
}

/// The variables `v` of class `c` stand where the layout puts them, among
/// `ncols` columns: the class's activity first, then its order, then its
/// nodes' choices.
pub open spec fn placed(ncols: int, v: &ClassVars, g: &EGraph, c: int) -> bool {
    &&& v.active == base(g, c)
    &&& v.order == base(g, c) + 1
    &&& v.order < ncols
    &&& v.nodes@.len() == g.classes@[c].nodes@.len()
    &&& forall|j: int|
        0 <= j < v.nodes@.len() ==> #[trigger] v.nodes@[j] == base(g, c) + 2 + j && v.nodes@[j]
            < ncols
}

/// The column of the choice of node `j` of class `c`: 0 or 1, pinned to 0
/// for a node in `cycles`, with the weighted sum of the node's cost as its
/// objective coefficient.
pub open spec fn choice_column(
    cfg: Config,
    cycles: Seq<(usize, usize)>,
    costs: Seq<Option<Cost>>,
    c: int,
    j: int,
) -> Column {
    Column {
        lower: 0,
        upper: if cycles.contains((c as usize, j as usize)) {
            0i64
        } else {
            1i64
        },
        integer: true,
        objective: coefficient(cfg, costs[j]) as i128,
    }
}

/// The columns of class `c` are those of the selection program: its
/// activity is 0 or 1, its order lies between 0 and the order limit, and
/// its nodes' choices are as `choice_column` says.
pub open spec fn columns_of(
    cols: Seq<Column>,
    v: &ClassVars,
    cfg: Config,
    g: &EGraph,
    cycles: Seq<(usize, usize)>,
    costs: Seq<Option<Cost>>,
    c: int,
) -> bool {
    &&& cols[v.active as int] == (Column { lower: 0, upper: 1, integer: true, objective: 0 })
    &&& cols[v.order as int] == (Column {
        lower: 0,
        upper: order_limit(g) as i64,
        integer: true,
        objective: 0,
    })
    &&& forall|j: int|
        0 <= j < v.nodes@.len() ==> cols[#[trigger] v.nodes@[j] as int] == choice_column(
            cfg,
            cycles,
            costs,
            c,
            j,
        )
}

/// Row `r` is the choice constraint of class `c`: its nodes' choices sum to
/// its activity.
pub open spec fn choice_at(rows: Seq<Row>, vars: Seq<ClassVars>, r: int, c: int) -> bool {
    &&& rows[r].lower == Some(0i64)
    &&& rows[r].upper == Some(0i64)
    &&& rows[r].terms@ == choice_terms(&vars[c])
}

/// Row `r` states that node `j` of class `c` is chosen only if the class of
/// its operand `m` is active.
pub open spec fn link_at(
    rows: Seq<Row>,
    vars: Seq<ClassVars>,
    g: &EGraph,
    r: int,
    c: int,
    j: int,
    m: int,
) -> bool {
    &&& rows[r].lower.is_none()
    &&& rows[r].upper == Some(0i64)
    &&& rows[r].terms@ == link_terms(vars[c].nodes@[j], vars[g.child(c, j, m)].active)
}

/// Some row is the choice constraint of class `c`.
pub open spec fn has_choice(rows: Seq<Row>, vars: Seq<ClassVars>, c: int) -> bool {
    exists|r: int| 0 <= r < rows.len() && #[trigger] choice_at(rows, vars, r, c)
}

/// Operand `m` of node `j` of class `c` exists, and the node is not in
/// `cycles`.
pub open spec fn linked(g: &EGraph, cycles: Seq<(usize, usize)>, c: int, j: int, m: int) -> bool {
    &&& 0 <= c < g.classes@.len()
    &&& 0 <= j < g.classes@[c].nodes@.len()
    &&& 0 <= m < g.classes@[c].nodes@[j].children@.len()
    &&& !cycles.contains((c as usize, j as usize))
}

/// Row `r` is the choice constraint of a class, or the link of an operand
/// of a node that is not in `cycles`.
pub open spec fn stated(
    rows: Seq<Row>,
    vars: Seq<ClassVars>,
    g: &EGraph,
    cycles: Seq<(usize, usize)>,
    r: int,
) -> bool {
    ||| exists|c: int| 0 <= c < g.classes@.len() && #[trigger] choice_at(rows, vars, r, c)
    ||| exists|c: int, j: int, m: int|
        linked(g, cycles, c, j, m) && #[trigger] link_at(rows, vars, g, r, c, j, m)
}

impl Program {
    /// The variables of the classes stand in class order.
    pub open spec fn layout(&self, g: &EGraph) -> bool {
        &&& self.vars@.len() == g.classes@.len()
        &&& forall|c: int|
            0 <= c < self.vars@.len() ==> placed(
                self.cols@.len() as int,
                #[trigger] &self.vars@[c],
                g,
                c,
            )
    }

    /// The columns are those of the selection program.
    pub open spec fn columns_encode(
        &self,
        cfg: Config,
        g: &EGraph,
        cycles: Seq<(usize, usize)>,
        node_costs: &Vec<Vec<Option<Cost>>>,
    ) -> bool {
        forall|c: int|
            0 <= c < self.vars@.len() ==> columns_of(
                self.cols@,
                #[trigger] &self.vars@[c],
                cfg,
                g,
                cycles,
                node_costs@[c]@,
                c,
            )
    }

    /// The rows are those of the selection program, and no others: one
    /// choice constraint per class, and one link per operand of each node
    /// that is not in `cycles`.
    pub open spec fn rows_encode(&self, g: &EGraph, cycles: Seq<(usize, usize)>) -> bool {
        &&& forall|c: int|
            0 <= c < g.classes@.len() ==> #[trigger] has_choice(self.rows@, self.vars@, c)
        &&& forall|c: int, j: int, m: int|
            #![trigger linked(g, cycles, c, j, m)]
            linked(g, cycles, c, j, m) ==> exists|r: int|
                0 <= r < self.rows@.len() && #[trigger] link_at(self.rows@, self.vars@, g, r, c, j, m)
        &&& forall|r: int|
            0 <= r < self.rows@.len() ==> #[trigger] stated(self.rows@, self.vars@, g, cycles, r)
    }

    /// The program selects nodes of `g`: the layout and the rows are those
    /// of the selection program, an activity is at most 1, and a choice is
    /// 0 or 1, and 0 for a node in `cycles`.
    pub open spec fn selects(&self, g: &EGraph, cycles: Seq<(usize, usize)>) -> bool {
        &&& self.layout(g)
        &&& self.rows_encode(g, cycles)
        &&& forall|c: int|
            0 <= c < self.vars@.len() ==> {
                let v = #[trigger] self.vars@[c];
                &&& 0 <= self.cols@[v.active as int].lower
                &&& self.cols@[v.active as int].upper == 1
                &&& forall|j: int|
                    0 <= j < v.nodes@.len() ==> {
                        let col = self.cols@[#[trigger] v.nodes@[j] as int];
                        col.lower == 0 && col.upper == if cycles.contains((c as usize, j as usize)) {
                            0i64
                        } else {
                            1i64
                        }
                    }
            }
    }

    /// `x` gives every variable a value within its bounds and meets every
    /// constraint.
    pub open spec fn satisfied_by(&self, x: Seq<int>) -> bool {
        &&& x.len() == self.cols@.len()
        &&& forall|k: int|
            0 <= k < self.cols@.len() ==> (#[trigger] self.cols@[k]).lower <= x[k]
                <= self.cols@[k].upper
        &&& forall|r: int|
            0 <= r < self.rows@.len() ==> {
                let row = #[trigger] self.rows@[r];
                &&& row.lower.is_some() ==> row.lower.unwrap() <= row_value(row.terms@, x)
                &&& row.upper.is_some() ==> row_value(row.terms@, x) <= row.upper.unwrap()
            }
    }
}

/// Whether `(c, j)` is among `cycles`.
pub fn is_flagged(cycles: &Vec<(usize, usize)>, c: usize, j: usize) -> (r: bool)
    ensures
        r == cycles@.contains((c, j)),
{
    let mut k: usize = 0;
    while k < cycles.len()
        invariant
            k <= cycles@.len(),
            forall|i: int| 0 <= i < k ==> cycles@[i] != (c, j),
        decreases cycles.len() - k,
    {
        let e: (usize, usize) = cycles[k];
        if e.0 == c && e.1 == j {
            return true;
        }
        k = k + 1;
    }
    false
}

/// The variables of the program, class by class, with their bounds and
/// objective coefficients.
fn add_columns(
    cfg: &Config,
    g: &EGraph,
    cycles: &Vec<(usize, usize)>,
    node_costs: &Vec<Vec<Option<Cost>>>,
) -> (p: Program)
    requires
        node_costs@.len() == g.classes@.len(),
        forall|c: int|
            0 <= c < g.classes@.len() ==> (#[trigger] node_costs@[c])@.len()
                == g.classes@[c].nodes@.len(),
    ensures
        p.layout(g),
        p.columns_encode(*cfg, g, cycles@, node_costs),
        p.rows@.len() == 0,
{
    let n: usize = g.classes.len();
    let total: u64 = g.total_number_of_nodes();
    let limit: i64 = if total > 0x7fff_ffff_ffff_ffff {
        0x7fff_ffff_ffff_ffff
    } else {
        total as i64
    };
    let mut cols: Vec<Column> = Vec::new();
    let mut vars: Vec<ClassVars> = Vec::new();
    let mut c: usize = 0;
    while c < n
        invariant
            c <= n,
            n == g.classes@.len(),
            limit == order_limit(g),
            node_costs@.len() == n,
            forall|k: int|
                0 <= k < n ==> (#[trigger] node_costs@[k])@.len() == g.classes@[k].nodes@.len(),
            vars@.len() == c,
            cols@.len() == base(g, c as int),
            forall|k: int| 0 <= k < c ==> placed(cols@.len() as int, #[trigger] &vars@[k], g, k),
            forall|k: int|
                0 <= k < c ==> columns_of(
                    cols@,
                    #[trigger] &vars@[k],
                    *cfg,
                    g,
                    cycles@,
                    node_costs@[k]@,
                    k,
                ),
        decreases n - c,
    {
        let len: usize = g.classes[c].nodes.len();
        let active: usize = cols.len();
        cols.push(Column { lower: 0, upper: 1, integer: true, objective: 0 });
        let order: usize = cols.len();
        cols.push(Column { lower: 0, upper: limit, integer: true, objective: 0 });
        let mut nodes: Vec<usize> = Vec::new();
        let mut j: usize = 0;
        while j < len
            invariant
                c < n,
                n == g.classes@.len(),
                len == g.classes@[c as int].nodes@.len(),
                node_costs@.len() == n,
                node_costs@[c as int]@.len() == len,
                j <= len,
                vars@.len() == c,
                active == base(g, c as int),
                order == active + 1,
                cols@.len() == active + 2 + j,
                nodes@.len() == j,
                cols@[active as int] == (Column { lower: 0, upper: 1, integer: true, objective: 0 }),
                cols@[order as int] == (Column {
                    lower: 0,
                    upper: limit,
                    integer: true,
                    objective: 0,
                }),
                forall|i: int| 0 <= i < j ==> #[trigger] nodes@[i] == active + 2 + i,
                forall|i: int|
                    0 <= i < j ==> cols@[#[trigger] nodes@[i] as int] == choice_column(
                        *cfg,
                        cycles@,
                        node_costs@[c as int]@,
                        c as int,
                        i,
                    ),
                forall|k: int| 0 <= k < c ==> placed(cols@.len() as int, #[trigger] &vars@[k], g, k),
                forall|k: int|
                    0 <= k < c ==> columns_of(
                        cols@,
                        #[trigger] &vars@[k],
                        *cfg,
                        g,
                        cycles@,
                        node_costs@[k]@,
                        k,
                    ),
            decreases len - j,
        {
            let flagged: bool = is_flagged(cycles, c, j);
            let objective: i128 = match node_costs[c][j] {
                Some(x) => cfg.scalar(&x),
                None => 0,
            };
            let index: usize = cols.len();
            cols.push(
                Column { lower: 0, upper: if flagged {
                    0
                } else {
                    1
                }, integer: true, objective },
            );
            nodes.push(index);
            j = j + 1;
        }
        vars.push(ClassVars { active, order, nodes });
        c = c + 1;
    }
    Program { cols, rows: Vec::new(), vars }
}

/// Rows that are kept stay what they were.
proof fn lemma_rows_grow(
    before: Seq<Row>,
    after: Seq<Row>,
    vars: Seq<ClassVars>,
    g: &EGraph,
    cycles: Seq<(usize, usize)>,
)
    requires
        before.len() <= after.len(),
        forall|r: int| 0 <= r < before.len() ==> #[trigger] after[r] == before[r],
    ensures
        forall|r: int, c: int|
            0 <= r < before.len() && #[trigger] choice_at(before, vars, r, c) ==> choice_at(
                after,
                vars,
                r,
                c,
            ),
        forall|r: int, c: int, j: int, m: int|
            0 <= r < before.len() && #[trigger] link_at(before, vars, g, r, c, j, m) ==> link_at(
                after,
                vars,
                g,
                r,
                c,
                j,
                m,
            ),
        forall|r: int|
            0 <= r < before.len() && #[trigger] stated(before, vars, g, cycles, r) ==> stated(
                after,
                vars,
                g,
                cycles,
                r,
            ),
{
    assert forall|r: int|
        0 <= r < before.len() && #[trigger] stated(before, vars, g, cycles, r) implies stated(
        after,
        vars,
        g,
        cycles,
        r,
    ) by {
        if exists|c: int| 0 <= c < g.classes@.len() && #[trigger] choice_at(before, vars, r, c) {
            let c = choose|c: int|
                0 <= c < g.classes@.len() && #[trigger] choice_at(before, vars, r, c);
            assert(choice_at(after, vars, r, c));
        } else {
            let (c, j, m) = choose|c: int, j: int, m: int|
                linked(g, cycles, c, j, m) && #[trigger] link_at(before, vars, g, r, c, j, m);
            assert(link_at(after, vars, g, r, c, j, m));
        }
    }
}

/// The choice constraint of a class.
fn choice_row(v: &ClassVars) -> (row: Row)
    ensures
        row.lower == Some(0i64),
        row.upper == Some(0i64),
        row.terms@ == choice_terms(v),
{
    let mut terms: Vec<Term> = Vec::new();
    terms.push(Term { col: v.active, coef: -1 });
    let mut j: usize = 0;
    while j < v.nodes.len()
        invariant
            j <= v.nodes@.len(),
            terms@.len() == j + 1,
            forall|k: int| 0 <= k < terms@.len() ==> #[trigger] terms@[k] == choice_terms(v)[k],
        decreases v.nodes.len() - j,
    {
        terms.push(Term { col: v.nodes[j], coef: 1 });
        j = j + 1;
    }
    assert(terms@ =~= choice_terms(v));
    Row { lower: Some(0), upper: Some(0), terms }
}

/// Whether every link up to operand `m` of node `j` of class `c`, in scan
/// order, has its row.
spec fn links_done(
    rows: Seq<Row>,
    vars: Seq<ClassVars>,
    g: &EGraph,
    cycles: Seq<(usize, usize)>,
    c: int,
    j: int,
    m: int,
) -> bool {
    forall|c1: int, j1: int, m1: int|
        #![trigger linked(g, cycles, c1, j1, m1)]
        linked(g, cycles, c1, j1, m1) && (c1 < c || (c1 == c && (j1 < j || (j1 == j && m1 < m))))
            ==> exists|r: int| 0 <= r < rows.len() && #[trigger] link_at(rows, vars, g, r, c1, j1, m1)
}

/// Whether every class below `c` has its choice constraint.
spec fn choices_done(rows: Seq<Row>, vars: Seq<ClassVars>, c: int) -> bool {
    forall|c1: int| 0 <= c1 < c ==> #[trigger] has_choice(rows, vars, c1)
}

/// Whether every row is one of the selection program.
spec fn all_stated(
    rows: Seq<Row>,
    vars: Seq<ClassVars>,
    g: &EGraph,
    cycles: Seq<(usize, usize)>,
) -> bool {
    forall|r: int| 0 <= r < rows.len() ==> #[trigger] stated(rows, vars, g, cycles, r)
}

/// Adding one row of the selection program keeps what was established.
proof fn lemma_push_keeps(
    before: Seq<Row>,
    row: Row,
    vars: Seq<ClassVars>,
    g: &EGraph,
    cycles: Seq<(usize, usize)>,
    c: int,
    j: int,
    m: int,
    k: int,
)
    requires
        links_done(before, vars, g, cycles, c, j, m),
        choices_done(before, vars, k),
        all_stated(before, vars, g, cycles),
        stated(before.push(row), vars, g, cycles, before.len() as int),
    ensures
        links_done(before.push(row), vars, g, cycles, c, j, m),
        choices_done(before.push(row), vars, k),
        all_stated(before.push(row), vars, g, cycles),
{
    let after = before.push(row);
    lemma_rows_grow(before, after, vars, g, cycles);
    assert forall|c1: int, j1: int, m1: int|
        #![trigger linked(g, cycles, c1, j1, m1)]
        linked(g, cycles, c1, j1, m1) && (c1 < c || (c1 == c && (j1 < j || (j1 == j && m1
            < m)))) implies exists|r: int|
        0 <= r < after.len() && #[trigger] link_at(after, vars, g, r, c1, j1, m1) by {
        let r = choose|r: int| 0 <= r < before.len() && #[trigger] link_at(before, vars, g, r, c1, j1, m1);
        assert(link_at(after, vars, g, r, c1, j1, m1));
    }
    assert forall|c1: int| 0 <= c1 < k implies #[trigger] has_choice(after, vars, c1) by {
        assert(has_choice(before, vars, c1));
        let r = choose|r: int| 0 <= r < before.len() && #[trigger] choice_at(before, vars, r, c1);
        assert(choice_at(after, vars, r, c1));
    }
    assert forall|r: int| 0 <= r < after.len() implies #[trigger] stated(
        after,
        vars,
        g,
        cycles,
        r,
    ) by {
        if r < before.len() {
            assert(stated(before, vars, g, cycles, r));
        }
    }
}

/// The constraints of the program, class by class: the choice constraint,
/// then the links of each node that is not in `cycles`.
fn add_rows(g: &EGraph, cycles: &Vec<(usize, usize)>, vars: &Vec<ClassVars>, ncols: Ghost<int>) -> (rows:
    Vec<Row>)
    requires
        g.wf(),
        vars@.len() == g.classes@.len(),
        forall|c: int| 0 <= c < vars@.len() ==> placed(ncols@, #[trigger] &vars@[c], g, c),
    ensures
        choices_done(rows@, vars@, g.classes@.len() as int),
        links_done(rows@, vars@, g, cycles@, g.classes@.len() as int, 0, 0),
        all_stated(rows@, vars@, g, cycles@),
{
    let n: usize = g.classes.len();
    let mut rows: Vec<Row> = Vec::new();
    let mut c: usize = 0;
    while c < n
        invariant
            g.wf(),
            n == g.classes@.len(),
            vars@.len() == n,
            forall|k: int| 0 <= k < vars@.len() ==> placed(ncols@, #[trigger] &vars@[k], g, k),
            c <= n,
            choices_done(rows@, vars@, c as int),
            links_done(rows@, vars@, g, cycles@, c as int, 0, 0),
            all_stated(rows@, vars@, g, cycles@),
        decreases n - c,
    {
        let class = &g.classes[c];
        let row: Row = choice_row(&vars[c]);
        proof {
            let after = rows@.push(row);
            assert(choice_at(after, vars@, rows@.len() as int, c as int));
            assert(stated(after, vars@, g, cycles@, rows@.len() as int));
            lemma_push_keeps(rows@, row, vars@, g, cycles@, c as int, 0, 0, c as int);
        }
        rows.push(row);
        assert(choice_at(rows@, vars@, rows@.len() - 1, c as int));
        assert(choices_done(rows@, vars@, c + 1));
        assert(placed(ncols@, &vars@[c as int], g, c as int));
        let mut j: usize = 0;
        while j < class.nodes.len()
            invariant
                g.wf(),
                n == g.classes@.len(),
                vars@.len() == n,
                forall|k: int| 0 <= k < vars@.len() ==> placed(ncols@, #[trigger] &vars@[k], g, k),
                c < n,
                *class == g.classes@[c as int],
                j <= class.nodes@.len(),
                choices_done(rows@, vars@, c + 1),
                links_done(rows@, vars@, g, cycles@, c as int, j as int, 0),
                all_stated(rows@, vars@, g, cycles@),
            decreases class.nodes.len() - j,
        {
            if !is_flagged(cycles, c, j) {
                let node = &class.nodes[j];
                let chosen: usize = vars[c].nodes[j];
                let mut m: usize = 0;
                while m < node.children.len()
                    invariant
                        g.wf(),
                        n == g.classes@.len(),
                        vars@.len() == n,
                        forall|k: int|
                            0 <= k < vars@.len() ==> placed(ncols@, #[trigger] &vars@[k], g, k),
                        c < n,
                        *class == g.classes@[c as int],
                        j < class.nodes@.len(),
                        *node == class.nodes@[j as int],
                        !cycles@.contains((c, j)),
                        chosen == vars@[c as int].nodes@[j as int],
                        m <= node.children@.len(),
                        choices_done(rows@, vars@, c + 1),
                        links_done(rows@, vars@, g, cycles@, c as int, j as int, m as int),
                        all_stated(rows@, vars@, g, cycles@),
                    decreases node.children.len() - m,
                {
                    let ch: usize = g.find(node.children[m]);
                    assert(ch == g.child(c as int, j as int, m as int));
                    let mut terms: Vec<Term> = Vec::new();
                    terms.push(Term { col: chosen, coef: 1 });
                    terms.push(Term { col: vars[ch].active, coef: -1 });
                    assert(terms@ =~= link_terms(chosen, vars@[ch as int].active));
                    let row = Row { lower: None, upper: Some(0), terms };
                    proof {
                        let after = rows@.push(row);
                        assert(linked(g, cycles@, c as int, j as int, m as int));
                        assert(link_at(
                            after,
                            vars@,
                            g,
                            rows@.len() as int,
                            c as int,
                            j as int,
                            m as int,
                        ));
                        assert(stated(after, vars@, g, cycles@, rows@.len() as int));
                        lemma_push_keeps(
                            rows@,
                            row,
                            vars@,
                            g,
                            cycles@,
                            c as int,
                            j as int,
                            m as int,
                            c + 1,
                        );
                    }
                    rows.push(row);
                    assert(link_at(rows@, vars@, g, rows@.len() - 1, c as int, j as int, m as int));
                    assert(links_done(rows@, vars@, g, cycles@, c as int, j as int, m + 1));
                    m = m + 1;
                }
                assert(links_done(rows@, vars@, g, cycles@, c as int, j + 1, 0));
            } else {
                assert(links_done(rows@, vars@, g, cycles@, c as int, j + 1, 0));
            }
            j = j + 1;
        }
        assert(links_done(rows@, vars@, g, cycles@, c + 1, 0, 0));
        c = c + 1;
    }
    rows
}

/// Builds the selection program of a graph: one activity and one order per
/// class, one choice per node, the choice constraints and links, the
/// choices of the nodes in `cycles` pinned to 0, and the weighted sums of
/// `node_costs` as the objective.
pub fn prepare_model(
    cfg: &Config,
    g: &EGraph,
    cycles: &Vec<(usize, usize)>,
    node_costs: &Vec<Vec<Option<Cost>>>,
) -> (p: Program)
    requires
        g.wf(),
        node_costs@.len() == g.classes@.len(),
        forall|c: int|
            0 <= c < g.classes@.len() ==> (#[trigger] node_costs@[c])@.len()
                == g.classes@[c].nodes@.len(),
    ensures
        p.layout(g),
        p.columns_encode(*cfg, g, cycles@, node_costs),
        p.rows_encode(g, cycles@),
        p.selects(g, cycles@),
{
    let columns: Program = add_columns(cfg, g, cycles, node_costs);
    let rows: Vec<Row> = add_rows(g, cycles, &columns.vars, Ghost(columns.cols@.len() as int));
    let p = Program { cols: columns.cols, rows, vars: columns.vars };
    assert(links_done(p.rows@, p.vars@, g, cycles@, g.classes@.len() as int, 0, 0));
    p
}

/// The first column of a class stands at or after the end of every class
/// before it.
pub proof fn lemma_base_monotone(g: &EGraph, a: int, b: int)
    requires
        0 <= a <= b,
    ensures
        base(g, a) <= base(g, b),
        a < b ==> base(g, a) + 2 + g.classes@[a].nodes@.len() <= base(g, b),
    decreases b,
{
    if a < b {
        lemma_base_monotone(g, a, b - 1);
    }
}

/// Requires the class of every root to be active: the lower bound of its
/// activity becomes 1, and nothing else changes.
pub fn force_roots(p: Program, g: &EGraph, roots: &Vec<usize>) -> (r: Program)
    requires
        g.wf(),
        p.layout(g),
        forall|i: int| 0 <= i < roots@.len() ==> #[trigger] roots@[i] < g.canon@.len(),
    ensures
        r.rows == p.rows,
        r.vars == p.vars,
        r.cols@.len() == p.cols@.len(),
        forall|c: int|
            0 <= c < p.vars@.len() ==> {
                let v = #[trigger] p.vars@[c];
                &&& r.cols@[v.order as int] == p.cols@[v.order as int]
                &&& r.cols@[v.active as int] == (Column {
                    lower: if is_root(g, roots@, c) {
                        1i64
                    } else {
                        p.cols@[v.active as int].lower
                    },
                    ..p.cols@[v.active as int]
                })
                &&& forall|j: int|
                    0 <= j < v.nodes@.len() ==> r.cols@[#[trigger] v.nodes@[j] as int]
                        == p.cols@[v.nodes@[j] as int]
            },
        forall|cycles: Seq<(usize, usize)>| #[trigger]
            p.selects(g, cycles) ==> r.selects(g, cycles),
{
    let mut cols: Vec<Column> = p.cols;
    let ghost first = cols@;
    let mut i: usize = 0;
    while i < roots.len()
        invariant
            g.wf(),
            i <= roots@.len(),
            forall|k: int| 0 <= k < roots@.len() ==> #[trigger] roots@[k] < g.canon@.len(),
            p.vars@.len() == g.classes@.len(),
            cols@.len() == first.len(),
            forall|c: int|
                0 <= c < p.vars@.len() ==> placed(first.len() as int, #[trigger] &p.vars@[c], g, c),
            forall|c: int|
                0 <= c < p.vars@.len() ==> {
                    let v = #[trigger] p.vars@[c];
                    &&& cols@[v.order as int] == first[v.order as int]
                    &&& cols@[v.active as int] == (Column {
                        lower: if is_root(g, roots@.take(i as int), c) {
                            1i64
                        } else {
                            first[v.active as int].lower
                        },
                        ..first[v.active as int]
                    })
                    &&& forall|j: int|
                        0 <= j < v.nodes@.len() ==> cols@[#[trigger] v.nodes@[j] as int]
                            == first[v.nodes@[j] as int]
                },
        decreases roots.len() - i,
    {
        let class: usize = g.find(roots[i]);
        let at: usize = p.vars[class].active;
        let old: Column = cols[at];
        let ghost before = cols@;
        cols.set(at, Column { lower: 1, upper: old.upper, integer: old.integer, objective: old.objective });
        proof {
            let done = roots@.take(i as int);
            let next = roots@.take(i + 1);
            assert(next[i as int] == roots@[i as int]);
            assert(is_root(g, next, class as int));
            assert forall|c: int| 0 <= c < p.vars@.len() implies {
                let v = #[trigger] p.vars@[c];
                &&& cols@[v.order as int] == first[v.order as int]
                &&& cols@[v.active as int] == (Column {
                    lower: if is_root(g, next, c) {
                        1i64
                    } else {
                        first[v.active as int].lower
                    },
                    ..first[v.active as int]
                })
                &&& forall|j: int|
                    0 <= j < v.nodes@.len() ==> cols@[#[trigger] v.nodes@[j] as int]
                        == first[v.nodes@[j] as int]
            } by {
                let v = p.vars@[c];
                assert(placed(first.len() as int, &p.vars@[c], g, c));
                assert(placed(first.len() as int, &p.vars@[class as int], g, class as int));
                if c < class {
                    lemma_base_monotone(g, c, class as int);
                } else if class < c {
                    lemma_base_monotone(g, class as int, c);
                }
                if is_root(g, done, c) {
                    let k = choose|k: int| 0 <= k < done.len() && g.find_spec(done[k] as int) == c;
                    assert(next[k] == done[k]);
                    assert(is_root(g, next, c));
                }
                if is_root(g, next, c) && c != class {
                    let k = choose|k: int| 0 <= k < next.len() && g.find_spec(next[k] as int) == c;
                    assert(k < i);
                    assert(done[k] == next[k]);
                    assert(is_root(g, done, c));
                }
            }
        }
        i = i + 1;
    }
    assert(roots@.take(roots@.len() as int) == roots@);
    let r = Program { cols, rows: p.rows, vars: p.vars };
    assert forall|cycles: Seq<(usize, usize)>| #[trigger] p.selects(g, cycles) implies r.selects(
        g,
        cycles,
    ) by {
        assert forall|c: int| 0 <= c < r.vars@.len() implies placed(
            r.cols@.len() as int,
            #[trigger] &r.vars@[c],
            g,
            c,
        ) by {
            assert(placed(p.cols@.len() as int, &p.vars@[c], g, c));
        }
        assert(r.layout(g));
        assert(r.rows@ == p.rows@);
        assert(r.vars@ == p.vars@);
        assert(r.rows_encode(g, cycles));
        assert forall|c: int| 0 <= c < r.vars@.len() implies {
            let v = #[trigger] r.vars@[c];
            &&& 0 <= r.cols@[v.active as int].lower
            &&& r.cols@[v.active as int].upper == 1
            &&& forall|j: int|
                0 <= j < v.nodes@.len() ==> {
                    let col = r.cols@[#[trigger] v.nodes@[j] as int];
                    col.lower == 0 && col.upper == if cycles.contains((c as usize, j as usize)) {
                        0i64
                    } else {
                        1i64
                    }
                }
        } by {
            let v = p.vars@[c];
            assert(0 <= p.cols@[v.active as int].lower);
            assert forall|j: int| 0 <= j < v.nodes@.len() implies {
                let col = r.cols@[#[trigger] v.nodes@[j] as int];
                col.lower == 0 && col.upper == if cycles.contains((c as usize, j as usize)) {
                    0i64
                } else {
                    1i64
                }
            } by {
                assert(r.cols@[v.nodes@[j] as int] == p.cols@[v.nodes@[j] as int]);
            }
        }
    }
    r
}

/// Whether class `c` is the class of one of `roots`.
pub open spec fn is_root(g: &EGraph, roots: Seq<usize>, c: int) -> bool {
    exists|k: int| 0 <= k < roots.len() && g.find_spec(#[trigger] roots[k] as int) == c
}

/// The sum of the values that `x` gives the first `upto` of `nodes`.
pub open spec fn chosen_count(nodes: Seq<usize>, x: Seq<int>, upto: int) -> int
    decreases upto,
{
    if upto <= 0 {
        0
    } else {
        chosen_count(nodes, x, upto - 1) + x[nodes[upto - 1] as int]
    }
}

/// A choice constraint's value is the number of chosen nodes less the
/// activity.
pub proof fn lemma_choice_value(v: &ClassVars, x: Seq<int>, upto: int)
    requires
        0 <= upto <= v.nodes@.len(),
    ensures
        row_value(choice_terms(v).take(upto + 1), x) == chosen_count(v.nodes@, x, upto)
            - x[v.active as int],
    decreases upto,
{
    let terms = choice_terms(v).take(upto + 1);
    assert(terms.drop_last() =~= choice_terms(v).take(upto));
    assert(terms.len() == upto + 1);
    assert(row_value(terms, x) == row_value(terms.drop_last(), x) + terms.last().coef
        * x[terms.last().col as int]);
    if upto > 0 {
        lemma_choice_value(v, x, upto - 1);
        assert(terms.last() == Term { col: v.nodes@[upto - 1], coef: 1i64 });
        assert(chosen_count(v.nodes@, x, upto) == chosen_count(v.nodes@, x, upto - 1)
            + x[v.nodes@[upto - 1] as int]);
        assert(row_value(terms.drop_last(), x) == chosen_count(v.nodes@, x, upto - 1)
            - x[v.active as int]);
        assert(terms.last().coef == 1);
        assert(terms.last().col == v.nodes@[upto - 1]);
        assert(terms.last().coef * x[terms.last().col as int] == x[v.nodes@[upto - 1] as int]);
    } else {
        assert(terms.last().coef == -1);
        assert(terms.last().coef * x[terms.last().col as int] == -x[v.active as int]);
        assert(terms.last() == Term { col: v.active, coef: -1i64 });
        assert(terms.drop_last().len() == 0);
        assert(row_value(terms.drop_last(), x) == 0);
    }
}

/// Values that are 0 or 1 sum to 0 only if all are 0, and to 1 only if
/// exactly one of them is 1.
pub proof fn lemma_count_one(nodes: Seq<usize>, x: Seq<int>, upto: int)
    requires
        0 <= upto <= nodes.len(),
        forall|j: int| 0 <= j < upto ==> 0 <= x[#[trigger] nodes[j] as int] <= 1,
    ensures
        chosen_count(nodes, x, upto) >= 0,
        chosen_count(nodes, x, upto) == 0 ==> forall|j: int|
            0 <= j < upto ==> x[#[trigger] nodes[j] as int] == 0,
        chosen_count(nodes, x, upto) == 1 ==> exists|j: int|
            0 <= j < upto && x[#[trigger] nodes[j] as int] == 1 && forall|i: int|
                0 <= i < upto && i != j ==> x[#[trigger] nodes[i] as int] == 0,
    decreases upto,
{
    if upto > 0 {
        lemma_count_one(nodes, x, upto - 1);
        if chosen_count(nodes, x, upto) == 1 {
            if x[nodes[upto - 1] as int] == 1 {
                let j = upto - 1;
                assert(0 <= j < upto && x[nodes[j] as int] == 1 && forall|i: int|
                    0 <= i < upto && i != j ==> x[#[trigger] nodes[i] as int] == 0);
            } else {
                let j = choose|j: int|
                    0 <= j < upto - 1 && x[#[trigger] nodes[j] as int] == 1 && forall|i: int|
                        0 <= i < upto - 1 && i != j ==> x[#[trigger] nodes[i] as int] == 0;
                assert(0 <= j < upto && x[nodes[j] as int] == 1 && forall|i: int|
                    0 <= i < upto && i != j ==> x[#[trigger] nodes[i] as int] == 0);
            }
        }
    }
}

/// In every assignment that satisfies a selection program, an active class
/// has exactly one chosen node, and an inactive class has none.
pub proof fn lemma_single_choice(p: &Program, g: &EGraph, cycles: Seq<(usize, usize)>, x: Seq<int>, c: int)
    requires
        p.selects(g, cycles),
        p.satisfied_by(x),
        0 <= c < g.classes@.len(),
    ensures
        x[p.vars@[c].active as int] == 0 || x[p.vars@[c].active as int] == 1,
        x[p.vars@[c].active as int] == 1 ==> exists|j: int|
            0 <= j < p.vars@[c].nodes@.len() && x[#[trigger] p.vars@[c].nodes@[j] as int] == 1
                && forall|i: int|
                0 <= i < p.vars@[c].nodes@.len() && i != j ==> x[#[trigger] p.vars@[c].nodes@[i] as int]
                    == 0,
        x[p.vars@[c].active as int] == 0 ==> forall|j: int|
            0 <= j < p.vars@[c].nodes@.len() ==> x[#[trigger] p.vars@[c].nodes@[j] as int] == 0,
{
    let v = p.vars@[c];
    assert(placed(p.cols@.len() as int, &p.vars@[c], g, c));
    assert(has_choice(p.rows@, p.vars@, c));
    let r = choose|r: int| 0 <= r < p.rows@.len() && #[trigger] choice_at(p.rows@, p.vars@, r, c);
    let row = p.rows@[r];
    assert(row_value(row.terms@, x) == 0);
    lemma_choice_value(&v, x, v.nodes@.len() as int);
    assert(choice_terms(&v).take(v.nodes@.len() as int + 1) =~= choice_terms(&v));
    assert(p.cols@[v.active as int].lower <= x[v.active as int] <= p.cols@[v.active as int].upper);
    assert forall|j: int| 0 <= j < v.nodes@.len() implies 0 <= x[#[trigger] v.nodes@[j] as int]
        <= 1 by {
        let k = v.nodes@[j] as int;
        assert(p.cols@[k].lower <= x[k] <= p.cols@[k].upper);
    }
    lemma_count_one(v.nodes@, x, v.nodes@.len() as int);
}

/// In every assignment that satisfies a selection program, no node that
/// was reported as closing a cycle is chosen.
pub proof fn lemma_cyclic_never_chosen(
    p: &Program,
    g: &EGraph,
    cycles: Seq<(usize, usize)>,
    x: Seq<int>,
    c: int,
    j: int,
)
    requires
        p.selects(g, cycles),
        p.satisfied_by(x),
        0 <= c < g.classes@.len(),
        0 <= j < g.classes@[c].nodes@.len(),
        cycles.contains((c as usize, j as usize)),
    ensures
        x[p.vars@[c].nodes@[j] as int] == 0,
{
    let v = p.vars@[c];
    assert(placed(p.cols@.len() as int, &p.vars@[c], g, c));
    let k = v.nodes@[j] as int;
    assert(p.cols@[k].lower <= x[k] <= p.cols@[k].upper);
}

/// In every assignment that satisfies a selection program, the operand
/// classes of a chosen node are active.
pub proof fn lemma_chosen_operands_active(
    p: &Program,
    g: &EGraph,
    cycles: Seq<(usize, usize)>,
    x: Seq<int>,
    c: int,
    j: int,
    m: int,
)
    requires
        g.wf(),
        p.selects(g, cycles),
        p.satisfied_by(x),
        0 <= c < g.classes@.len(),
        0 <= j < g.classes@[c].nodes@.len(),
        0 <= m < g.classes@[c].nodes@[j].children@.len(),
        x[p.vars@[c].nodes@[j] as int] == 1,
    ensures
        x[p.vars@[g.child(c, j, m)].active as int] == 1,
{
    let v = p.vars@[c];
    let d = g.child(c, j, m);
    assert(placed(p.cols@.len() as int, &p.vars@[c], g, c));
    assert(placed(p.cols@.len() as int, &p.vars@[d], g, d));
    let k = v.nodes@[j] as int;
    assert(p.cols@[k].lower <= x[k] <= p.cols@[k].upper);
    assert(!cycles.contains((c as usize, j as usize)));
    assert(linked(g, cycles, c, j, m));
    let r = choose|r: int| 0 <= r < p.rows@.len() && #[trigger] link_at(p.rows@, p.vars@, g, r, c, j, m);
    let row = p.rows@[r];
    let terms = row.terms@;
    assert(row_value(terms, x) <= 0);
    assert(terms.drop_last() =~= seq![Term { col: v.nodes@[j], coef: 1i64 }]);
    assert(terms.drop_last().drop_last() =~= Seq::<Term>::empty());
    assert(row_value(terms.drop_last().drop_last(), x) == 0);
    assert(row_value(terms.drop_last(), x) == x[k]);
    assert(row_value(terms, x) == x[k] - x[p.vars@[d].active as int]);
    let a = p.vars@[d].active as int;
    assert(p.cols@[a].lower <= x[a] <= p.cols@[a].upper);
}

} // verus!
