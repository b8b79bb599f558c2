//! Hierarchical cost propagation: the best node of every class and its
//! cost, with the cost of shared operands counted once.

use vstd::prelude::*;
use crate::cost::{is_better, non_constant, non_constant_spec, rank_less, Config, Cost, CostFunction};
use crate::graph::{EGraph, Op};

verus! {

/// What is recorded of a class: the cost of its best node, that node's
/// position in the class, and its operation kind.
#[derive(Clone, Copy, Debug, PartialEq, Eq, Structural)]
pub struct ClassCost {
    pub cost: Cost,
    pub node: usize,
    pub op: Op,
}

/// The tables of one propagation, by class position.
#[derive(Debug)]
pub struct CostTable {
    /// The recorded cost of each class, where one is known.
    pub costs: Vec<Option<ClassCost>>,
    /// For each class, which classes its best node depends on.
    pub subs: Vec<Vec<bool>>,
}

/// The mathematical content of a `CostTable`.
pub struct Table {
    pub costs: Seq<Option<ClassCost>>,
    pub subs: Seq<Seq<bool>>,
}

impl View for CostTable {
    type V = Table;

    open spec fn view(&self) -> Table {
        Table {
            costs: self.costs@,
            subs: Seq::new(self.subs@.len(), |c: int| self.subs@[c]@),
        }
    }
}

impl Table {
    /// The table has one entry per class, and one descendant flag per pair
    /// of classes.
    pub open spec fn fits(&self, g: &EGraph) -> bool {
        &&& self.costs.len() == g.classes@.len()
        &&& self.subs.len() == g.classes@.len()
        &&& forall|c: int| 0 <= c < self.subs.len() ==> (#[trigger] self.subs[c]).len() == g.classes@.len()
    }

    /// Whether every operand class of node `j` of class `c` has a cost.
    pub open spec fn known(&self, g: &EGraph, c: int, j: int) -> bool {
        forall|m: int|
            0 <= m < g.classes@[c].nodes@[j].children@.len() ==> (#[trigger] self.costs[g.child(
                c,
                j,
                m,
            )]).is_some()
    }

/// The recorded depths of the operand classes of node `j` of class `c`.
    pub open spec fn kid_depths(&self, g: &EGraph, c: int, j: int) -> Seq<i64> {
        Seq::new(
            g.classes@[c].nodes@[j].children@.len(),
            |m: int| self.costs[g.child(c, j, m)].unwrap().cost.depth,
        )
    }

/// The recorded multiplicative depths of the operand classes of node `j`
/// of class `c`.
    pub open spec fn kid_mul_depths(&self, g: &EGraph, c: int, j: int) -> Seq<i64> {
        Seq::new(
            g.classes@[c].nodes@[j].children@.len(),
            |m: int| self.costs[g.child(c, j, m)].unwrap().cost.mul_depth,
        )
    }

/// The recorded operation costs of the operand classes of node `j` of
/// class `c`.
    pub open spec fn kid_op_costs(&self, g: &EGraph, c: int, j: int) -> Seq<i64> {
        Seq::new(
            g.classes@[c].nodes@[j].children@.len(),
            |m: int| self.costs[g.child(c, j, m)].unwrap().cost.op_cost,
        )
    }

    /// What the classes below `upto` that both `a` and `b` depend on take
    /// off a parent's operation cost: one unit each, by the kind of the
    /// shared class's best node.
    pub open spec fn shared_total(&self, cfg: Config, a: int, b: int, upto: int) -> int
        decreases upto,
    {
        if upto <= 0 {
            0
        } else {
            self.shared_total(cfg, a, b, upto - 1) + if self.subs[a][upto - 1] && self.subs[b][upto
                - 1] {
                match self.costs[upto - 1] {
                    Some(cc) => cfg.shared_unit_spec(cc.op),
                    None => 0,
                }
            } else {
                0
            }
        }
    }

    /// What a multiplication saves where the best node of one of its two
    /// operand classes `a`, `b` is of a non-constant kind.
    pub open spec fn mul_saving(&self, cfg: Config, op: Op, a: int, b: int) -> int {
        if op == Op::Mul && (non_constant_spec(self.costs[a].unwrap().op) || non_constant_spec(
            self.costs[b].unwrap().op,
        )) {
            99 * cfg.op
        } else {
            0
        }
    }

    /// What sharing between the two operand classes `a` and `b` takes off:
    /// the operand's own cost where they are one class or one depends on
    /// the other, else the units of the classes both depend on.
    pub open spec fn sharing(&self, cfg: Config, a: int, b: int) -> int {
        if a == b {
            self.costs[b].unwrap().cost.op_cost as int
        } else if self.subs[a][b] {
            self.costs[b].unwrap().cost.op_cost as int
        } else if self.subs[b][a] {
            self.costs[a].unwrap().cost.op_cost as int
        } else {
            self.shared_total(cfg, a, b, self.costs.len() as int)
        }
    }

    /// What is taken off the operation cost of node `j` of class `c`:
    /// nothing unless it has exactly two operands.
    pub open spec fn discount(&self, cfg: Config, g: &EGraph, c: int, j: int) -> int {
        if g.classes@[c].nodes@[j].children@.len() == 2 {
            let a = g.child(c, j, 0);
            let b = g.child(c, j, 1);
            self.mul_saving(cfg, g.classes@[c].nodes@[j].op, a, b) + self.sharing(cfg, a, b)
        } else {
            0
        }
    }

    /// The cost of node `j` of class `c` under this table: none while an
    /// operand class has no cost, or where the discounted operation cost
    /// leaves `i64`.
    pub open spec fn node_cost<CF: CostFunction>(
        &self,
        cf: &CF,
        cfg: Config,
        g: &EGraph,
        c: int,
        j: int,
    ) -> Option<Cost> {
        let op = g.classes@[c].nodes@[j].op;
        let v = cf.op_costs_of(op, self.kid_op_costs(g, c, j)) - self.discount(cfg, g, c, j);
        if self.known(g, c, j) && i64::MIN <= v <= i64::MAX {
            Some(
                Cost {
                    depth: cf.depth_of(op, self.kid_depths(g, c, j)),
                    mul_depth: cf.mul_depth_of(op, self.kid_mul_depths(g, c, j)),
                    op_cost: v as i64,
                },
            )
        } else {
            None
        }
    }
}

/// The units of the classes that both `a` and `b` depend on.
fn shared_units(cfg: &Config, t: &CostTable, a: usize, b: usize) -> (r: i128)
    requires
        a < t@.subs.len(),
        b < t@.subs.len(),
        t@.subs[a as int].len() == t@.costs.len(),
        t@.subs[b as int].len() == t@.costs.len(),
    ensures
        r == t@.shared_total(*cfg, a as int, b as int, t@.costs.len() as int),
        -0x1_0000_0000_0000 * t@.costs.len() <= r <= 0x1_0000_0000_0000 * t@.costs.len(),
{
    let n: usize = t.costs.len();
    let mut acc: i128 = 0;
    let mut d: usize = 0;
    while d < n
        invariant
            d <= n,
            n == t@.costs.len(),
            a < t@.subs.len(),
            b < t@.subs.len(),
            t@.subs[a as int].len() == n,
            t@.subs[b as int].len() == n,
            acc == t@.shared_total(*cfg, a as int, b as int, d as int),
            -0x1_0000_0000_0000 * d <= acc <= 0x1_0000_0000_0000 * d,
        decreases n - d,
    {
        if t.subs[a][d] && t.subs[b][d] {
            match t.costs[d] {
                Some(cc) => {
                    acc = acc + cfg.shared_unit(cc.op) as i128;
                },
                None => {},
            }
        }
        d = d + 1;
    }
    acc
}

/// The cost of node `j` of class `c`, from the costs recorded for its
/// operand classes.
pub fn node_total_cost<CF: CostFunction>(
    cf: &CF,
    cfg: &Config,
    g: &EGraph,
    t: &CostTable,
    c: usize,
    j: usize,
) -> (r: Option<Cost>)
    requires
        g.wf(),
        t@.fits(g),
        c < g.classes@.len(),
        j < g.classes@[c as int].nodes@.len(),
    ensures
        r == t@.node_cost(cf, *cfg, g, c as int, j as int),
{
    let node = &g.classes[c].nodes[j];
    let mut depths: Vec<i64> = Vec::new();
    let mut mul_depths: Vec<i64> = Vec::new();
    let mut op_costs: Vec<i64> = Vec::new();
    let mut m: usize = 0;
    while m < node.children.len()
        invariant
            g.wf(),
            t@.fits(g),
            c < g.classes@.len(),
            j < g.classes@[c as int].nodes@.len(),
            *node == g.classes@[c as int].nodes@[j as int],
            m <= node.children@.len(),
            depths@.len() == m,
            mul_depths@.len() == m,
            op_costs@.len() == m,
            forall|i: int|
                0 <= i < m ==> {
                    let cc = #[trigger] t@.costs[g.child(c as int, j as int, i)];
                    &&& cc.is_some()
                    &&& depths@[i] == cc.unwrap().cost.depth
                    &&& mul_depths@[i] == cc.unwrap().cost.mul_depth
                    &&& op_costs@[i] == cc.unwrap().cost.op_cost
                },
        decreases node.children.len() - m,
    {
        let ch: usize = g.find(node.children[m]);
        assert(ch == g.child(c as int, j as int, m as int));
        match t.costs[ch] {
            None => {
                assert(!t@.known(g, c as int, j as int));
                return None;
            },
            Some(cc) => {
                depths.push(cc.cost.depth);
                mul_depths.push(cc.cost.mul_depth);
                op_costs.push(cc.cost.op_cost);
            },
        }
        m = m + 1;
    }
    assert(depths@ =~= t@.kid_depths(g, c as int, j as int));
    assert(mul_depths@ =~= t@.kid_mul_depths(g, c as int, j as int));
    assert(op_costs@ =~= t@.kid_op_costs(g, c as int, j as int));
    assert(t@.known(g, c as int, j as int));
    let depth: i64 = cf.depth(node, &depths);
    let mul_depth: i64 = cf.mul_depth(node, &mul_depths);
    let base: i64 = cf.op_costs(node, &op_costs);
    let mut value: i128 = base as i128;
    if node.children.len() == 2 {
        let a: usize = g.find(node.children[0]);
        let b: usize = g.find(node.children[1]);
        assert(a == g.child(c as int, j as int, 0));
        assert(b == g.child(c as int, j as int, 1));
        assert(t@.costs[g.child(c as int, j as int, 0)].is_some());
        assert(t@.costs[g.child(c as int, j as int, 1)].is_some());
        let ca: ClassCost = t.costs[a].unwrap();
        let cb: ClassCost = t.costs[b].unwrap();
        if node.op == Op::Mul && (non_constant(ca.op) || non_constant(cb.op)) {
            value = value - 99 * (cfg.op as i128);
        }
        assert(t@.subs[a as int] == t.subs@[a as int]@);
        assert(t@.subs[b as int] == t.subs@[b as int]@);
        if a == b {
            value = value - cb.cost.op_cost as i128;
        } else if t.subs[a][b] {
            value = value - cb.cost.op_cost as i128;
        } else if t.subs[b][a] {
            value = value - ca.cost.op_cost as i128;
        } else {
            let shared: i128 = shared_units(cfg, t, a, b);
            let n: usize = t.costs.len();
            assert(-0x1_0000_0000_0000 * n <= shared <= 0x1_0000_0000_0000 * n);
            value = value - shared;
        }
    }
    if value < i64::MIN as i128 || value > i64::MAX as i128 {
        None
    } else {
        Some(Cost { depth, mul_depth, op_cost: value as i64 })
    }
}

impl Table {
    /// Whether class `d` is operand `m` of node `j` of class `c`, or a class
    /// that this operand depends on.
    pub open spec fn hits(&self, g: &EGraph, c: int, j: int, m: int, d: int) -> bool {
        g.child(c, j, m) == d || self.subs[g.child(c, j, m)][d]
    }

    /// Whether one of the first `upto` operands of node `j` of class `c`
    /// is class `d` or depends on it.
    pub open spec fn depends_via(&self, g: &EGraph, c: int, j: int, d: int, upto: int) -> bool
        decreases upto,
    {
        if upto <= 0 {
            false
        } else {
            self.depends_via(g, c, j, d, upto - 1) || self.hits(g, c, j, upto - 1, d)
        }
    }

    /// The classes that node `j` of class `c` depends on: its operand
    /// classes and what they depend on.
    pub open spec fn descendants(&self, g: &EGraph, c: int, j: int) -> Seq<bool> {
        Seq::new(
            g.classes@.len(),
            |d: int| self.depends_via(g, c, j, d, g.classes@[c].nodes@[j].children@.len() as int),
        )
    }

    /// The first node of least rank among the first `upto` nodes of class
    /// `c`.
    pub open spec fn best_index<CF: CostFunction>(
        &self,
        cf: &CF,
        cfg: Config,
        g: &EGraph,
        c: int,
        upto: int,
    ) -> int
        decreases upto,
    {
        if upto <= 1 {
            0
        } else {
            let p = self.best_index(cf, cfg, g, c, upto - 1);
            if rank_less(
                cfg,
                self.node_cost(cf, cfg, g, c, upto - 1),
                self.node_cost(cf, cfg, g, c, p),
            ) {
                upto - 1
            } else {
                p
            }
        }
    }

    /// What one scan of class `c` proposes to record for it: its first node
    /// of least cost, if any node has a cost.
    pub open spec fn proposal<CF: CostFunction>(
        &self,
        cf: &CF,
        cfg: Config,
        g: &EGraph,
        c: int,
    ) -> Option<ClassCost> {
        let j = self.best_index(cf, cfg, g, c, g.classes@[c].nodes@.len() as int);
        match self.node_cost(cf, cfg, g, c, j) {
            Some(cost) => Some(ClassCost { cost, node: j as usize, op: g.classes@[c].nodes@[j].op }),
            None => None,
        }
    }

    /// Whether a scan of class `c` changes its record: the proposal is
    /// known, and the class had no cost or one of another weighted sum.
    pub open spec fn improves<CF: CostFunction>(
        &self,
        cf: &CF,
        cfg: Config,
        g: &EGraph,
        c: int,
    ) -> bool {
        match (self.proposal(cf, cfg, g, c), self.costs[c]) {
            (Some(p), Some(old)) => cfg.scalar_spec(p.cost) != cfg.scalar_spec(old.cost),
            (Some(_), None) => true,
            _ => false,
        }
    }

    /// The table after a scan of class `c`.
    pub open spec fn step<CF: CostFunction>(&self, cf: &CF, cfg: Config, g: &EGraph, c: int) -> Table {
        if self.improves(cf, cfg, g, c) {
            let p = self.proposal(cf, cfg, g, c).unwrap();
            Table {
                costs: self.costs.update(c, Some(p)),
                subs: self.subs.update(c, self.descendants(g, c, p.node as int)),
            }
        } else {
            *self
        }
    }

    /// The table after the first `upto` classes were scanned in turn.
    pub open spec fn sweep<CF: CostFunction>(
        &self,
        cf: &CF,
        cfg: Config,
        g: &EGraph,
        upto: int,
    ) -> Table
        decreases upto,
    {
        if upto <= 0 {
            *self
        } else {
            self.sweep(cf, cfg, g, upto - 1).step(cf, cfg, g, upto - 1)
        }
    }

    /// Whether scanning the first `upto` classes in turn changes a record.
    pub open spec fn sweep_changes<CF: CostFunction>(
        &self,
        cf: &CF,
        cfg: Config,
        g: &EGraph,
        upto: int,
    ) -> bool
        decreases upto,
    {
        if upto <= 0 {
            false
        } else {
            self.sweep_changes(cf, cfg, g, upto - 1) || self.sweep(cf, cfg, g, upto - 1).improves(
                cf,
                cfg,
                g,
                upto - 1,
            )
        }
    }

    /// The table in which no class has a cost and none depends on another.
    pub open spec fn blank(g: &EGraph) -> Table {
        Table {
            costs: Seq::new(g.classes@.len(), |c: int| None),
            subs: Seq::new(g.classes@.len(), |c: int| Seq::new(g.classes@.len(), |d: int| false)),
        }
    }

    /// The table after `passes` full scans of the graph, from the blank
    /// table.
    pub open spec fn after<CF: CostFunction>(cf: &CF, cfg: Config, g: &EGraph, passes: nat) -> Table
        decreases passes,
    {
        if passes == 0 {
            Table::blank(g)
        } else {
            Table::after(cf, cfg, g, (passes - 1) as nat).sweep(cf, cfg, g, g.classes@.len() as int)
        }
    }

    /// A fixed point: scanning any class changes nothing.
    pub open spec fn stable<CF: CostFunction>(&self, cf: &CF, cfg: Config, g: &EGraph) -> bool {
        forall|c: int| 0 <= c < g.classes@.len() ==> !#[trigger] self.improves(cf, cfg, g, c)
    }
}

/// What one scan of a class yields.
#[derive(Debug)]
pub struct Pass {
    /// The class's first node of least cost, where a node has a cost.
    pub best: Option<ClassCost>,
    /// The classes that this node depends on.
    pub subs: Vec<bool>,
    /// The cost of every node of the class, where it is known.
    pub node_costs: Vec<Option<Cost>>,
}

/// The classes that node `j` of class `c` depends on.
fn dependency_row(g: &EGraph, t: &CostTable, c: usize, j: usize) -> (row: Vec<bool>)
    requires
        g.wf(),
        t@.fits(g),
        c < g.classes@.len(),
        j < g.classes@[c as int].nodes@.len(),
    ensures
        row@ == t@.descendants(g, c as int, j as int),
{
    let n: usize = g.classes.len();
    let node = &g.classes[c].nodes[j];
    let mut row: Vec<bool> = Vec::new();
    let mut d: usize = 0;
    while d < n
        invariant
            d <= n,
            row@.len() == d,
            forall|e: int| 0 <= e < d ==> !#[trigger] row@[e],
        decreases n - d,
    {
        row.push(false);
        d = d + 1;
    }
    let mut m: usize = 0;
    while m < node.children.len()
        invariant
            g.wf(),
            t@.fits(g),
            n == g.classes@.len(),
            c < n,
            j < g.classes@[c as int].nodes@.len(),
            *node == g.classes@[c as int].nodes@[j as int],
            m <= node.children@.len(),
            row@.len() == n,
            forall|e: int|
                0 <= e < n ==> #[trigger] row@[e] == t@.depends_via(g, c as int, j as int, e, m as int),
        decreases node.children.len() - m,
    {
        let ch: usize = g.find(node.children[m]);
        assert(ch == g.child(c as int, j as int, m as int));
        assert(t@.subs[ch as int] == t.subs@[ch as int]@);
        let mut d: usize = 0;
        while d < n
            invariant
                g.wf(),
                t@.fits(g),
                n == g.classes@.len(),
                c < n,
                ch < n,
                j < g.classes@[c as int].nodes@.len(),
                m < g.classes@[c as int].nodes@[j as int].children@.len(),
                ch == g.child(c as int, j as int, m as int),
                t@.subs[ch as int] == t.subs@[ch as int]@,
                d <= n,
                row@.len() == n,
                forall|e: int|
                    0 <= e < d ==> #[trigger] row@[e] == t@.depends_via(
                        g,
                        c as int,
                        j as int,
                        e,
                        m + 1,
                    ),
                forall|e: int|
                    d <= e < n ==> #[trigger] row@[e] == t@.depends_via(
                        g,
                        c as int,
                        j as int,
                        e,
                        m as int,
                    ),
            decreases n - d,
        {
            if d == ch || t.subs[ch][d] {
                row.set(d, true);
            }
            d = d + 1;
        }
        m = m + 1;
    }
    assert(row@ =~= t@.descendants(g, c as int, j as int));
    row
}

/// Scans class `c`: the cost of each of its nodes, the first node of least
/// cost, and what that node depends on.
pub fn make_pass<CF: CostFunction>(
    cf: &CF,
    cfg: &Config,
    g: &EGraph,
    t: &CostTable,
    c: usize,
) -> (r: Pass)
    requires
        g.wf(),
        t@.fits(g),
        c < g.classes@.len(),
        g.classes@[c as int].nodes@.len() > 0,
    ensures
        r.best == t@.proposal(cf, *cfg, g, c as int),
        r.best.is_some() ==> r.subs@ == t@.descendants(g, c as int, r.best.unwrap().node as int),
        r.node_costs@ == Seq::new(
            g.classes@[c as int].nodes@.len(),
            |j: int| t@.node_cost(cf, *cfg, g, c as int, j),
        ),
{
    let len: usize = g.classes[c].nodes.len();
    let mut node_costs: Vec<Option<Cost>> = Vec::new();
    let first: Option<Cost> = node_total_cost(cf, cfg, g, t, c, 0);
    node_costs.push(first);
    let mut best: usize = 0;
    let mut best_cost: Option<Cost> = first;
    let mut j: usize = 1;
    while j < len
        invariant
            g.wf(),
            t@.fits(g),
            c < g.classes@.len(),
            len == g.classes@[c as int].nodes@.len(),
            1 <= j <= len,
            best < j,
            best == t@.best_index(cf, *cfg, g, c as int, j as int),
            best_cost == t@.node_cost(cf, *cfg, g, c as int, best as int),
            node_costs@.len() == j,
            forall|i: int|
                0 <= i < j ==> #[trigger] node_costs@[i] == t@.node_cost(cf, *cfg, g, c as int, i),
        decreases len - j,
    {
        let cost: Option<Cost> = node_total_cost(cf, cfg, g, t, c, j);
        if is_better(cfg, &cost, &best_cost) {
            best = j;
            best_cost = cost;
        }
        node_costs.push(cost);
        j = j + 1;
    }
    assert(node_costs@ =~= Seq::new(
        g.classes@[c as int].nodes@.len(),
        |j: int| t@.node_cost(cf, *cfg, g, c as int, j),
    ));
    match best_cost {
        None => Pass { best: None, subs: Vec::new(), node_costs },
        Some(cost) => {
            let subs: Vec<bool> = dependency_row(g, t, c, best);
            Pass {
                best: Some(ClassCost { cost, node: best, op: g.classes[c].nodes[best].op }),
                subs,
                node_costs,
            }
        },
    }
}

impl Table {
    /// The costs computed for the nodes of class `c` when it was last
    /// scanned, `passes` full scans after the blank table: none before the
    /// first scan.
    pub open spec fn scan_costs<CF: CostFunction>(
        cf: &CF,
        cfg: Config,
        g: &EGraph,
        passes: nat,
        c: int,
    ) -> Seq<Option<Cost>> {
        if passes == 0 {
            Seq::new(g.classes@[c].nodes@.len(), |j: int| None)
        } else {
            Seq::new(
                g.classes@[c].nodes@.len(),
                |j: int|
                    Table::after(cf, cfg, g, (passes - 1) as nat).sweep(cf, cfg, g, c).node_cost(
                        cf,
                        cfg,
                        g,
                        c,
                        j,
                    ),
            )
        }
    }
}

/// A scan keeps the table's shape.
pub proof fn lemma_step_fits<CF: CostFunction>(t: Table, cf: &CF, cfg: Config, g: &EGraph, c: int)
    requires
        t.fits(g),
        0 <= c < g.classes@.len(),
    ensures
        t.step(cf, cfg, g, c).fits(g),
{
    let u = t.step(cf, cfg, g, c);
    assert forall|k: int| 0 <= k < u.subs.len() implies (#[trigger] u.subs[k]).len()
        == g.classes@.len() by {
        if k != c {
            assert(u.subs[k] == t.subs[k]);
        }
    }
}

/// Scans that change no record leave the table as it was.
pub proof fn lemma_quiet_sweep<CF: CostFunction>(
    t: Table,
    cf: &CF,
    cfg: Config,
    g: &EGraph,
    upto: int,
)
    requires
        !t.sweep_changes(cf, cfg, g, upto),
    ensures
        t.sweep(cf, cfg, g, upto) == t,
        forall|c: int| 0 <= c < upto ==> !#[trigger] t.improves(cf, cfg, g, c),
    decreases upto,
{
    if upto > 0 {
        lemma_quiet_sweep(t, cf, cfg, g, upto - 1);
    }
}

/// The best node ranks before every earlier node, and no node ranks before
/// it.
pub proof fn lemma_best_is_least<CF: CostFunction>(
    t: Table,
    cf: &CF,
    cfg: Config,
    g: &EGraph,
    c: int,
    upto: int,
)
    requires
        upto >= 1,
    ensures
        0 <= t.best_index(cf, cfg, g, c, upto) < upto,
        forall|j: int|
            0 <= j < upto ==> !rank_less(
                cfg,
                #[trigger] t.node_cost(cf, cfg, g, c, j),
                t.node_cost(cf, cfg, g, c, t.best_index(cf, cfg, g, c, upto)),
            ),
        forall|j: int|
            0 <= j < t.best_index(cf, cfg, g, c, upto) ==> rank_less(
                cfg,
                t.node_cost(cf, cfg, g, c, t.best_index(cf, cfg, g, c, upto)),
                #[trigger] t.node_cost(cf, cfg, g, c, j),
            ),
    decreases upto,
{
    if upto > 1 {
        lemma_best_is_least(t, cf, cfg, g, c, upto - 1);
    }
}

/// At a fixed point, the cost recorded for a class is no greater, by the
/// weighted sum, than the cost of any node of that class that has one.
pub proof fn lemma_recorded_cost_is_least<CF: CostFunction>(
    t: Table,
    cf: &CF,
    cfg: Config,
    g: &EGraph,
    c: int,
    j: int,
)
    requires
        t.stable(cf, cfg, g),
        0 <= c < g.classes@.len(),
        0 <= j < g.classes@[c].nodes@.len(),
        t.costs[c].is_some(),
        t.node_cost(cf, cfg, g, c, j).is_some(),
    ensures
        cfg.scalar_spec(t.costs[c].unwrap().cost) <= cfg.scalar_spec(
            t.node_cost(cf, cfg, g, c, j).unwrap(),
        ),
{
    lemma_best_is_least(t, cf, cfg, g, c, g.classes@[c].nodes@.len() as int);
    assert(!t.improves(cf, cfg, g, c));
}

/// A node whose two operands are one class pays for that class once: where
/// no multiplication saving applies, its operation cost is the cost
/// function's value less the operand class's operation cost.
pub proof fn lemma_shared_operand_counted_once<CF: CostFunction>(
    t: Table,
    cf: &CF,
    cfg: Config,
    g: &EGraph,
    c: int,
    j: int,
)
    requires
        g.classes@[c].nodes@[j].children@.len() == 2,
        g.child(c, j, 0) == g.child(c, j, 1),
        t.known(g, c, j),
        t.mul_saving(cfg, g.classes@[c].nodes@[j].op, g.child(c, j, 0), g.child(c, j, 1)) == 0,
        i64::MIN <= cf.op_costs_of(g.classes@[c].nodes@[j].op, t.kid_op_costs(g, c, j))
            - t.costs[g.child(c, j, 0)].unwrap().cost.op_cost <= i64::MAX,
    ensures
        t.node_cost(cf, cfg, g, c, j).is_some(),
        t.node_cost(cf, cfg, g, c, j).unwrap().op_cost == cf.op_costs_of(
            g.classes@[c].nodes@[j].op,
            t.kid_op_costs(g, c, j),
        ) - t.costs[g.child(c, j, 0)].unwrap().cost.op_cost,
{
}

/// The outcome of a propagation.
#[derive(Debug)]
pub struct Propagation {
    /// The recorded costs and dependencies.
    pub table: CostTable,
    /// The cost of each node of each class, as of the class's last scan.
    pub node_costs: Vec<Vec<Option<Cost>>>,
    /// The number of full scans made.
    pub passes: usize,
    /// Whether the last full scan changed nothing.
    pub converged: bool,
}

/// The table in which no class has a cost.
fn blank_table(g: &EGraph) -> (t: CostTable)
    ensures
        t@ == Table::blank(g),
        t@.fits(g),
{
    let n: usize = g.classes.len();
    let mut costs: Vec<Option<ClassCost>> = Vec::new();
    let mut subs: Vec<Vec<bool>> = Vec::new();
    let mut c: usize = 0;
    while c < n
        invariant
            c <= n,
            n == g.classes@.len(),
            costs@.len() == c,
            subs@.len() == c,
            forall|k: int| 0 <= k < c ==> (#[trigger] costs@[k]).is_none(),
            forall|k: int| 0 <= k < c ==> (#[trigger] subs@[k])@ == Seq::new(n as nat, |d: int| false),
        decreases n - c,
    {
        let mut row: Vec<bool> = Vec::new();
        let mut d: usize = 0;
        while d < n
            invariant
                d <= n,
                row@.len() == d,
                forall|e: int| 0 <= e < d ==> !#[trigger] row@[e],
            decreases n - d,
        {
            row.push(false);
            d = d + 1;
        }
        assert(row@ =~= Seq::new(n as nat, |d: int| false));
        costs.push(None);
        subs.push(row);
        c = c + 1;
    }
    let t = CostTable { costs, subs };
    assert(t@.costs =~= Table::blank(g).costs);
    assert(t@.subs =~= Table::blank(g).subs);
    t
}

/// Propagates costs through the graph: scans all classes in turn, records
/// for each class its first node of least cost whenever the class had no
/// cost or the weighted sum differs, and repeats until a full scan changes
/// nothing or `max_passes` scans were made.
pub fn find_costs<CF: CostFunction>(cf: &CF, cfg: &Config, g: &EGraph, max_passes: usize) -> (r:
    Propagation)
    requires
        g.wf(),
        g.populated(),
    ensures
        r.table@ == Table::after(cf, *cfg, g, r.passes as nat),
        r.table@.fits(g),
        r.passes <= max_passes,
        r.converged == (r.passes > 0 && !Table::after(
            cf,
            *cfg,
            g,
            (r.passes - 1) as nat,
        ).sweep_changes(cf, *cfg, g, g.classes@.len() as int)),
        !r.converged ==> r.passes == max_passes,
        forall|k: nat|
            0 < k < r.passes ==> #[trigger] Table::after(cf, *cfg, g, (k - 1) as nat).sweep_changes(
                cf,
                *cfg,
                g,
                g.classes@.len() as int,
            ),
        r.converged ==> r.table@.stable(cf, *cfg, g),
        r.node_costs@.len() == g.classes@.len(),
        forall|c: int|
            0 <= c < g.classes@.len() ==> (#[trigger] r.node_costs@[c])@ == Table::scan_costs(
                cf,
                *cfg,
                g,
                r.passes as nat,
                c,
            ),
        r.converged ==> forall|c: int, j: int|
            0 <= c < g.classes@.len() && 0 <= j < g.classes@[c].nodes@.len()
                ==> #[trigger] r.node_costs@[c]@[j] == r.table@.node_cost(cf, *cfg, g, c, j),
{
    let n: usize = g.classes.len();
    let mut t: CostTable = blank_table(g);
    let mut node_costs: Vec<Vec<Option<Cost>>> = Vec::new();
    let mut c: usize = 0;
    while c < n
        invariant
            c <= n,
            n == g.classes@.len(),
            node_costs@.len() == c,
            forall|k: int|
                0 <= k < c ==> (#[trigger] node_costs@[k])@ == Table::scan_costs(cf, *cfg, g, 0, k),
        decreases n - c,
    {
        let len: usize = g.classes[c].nodes.len();
        let mut row: Vec<Option<Cost>> = Vec::new();
        let mut j: usize = 0;
        while j < len
            invariant
                j <= len,
                row@.len() == j,
                forall|i: int| 0 <= i < j ==> (#[trigger] row@[i]).is_none(),
            decreases len - j,
        {
            row.push(None);
            j = j + 1;
        }
        assert(row@ =~= Table::scan_costs(cf, *cfg, g, 0, c as int));
        node_costs.push(row);
        c = c + 1;
    }
    let mut passes: usize = 0;
    let mut changed: bool = true;
    while changed && passes < max_passes
        invariant
            g.wf(),
            g.populated(),
            n == g.classes@.len(),
            passes <= max_passes,
            t@ == Table::after(cf, *cfg, g, passes as nat),
            t@.fits(g),
            changed == (passes == 0 || Table::after(cf, *cfg, g, (passes - 1) as nat).sweep_changes(
                cf,
                *cfg,
                g,
                n as int,
            )),
            forall|k: nat|
                0 < k < passes ==> #[trigger] Table::after(
                    cf,
                    *cfg,
                    g,
                    (k - 1) as nat,
                ).sweep_changes(cf, *cfg, g, n as int),
            node_costs@.len() == n,
            forall|k: int|
                0 <= k < n ==> (#[trigger] node_costs@[k])@ == Table::scan_costs(
                    cf,
                    *cfg,
                    g,
                    passes as nat,
                    k,
                ),
        decreases max_passes - passes,
    {
        let ghost prev = t@;
        changed = false;
        let mut c: usize = 0;
        while c < n
            invariant
                g.wf(),
                g.populated(),
                n == g.classes@.len(),
                c <= n,
                prev == Table::after(cf, *cfg, g, passes as nat),
                t@ == prev.sweep(cf, *cfg, g, c as int),
                t@.fits(g),
                changed == prev.sweep_changes(cf, *cfg, g, c as int),
                node_costs@.len() == n,
                forall|k: int|
                    0 <= k < c ==> (#[trigger] node_costs@[k])@ == Table::scan_costs(
                        cf,
                        *cfg,
                        g,
                        (passes + 1) as nat,
                        k,
                    ),
                forall|k: int|
                    c <= k < n ==> (#[trigger] node_costs@[k])@ == Table::scan_costs(
                        cf,
                        *cfg,
                        g,
                        passes as nat,
                        k,
                    ),
            decreases n - c,
        {
            let ghost before = t@;
            let pass: Pass = make_pass(cf, cfg, g, &t, c);
            proof {
                lemma_step_fits(before, cf, *cfg, g, c as int);
                assert(pass.node_costs@ =~= Table::scan_costs(
                    cf,
                    *cfg,
                    g,
                    (passes + 1) as nat,
                    c as int,
                ));
            }
            let update: bool = match pass.best {
                Some(p) => match t.costs[c] {
                    Some(old) => cfg.scalar(&p.cost) != cfg.scalar(&old.cost),
                    None => true,
                },
                None => false,
            };
            assert(update == before.improves(cf, *cfg, g, c as int));
            if update {
                let p: ClassCost = pass.best.unwrap();
                t.costs.set(c, Some(p));
                t.subs.set(c, pass.subs);
                changed = true;
                proof {
                    let next = before.step(cf, *cfg, g, c as int);
                    assert(t@.costs =~= next.costs);
                    assert(t@.subs =~= next.subs);
                }
            }
            node_costs.set(c, pass.node_costs);
            c = c + 1;
        }
        passes = passes + 1;
    }
    proof {
        if !changed {
            let prev = Table::after(cf, *cfg, g, (passes - 1) as nat);
            lemma_quiet_sweep(prev, cf, *cfg, g, n as int);
            assert forall|c: int, j: int|
                0 <= c < n && 0 <= j < g.classes@[c].nodes@.len() implies #[trigger] node_costs@[c]@[j]
                == t@.node_cost(cf, *cfg, g, c, j) by {
                lemma_quiet_prefix(prev, cf, *cfg, g, n as int, c);
                lemma_quiet_sweep(prev, cf, *cfg, g, c);
                assert(node_costs@[c]@ == Table::scan_costs(cf, *cfg, g, passes as nat, c));
            }
        }
    }
    Propagation { table: t, node_costs, passes, converged: !changed }
}

/// If scanning the first `upto` classes changes nothing, neither does
/// scanning fewer.
pub proof fn lemma_quiet_prefix<CF: CostFunction>(
    t: Table,
    cf: &CF,
    cfg: Config,
    g: &EGraph,
    upto: int,
    k: int,
)
    requires
        !t.sweep_changes(cf, cfg, g, upto),
        k <= upto,
    ensures
        !t.sweep_changes(cf, cfg, g, k),
    decreases upto - k,
{
    if k < upto {
        lemma_quiet_prefix(t, cf, cfg, g, upto - 1, k);
    }
}

/// The classes that have no recorded cost, ascending.
pub fn unresolved(t: &CostTable) -> (r: Vec<usize>)
    ensures
        forall|k: int| 0 <= k < r@.len() ==> (#[trigger] r@[k]) < t@.costs.len() && t@.costs[r@[k] as int].is_none(),
        forall|c: int| 0 <= c < t@.costs.len() && t@.costs[c].is_none() ==> r@.contains(c as usize),
        forall|k: int, l: int| 0 <= k < l < r@.len() ==> r@[k] < r@[l],
{
    let mut out: Vec<usize> = Vec::new();
    let mut c: usize = 0;
    while c < t.costs.len()
        invariant
            c <= t.costs@.len(),
            forall|k: int| 0 <= k < out@.len() ==> (#[trigger] out@[k]) < c && t@.costs[out@[k] as int].is_none(),
            forall|d: int| 0 <= d < c && t@.costs[d].is_none() ==> out@.contains(d as usize),
            forall|k: int, l: int| 0 <= k < l < out@.len() ==> out@[k] < out@[l],
        decreases t.costs.len() - c,
    {
        if t.costs[c].is_none() {
            let ghost prior = out@;
            out.push(c);
            assert(out@[prior.len() as int] == c);
            assert forall|d: int| 0 <= d < c + 1 && t@.costs[d].is_none() implies out@.contains(
                d as usize,
            ) by {
                if d < c {
                    let k = choose|k: int| 0 <= k < prior.len() && prior[k] == d as usize;
                    assert(out@[k] == d as usize);
                }
            }
        }
        c = c + 1;
    }
    out
}

/// Once a full scan changes nothing, no later scan changes anything: the
/// table stays as it is.
pub proof fn lemma_converged_stays<CF: CostFunction>(
    cf: &CF,
    cfg: Config,
    g: &EGraph,
    passes: nat,
    later: nat,
)
    requires
        !Table::after(cf, cfg, g, passes).sweep_changes(cf, cfg, g, g.classes@.len() as int),
        passes <= later,
    ensures
        Table::after(cf, cfg, g, later) == Table::after(cf, cfg, g, passes),
        !Table::after(cf, cfg, g, later).sweep_changes(cf, cfg, g, g.classes@.len() as int),
    decreases later,
{
    if passes < later {
        lemma_converged_stays(cf, cfg, g, passes, (later - 1) as nat);
        lemma_quiet_sweep(
            Table::after(cf, cfg, g, (later - 1) as nat),
            cf,
            cfg,
            g,
            g.classes@.len() as int,
        );
    }
}

} // verus!
