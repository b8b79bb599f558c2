//! The extractor: costs, cycles and the selection program of one graph.

use vstd::prelude::*;
use crate::cost::{Config, Cost, CostFunction};
use crate::cycles::{breaks_all_cycles, find_cycles};
use crate::extract::{rebuilt, ExtractError, Extraction};
use crate::graph::EGraph;
use crate::feasible::{lemma_feasible_rebuilds, values};
use crate::program::{force_roots, is_root, prepare_model, Column, Program};
use crate::propagate::{find_costs, CostTable, Propagation, Table};

verus! {

/// An extractor for one graph: the propagated costs, the nodes that would
/// close a cycle, and the program whose solutions select an expression.
#[derive(Debug)]
pub struct LpExtractor {
    pub config: Config,
    pub costs: CostTable,
    pub node_costs: Vec<Vec<Option<Cost>>>,
    pub passes: usize,
    pub converged: bool,
    pub cycles: Vec<(usize, usize)>,
    pub program: Program,
}

impl LpExtractor {
    /// Propagates costs through the graph, for at most `max_passes` full
    /// scans, detects the nodes that would close a cycle, and builds the
    /// selection program from both.
    pub fn new<CF: CostFunction>(g: &EGraph, cf: &CF, config: Config, max_passes: usize) -> (r: Self)
        requires
            g.wf(),
            g.populated(),
        ensures
            r.config == config,
            r.costs@ == Table::after(cf, config, g, r.passes as nat),
            r.costs@.fits(g),
            r.passes <= max_passes,
            r.converged == (r.passes > 0 && !Table::after(
                cf,
                config,
                g,
                (r.passes - 1) as nat,
            ).sweep_changes(cf, config, g, g.classes@.len() as int)),
            !r.converged ==> r.passes == max_passes,
            r.converged ==> r.costs@.stable(cf, config, g),
            forall|c: int|
                0 <= c < g.classes@.len() ==> (#[trigger] r.node_costs@[c])@ == Table::scan_costs(
                    cf,
                    config,
                    g,
                    r.passes as nat,
                    c,
                ),
            forall|k: int|
                0 <= k < r.cycles@.len() ==> {
                    let e = #[trigger] r.cycles@[k];
                    e.0 < g.classes@.len() && e.1 < g.classes@[e.0 as int].nodes@.len()
                        && g.closes_cycle(e.0 as int, e.1 as int)
                },
            breaks_all_cycles(g, r.cycles@),
            r.program.layout(g),
            r.program.columns_encode(config, g, r.cycles@, &r.node_costs),
            r.program.rows_encode(g, r.cycles@),
            r.program.selects(g, r.cycles@),
    {
        let found: Propagation = find_costs(cf, &config, g, max_passes);
        let cycles: Vec<(usize, usize)> = find_cycles(g);
        assert forall|c: int| 0 <= c < g.classes@.len() implies (#[trigger] found.node_costs@[c])@.len()
            == g.classes@[c].nodes@.len() by {
            assert(found.node_costs@[c]@ == Table::scan_costs(cf, config, g, found.passes as nat, c));
        }
        let program: Program = prepare_model(&config, g, &cycles, &found.node_costs);
        LpExtractor {
            config,
            costs: found.table,
            node_costs: found.node_costs,
            passes: found.passes,
            converged: found.converged,
            cycles,
            program,
        }
    }

    /// Requires the classes of `roots` to be active in the program; the
    /// rest of the extractor stays as it is.
    pub fn with_roots(self, g: &EGraph, roots: &Vec<usize>) -> (r: Self)
        requires
            g.wf(),
            self.program.layout(g),
            forall|i: int| 0 <= i < roots@.len() ==> #[trigger] roots@[i] < g.canon@.len(),
        ensures
            r.config == self.config,
            r.costs == self.costs,
            r.node_costs == self.node_costs,
            r.passes == self.passes,
            r.converged == self.converged,
            r.cycles == self.cycles,
            r.program.rows == self.program.rows,
            r.program.vars == self.program.vars,
            r.program.layout(g),
            self.program.selects(g, self.cycles@) ==> r.program.selects(g, self.cycles@),
            forall|i: int|
                0 <= i < roots@.len() ==> r.program.cols@[r.program.vars@[g.find_spec(
                    #[trigger] roots@[i] as int,
                )].active as int].lower == 1,
            forall|c: int|
                0 <= c < g.classes@.len() ==> {
                    let v = #[trigger] self.program.vars@[c];
                    r.program.cols@[v.active as int] == (Column {
                        lower: if is_root(g, roots@, c) {
                            1i64
                        } else {
                            self.program.cols@[v.active as int].lower
                        },
                        ..self.program.cols@[v.active as int]
                    })
                },
    {
        let ghost before = self.program;
        let program: Program = force_roots(self.program, g, roots);
        proof {
            assert forall|c: int| 0 <= c < program.vars@.len() implies crate::program::placed(
                program.cols@.len() as int,
                #[trigger] &program.vars@[c],
                g,
                c,
            ) by {
                assert(crate::program::placed(before.cols@.len() as int, &before.vars@[c], g, c));
            }
        }
        proof {
            assert forall|i: int| 0 <= i < roots@.len() implies program.cols@[program.vars@[g.find_spec(
                #[trigger] roots@[i] as int,
            )].active as int].lower == 1 by {
                let c = g.find_spec(roots@[i] as int);
                assert(g.canon@[roots@[i] as int] < g.classes@.len());
                assert(is_root(g, roots@, c));
            }
        }
        LpExtractor {
            config: self.config,
            costs: self.costs,
            node_costs: self.node_costs,
            passes: self.passes,
            converged: self.converged,
            cycles: self.cycles,
            program,
        }
    }

    /// The program is the selection program of `g` with the classes of
    /// `roots` forced active, the reported nodes break all cycles, and `x`
    /// satisfies the program.
    pub open spec fn solved_by(&self, g: &EGraph, x: Seq<i64>, roots: Seq<usize>) -> bool {
        &&& self.program.selects(g, self.cycles@)
        &&& breaks_all_cycles(g, self.cycles@)
        &&& self.program.satisfied_by(values(x))
        &&& forall|i: int|
            0 <= i < roots.len() ==> self.program.cols@[self.program.vars@[g.find_spec(
                #[trigger] roots[i] as int,
            )].active as int].lower == 1
    }

    /// Rebuilds the expression that the assignment `x` selects for one
    /// root; this succeeds whenever `x` satisfies the program.
    pub fn solve(&self, g: &EGraph, x: &Vec<i64>, root: usize) -> (r: Result<Extraction, ExtractError>)
        requires
            g.wf(),
            self.program.layout(g),
            x@.len() == self.program.cols@.len(),
            root < g.canon@.len(),
        ensures
            rebuilt(g, &self.program, x@, seq![root], r),
            self.solved_by(g, x@, seq![root]) ==> r.is_ok(),
    {
        let r = crate::extract::solve(&self.program, g, x, root);
        proof {
            if self.solved_by(g, x@, seq![root]) {
                lemma_feasible_rebuilds(&self.program, g, self.cycles@, x@, seq![root], r);
            }
        }
        r
    }

    /// Rebuilds the expression that the assignment `x` selects for the
    /// roots; this succeeds whenever `x` satisfies the program.
    pub fn solve_multiple(&self, g: &EGraph, x: &Vec<i64>, roots: &Vec<usize>) -> (r: Result<
        Extraction,
        ExtractError,
    >)
        requires
            g.wf(),
            self.program.layout(g),
            x@.len() == self.program.cols@.len(),
            forall|i: int| 0 <= i < roots@.len() ==> #[trigger] roots@[i] < g.canon@.len(),
        ensures
            rebuilt(g, &self.program, x@, roots@, r),
            self.solved_by(g, x@, roots@) ==> r.is_ok(),
    {
        let r = crate::extract::solve_multiple(&self.program, g, x, roots);
        proof {
            if self.solved_by(g, x@, roots@) {
                lemma_feasible_rebuilds(&self.program, g, self.cycles@, x@, roots@, r);
            }
        }
        r
    }
}

} // verus!
