//! Convergence of the cost propagation on graphs without cycles.

use vstd::prelude::*;
use crate::cost::{Config, CostFunction};
use crate::graph::EGraph;
use crate::propagate::{lemma_step_fits, Table};

verus! {

/// `h` gives every class a height above those of all its operand classes.
pub open spec fn heights(g: &EGraph, h: Seq<int>) -> bool {
    &&& h.len() == g.classes@.len()
    &&& forall|c: int| 0 <= c < h.len() ==> 0 <= #[trigger] h[c]
    &&& forall|c: int, j: int, m: int|
        0 <= c < g.classes@.len() && 0 <= j < g.classes@[c].nodes@.len() && 0 <= m
            < g.classes@[c].nodes@[j].children@.len() ==> h[#[trigger] g.child(c, j, m)] < h[c]
}

/// A class depends only on classes of lower height.
pub open spec fn supported(t: Table, h: Seq<int>) -> bool {
    forall|c: int, d: int|
        0 <= c < h.len() && 0 <= d < h.len() && #[trigger] t.subs[c][d] ==> h[d] < h[c]
}

/// The two tables hold the same of every class of height below `k`.
pub open spec fn agree(t: Table, u: Table, h: Seq<int>, k: int) -> bool {
    forall|c: int|
        0 <= c < h.len() && h[c] < k ==> #[trigger] t.costs[c] == u.costs[c] && t.subs[c] == u.subs[c]
}

/// An operand of a node of a class resolves to a class.
proof fn lemma_child_range(g: &EGraph, c: int, j: int, m: int)
    requires
        g.wf(),
        0 <= c < g.classes@.len(),
        0 <= j < g.classes@[c].nodes@.len(),
        0 <= m < g.classes@[c].nodes@[j].children@.len(),
    ensures
        0 <= g.child(c, j, m) < g.classes@.len(),
{
    assert(g.classes@[c].nodes@[j].children@[m] < g.canon@.len());
    assert(g.canon@[g.classes@[c].nodes@[j].children@[m] as int] < g.classes@.len());
}

/// What two operand classes share costs the same in tables that agree below
/// the height `k`, above both classes.
proof fn lemma_shared_frame(t: Table, u: Table, h: Seq<int>, cfg: Config, a: int, b: int, k: int, upto: int)
    requires
        agree(t, u, h, k),
        supported(t, h),
        0 <= a < h.len(),
        0 <= b < h.len(),
        h[a] < k,
        h[b] < k,
        upto <= h.len(),
        t.subs[a].len() == h.len(),
    ensures
        t.shared_total(cfg, a, b, upto) == u.shared_total(cfg, a, b, upto),
    decreases upto,
{
    if upto > 0 {
        lemma_shared_frame(t, u, h, cfg, a, b, k, upto - 1);
        assert(t.costs[a] == u.costs[a] && t.subs[a] == u.subs[a]);
        assert(t.costs[b] == u.costs[b] && t.subs[b] == u.subs[b]);
        let d = upto - 1;
        if t.subs[a][d] {
            assert(h[d] < h[a]);
            assert(t.costs[d] == u.costs[d]);
        }
    }
}

/// Whether a node depends on a class is the same in tables that agree below
/// the height of the node's class.
proof fn lemma_depends_frame(t: Table, u: Table, g: &EGraph, h: Seq<int>, c: int, j: int, d: int, upto: int)
    requires
        g.wf(),
        heights(g, h),
        agree(t, u, h, h[c]),
        0 <= c < g.classes@.len(),
        0 <= j < g.classes@[c].nodes@.len(),
        upto <= g.classes@[c].nodes@[j].children@.len(),
    ensures
        t.depends_via(g, c, j, d, upto) == u.depends_via(g, c, j, d, upto),
    decreases upto,
{
    if upto > 0 {
        lemma_depends_frame(t, u, g, h, c, j, d, upto - 1);
        lemma_child_range(g, c, j, upto - 1);
        let e = g.child(c, j, upto - 1);
        assert(t.costs[e] == u.costs[e] && t.subs[e] == u.subs[e]);
    }
}

/// What a node depends on is lower than the node's class.
proof fn lemma_depends_support(t: Table, g: &EGraph, h: Seq<int>, c: int, j: int, d: int, upto: int)
    requires
        g.wf(),
        heights(g, h),
        supported(t, h),
        0 <= c < g.classes@.len(),
        0 <= j < g.classes@[c].nodes@.len(),
        0 <= d < g.classes@.len(),
        upto <= g.classes@[c].nodes@[j].children@.len(),
        t.depends_via(g, c, j, d, upto),
    ensures
        h[d] < h[c],
    decreases upto,
{
    if upto > 0 {
        lemma_child_range(g, c, j, upto - 1);
        let e = g.child(c, j, upto - 1);
        if t.depends_via(g, c, j, d, upto - 1) {
            lemma_depends_support(t, g, h, c, j, d, upto - 1);
        } else if e != d {
            assert(t.subs[e][d]);
        }
    }
}

/// The cost of a node and what it depends on are determined by what the
/// table holds of the classes below the node's class.
proof fn lemma_node_frame<CF: CostFunction>(
    t: Table,
    u: Table,
    cf: &CF,
    cfg: Config,
    g: &EGraph,
    h: Seq<int>,
    c: int,
    j: int,
)
    requires
        g.wf(),
        heights(g, h),
        t.fits(g),
        u.fits(g),
        supported(t, h),
        agree(t, u, h, h[c]),
        0 <= c < g.classes@.len(),
        0 <= j < g.classes@[c].nodes@.len(),
    ensures
        t.node_cost(cf, cfg, g, c, j) == u.node_cost(cf, cfg, g, c, j),
        t.descendants(g, c, j) == u.descendants(g, c, j),
{
    let len = g.classes@[c].nodes@[j].children@.len() as int;
    assert forall|m: int| 0 <= m < len implies 0 <= #[trigger] g.child(c, j, m) < g.classes@.len()
        && t.costs[g.child(c, j, m)] == u.costs[g.child(c, j, m)] && t.subs[g.child(c, j, m)]
        == u.subs[g.child(c, j, m)] by {
        lemma_child_range(g, c, j, m);
        let e = g.child(c, j, m);
        assert(t.costs[e] == u.costs[e] && t.subs[e] == u.subs[e]);
    }
    assert(t.kid_depths(g, c, j) =~= u.kid_depths(g, c, j));
    assert(t.kid_mul_depths(g, c, j) =~= u.kid_mul_depths(g, c, j));
    assert(t.kid_op_costs(g, c, j) =~= u.kid_op_costs(g, c, j));
    assert(t.known(g, c, j) == u.known(g, c, j)) by {
        if t.known(g, c, j) {
            assert forall|m: int| 0 <= m < len implies (#[trigger] u.costs[g.child(c, j, m)]).is_some() by {
                assert(t.costs[g.child(c, j, m)].is_some());
            }
        }
        if u.known(g, c, j) {
            assert forall|m: int| 0 <= m < len implies (#[trigger] t.costs[g.child(c, j, m)]).is_some() by {
                assert(u.costs[g.child(c, j, m)].is_some());
            }
        }
    }
    if len == 2 {
        let a = g.child(c, j, 0);
        let b = g.child(c, j, 1);
        assert(0 <= a < g.classes@.len() && t.costs[a] == u.costs[a] && t.subs[a] == u.subs[a]);
        assert(0 <= b < g.classes@.len() && t.costs[b] == u.costs[b] && t.subs[b] == u.subs[b]);
        lemma_shared_frame(t, u, h, cfg, a, b, h[c], g.classes@.len() as int);
        assert(t.sharing(cfg, a, b) == u.sharing(cfg, a, b));
        assert(t.mul_saving(cfg, g.classes@[c].nodes@[j].op, a, b) == u.mul_saving(
            cfg,
            g.classes@[c].nodes@[j].op,
            a,
            b,
        ));
    }
    assert(t.discount(cfg, g, c, j) == u.discount(cfg, g, c, j));
    assert forall|d: int| 0 <= d < g.classes@.len() implies t.depends_via(g, c, j, d, len)
        == u.depends_via(g, c, j, d, len) by {
        lemma_depends_frame(t, u, g, h, c, j, d, len);
    }
    assert(t.descendants(g, c, j) =~= u.descendants(g, c, j));
}

/// The first node of least cost is the same in tables that agree below the
/// height of the class.
proof fn lemma_best_frame<CF: CostFunction>(
    t: Table,
    u: Table,
    cf: &CF,
    cfg: Config,
    g: &EGraph,
    h: Seq<int>,
    c: int,
    upto: int,
)
    requires
        g.wf(),
        heights(g, h),
        t.fits(g),
        u.fits(g),
        supported(t, h),
        agree(t, u, h, h[c]),
        0 <= c < g.classes@.len(),
        g.classes@[c].nodes@.len() > 0,
        upto <= g.classes@[c].nodes@.len(),
    ensures
        t.best_index(cf, cfg, g, c, upto) == u.best_index(cf, cfg, g, c, upto),
        0 <= t.best_index(cf, cfg, g, c, upto) < g.classes@[c].nodes@.len(),
    decreases upto,
{
    if upto > 1 {
        lemma_best_frame(t, u, cf, cfg, g, h, c, upto - 1);
        lemma_node_frame(t, u, cf, cfg, g, h, c, upto - 1);
        lemma_node_frame(t, u, cf, cfg, g, h, c, t.best_index(cf, cfg, g, c, upto - 1));
    }
}

/// A scan of a class is determined by what the table holds of the classes
/// below it and of the class itself.
proof fn lemma_step_frame<CF: CostFunction>(
    t: Table,
    u: Table,
    cf: &CF,
    cfg: Config,
    g: &EGraph,
    h: Seq<int>,
    c: int,
)
    requires
        g.wf(),
        g.populated(),
        heights(g, h),
        t.fits(g),
        u.fits(g),
        supported(t, h),
        agree(t, u, h, h[c]),
        0 <= c < g.classes@.len(),
    ensures
        t.proposal(cf, cfg, g, c) == u.proposal(cf, cfg, g, c),
        t.proposal(cf, cfg, g, c).is_some() ==> t.descendants(
            g,
            c,
            t.proposal(cf, cfg, g, c).unwrap().node as int,
        ) == u.descendants(g, c, t.proposal(cf, cfg, g, c).unwrap().node as int),
{
    let len = g.classes@[c].nodes@.len() as int;
    assert(g.classes@[c].nodes.len() == len);
    lemma_best_frame(t, u, cf, cfg, g, h, c, len);
    let j = t.best_index(cf, cfg, g, c, len);
    lemma_node_frame(t, u, cf, cfg, g, h, c, j);
}

/// A scan keeps the table supported.
proof fn lemma_step_supported<CF: CostFunction>(
    t: Table,
    cf: &CF,
    cfg: Config,
    g: &EGraph,
    h: Seq<int>,
    c: int,
)
    requires
        g.wf(),
        g.populated(),
        heights(g, h),
        t.fits(g),
        supported(t, h),
        0 <= c < g.classes@.len(),
    ensures
        supported(t.step(cf, cfg, g, c), h),
        t.step(cf, cfg, g, c).fits(g),
{
    lemma_step_fits(t, cf, cfg, g, c);
    let s = t.step(cf, cfg, g, c);
    if t.improves(cf, cfg, g, c) {
        let len = g.classes@[c].nodes@.len() as int;
        assert(g.classes@[c].nodes.len() == len);
        lemma_best_frame(t, t, cf, cfg, g, h, c, len);
        let j = t.proposal(cf, cfg, g, c).unwrap().node as int;
        assert(j == t.best_index(cf, cfg, g, c, len));
        assert forall|a: int, d: int|
            0 <= a < h.len() && 0 <= d < h.len() && #[trigger] s.subs[a][d] implies h[d] < h[a] by {
            if a == c {
                lemma_depends_support(
                    t,
                    g,
                    h,
                    c,
                    j,
                    d,
                    g.classes@[c].nodes@[j].children@.len() as int,
                );
            } else {
                assert(t.subs[a][d]);
            }
        }
    }
}

/// Scanning the first `upto` classes keeps the table supported, leaves the
/// classes from `upto` on as they were, and leaves each class before as its
/// own scan left it.
proof fn lemma_sweep<CF: CostFunction>(
    t: Table,
    cf: &CF,
    cfg: Config,
    g: &EGraph,
    h: Seq<int>,
    upto: int,
)
    requires
        g.wf(),
        g.populated(),
        heights(g, h),
        t.fits(g),
        supported(t, h),
        0 <= upto <= g.classes@.len(),
    ensures
        supported(t.sweep(cf, cfg, g, upto), h),
        t.sweep(cf, cfg, g, upto).fits(g),
        forall|d: int|
            upto <= d < g.classes@.len() ==> #[trigger] t.sweep(cf, cfg, g, upto).costs[d]
                == t.costs[d] && t.sweep(cf, cfg, g, upto).subs[d] == t.subs[d],
        forall|c: int|
            0 <= c < upto ==> #[trigger] t.sweep(cf, cfg, g, upto).costs[c] == t.sweep(
                cf,
                cfg,
                g,
                c + 1,
            ).costs[c] && t.sweep(cf, cfg, g, upto).subs[c] == t.sweep(cf, cfg, g, c + 1).subs[c],
    decreases upto,
{
    if upto > 0 {
        lemma_sweep(t, cf, cfg, g, h, upto - 1);
        let prior = t.sweep(cf, cfg, g, upto - 1);
        let next = t.sweep(cf, cfg, g, upto);
        lemma_step_supported(prior, cf, cfg, g, h, upto - 1);
        assert(next == prior.step(cf, cfg, g, upto - 1));
        assert forall|c: int| 0 <= c < upto implies #[trigger] next.costs[c] == t.sweep(
            cf,
            cfg,
            g,
            c + 1,
        ).costs[c] && next.subs[c] == t.sweep(cf, cfg, g, c + 1).subs[c] by {
            if c < upto - 1 {
                assert(next.costs[c] == prior.costs[c]);
                assert(next.subs[c] == prior.subs[c]);
            }
        }
        assert forall|d: int| upto <= d < g.classes@.len() implies #[trigger] next.costs[d]
            == t.costs[d] && next.subs[d] == t.subs[d] by {
            assert(next.costs[d] == prior.costs[d]);
            assert(next.subs[d] == prior.subs[d]);
        }
    }
}

/// Full scans from the blank table keep it supported.
proof fn lemma_after<CF: CostFunction>(cf: &CF, cfg: Config, g: &EGraph, h: Seq<int>, passes: nat)
    requires
        g.wf(),
        g.populated(),
        heights(g, h),
    ensures
        supported(Table::after(cf, cfg, g, passes), h),
        Table::after(cf, cfg, g, passes).fits(g),
    decreases passes,
{
    if passes > 0 {
        lemma_after(cf, cfg, g, h, (passes - 1) as nat);
        lemma_sweep(
            Table::after(cf, cfg, g, (passes - 1) as nat),
            cf,
            cfg,
            g,
            h,
            g.classes@.len() as int,
        );
    }
}

/// From the full scan after as many scans as its height on, a scan of a
/// class changes nothing of it.
pub proof fn lemma_settled<CF: CostFunction>(
    cf: &CF,
    cfg: Config,
    g: &EGraph,
    h: Seq<int>,
    m: nat,
    c: int,
)
    requires
        g.wf(),
        g.populated(),
        heights(g, h),
        0 <= c < g.classes@.len(),
        m > h[c],
    ensures
        !Table::after(cf, cfg, g, m).sweep(cf, cfg, g, c).improves(cf, cfg, g, c),
        Table::after(cf, cfg, g, m + 1).costs[c] == Table::after(cf, cfg, g, m).costs[c],
        Table::after(cf, cfg, g, m + 1).subs[c] == Table::after(cf, cfg, g, m).subs[c],
    decreases h[c],
{
    let n = g.classes@.len() as int;
    let t0 = Table::after(cf, cfg, g, (m - 1) as nat);
    let t1 = Table::after(cf, cfg, g, m);
    let t2 = Table::after(cf, cfg, g, m + 1);
    lemma_after(cf, cfg, g, h, (m - 1) as nat);
    lemma_after(cf, cfg, g, h, m);
    assert(t1 == t0.sweep(cf, cfg, g, n));
    assert(t2 == t1.sweep(cf, cfg, g, n));
    let before = t0.sweep(cf, cfg, g, c);
    let now = t1.sweep(cf, cfg, g, c);
    lemma_sweep(t0, cf, cfg, g, h, n);
    lemma_sweep(t1, cf, cfg, g, h, n);
    lemma_sweep(t0, cf, cfg, g, h, c);
    lemma_sweep(t1, cf, cfg, g, h, c);
    lemma_sweep(t0, cf, cfg, g, h, c + 1);
    lemma_sweep(t1, cf, cfg, g, h, c + 1);
    assert forall|d: int| 0 <= d < h.len() && h[d] < h[c] implies #[trigger] now.costs[d]
        == before.costs[d] && now.subs[d] == before.subs[d] by {
        lemma_settled(cf, cfg, g, h, m, d);
        if m - 1 > h[d] {
            lemma_settled(cf, cfg, g, h, (m - 1) as nat, d);
        }
        lemma_sweep(t0, cf, cfg, g, h, d + 1);
        lemma_sweep(t1, cf, cfg, g, h, d + 1);
        if d < c {
            assert(before.costs[d] == t0.sweep(cf, cfg, g, d + 1).costs[d]);
            assert(t1.costs[d] == t0.sweep(cf, cfg, g, d + 1).costs[d]);
            assert(now.costs[d] == t1.sweep(cf, cfg, g, d + 1).costs[d]);
            assert(t2.costs[d] == t1.sweep(cf, cfg, g, d + 1).costs[d]);
        } else {
            assert(before.costs[d] == t0.costs[d]);
            assert(now.costs[d] == t1.costs[d]);
            assert(m - 1 > h[d]);
        }
    }
    assert(agree(now, before, h, h[c]));
    lemma_step_frame(now, before, cf, cfg, g, h, c);
    assert(now.costs[c] == t1.costs[c]);
    assert(t1.costs[c] == before.step(cf, cfg, g, c).costs[c]);
    assert(t1.subs[c] == before.step(cf, cfg, g, c).subs[c]);
    assert(t2.costs[c] == now.step(cf, cfg, g, c).costs[c]);
    assert(t2.subs[c] == now.step(cf, cfg, g, c).subs[c]);
}

/// On a graph without cycles, in which no class is higher than `bound`,
/// the scan after `bound` full scans changes nothing of the first `upto`
/// classes.
pub proof fn lemma_quiet_after_bound<CF: CostFunction>(
    cf: &CF,
    cfg: Config,
    g: &EGraph,
    h: Seq<int>,
    bound: nat,
    upto: int,
)
    requires
        g.wf(),
        g.populated(),
        heights(g, h),
        forall|c: int| 0 <= c < h.len() ==> #[trigger] h[c] < bound,
        upto <= g.classes@.len(),
    ensures
        !Table::after(cf, cfg, g, bound).sweep_changes(cf, cfg, g, upto),
    decreases upto,
{
    if upto > 0 {
        lemma_quiet_after_bound(cf, cfg, g, h, bound, upto - 1);
        lemma_settled(cf, cfg, g, h, bound, upto - 1);
    }
}

/// On a graph without cycles, the propagation converges within one full
/// scan more than the longest chain of operands: where every class has a
/// height below `bound` and at least `bound + 1` scans are allowed, what a
/// propagation returns has converged after at most `bound + 1` scans.
pub proof fn lemma_acyclic_converges<CF: CostFunction>(
    cf: &CF,
    cfg: Config,
    g: &EGraph,
    h: Seq<int>,
    bound: nat,
    max_passes: nat,
    passes: nat,
    converged: bool,
)
    requires
        g.wf(),
        g.populated(),
        heights(g, h),
        forall|c: int| 0 <= c < h.len() ==> #[trigger] h[c] < bound,
        max_passes > bound,
        passes <= max_passes,
        converged == (passes > 0 && !Table::after(cf, cfg, g, (passes - 1) as nat).sweep_changes(
            cf,
            cfg,
            g,
            g.classes@.len() as int,
        )),
        !converged ==> passes == max_passes,
        forall|k: nat|
            0 < k < passes ==> #[trigger] Table::after(cf, cfg, g, (k - 1) as nat).sweep_changes(
                cf,
                cfg,
                g,
                g.classes@.len() as int,
            ),
    ensures
        converged,
        passes <= bound + 1,
{
    lemma_quiet_after_bound(cf, cfg, g, h, bound, g.classes@.len() as int);
    if passes > bound + 1 {
        let k: nat = bound + 1;
        assert(Table::after(cf, cfg, g, (k - 1) as nat).sweep_changes(
            cf,
            cfg,
            g,
            g.classes@.len() as int,
        ));
    }
}

} // verus!
