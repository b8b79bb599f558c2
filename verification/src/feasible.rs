//! What holds of every assignment that satisfies a selection program.

use vstd::prelude::*;
use crate::cycles::{breaks_all_cycles, ranks};
use crate::extract::{
    active, needed, pick, pick_from, rebuilt, sel_below, sel_edge, sel_path, sel_reaches, ExtractError,
    Extraction,
};
use crate::graph::EGraph;
use crate::program::{
    lemma_chosen_operands_active, lemma_cyclic_never_chosen, lemma_single_choice, placed, Program,
};

verus! {

/// The values of an assignment as integers.
pub open spec fn values(x: Seq<i64>) -> Seq<int> {
    Seq::new(x.len(), |k: int| x[k] as int)
}

/// The node that is picked from position `from` on is chosen, and no node
/// between `from` and it is; where none is picked, none is chosen.
pub proof fn lemma_pick(p: &Program, x: Seq<i64>, c: int, from: int)
    requires
        from >= 0,
    ensures
        match pick_from(p, x, c, from) {
            Some(j) => from <= j < p.vars@[c].nodes@.len() && x[p.vars@[c].nodes@[j] as int] > 0,
            None => forall|j: int|
                from <= j < p.vars@[c].nodes@.len() ==> x[#[trigger] p.vars@[c].nodes@[j] as int] <= 0,
        },
    decreases p.vars@[c].nodes@.len() - from,
{
    if from < p.vars@[c].nodes@.len() && !(x[p.vars@[c].nodes@[from] as int] > 0) {
        lemma_pick(p, x, c, from + 1);
    }
}

/// In an assignment that satisfies a selection program, the operand classes
/// of the chosen node of an active class are active, and rank below the
/// class in every ranking that the reported nodes leave.
pub proof fn lemma_edge(
    p: &Program,
    g: &EGraph,
    cycles: Seq<(usize, usize)>,
    x: Seq<i64>,
    rank: Seq<int>,
    a: int,
    b: int,
)
    requires
        g.wf(),
        p.selects(g, cycles),
        ranks(g, cycles, rank),
        p.satisfied_by(values(x)),
        0 <= a < g.classes@.len(),
        sel_edge(g, p, x, a, b),
    ensures
        0 <= b < g.classes@.len(),
        rank[b] < rank[a],
        active(p, x, b),
{
    let j = pick(p, x, a).unwrap();
    lemma_pick(p, x, a, 0);
    assert(placed(p.cols@.len() as int, &p.vars@[a], g, a));
    let m = choose|m: int|
        0 <= m < g.classes@[a].nodes@[j].children@.len() && #[trigger] g.child(a, j, m) == b;
    let k = p.vars@[a].nodes@[j] as int;
    assert(p.cols@[k].lower <= values(x)[k] <= p.cols@[k].upper);
    assert(values(x)[k] == 1);
    assert(g.classes@[a].nodes@[j].children@[m] < g.canon@.len());
    assert(g.canon@[g.classes@[a].nodes@[j].children@[m] as int] < g.classes@.len());
    if cycles.contains((a as usize, j as usize)) {
        lemma_cyclic_never_chosen(p, g, cycles, values(x), a, j);
    }
    lemma_chosen_operands_active(p, g, cycles, values(x), a, j, m);
    assert(placed(p.cols@.len() as int, &p.vars@[b], g, b));
    assert(values(x)[p.vars@[b].active as int] == 1);
}

/// Along a chain of chosen nodes from an active class, every class is
/// active and ranks no higher than the first.
pub proof fn lemma_chain(
    p: &Program,
    g: &EGraph,
    cycles: Seq<(usize, usize)>,
    x: Seq<i64>,
    rank: Seq<int>,
    path: Seq<int>,
)
    requires
        g.wf(),
        p.selects(g, cycles),
        ranks(g, cycles, rank),
        p.satisfied_by(values(x)),
        sel_path(g, p, x, path),
        0 <= path[0] < g.classes@.len(),
        active(p, x, path[0]),
    ensures
        0 <= path.last() < g.classes@.len(),
        rank[path.last()] <= rank[path[0]],
        active(p, x, path.last()),
    decreases path.len(),
{
    if path.len() > 1 {
        let front = path.drop_last();
        assert forall|i: int| 0 <= i < front.len() - 1 implies sel_edge(
            g,
            p,
            x,
            #[trigger] front[i],
            front[i + 1],
        ) by {
            assert(front[i] == path[i] && front[i + 1] == path[i + 1]);
        }
        lemma_chain(p, g, cycles, x, rank, front);
        let i = path.len() - 2;
        assert(sel_edge(g, p, x, path[i], path[i + 1]));
        assert(front.last() == path[i]);
        lemma_edge(p, g, cycles, x, rank, path[i], path.last());
    }
}

/// In an assignment that satisfies a selection program whose reported
/// nodes break all cycles, no active class depends on itself through
/// chosen nodes.
pub proof fn lemma_selection_is_acyclic(
    p: &Program,
    g: &EGraph,
    cycles: Seq<(usize, usize)>,
    x: Seq<i64>,
    c: int,
)
    requires
        g.wf(),
        p.selects(g, cycles),
        breaks_all_cycles(g, cycles),
        p.satisfied_by(values(x)),
        0 <= c < g.classes@.len(),
        active(p, x, c),
    ensures
        !sel_below(g, p, x, c, c),
{
    if sel_below(g, p, x, c, c) {
        let rank = choose|rank: Seq<int>| #[trigger] ranks(g, cycles, rank);
        let d = choose|d: int| #[trigger] sel_edge(g, p, x, c, d) && sel_reaches(g, p, x, d, c);
        lemma_edge(p, g, cycles, x, rank, c, d);
        let path = choose|path: Seq<int>| #[trigger]
            sel_path(g, p, x, path) && path[0] == d && path.last() == c;
        lemma_chain(p, g, cycles, x, rank, path);
    }
}

/// From an assignment that satisfies a selection program in which the
/// classes of the roots are forced active, and whose reported nodes break
/// all cycles, the expression is rebuilt without failure.
pub proof fn lemma_feasible_rebuilds(
    p: &Program,
    g: &EGraph,
    cycles: Seq<(usize, usize)>,
    x: Seq<i64>,
    roots: Seq<usize>,
    r: Result<Extraction, ExtractError>,
)
    requires
        g.wf(),
        p.selects(g, cycles),
        breaks_all_cycles(g, cycles),
        p.satisfied_by(values(x)),
        forall|i: int| 0 <= i < roots.len() ==> #[trigger] roots[i] < g.canon@.len(),
        forall|i: int|
            0 <= i < roots.len() ==> p.cols@[p.vars@[g.find_spec(
                #[trigger] roots[i] as int,
            )].active as int].lower == 1,
        rebuilt(g, p, x, roots, r),
    ensures
        r.is_ok(),
{
    if r.is_err() {
        let c: int = match r {
            Err(ExtractError::Inactive(c)) => c as int,
            Err(ExtractError::NoChoice(c)) => c as int,
            Err(ExtractError::Cyclic(c)) => c as int,
            Ok(_) => 0,
        };
        assert(needed(g, p, x, roots, c));
        let rank = choose|rank: Seq<int>| #[trigger] ranks(g, cycles, rank);
        let i = choose|i: int|
            0 <= i < roots.len() && #[trigger] sel_reaches(g, p, x, g.find_spec(roots[i] as int), c);
        let top = g.find_spec(roots[i] as int);
        assert(g.canon@[roots[i] as int] < g.classes@.len());
        assert(placed(p.cols@.len() as int, &p.vars@[top], g, top));
        let k = p.vars@[top].active as int;
        assert(p.cols@[k].lower <= values(x)[k] <= p.cols@[k].upper);
        assert(active(p, x, top));
        let path = choose|path: Seq<int>| #[trigger]
            sel_path(g, p, x, path) && path[0] == top && path.last() == c;
        lemma_chain(p, g, cycles, x, rank, path);
        assert(active(p, x, c));
        lemma_single_choice(p, g, cycles, values(x), c);
        lemma_pick(p, x, c, 0);
        assert(placed(p.cols@.len() as int, &p.vars@[c], g, c));
        assert(values(x)[p.vars@[c].active as int] == 1) by {
            let a = p.vars@[c].active as int;
            assert(p.cols@[a].lower <= values(x)[a] <= p.cols@[a].upper);
        }
        if pick(p, x, c).is_none() {
            let j = choose|j: int|
                0 <= j < p.vars@[c].nodes@.len() && values(x)[#[trigger] p.vars@[c].nodes@[j] as int]
                    == 1;
            assert(x[p.vars@[c].nodes@[j] as int] <= 0);
        }
        lemma_selection_is_acyclic(p, g, cycles, x, c);
    }
}

} // verus!
