//! Rebuilding the selected expression from a solved assignment.

use vstd::prelude::*;
use crate::cycles::{lemma_whites_update, whites, Color};
use crate::graph::{EGraph, Node};
use crate::program::{placed, Program};

verus! {

/// An expression as a list of nodes, each after its operands: the operands
/// of a node are positions in the list.
#[derive(Debug)]
pub struct RecExpr {
    pub nodes: Vec<Node>,
}

/// Why no expression could be rebuilt from an assignment.
#[derive(Clone, Copy, Debug, PartialEq, Eq, Structural)]
pub enum ExtractError {
    /// A class that the expression needs is not active.
    Inactive(usize),
    /// An active class that the expression needs has no chosen node.
    NoChoice(usize),
    /// The chosen node of a class depends on that class.
    Cyclic(usize),
}

/// A rebuilt expression.
#[derive(Debug)]
pub struct Extraction {
    /// The expression.
    pub expr: RecExpr,
    /// For each requested root, the position of its node in the expression.
    pub roots: Vec<usize>,
    /// For each class, the position of its node in the expression, where
    /// the expression holds one.
    pub ids: Vec<Option<usize>>,
}

/// The first node of class `c`, from position `from` on, that `x` chooses.
pub open spec fn pick_from(p: &Program, x: Seq<i64>, c: int, from: int) -> Option<int>
    decreases p.vars@[c].nodes@.len() - from,
{
    if from >= p.vars@[c].nodes@.len() {
        None
    } else if x[p.vars@[c].nodes@[from] as int] > 0 {
        Some(from)
    } else {
        pick_from(p, x, c, from + 1)
    }
}

/// The node of class `c` that `x` chooses: the first whose choice is
/// positive.
pub open spec fn pick(p: &Program, x: Seq<i64>, c: int) -> Option<int> {
    pick_from(p, x, c, 0)
}

/// Whether `x` makes class `c` active.
pub open spec fn active(p: &Program, x: Seq<i64>, c: int) -> bool {
    x[p.vars@[c].active as int] > 0
}

/// The chosen node of class `a` has an operand in class `b`.
pub open spec fn sel_edge(g: &EGraph, p: &Program, x: Seq<i64>, a: int, b: int) -> bool {
    pick(p, x, a).is_some() && exists|m: int|
        0 <= m < g.classes@[a].nodes@[pick(p, x, a).unwrap()].children@.len() && #[trigger] g.child(
            a,
            pick(p, x, a).unwrap(),
            m,
        ) == b
}

/// `path` is a chain of classes, each with its chosen node's operand in the
/// next.
pub open spec fn sel_path(g: &EGraph, p: &Program, x: Seq<i64>, path: Seq<int>) -> bool {
    &&& path.len() > 0
    &&& forall|i: int| 0 <= i < path.len() - 1 ==> sel_edge(g, p, x, #[trigger] path[i], path[i + 1])
}

/// Class `b` is needed by class `a`: reached from it through operands of
/// chosen nodes.
pub open spec fn sel_reaches(g: &EGraph, p: &Program, x: Seq<i64>, a: int, b: int) -> bool {
    exists|path: Seq<int>| #[trigger] sel_path(g, p, x, path) && path[0] == a && path.last() == b
}

/// Class `b` is needed by an operand of the chosen node of class `a`.
pub open spec fn sel_below(g: &EGraph, p: &Program, x: Seq<i64>, a: int, b: int) -> bool {
    exists|d: int| #[trigger] sel_edge(g, p, x, a, d) && sel_reaches(g, p, x, d, b)
}

/// Class `c` is needed by the class of one of `roots`.
pub open spec fn needed(g: &EGraph, p: &Program, x: Seq<i64>, roots: Seq<usize>, c: int) -> bool {
    exists|i: int|
        0 <= i < roots.len() && #[trigger] sel_reaches(g, p, x, g.find_spec(roots[i] as int), c)
}

/// Every class needs itself.
pub proof fn lemma_sel_self(g: &EGraph, p: &Program, x: Seq<i64>, a: int)
    ensures
        sel_reaches(g, p, x, a, a),
{
    let path = seq![a];
    assert(sel_path(g, p, x, path) && path[0] == a && path.last() == a);
}

/// What is needed by a class needs the operands of its chosen node.
pub proof fn lemma_sel_step(g: &EGraph, p: &Program, x: Seq<i64>, a: int, b: int, c: int)
    requires
        sel_reaches(g, p, x, a, b),
        sel_edge(g, p, x, b, c),
    ensures
        sel_reaches(g, p, x, a, c),
{
    let path = choose|path: Seq<int>| #[trigger]
        sel_path(g, p, x, path) && path[0] == a && path.last() == b;
    let q = path.push(c);
    assert forall|i: int| 0 <= i < q.len() - 1 implies sel_edge(g, p, x, #[trigger] q[i], q[i + 1]) by {
        if i < path.len() - 1 {
            assert(q[i] == path[i] && q[i + 1] == path[i + 1]);
        }
    }
    assert(sel_path(g, p, x, q) && q[0] == a && q.last() == c);
}

/// The node at `ids[c]`, where there is one, is the chosen node of the
/// active class `c` with each operand replaced by the position of the
/// operand class's node.
pub open spec fn built(
    g: &EGraph,
    p: &Program,
    x: Seq<i64>,
    ids: Seq<Option<usize>>,
    expr: Seq<Node>,
    c: int,
) -> bool {
    ids[c].is_some() ==> {
        let i = ids[c].unwrap() as int;
        let j = pick(p, x, c).unwrap();
        &&& i < expr.len()
        &&& active(p, x, c)
        &&& pick(p, x, c).is_some()
        &&& expr[i].op == g.classes@[c].nodes@[j].op
        &&& expr[i].children@.len() == g.classes@[c].nodes@[j].children@.len()
        &&& forall|m: int|
            0 <= m < expr[i].children@.len() ==> 0 <= #[trigger] g.child(c, j, m) < ids.len()
                && ids[g.child(c, j, m)] == Some(expr[i].children@[m])
    }
}

/// Every node comes after its operands.
pub open spec fn children_first(expr: Seq<Node>) -> bool {
    forall|i: int, k: int|
        0 <= i < expr.len() && 0 <= k < expr[i].children@.len() ==> (#[trigger] expr[i].children@[k])
            < i
}

/// Position `i` holds the node of some class.
pub open spec fn from_class(ids: Seq<Option<usize>>, i: int) -> bool {
    exists|c: int| 0 <= c < ids.len() && #[trigger] ids[c] == Some(i as usize)
}

/// Every node of the expression is the node of exactly one class.
pub open spec fn one_class_each(ids: Seq<Option<usize>>, expr: Seq<Node>) -> bool {
    &&& forall|i: int| 0 <= i < expr.len() ==> #[trigger] from_class(ids, i)
    &&& forall|c: int, d: int|
        0 <= c < ids.len() && 0 <= d < ids.len() && (#[trigger] ids[c]).is_some() && ids[c]
            == #[trigger] ids[d] ==> c == d
}

/// The node of class `c` that `x` chooses.
pub fn chosen_node(p: &Program, g: &EGraph, x: &Vec<i64>, c: usize) -> (r: Option<usize>)
    requires
        p.layout(g),
        x@.len() == p.cols@.len(),
        c < g.classes@.len(),
    ensures
        r.is_some() == pick(p, x@, c as int).is_some(),
        r.is_some() ==> r.unwrap() == pick(p, x@, c as int).unwrap() && r.unwrap()
            < g.classes@[c as int].nodes@.len(),
{
    let v = &p.vars[c];
    assert(placed(p.cols@.len() as int, &p.vars@[c as int], g, c as int));
    let mut j: usize = 0;
    while j < v.nodes.len()
        invariant
            *v == p.vars@[c as int],
            x@.len() == p.cols@.len(),
            placed(p.cols@.len() as int, v, g, c as int),
            j <= v.nodes@.len(),
            pick(p, x@, c as int) == pick_from(p, x@, c as int, j as int),
        decreases v.nodes.len() - j,
    {
        if x[v.nodes[j]] > 0 {
            return Some(j);
        }
        j = j + 1;
    }
    None
}

/// Whether every operand class of node `j` of class `c` has its node in
/// the expression.
fn operands_ready(g: &EGraph, ids: &Vec<Option<usize>>, c: usize, j: usize) -> (r: bool)
    requires
        g.wf(),
        ids@.len() == g.classes@.len(),
        c < g.classes@.len(),
        j < g.classes@[c as int].nodes@.len(),
    ensures
        r == forall|m: int|
            0 <= m < g.classes@[c as int].nodes@[j as int].children@.len() ==> ids@[#[trigger] g.child(
                c as int,
                j as int,
                m,
            )].is_some(),
{
    let node = &g.classes[c].nodes[j];
    let mut m: usize = 0;
    while m < node.children.len()
        invariant
            g.wf(),
            ids@.len() == g.classes@.len(),
            c < g.classes@.len(),
            j < g.classes@[c as int].nodes@.len(),
            *node == g.classes@[c as int].nodes@[j as int],
            m <= node.children@.len(),
            forall|k: int| 0 <= k < m ==> ids@[#[trigger] g.child(c as int, j as int, k)].is_some(),
        decreases node.children.len() - m,
    {
        let ch: usize = g.find(node.children[m]);
        assert(ch == g.child(c as int, j as int, m as int));
        if ids[ch].is_none() {
            return false;
        }
        m = m + 1;
    }
    true
}

/// Node `j` of class `c` with each operand replaced by the position of the
/// operand class's node.
fn rebuild(g: &EGraph, ids: &Vec<Option<usize>>, c: usize, j: usize) -> (r: Node)
    requires
        g.wf(),
        ids@.len() == g.classes@.len(),
        c < g.classes@.len(),
        j < g.classes@[c as int].nodes@.len(),
        forall|m: int|
            0 <= m < g.classes@[c as int].nodes@[j as int].children@.len() ==> ids@[#[trigger] g.child(
                c as int,
                j as int,
                m,
            )].is_some(),
    ensures
        r.op == g.classes@[c as int].nodes@[j as int].op,
        r.children@.len() == g.classes@[c as int].nodes@[j as int].children@.len(),
        forall|m: int|
            0 <= m < r.children@.len() ==> 0 <= #[trigger] g.child(c as int, j as int, m) < ids@.len()
                && ids@[g.child(c as int, j as int, m)] == Some(r.children@[m]),
{
    let node = &g.classes[c].nodes[j];
    let mut children: Vec<usize> = Vec::new();
    let mut m: usize = 0;
    while m < node.children.len()
        invariant
            g.wf(),
            ids@.len() == g.classes@.len(),
            c < g.classes@.len(),
            j < g.classes@[c as int].nodes@.len(),
            *node == g.classes@[c as int].nodes@[j as int],
            m <= node.children@.len(),
            children@.len() == m,
            forall|k: int|
                0 <= k < node.children@.len() ==> ids@[#[trigger] g.child(
                    c as int,
                    j as int,
                    k,
                )].is_some(),
            forall|k: int|
                0 <= k < m ==> 0 <= #[trigger] g.child(c as int, j as int, k) < ids@.len()
                    && ids@[g.child(c as int, j as int, k)] == Some(children@[k]),
        decreases node.children.len() - m,
    {
        let ch: usize = g.find(node.children[m]);
        assert(ch == g.child(c as int, j as int, m as int));
        children.push(ids[ch].unwrap());
        m = m + 1;
    }
    Node { op: node.op, children }
}

/// Class `c` stands in `stack` above position `from`.
pub open spec fn stack_above(stack: Seq<usize>, from: int, c: int) -> bool {
    exists|r: int| from < r < stack.len() && #[trigger] stack[r] == c
}

/// Schedules the operand classes of node `j` of class `c` that have no node
/// in the expression yet.
fn push_operands(g: &EGraph, ids: &Vec<Option<usize>>, c: usize, j: usize, pending: Vec<usize>) -> (r:
    Vec<usize>)
    requires
        g.wf(),
        ids@.len() == g.classes@.len(),
        c < g.classes@.len(),
        j < g.classes@[c as int].nodes@.len(),
    ensures
        r@.len() >= pending@.len(),
        forall|k: int| 0 <= k < pending@.len() ==> #[trigger] r@[k] == pending@[k],
        forall|k: int|
            pending@.len() <= k < r@.len() ==> (#[trigger] r@[k]) < g.classes@.len() && exists|m: int|
                0 <= m < g.classes@[c as int].nodes@[j as int].children@.len() && #[trigger] g.child(
                    c as int,
                    j as int,
                    m,
                ) == r@[k],
        forall|m: int|
            0 <= m < g.classes@[c as int].nodes@[j as int].children@.len() ==> 0 <= #[trigger] g.child(
                c as int,
                j as int,
                m,
            ) < ids@.len() && (ids@[g.child(c as int, j as int, m)].is_some() || stack_above(
                r@,
                pending@.len() - 1,
                g.child(c as int, j as int, m),
            )),
{
    let node = &g.classes[c].nodes[j];
    let ghost base = pending@;
    let mut pending = pending;
    let mut m: usize = 0;
    while m < node.children.len()
        invariant
            g.wf(),
            ids@.len() == g.classes@.len(),
            c < g.classes@.len(),
            j < g.classes@[c as int].nodes@.len(),
            *node == g.classes@[c as int].nodes@[j as int],
            m <= node.children@.len(),
            pending@.len() >= base.len(),
            forall|k: int| 0 <= k < base.len() ==> #[trigger] pending@[k] == base[k],
            forall|k: int|
                base.len() <= k < pending@.len() ==> (#[trigger] pending@[k]) < g.classes@.len()
                    && exists|i: int|
                    0 <= i < g.classes@[c as int].nodes@[j as int].children@.len()
                        && #[trigger] g.child(c as int, j as int, i) == pending@[k],
            forall|i: int|
                0 <= i < m ==> 0 <= #[trigger] g.child(c as int, j as int, i) < ids@.len() && (ids@[g.child(
                    c as int,
                    j as int,
                    i,
                )].is_some() || stack_above(pending@, base.len() - 1, g.child(c as int, j as int, i))),
        decreases node.children.len() - m,
    {
        let ch: usize = g.find(node.children[m]);
        assert(ch == g.child(c as int, j as int, m as int));
        if ids[ch].is_none() {
            let ghost before = pending@;
            pending.push(ch);
            proof {
                assert(pending@[before.len() as int] == ch);
                assert(stack_above(pending@, base.len() - 1, ch as int));
                assert forall|i: int| 0 <= i < m implies 0 <= #[trigger] g.child(
                    c as int,
                    j as int,
                    i,
                ) < ids@.len() && (ids@[g.child(c as int, j as int, i)].is_some() || stack_above(
                    pending@,
                    base.len() - 1,
                    g.child(c as int, j as int, i),
                )) by {
                    let d = g.child(c as int, j as int, i);
                    if !ids@[d].is_some() {
                        let r = choose|r: int|
                            base.len() - 1 < r < before.len() && #[trigger] before[r] == d;
                        assert(pending@[r] == d);
                    }
                }
            }
        }
        m = m + 1;
    }
    pending
}

/// What a rebuilding returns. On success every root's class has a node,
/// every node is built from the chosen node of an active class that a root
/// needs, comes after its operands, and belongs to one class. A failure
/// names a class that a root needs and that is not active, has no chosen
/// node, or depends on itself through chosen nodes.
pub open spec fn rebuilt(
    g: &EGraph,
    p: &Program,
    x: Seq<i64>,
    roots: Seq<usize>,
    r: Result<Extraction, ExtractError>,
) -> bool {
    match r {
        Ok(e) => {
            &&& e.ids@.len() == g.classes@.len()
            &&& e.roots@.len() == roots.len()
            &&& children_first(e.expr.nodes@)
            &&& one_class_each(e.ids@, e.expr.nodes@)
            &&& forall|c: int|
                0 <= c < g.classes@.len() ==> #[trigger] built(g, p, x, e.ids@, e.expr.nodes@, c)
            &&& forall|c: int|
                0 <= c < g.classes@.len() && (#[trigger] e.ids@[c]).is_some() ==> needed(
                    g,
                    p,
                    x,
                    roots,
                    c,
                )
            &&& forall|i: int|
                0 <= i < roots.len() ==> e.ids@[g.find_spec(roots[i] as int)] == Some(
                    #[trigger] e.roots@[i],
                )
        },
        Err(ExtractError::Inactive(c)) => c < g.classes@.len() && needed(g, p, x, roots, c as int)
            && !active(p, x, c as int),
        Err(ExtractError::NoChoice(c)) => c < g.classes@.len() && needed(g, p, x, roots, c as int)
            && active(p, x, c as int) && pick(p, x, c as int).is_none(),
        Err(ExtractError::Cyclic(c)) => c < g.classes@.len() && needed(g, p, x, roots, c as int)
            && active(p, x, c as int) && sel_below(g, p, x, c as int, c as int),
    }
}

/// What holds of the classes that were expanded and have no node yet:
/// each stands in the stack where it was expanded, everything above it is
/// needed by an operand of its chosen node, and each operand class has its
/// node or stands above it.
spec fn open_classes(
    g: &EGraph,
    p: &Program,
    x: Seq<i64>,
    color: Seq<Color>,
    ids: Seq<Option<usize>>,
    stack: Seq<usize>,
    pos: Seq<int>,
) -> bool {
    &&& forall|a: int|
        0 <= a < color.len() && #[trigger] color[a] == Color::Gray ==> 0 <= pos[a] < stack.len()
            && stack[pos[a]] == a && pick(p, x, a).is_some()
    &&& forall|a: int, r: int|
        0 <= a < color.len() && #[trigger] color[a] == Color::Gray && pos[a] < r < stack.len()
            ==> sel_below(g, p, x, a, #[trigger] stack[r] as int)
    &&& forall|a: int, m: int|
        0 <= a < color.len() && color[a] == Color::Gray && 0 <= m < g.classes@[a].nodes@[pick(
            p,
            x,
            a,
        ).unwrap()].children@.len() ==> 0 <= #[trigger] g.child(a, pick(p, x, a).unwrap(), m)
            < ids.len() && (ids[g.child(a, pick(p, x, a).unwrap(), m)].is_some() || stack_above(
            stack,
            pos[a],
            g.child(a, pick(p, x, a).unwrap(), m),
        ))
}

/// What holds of the expression so far: a class is black exactly if it has
/// its node, every node is built from its class's chosen node, comes after
/// its operands, belongs to one class, and is needed by a root.
spec fn closed_classes(
    g: &EGraph,
    p: &Program,
    x: Seq<i64>,
    roots: Seq<usize>,
    color: Seq<Color>,
    ids: Seq<Option<usize>>,
    expr: Seq<Node>,
) -> bool {
    &&& forall|c: int| 0 <= c < ids.len() ==> (color[c] == Color::Black) == (#[trigger] ids[c]).is_some()
    &&& forall|c: int| 0 <= c < ids.len() ==> #[trigger] built(g, p, x, ids, expr, c)
    &&& forall|c: int| 0 <= c < ids.len() && (#[trigger] ids[c]).is_some() ==> needed(g, p, x, roots, c)
    &&& children_first(expr)
    &&& one_class_each(ids, expr)
}

/// Every root's class has its node or stands in the stack.
spec fn roots_pending(g: &EGraph, roots: Seq<usize>, ids: Seq<Option<usize>>, stack: Seq<usize>) -> bool {
    forall|i: int|
        0 <= i < roots.len() ==> 0 <= g.find_spec(#[trigger] roots[i] as int) < ids.len() && (ids[g.find_spec(
            roots[i] as int,
        )].is_some() || stack_above(stack, -1, g.find_spec(roots[i] as int)))
}

/// Rebuilds the expression that an assignment selects, from the classes of
/// the requested roots down: the chosen node of a class is the first whose
/// choice is positive, and each class that is needed gets one node, placed
/// after the nodes of its operand classes. Fails on a needed class that is
/// not active or has no chosen node, and on a class whose chosen node
/// depends on the class itself.
pub fn solve_multiple(p: &Program, g: &EGraph, x: &Vec<i64>, roots: &Vec<usize>) -> (r: Result<
    Extraction,
    ExtractError,
>)
    requires
        g.wf(),
        p.layout(g),
        x@.len() == p.cols@.len(),
        forall|i: int| 0 <= i < roots@.len() ==> #[trigger] roots@[i] < g.canon@.len(),
    ensures
        rebuilt(g, p, x@, roots@, r),
{
    let n: usize = g.classes.len();
    let mut color: Vec<Color> = Vec::new();
    let mut ids: Vec<Option<usize>> = Vec::new();
    let mut c: usize = 0;
    while c < n
        invariant
            c <= n,
            color@.len() == c,
            ids@.len() == c,
            forall|k: int| 0 <= k < c ==> #[trigger] color@[k] == Color::White,
            forall|k: int| 0 <= k < c ==> (#[trigger] ids@[k]).is_none(),
        decreases n - c,
    {
        color.push(Color::White);
        ids.push(None);
        c = c + 1;
    }
    let mut pending: Vec<usize> = Vec::new();
    let mut i: usize = 0;
    while i < roots.len()
        invariant
            g.wf(),
            n == g.classes@.len(),
            i <= roots@.len(),
            forall|k: int| 0 <= k < roots@.len() ==> #[trigger] roots@[k] < g.canon@.len(),
            pending@.len() == i,
            forall|k: int| 0 <= k < i ==> #[trigger] pending@[k] == g.find_spec(roots@[k] as int),
        decreases roots.len() - i,
    {
        let class: usize = g.find(roots[i]);
        pending.push(class);
        i = i + 1;
    }
    let mut expr: Vec<Node> = Vec::new();
    let ghost mut pos: Seq<int> = Seq::new(n as nat, |a: int| 0int);
    proof {
        assert forall|r: int| 0 <= r < pending@.len() implies needed(
            g,
            p,
            x@,
            roots@,
            #[trigger] pending@[r] as int,
        ) by {
            lemma_sel_self(g, p, x@, g.find_spec(roots@[r] as int));
        }
        assert forall|i: int| 0 <= i < roots@.len() implies 0 <= g.find_spec(
            #[trigger] roots@[i] as int,
        ) < ids@.len() && (ids@[g.find_spec(roots@[i] as int)].is_some() || stack_above(
            pending@,
            -1,
            g.find_spec(roots@[i] as int),
        )) by {
            assert(pending@[i] == g.find_spec(roots@[i] as int));
            assert(g.canon@[roots@[i] as int] < g.classes@.len());
        }
    }
    while pending.len() > 0
        invariant
            g.wf(),
            p.layout(g),
            x@.len() == p.cols@.len(),
            n == g.classes@.len(),
            color@.len() == n,
            ids@.len() == n,
            pos.len() == n,
            forall|k: int| 0 <= k < roots@.len() ==> #[trigger] roots@[k] < g.canon@.len(),
            forall|r: int| 0 <= r < pending@.len() ==> #[trigger] pending@[r] < n,
            forall|r: int|
                0 <= r < pending@.len() ==> needed(g, p, x@, roots@, #[trigger] pending@[r] as int),
            open_classes(g, p, x@, color@, ids@, pending@, pos),
            closed_classes(g, p, x@, roots@, color@, ids@, expr@),
            roots_pending(g, roots@, ids@, pending@),
        decreases whites(color@), pending@.len(),
    {
        let q: usize = pending.len() - 1;
        let top: usize = pending[q];
        let ghost stack0 = pending@;
        let ghost color0 = color@;
        let ghost ids0 = ids@;
        let ghost expr0 = expr@;
        assert((color0[top as int] == Color::Black) == ids0[top as int].is_some());
        if ids[top].is_some() {
            pending.pop();
            proof {
                lemma_pop_keeps(g, p, x@, roots@, color0, ids0, stack0, pos);
            }
        } else {
            assert(placed(p.cols@.len() as int, &p.vars@[top as int], g, top as int));
            if x[p.vars[top].active] <= 0 {
                return Err(ExtractError::Inactive(top));
            }
            let choice: Option<usize> = chosen_node(p, g, x, top);
            if choice.is_none() {
                return Err(ExtractError::NoChoice(top));
            }
            let j: usize = choice.unwrap();
            if operands_ready(g, &ids, top, j) {
                let node: Node = rebuild(g, &ids, top, j);
                let at: usize = expr.len();
                expr.push(node);
                ids.set(top, Some(at));
                color.set(top, Color::Black);
                pending.pop();
                proof {
                    lemma_whites_update(color0, top as int, Color::Black);
                    lemma_emit_keeps(g, p, x@, roots@, color0, ids0, expr0, top as int, node);
                    assert(expr@ == expr0.push(node));
                    lemma_close_keeps(g, p, x@, roots@, color0, ids0, stack0, pos, at);
                }
            } else {
                if color[top] == Color::Gray {
                    proof {
                        let m = choose|m: int|
                            0 <= m < g.classes@[top as int].nodes@[j as int].children@.len()
                                && !ids@[#[trigger] g.child(top as int, j as int, m)].is_some();
                        let d = g.child(top as int, j as int, m);
                        assert(ids@[d].is_some() || stack_above(pending@, pos[top as int], d));
                        assert(pos[top as int] < q);
                        assert(sel_below(g, p, x@, top as int, pending@[q as int] as int));
                    }
                    return Err(ExtractError::Cyclic(top));
                }
                color.set(top, Color::Gray);
                proof {
                    pos = pos.update(top as int, q as int);
                    lemma_whites_update(color0, top as int, Color::Gray);
                }
                pending = push_operands(g, &ids, top, j, pending);
                proof {
                    lemma_open_keeps(g, p, x@, roots@, color0, ids0, stack0, pos, pending@, top as int);
                }
            }
        }
    }
    let mut found: Vec<usize> = Vec::new();
    let mut i: usize = 0;
    while i < roots.len()
        invariant
            g.wf(),
            n == g.classes@.len(),
            ids@.len() == n,
            pending@.len() == 0,
            roots_pending(g, roots@, ids@, pending@),
            i <= roots@.len(),
            forall|k: int| 0 <= k < roots@.len() ==> #[trigger] roots@[k] < g.canon@.len(),
            found@.len() == i,
            forall|k: int|
                0 <= k < i ==> ids@[g.find_spec(roots@[k] as int)] == Some(#[trigger] found@[k]),
        decreases roots.len() - i,
    {
        let class: usize = g.find(roots[i]);
        assert(!stack_above(pending@, -1, g.find_spec(roots@[i as int] as int)));
        found.push(ids[class].unwrap());
        i = i + 1;
    }
    Ok(Extraction { expr: RecExpr { nodes: expr }, roots: found, ids })
}

/// Appending the node of a class whose operand classes all have their
/// nodes keeps the expression as it should be.
proof fn lemma_emit_keeps(
    g: &EGraph,
    p: &Program,
    x: Seq<i64>,
    roots: Seq<usize>,
    color: Seq<Color>,
    ids: Seq<Option<usize>>,
    expr: Seq<Node>,
    top: int,
    node: Node,
)
    requires
        color.len() == ids.len(),
        0 <= top < ids.len(),
        expr.len() <= usize::MAX,
        ids[top].is_none(),
        active(p, x, top),
        pick(p, x, top).is_some(),
        needed(g, p, x, roots, top),
        closed_classes(g, p, x, roots, color, ids, expr),
        node.op == g.classes@[top].nodes@[pick(p, x, top).unwrap()].op,
        node.children@.len() == g.classes@[top].nodes@[pick(p, x, top).unwrap()].children@.len(),
        forall|m: int|
            0 <= m < node.children@.len() ==> 0 <= #[trigger] g.child(
                top,
                pick(p, x, top).unwrap(),
                m,
            ) < ids.len() && ids[g.child(top, pick(p, x, top).unwrap(), m)] == Some(
                node.children@[m],
            ),
    ensures
        closed_classes(
            g,
            p,
            x,
            roots,
            color.update(top, Color::Black),
            ids.update(top, Some(expr.len() as usize)),
            expr.push(node),
        ),
{
    let j = pick(p, x, top).unwrap();
    let color1 = color.update(top, Color::Black);
    let ids1 = ids.update(top, Some(expr.len() as usize));
    let expr1 = expr.push(node);
    assert forall|c: int| 0 <= c < ids1.len() implies #[trigger] built(g, p, x, ids1, expr1, c) by {
        assert(built(g, p, x, ids, expr, c));
        if c != top && ids[c].is_some() {
            let i = ids[c].unwrap() as int;
            assert(expr1[i] == expr[i]);
        } else if c == top {
            assert(expr1[expr.len() as int] == node);
        }
    }
    assert forall|i: int, k: int|
        0 <= i < expr1.len() && 0 <= k < expr1[i].children@.len() implies (
    #[trigger] expr1[i].children@[k]) < i by {
        if i < expr.len() {
            assert(expr1[i] == expr[i]);
        } else {
            let d = g.child(top, j, k);
            assert(ids[d] == Some(expr1[i].children@[k]));
            assert(built(g, p, x, ids, expr, d));
        }
    }
    assert forall|i: int| 0 <= i < expr1.len() implies #[trigger] from_class(ids1, i) by {
        if i < expr.len() {
            assert(from_class(ids, i));
            let c = choose|c: int| 0 <= c < ids.len() && #[trigger] ids[c] == Some(i as usize);
            assert(ids1[c] == Some(i as usize));
        } else {
            assert(ids1[top] == Some(i as usize));
        }
    }
    assert forall|c: int, d: int|
        0 <= c < ids1.len() && 0 <= d < ids1.len() && (#[trigger] ids1[c]).is_some() && ids1[c]
            == #[trigger] ids1[d] implies c == d by {
        assert(built(g, p, x, ids, expr, c));
        assert(built(g, p, x, ids, expr, d));
        if c != top && d != top {
            assert(ids[c] == ids[d]);
        }
    }
    assert forall|c: int| 0 <= c < ids1.len() implies (color1[c] == Color::Black) == (
    #[trigger] ids1[c]).is_some() by {
        assert((color[c] == Color::Black) == ids[c].is_some());
    }
    assert forall|c: int| 0 <= c < ids1.len() && (#[trigger] ids1[c]).is_some() implies needed(
        g,
        p,
        x,
        roots,
        c,
    ) by {
        if c != top {
            assert(ids[c].is_some());
        }
    }
}

/// Taking a class that has its node off the stack keeps what was
/// established.
proof fn lemma_pop_keeps(
    g: &EGraph,
    p: &Program,
    x: Seq<i64>,
    roots: Seq<usize>,
    color: Seq<Color>,
    ids: Seq<Option<usize>>,
    stack: Seq<usize>,
    pos: Seq<int>,
)
    requires
        stack.len() > 0,
        color.len() == ids.len(),
        0 <= stack.last() < ids.len(),
        ids[stack.last() as int].is_some(),
        color[stack.last() as int] == Color::Black,
        open_classes(g, p, x, color, ids, stack, pos),
        roots_pending(g, roots, ids, stack),
    ensures
        open_classes(g, p, x, color, ids, stack.drop_last(), pos),
        roots_pending(g, roots, ids, stack.drop_last()),
{
    let rest = stack.drop_last();
    let q = stack.len() - 1;
    assert forall|a: int, m: int|
        0 <= a < color.len() && color[a] == Color::Gray && 0 <= m < g.classes@[a].nodes@[pick(
            p,
            x,
            a,
        ).unwrap()].children@.len() implies 0 <= #[trigger] g.child(a, pick(p, x, a).unwrap(), m)
        < ids.len() && (ids[g.child(a, pick(p, x, a).unwrap(), m)].is_some() || stack_above(
        rest,
        pos[a],
        g.child(a, pick(p, x, a).unwrap(), m),
    )) by {
        let d = g.child(a, pick(p, x, a).unwrap(), m);
        if !ids[d].is_some() {
            let r = choose|r: int| pos[a] < r < stack.len() && #[trigger] stack[r] == d;
            assert(rest[r] == d);
        }
    }
    assert forall|a: int, r: int|
        0 <= a < color.len() && #[trigger] color[a] == Color::Gray && pos[a] < r
            < rest.len() implies sel_below(g, p, x, a, #[trigger] rest[r] as int) by {
        assert(rest[r] == stack[r]);
    }
    assert forall|i: int| 0 <= i < roots.len() implies 0 <= g.find_spec(#[trigger] roots[i] as int)
        < ids.len() && (ids[g.find_spec(roots[i] as int)].is_some() || stack_above(
        rest,
        -1,
        g.find_spec(roots[i] as int),
    )) by {
        let d = g.find_spec(roots[i] as int);
        if !ids[d].is_some() {
            let r = choose|r: int| -1 < r < stack.len() && #[trigger] stack[r] == d;
            assert(rest[r] == d);
        }
    }
}

/// Giving the class on top of the stack its node, and taking it off, keeps
/// what was established.
proof fn lemma_close_keeps(
    g: &EGraph,
    p: &Program,
    x: Seq<i64>,
    roots: Seq<usize>,
    color: Seq<Color>,
    ids: Seq<Option<usize>>,
    stack: Seq<usize>,
    pos: Seq<int>,
    at: usize,
)
    requires
        stack.len() > 0,
        color.len() == ids.len(),
        0 <= stack.last() < ids.len(),
        open_classes(g, p, x, color, ids, stack, pos),
        roots_pending(g, roots, ids, stack),
    ensures
        open_classes(
            g,
            p,
            x,
            color.update(stack.last() as int, Color::Black),
            ids.update(stack.last() as int, Some(at)),
            stack.drop_last(),
            pos,
        ),
        roots_pending(g, roots, ids.update(stack.last() as int, Some(at)), stack.drop_last()),
{
    let rest = stack.drop_last();
    let top = stack.last() as int;
    let color1 = color.update(top, Color::Black);
    let ids1 = ids.update(top, Some(at));
    assert forall|a: int|
        0 <= a < color1.len() && #[trigger] color1[a] == Color::Gray implies 0 <= pos[a] < rest.len()
        && rest[pos[a]] == a && pick(p, x, a).is_some() by {
        assert(color[a] == Color::Gray);
    }
    assert forall|a: int, m: int|
        0 <= a < color1.len() && color1[a] == Color::Gray && 0 <= m < g.classes@[a].nodes@[pick(
            p,
            x,
            a,
        ).unwrap()].children@.len() implies 0 <= #[trigger] g.child(a, pick(p, x, a).unwrap(), m)
        < ids1.len() && (ids1[g.child(a, pick(p, x, a).unwrap(), m)].is_some() || stack_above(
        rest,
        pos[a],
        g.child(a, pick(p, x, a).unwrap(), m),
    )) by {
        assert(color[a] == Color::Gray);
        let d = g.child(a, pick(p, x, a).unwrap(), m);
        if !ids1[d].is_some() {
            assert(!ids[d].is_some());
            let r = choose|r: int| pos[a] < r < stack.len() && #[trigger] stack[r] == d;
            assert(rest[r] == d);
        }
    }
    assert forall|a: int, r: int|
        0 <= a < color1.len() && #[trigger] color1[a] == Color::Gray && pos[a] < r
            < rest.len() implies sel_below(g, p, x, a, #[trigger] rest[r] as int) by {
        assert(color[a] == Color::Gray);
        assert(rest[r] == stack[r]);
    }
    assert forall|i: int| 0 <= i < roots.len() implies 0 <= g.find_spec(#[trigger] roots[i] as int)
        < ids1.len() && (ids1[g.find_spec(roots[i] as int)].is_some() || stack_above(
        rest,
        -1,
        g.find_spec(roots[i] as int),
    )) by {
        let d = g.find_spec(roots[i] as int);
        if !ids1[d].is_some() {
            assert(!ids[d].is_some());
            let r = choose|r: int| -1 < r < stack.len() && #[trigger] stack[r] == d;
            assert(rest[r] == d);
        }
    }
}

/// Expanding the white class on top of the stack keeps what was
/// established.
proof fn lemma_open_keeps(
    g: &EGraph,
    p: &Program,
    x: Seq<i64>,
    roots: Seq<usize>,
    color: Seq<Color>,
    ids: Seq<Option<usize>>,
    stack: Seq<usize>,
    pos: Seq<int>,
    grown: Seq<usize>,
    top: int,
)
    requires
        stack.len() > 0,
        color.len() == ids.len(),
        pos.len() == ids.len(),
        ids.len() == g.classes@.len(),
        top == stack.last(),
        0 <= top < ids.len(),
        color[top] != Color::Gray,
        pick(p, x, top).is_some(),
        pos[top] == stack.len() - 1,
        open_classes(g, p, x, color, ids, stack, pos.update(top, 0)),
        roots_pending(g, roots, ids, stack),
        forall|r: int| 0 <= r < stack.len() ==> needed(g, p, x, roots, #[trigger] stack[r] as int),
        grown.len() >= stack.len(),
        forall|k: int| 0 <= k < stack.len() ==> #[trigger] grown[k] == stack[k],
        forall|k: int|
            stack.len() <= k < grown.len() ==> (#[trigger] grown[k]) < g.classes@.len() && exists|
                m: int,
            |
                0 <= m < g.classes@[top].nodes@[pick(p, x, top).unwrap()].children@.len()
                    && #[trigger] g.child(top, pick(p, x, top).unwrap(), m) == grown[k],
        forall|m: int|
            0 <= m < g.classes@[top].nodes@[pick(p, x, top).unwrap()].children@.len() ==> 0
                <= #[trigger] g.child(top, pick(p, x, top).unwrap(), m) < ids.len() && (ids[g.child(
                top,
                pick(p, x, top).unwrap(),
                m,
            )].is_some() || stack_above(
                grown,
                stack.len() - 1,
                g.child(top, pick(p, x, top).unwrap(), m),
            )),
    ensures
        open_classes(g, p, x, color.update(top, Color::Gray), ids, grown, pos),
        roots_pending(g, roots, ids, grown),
        forall|r: int| 0 <= r < grown.len() ==> needed(g, p, x, roots, #[trigger] grown[r] as int),
{
    let color1 = color.update(top, Color::Gray);
    let pos0 = pos.update(top, 0);
    let q = stack.len() - 1;
    let j = pick(p, x, top).unwrap();
    assert forall|k: int| stack.len() <= k < grown.len() implies sel_edge(
        g,
        p,
        x,
        top,
        #[trigger] grown[k] as int,
    ) by {
        let m = choose|m: int|
            0 <= m < g.classes@[top].nodes@[j].children@.len() && #[trigger] g.child(top, j, m)
                == grown[k];
        assert(g.child(top, j, m) == grown[k] as int);
    }
    assert forall|a: int|
        0 <= a < color1.len() && #[trigger] color1[a] == Color::Gray implies 0 <= pos[a] < grown.len()
        && grown[pos[a]] == a && pick(p, x, a).is_some() by {
        if a != top {
            assert(color[a] == Color::Gray);
            assert(pos0[a] == pos[a]);
        }
    }
    assert forall|a: int, r: int|
        0 <= a < color1.len() && #[trigger] color1[a] == Color::Gray && pos[a] < r
            < grown.len() implies sel_below(g, p, x, a, #[trigger] grown[r] as int) by {
        if a == top {
            lemma_sel_self(g, p, x, grown[r] as int);
            assert(sel_edge(g, p, x, top, grown[r] as int));
        } else {
            assert(color[a] == Color::Gray);
            assert(pos0[a] == pos[a]);
            assert(stack[pos0[a]] == a);
            assert(pos[a] < q);
            if r < stack.len() {
                assert(grown[r] == stack[r]);
            } else {
                assert(sel_below(g, p, x, a, stack[q] as int));
                let d = choose|d: int| #[trigger]
                    sel_edge(g, p, x, a, d) && sel_reaches(g, p, x, d, top);
                lemma_sel_step(g, p, x, d, top, grown[r] as int);
            }
        }
    }
    assert forall|a: int, m: int|
        0 <= a < color1.len() && color1[a] == Color::Gray && 0 <= m < g.classes@[a].nodes@[pick(
            p,
            x,
            a,
        ).unwrap()].children@.len() implies 0 <= #[trigger] g.child(a, pick(p, x, a).unwrap(), m)
        < ids.len() && (ids[g.child(a, pick(p, x, a).unwrap(), m)].is_some() || stack_above(
        grown,
        pos[a],
        g.child(a, pick(p, x, a).unwrap(), m),
    )) by {
        let d = g.child(a, pick(p, x, a).unwrap(), m);
        if a != top {
            assert(color[a] == Color::Gray);
            assert(pos0[a] == pos[a]);
            if !ids[d].is_some() {
                let r = choose|r: int| pos0[a] < r < stack.len() && #[trigger] stack[r] == d;
                assert(grown[r] == d);
            }
        }
    }
    assert forall|i: int| 0 <= i < roots.len() implies 0 <= g.find_spec(#[trigger] roots[i] as int)
        < ids.len() && (ids[g.find_spec(roots[i] as int)].is_some() || stack_above(
        grown,
        -1,
        g.find_spec(roots[i] as int),
    )) by {
        let d = g.find_spec(roots[i] as int);
        if !ids[d].is_some() {
            let r = choose|r: int| -1 < r < stack.len() && #[trigger] stack[r] == d;
            assert(grown[r] == d);
        }
    }
    assert forall|r: int| 0 <= r < grown.len() implies needed(
        g,
        p,
        x,
        roots,
        #[trigger] grown[r] as int,
    ) by {
        if r < stack.len() {
            assert(grown[r] == stack[r]);
        } else {
            assert(needed(g, p, x, roots, stack[q] as int));
            let i = choose|i: int|
                0 <= i < roots.len() && #[trigger] sel_reaches(
                    g,
                    p,
                    x,
                    g.find_spec(roots[i] as int),
                    top,
                );
            lemma_sel_step(g, p, x, g.find_spec(roots[i] as int), top, grown[r] as int);
        }
    }
}

/// Rebuilds the expression that an assignment selects for one root.
pub fn solve(p: &Program, g: &EGraph, x: &Vec<i64>, root: usize) -> (r: Result<
    Extraction,
    ExtractError,
>)
    requires
        g.wf(),
        p.layout(g),
        x@.len() == p.cols@.len(),
        root < g.canon@.len(),
    ensures
        rebuilt(g, p, x@, seq![root], r),
{
    let mut roots: Vec<usize> = Vec::new();
    roots.push(root);
    assert(roots@ =~= seq![root]);
    solve_multiple(p, g, x, &roots)
}

} // verus!
