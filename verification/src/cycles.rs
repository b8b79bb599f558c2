//! Cycle detection over the class graph by three-colour depth-first
//! traversal.

use vstd::prelude::*;
use crate::graph::EGraph;

verus! {

/// The state of a class during the traversal: not yet entered, entered and
/// not yet left, or left.
#[derive(Clone, Copy, Debug, PartialEq, Eq, Structural)]
pub enum Color {
    White,
    Gray,
    Black,
}

impl EGraph {
    /// Class `a` has a node with an operand in class `b`.
    pub open spec fn edge(&self, a: int, b: int) -> bool {
        exists|j: int, m: int|
            0 <= j < self.classes@[a].nodes@.len() && 0 <= m
                < self.classes@[a].nodes@[j].children@.len() && #[trigger] self.child(a, j, m) == b
    }

    /// `p` is a chain of classes, each with a node that has an operand in
    /// the next.
    pub open spec fn is_path(&self, p: Seq<int>) -> bool {
        &&& p.len() > 0
        &&& forall|i: int|
            0 <= i < p.len() ==> 0 <= #[trigger] p[i] < self.classes@.len()
        &&& forall|i: int| 0 <= i < p.len() - 1 ==> self.edge(#[trigger] p[i], p[i + 1])
    }

    /// Class `b` can be reached from class `a` through operands.
    pub open spec fn reaches(&self, a: int, b: int) -> bool {
        exists|p: Seq<int>| #[trigger] self.is_path(p) && p[0] == a && p.last() == b
    }

    /// Choosing node `j` of class `c` would close a cycle: one of its
    /// operand classes depends back on `c`.
    pub open spec fn closes_cycle(&self, c: int, j: int) -> bool {
        exists|m: int|
            0 <= m < self.classes@[c].nodes@[j].children@.len() && self.reaches(
                #[trigger] self.child(c, j, m),
                c,
            )
    }
}

/// Without the nodes in `found`, the classes can be ranked so that every
/// remaining node's operand classes rank below the node's class: what is
/// left holds no cycle.
pub open spec fn breaks_all_cycles(g: &EGraph, found: Seq<(usize, usize)>) -> bool {
    exists|rank: Seq<int>| #[trigger] ranks(g, found, rank)
}

/// `rank` gives every class a number above those of the operand classes of
/// each of its nodes that is not in `found`.
pub open spec fn ranks(g: &EGraph, found: Seq<(usize, usize)>, rank: Seq<int>) -> bool {
    &&& rank.len() == g.classes@.len()
    &&& forall|c: int, j: int, m: int|
        0 <= c < g.classes@.len() && 0 <= j < g.classes@[c].nodes@.len() && 0 <= m
            < g.classes@[c].nodes@[j].children@.len() ==> found.contains((c as usize, j as usize))
            || rank[#[trigger] g.child(c, j, m)] < rank[c]
}

/// Class `c` has a marker in `stack` above position `from`.
pub open spec fn marker_above(stack: Seq<(bool, usize)>, from: int, c: int) -> bool {
    exists|r: int| from < r < stack.len() && (#[trigger] stack[r]).1 == c
}

/// Whether operand `m` of node `j` of class `c` comes before operand `m0`
/// of node `j0` in scan order.
pub open spec fn scanned(j: int, m: int, j0: int, m0: int) -> bool {
    j < j0 || (j == j0 && m < m0)
}

/// Every class reaches itself.
pub proof fn lemma_reach_self(g: &EGraph, a: int)
    requires
        0 <= a < g.classes@.len(),
    ensures
        g.reaches(a, a),
{
    let p = seq![a];
    assert(g.is_path(p) && p[0] == a && p.last() == a);
}

/// A chain can be prolonged by one operand.
pub proof fn lemma_reach_step(g: &EGraph, a: int, b: int, c: int)
    requires
        g.reaches(a, b),
        g.edge(b, c),
        0 <= c < g.classes@.len(),
    ensures
        g.reaches(a, c),
{
    let p = choose|p: Seq<int>| #[trigger] g.is_path(p) && p[0] == a && p.last() == b;
    let q = p.push(c);
    assert forall|i: int| 0 <= i < q.len() - 1 implies g.edge(#[trigger] q[i], q[i + 1]) by {
        if i < p.len() - 1 {
            assert(q[i] == p[i] && q[i + 1] == p[i + 1]);
        }
    }
    assert(g.is_path(q) && q[0] == a && q.last() == c);
}

/// The number of white entries.
pub open spec fn whites(colors: Seq<Color>) -> nat
    decreases colors.len(),
{
    if colors.len() == 0 {
        0
    } else {
        whites(colors.drop_last()) + if colors.last() == Color::White {
            1nat
        } else {
            0nat
        }
    }
}

/// Colouring a white entry leaves one white entry fewer; recolouring
/// another entry with a colour other than white adds none.
pub proof fn lemma_whites_update(colors: Seq<Color>, i: int, c: Color)
    requires
        0 <= i < colors.len(),
        c != Color::White,
    ensures
        colors[i] == Color::White ==> whites(colors.update(i, c)) + 1 == whites(colors),
        colors[i] != Color::White ==> whites(colors.update(i, c)) == whites(colors),
    decreases colors.len(),
{
    let u = colors.update(i, c);
    if i == colors.len() - 1 {
        assert(u.drop_last() =~= colors.drop_last());
    } else {
        lemma_whites_update(colors.drop_last(), i, c);
        assert(u.drop_last() =~= colors.drop_last().update(i, c));
    }
}

/// What a scan leaves of an operand in class `d` of node `j` of class `id`:
/// the node is reported, as it is whenever `d` is gray, or `d` is black, or
/// `d` has a marker above position `from`.
pub open spec fn settled(
    color: Seq<Color>,
    stack: Seq<(bool, usize)>,
    found: Seq<(usize, usize)>,
    from: int,
    id: usize,
    j: int,
    d: int,
) -> bool {
    &&& color[d] == Color::Gray ==> found.contains((id, j as usize))
    &&& found.contains((id, j as usize)) || color[d] == Color::Black || marker_above(stack, from, d)
}

/// What is settled stays settled when the stack and the reports grow.
proof fn lemma_settled_grows(
    color: Seq<Color>,
    stack: Seq<(bool, usize)>,
    found: Seq<(usize, usize)>,
    stack1: Seq<(bool, usize)>,
    found1: Seq<(usize, usize)>,
    from: int,
    id: usize,
    j: int,
    d: int,
)
    requires
        settled(color, stack, found, from, id, j, d),
        stack.len() <= stack1.len(),
        forall|r: int| 0 <= r < stack.len() ==> #[trigger] stack1[r] == stack[r],
        found.len() <= found1.len(),
        forall|k: int| 0 <= k < found.len() ==> #[trigger] found1[k] == found[k],
        from >= -1,
    ensures
        settled(color, stack1, found1, from, id, j, d),
{
    if found.contains((id, j as usize)) {
        let k = choose|k: int| 0 <= k < found.len() && found[k] == (id, j as usize);
        assert(found1[k] == (id, j as usize));
    } else if color[d] != Color::Black {
        let r = choose|r: int| from < r < stack.len() && (#[trigger] stack[r]).1 == d;
        assert(stack1[r].1 == d);
    }
}

/// Scans the nodes of class `id`, which was just entered: every white
/// operand class is scheduled, and every node with an operand in a class
/// that is entered and not yet left is reported.
fn scan_class(
    g: &EGraph,
    color: &Vec<Color>,
    id: usize,
    stack: Vec<(bool, usize)>,
    found: Vec<(usize, usize)>,
) -> (r: (Vec<(bool, usize)>, Vec<(usize, usize)>))
    requires
        g.wf(),
        color@.len() == g.classes@.len(),
        id < g.classes@.len(),
        forall|x: int| 0 <= x < color@.len() && color@[x] == Color::Gray ==> g.reaches(x, id as int),
    ensures
        r.0@.len() >= stack@.len(),
        r.0@.take(stack@.len() as int) == stack@,
        forall|p: int|
            stack@.len() <= p < r.0@.len() ==> {
                let e = #[trigger] r.0@[p];
                e.0 && e.1 < g.classes@.len() && g.edge(id as int, e.1 as int)
            },
        r.1@.len() >= found@.len(),
        r.1@.take(found@.len() as int) == found@,
        forall|k: int|
            found@.len() <= k < r.1@.len() ==> {
                let e = #[trigger] r.1@[k];
                e.0 == id && e.1 < g.classes@[id as int].nodes@.len() && g.closes_cycle(
                    e.0 as int,
                    e.1 as int,
                )
            },
        forall|j: int, m: int|
            0 <= j < g.classes@[id as int].nodes@.len() && 0 <= m
                < g.classes@[id as int].nodes@[j].children@.len() ==> settled(
                color@,
                r.0@,
                r.1@,
                stack@.len() - 1,
                id,
                j,
                #[trigger] g.child(id as int, j, m),
            ),
{
    let mut stack = stack;
    let mut found = found;
    let ghost base = stack@;
    let ghost known = found@;
    let class = &g.classes[id];
    let mut j: usize = 0;
    while j < class.nodes.len()
        invariant
            g.wf(),
            color@.len() == g.classes@.len(),
            id < g.classes@.len(),
            *class == g.classes@[id as int],
            j <= class.nodes@.len(),
            forall|x: int|
                0 <= x < color@.len() && color@[x] == Color::Gray ==> g.reaches(x, id as int),
            stack@.len() >= base.len(),
            stack@.take(base.len() as int) == base,
            forall|p: int|
                base.len() <= p < stack@.len() ==> {
                    let e = #[trigger] stack@[p];
                    e.0 && e.1 < g.classes@.len() && g.edge(id as int, e.1 as int)
                },
            found@.len() >= known.len(),
            found@.take(known.len() as int) == known,
            forall|k: int|
                known.len() <= k < found@.len() ==> {
                    let e = #[trigger] found@[k];
                    e.0 == id && e.1 < g.classes@[id as int].nodes@.len() && g.closes_cycle(
                        e.0 as int,
                        e.1 as int,
                    )
                },
            forall|j1: int, m1: int|
                0 <= j1 < j && 0 <= m1 < g.classes@[id as int].nodes@[j1].children@.len() ==> settled(
                    color@,
                    stack@,
                    found@,
                    base.len() - 1,
                    id,
                    j1,
                    #[trigger] g.child(id as int, j1, m1),
                ),
        decreases class.nodes.len() - j,
    {
        let node = &class.nodes[j];
        let mut m: usize = 0;
        while m < node.children.len()
            invariant
                g.wf(),
                color@.len() == g.classes@.len(),
                id < g.classes@.len(),
                *class == g.classes@[id as int],
                j < class.nodes@.len(),
                *node == class.nodes@[j as int],
                m <= node.children@.len(),
                forall|x: int|
                    0 <= x < color@.len() && color@[x] == Color::Gray ==> g.reaches(x, id as int),
                stack@.len() >= base.len(),
                stack@.take(base.len() as int) == base,
                forall|p: int|
                    base.len() <= p < stack@.len() ==> {
                        let e = #[trigger] stack@[p];
                        e.0 && e.1 < g.classes@.len() && g.edge(id as int, e.1 as int)
                    },
                found@.len() >= known.len(),
                found@.take(known.len() as int) == known,
                forall|k: int|
                    known.len() <= k < found@.len() ==> {
                        let e = #[trigger] found@[k];
                        e.0 == id && e.1 < g.classes@[id as int].nodes@.len() && g.closes_cycle(
                            e.0 as int,
                            e.1 as int,
                        )
                    },
                forall|j1: int, m1: int|
                    0 <= j1 <= j && 0 <= m1 < g.classes@[id as int].nodes@[j1].children@.len()
                        && scanned(j1, m1, j as int, m as int) ==> settled(
                        color@,
                        stack@,
                        found@,
                        base.len() - 1,
                        id,
                        j1,
                        #[trigger] g.child(id as int, j1, m1),
                    ),
            decreases node.children.len() - m,
        {
            let ch: usize = g.find(node.children[m]);
            assert(ch == g.child(id as int, j as int, m as int));
            let ghost stack0 = stack@;
            let ghost found0 = found@;
            match color[ch] {
                Color::White => {
                    stack.push((true, ch));
                    assert(stack@.take(base.len() as int) =~= stack0.take(base.len() as int));
                    assert(stack@[stack0.len() as int].1 == ch);
                    assert(marker_above(stack@, base.len() - 1, ch as int));
                },
                Color::Gray => {
                    found.push((id, j));
                    assert(found@.take(known.len() as int) =~= found0.take(known.len() as int));
                    assert(g.closes_cycle(id as int, j as int));
                    assert(found@[found0.len() as int] == (id, j));
                },
                Color::Black => {},
            }
            proof {
                assert(settled(color@, stack@, found@, base.len() - 1, id, j as int, ch as int));
                assert forall|j1: int, m1: int|
                    0 <= j1 <= j && 0 <= m1 < g.classes@[id as int].nodes@[j1].children@.len()
                        && scanned(j1, m1, j as int, m + 1) implies settled(
                    color@,
                    stack@,
                    found@,
                    base.len() - 1,
                    id,
                    j1,
                    #[trigger] g.child(id as int, j1, m1),
                ) by {
                    if scanned(j1, m1, j as int, m as int) {
                        lemma_settled_grows(
                            color@,
                            stack0,
                            found0,
                            stack@,
                            found@,
                            base.len() - 1,
                            id,
                            j1,
                            g.child(id as int, j1, m1),
                        );
                    }
                }
            }
            m = m + 1;
        }
        j = j + 1;
    }
    (stack, found)
}

/// What holds of the classes that were left: each got a rank below the
/// clock, and every node of such a class is reported or has all its
/// operands in classes that were left before, with a lower rank.
spec fn left_classes(
    g: &EGraph,
    color: Seq<Color>,
    found: Seq<(usize, usize)>,
    rank: Seq<int>,
    clock: int,
) -> bool {
    &&& forall|x: int| 0 <= x < color.len() && #[trigger] color[x] == Color::Black ==> rank[x] < clock
    &&& forall|c: int, j: int, m: int|
        0 <= c < g.classes@.len() && 0 <= j < g.classes@[c].nodes@.len() && 0 <= m
            < g.classes@[c].nodes@[j].children@.len() && color[c] == Color::Black ==> found.contains(
            (c as usize, j as usize),
        ) || (color[#[trigger] g.child(c, j, m)] == Color::Black && rank[g.child(c, j, m)] < rank[c])
}

/// What holds of the classes that are entered and not yet left: each has
/// its marker where `pos` says, every operand of each of its nodes is
/// settled, and a node with an operand in a class entered no later is
/// reported.
spec fn entered_classes(
    g: &EGraph,
    color: Seq<Color>,
    stack: Seq<(bool, usize)>,
    found: Seq<(usize, usize)>,
    pos: Seq<int>,
) -> bool {
    &&& forall|x: int|
        0 <= x < color.len() && #[trigger] color[x] == Color::Gray ==> 0 <= pos[x] < stack.len()
            && stack[pos[x]] == (false, x as usize)
    &&& forall|c: int, j: int, m: int|
        0 <= c < g.classes@.len() && 0 <= j < g.classes@[c].nodes@.len() && 0 <= m
            < g.classes@[c].nodes@[j].children@.len() && color[c] == Color::Gray ==> found.contains(
            (c as usize, j as usize),
        ) || color[#[trigger] g.child(c, j, m)] == Color::Black || marker_above(
            stack,
            pos[c],
            g.child(c, j, m),
        )
    &&& forall|c: int, j: int, m: int|
        0 <= c < g.classes@.len() && 0 <= j < g.classes@[c].nodes@.len() && 0 <= m
            < g.classes@[c].nodes@[j].children@.len() && color[c] == Color::Gray
            && color[#[trigger] g.child(c, j, m)] == Color::Gray && pos[g.child(c, j, m)] <= pos[c]
            ==> found.contains((c as usize, j as usize))
}

/// Class `x` is scheduled in `stack`.
spec fn scheduled(stack: Seq<(bool, usize)>, x: int) -> bool {
    exists|r: int| 0 <= r < stack.len() && #[trigger] stack[r] == (true, x as usize)
}

/// Every class that was not entered yet is scheduled.
spec fn white_classes(color: Seq<Color>, stack: Seq<(bool, usize)>) -> bool {
    forall|x: int| 0 <= x < color.len() && #[trigger] color[x] == Color::White ==> scheduled(stack, x)
}

/// Dropping a schedule entry of a class that was entered before keeps what
/// was established.
proof fn lemma_skip(
    g: &EGraph,
    color: Seq<Color>,
    stack: Seq<(bool, usize)>,
    found: Seq<(usize, usize)>,
    pos: Seq<int>,
)
    requires
        g.wf(),
        color.len() == g.classes@.len(),
        color.len() <= usize::MAX,
        stack.len() > 0,
        stack.last().0,
        stack.last().1 < color.len(),
        color[stack.last().1 as int] != Color::White,
        entered_classes(g, color, stack, found, pos),
        white_classes(color, stack),
    ensures
        entered_classes(g, color, stack.drop_last(), found, pos),
        white_classes(color, stack.drop_last()),
{
    let rest = stack.drop_last();
    let q = stack.len() - 1;
    let y = stack.last().1 as int;
    assert forall|c: int, j: int, m: int|
        0 <= c < g.classes@.len() && 0 <= j < g.classes@[c].nodes@.len() && 0 <= m
            < g.classes@[c].nodes@[j].children@.len() && color[c] == Color::Gray implies found.contains(
        (c as usize, j as usize),
    ) || color[#[trigger] g.child(c, j, m)] == Color::Black || marker_above(
        rest,
        pos[c],
        g.child(c, j, m),
    ) by {
        let d = g.child(c, j, m);
        if !found.contains((c as usize, j as usize)) && color[d] != Color::Black {
            let r = choose|r: int| pos[c] < r < stack.len() && (#[trigger] stack[r]).1 == d;
            if r == q {
                assert(color[d] == Color::Gray);
                assert(stack[pos[d]] == (false, d as usize));
                assert(pos[d] > pos[c]);
                assert(rest[pos[d]].1 == d);
            } else {
                assert(rest[r].1 == d);
            }
        }
    }
    assert forall|x: int| 0 <= x < color.len() && #[trigger] color[x] == Color::White implies scheduled(
        rest,
        x,
    ) by {
        assert(scheduled(stack, x));
        let r = choose|r: int| 0 <= r < stack.len() && #[trigger] stack[r] == (true, x as usize);
        assert(rest[r] == (true, x as usize));
    }
}

/// Leaving the class on top of the stack keeps what was established.
proof fn lemma_exit(
    g: &EGraph,
    color: Seq<Color>,
    stack: Seq<(bool, usize)>,
    found: Seq<(usize, usize)>,
    pos: Seq<int>,
    rank: Seq<int>,
    clock: int,
)
    requires
        g.wf(),
        color.len() == g.classes@.len(),
        color.len() <= usize::MAX,
        rank.len() == g.classes@.len(),
        stack.len() > 0,
        !stack.last().0,
        stack.last().1 < color.len(),
        color[stack.last().1 as int] == Color::Gray,
        forall|p: int, q: int|
            0 <= p < q < stack.len() && !(#[trigger] stack[p]).0 && !(#[trigger] stack[q]).0
                ==> stack[p].1 != stack[q].1,
        entered_classes(g, color, stack, found, pos),
        left_classes(g, color, found, rank, clock),
        white_classes(color, stack),
    ensures
        entered_classes(
            g,
            color.update(stack.last().1 as int, Color::Black),
            stack.drop_last(),
            found,
            pos,
        ),
        left_classes(
            g,
            color.update(stack.last().1 as int, Color::Black),
            found,
            rank.update(stack.last().1 as int, clock),
            clock + 1,
        ),
        white_classes(color.update(stack.last().1 as int, Color::Black), stack.drop_last()),
{
    let rest = stack.drop_last();
    let q = stack.len() - 1;
    let x = stack.last().1 as int;
    let color1 = color.update(x, Color::Black);
    let rank1 = rank.update(x, clock);
    assert(stack[pos[x]] == (false, x as usize));
    assert(pos[x] == q);
    assert forall|y: int| 0 <= y < color1.len() && #[trigger] color1[y] == Color::Gray implies 0
        <= pos[y] < rest.len() && rest[pos[y]] == (false, y as usize) by {
        assert(color[y] == Color::Gray);
        assert(stack[pos[y]] == (false, y as usize));
    }
    assert forall|c: int, j: int, m: int|
        0 <= c < g.classes@.len() && 0 <= j < g.classes@[c].nodes@.len() && 0 <= m
            < g.classes@[c].nodes@[j].children@.len() && color1[c] == Color::Gray implies found.contains(
        (c as usize, j as usize),
    ) || color1[#[trigger] g.child(c, j, m)] == Color::Black || marker_above(
        rest,
        pos[c],
        g.child(c, j, m),
    ) by {
        let d = g.child(c, j, m);
        assert(color[c] == Color::Gray);
        if !found.contains((c as usize, j as usize)) && color1[d] != Color::Black {
            let r = choose|r: int| pos[c] < r < stack.len() && (#[trigger] stack[r]).1 == d;
            assert(rest[r].1 == d);
        }
    }
    assert forall|c: int, j: int, m: int|
        0 <= c < g.classes@.len() && 0 <= j < g.classes@[c].nodes@.len() && 0 <= m
            < g.classes@[c].nodes@[j].children@.len() && color1[c] == Color::Gray
            && color1[#[trigger] g.child(c, j, m)] == Color::Gray && pos[g.child(c, j, m)]
            <= pos[c] implies found.contains((c as usize, j as usize)) by {
        assert(color[c] == Color::Gray);
        assert(color[g.child(c, j, m)] == Color::Gray);
    }
    assert forall|c: int, j: int, m: int|
        0 <= c < g.classes@.len() && 0 <= j < g.classes@[c].nodes@.len() && 0 <= m
            < g.classes@[c].nodes@[j].children@.len() && color1[c] == Color::Black implies found.contains(
        (c as usize, j as usize),
    ) || (color1[#[trigger] g.child(c, j, m)] == Color::Black && rank1[g.child(c, j, m)]
        < rank1[c]) by {
        let d = g.child(c, j, m);
        if !found.contains((c as usize, j as usize)) {
            if c == x {
                assert(!marker_above(stack, pos[c], d));
                assert(color[d] == Color::Black);
            } else {
                assert(color[c] == Color::Black);
                assert(color[d] == Color::Black);
            }
        }
    }
    assert forall|y: int| 0 <= y < color1.len() && #[trigger] color1[y] == Color::White implies scheduled(
        rest,
        y,
    ) by {
        assert(color[y] == Color::White);
        assert(scheduled(stack, y));
        let r = choose|r: int| 0 <= r < stack.len() && #[trigger] stack[r] == (true, y as usize);
        assert(rest[r] == (true, y as usize));
    }
}

/// Entering the white class scheduled on top of the stack, and scanning it,
/// keeps what was established.
proof fn lemma_enter(
    g: &EGraph,
    color: Seq<Color>,
    stack: Seq<(bool, usize)>,
    found: Seq<(usize, usize)>,
    pos: Seq<int>,
    rank: Seq<int>,
    clock: int,
    grown: Seq<(bool, usize)>,
    found1: Seq<(usize, usize)>,
)
    requires
        g.wf(),
        color.len() == g.classes@.len(),
        color.len() <= usize::MAX,
        pos.len() == g.classes@.len(),
        stack.len() > 0,
        stack.last().0,
        stack.last().1 < color.len(),
        color[stack.last().1 as int] == Color::White,
        entered_classes(g, color, stack, found, pos),
        left_classes(g, color, found, rank, clock),
        white_classes(color, stack),
        grown.len() >= stack.len(),
        forall|r: int| 0 <= r < stack.len() - 1 ==> #[trigger] grown[r] == stack[r],
        grown[stack.len() - 1] == (false, stack.last().1),
        found1.len() >= found.len(),
        forall|k: int| 0 <= k < found.len() ==> #[trigger] found1[k] == found[k],
        forall|j: int, m: int|
            0 <= j < g.classes@[stack.last().1 as int].nodes@.len() && 0 <= m
                < g.classes@[stack.last().1 as int].nodes@[j].children@.len() ==> settled(
                color.update(stack.last().1 as int, Color::Gray),
                grown,
                found1,
                stack.len() - 1,
                stack.last().1,
                j,
                #[trigger] g.child(stack.last().1 as int, j, m),
            ),
    ensures
        entered_classes(
            g,
            color.update(stack.last().1 as int, Color::Gray),
            grown,
            found1,
            pos.update(stack.last().1 as int, stack.len() - 1),
        ),
        left_classes(g, color.update(stack.last().1 as int, Color::Gray), found1, rank, clock),
        white_classes(color.update(stack.last().1 as int, Color::Gray), grown),
{
    let q = stack.len() - 1;
    let y = stack.last().1 as int;
    let color1 = color.update(y, Color::Gray);
    let pos1 = pos.update(y, q);
    assert forall|e: (usize, usize)| found.contains(e) implies found1.contains(e) by {
        let k = choose|k: int| 0 <= k < found.len() && found[k] == e;
        assert(found1[k] == e);
    }
    assert forall|x: int| 0 <= x < color1.len() && #[trigger] color1[x] == Color::Gray implies 0
        <= pos1[x] < grown.len() && grown[pos1[x]] == (false, x as usize) by {
        if x != y {
            assert(color[x] == Color::Gray);
            assert(stack[pos[x]] == (false, x as usize));
        }
    }
    assert forall|c: int, j: int, m: int|
        0 <= c < g.classes@.len() && 0 <= j < g.classes@[c].nodes@.len() && 0 <= m
            < g.classes@[c].nodes@[j].children@.len() && color1[c] == Color::Gray implies found1.contains(
        (c as usize, j as usize),
    ) || color1[#[trigger] g.child(c, j, m)] == Color::Black || marker_above(
        grown,
        pos1[c],
        g.child(c, j, m),
    ) by {
        let d = g.child(c, j, m);
        if c == y {
            assert(settled(color1, grown, found1, q, y as usize, j, d));
        } else {
            assert(color[c] == Color::Gray);
            assert(stack[pos[c]] == (false, c as usize));
            if !found.contains((c as usize, j as usize)) && color[d] != Color::Black {
                let r = choose|r: int| pos[c] < r < stack.len() && (#[trigger] stack[r]).1 == d;
                assert(grown[r].1 == d);
            }
        }
    }
    assert forall|c: int, j: int, m: int|
        0 <= c < g.classes@.len() && 0 <= j < g.classes@[c].nodes@.len() && 0 <= m
            < g.classes@[c].nodes@[j].children@.len() && color1[c] == Color::Gray
            && color1[#[trigger] g.child(c, j, m)] == Color::Gray && pos1[g.child(c, j, m)]
            <= pos1[c] implies found1.contains((c as usize, j as usize)) by {
        let d = g.child(c, j, m);
        if c == y {
            assert(settled(color1, grown, found1, q, y as usize, j, d));
        } else {
            assert(color[c] == Color::Gray);
            assert(stack[pos[c]] == (false, c as usize));
            assert(d != y);
            assert(color[d] == Color::Gray);
            assert(found.contains((c as usize, j as usize)));
        }
    }
    assert forall|c: int, j: int, m: int|
        0 <= c < g.classes@.len() && 0 <= j < g.classes@[c].nodes@.len() && 0 <= m
            < g.classes@[c].nodes@[j].children@.len() && color1[c] == Color::Black implies found1.contains(
        (c as usize, j as usize),
    ) || (color1[#[trigger] g.child(c, j, m)] == Color::Black && rank[g.child(c, j, m)]
        < rank[c]) by {
        assert(color[c] == Color::Black);
    }
    assert forall|x: int| 0 <= x < color1.len() && #[trigger] color1[x] == Color::White implies scheduled(
        grown,
        x,
    ) by {
        assert(color[x] == Color::White);
        assert(scheduled(stack, x));
        let r = choose|r: int| 0 <= r < stack.len() && #[trigger] stack[r] == (true, x as usize);
        assert(grown[r] == (true, x as usize));
    }
}

/// Reports (class, node position) pairs whose node, if chosen, would close
/// a cycle through the class graph: those met by a depth-first traversal
/// with an operand in a class that is entered and not yet left.
pub fn find_cycles(g: &EGraph) -> (r: Vec<(usize, usize)>)
    requires
        g.wf(),
    ensures
        forall|k: int|
            0 <= k < r@.len() ==> {
                let e = #[trigger] r@[k];
                e.0 < g.classes@.len() && e.1 < g.classes@[e.0 as int].nodes@.len()
                    && g.closes_cycle(e.0 as int, e.1 as int)
            },
        breaks_all_cycles(g, r@),
{
    let n: usize = g.classes.len();
    let mut color: Vec<Color> = Vec::new();
    let mut stack: Vec<(bool, usize)> = Vec::new();
    let mut found: Vec<(usize, usize)> = Vec::new();
    let mut c: usize = 0;
    while c < n
        invariant
            c <= n,
            color@.len() == c,
            stack@.len() == c,
            forall|x: int| 0 <= x < c ==> #[trigger] color@[x] == Color::White,
            forall|p: int| 0 <= p < c ==> #[trigger] stack@[p] == (true, p as usize),
        decreases n - c,
    {
        color.push(Color::White);
        stack.push((true, c));
        c = c + 1;
    }
    let ghost mut pos: Seq<int> = Seq::new(n as nat, |x: int| 0int);
    let ghost mut rank: Seq<int> = Seq::new(n as nat, |x: int| 0int);
    let ghost mut clock: int = 0;
    proof {
        assert forall|x: int| 0 <= x < color@.len() && #[trigger] color@[x] == Color::White implies scheduled(
            stack@,
            x,
        ) by {
            assert(stack@[x] == (true, x as usize));
        }
    }
    while stack.len() > 0
        invariant
            g.wf(),
            n == g.classes@.len(),
            color@.len() == n,
            pos.len() == n,
            rank.len() == n,
            entered_classes(g, color@, stack@, found@, pos),
            left_classes(g, color@, found@, rank, clock),
            white_classes(color@, stack@),
            forall|p: int| 0 <= p < stack@.len() ==> (#[trigger] stack@[p]).1 < n,
            forall|p: int|
                0 <= p < stack@.len() && !(#[trigger] stack@[p]).0 ==> color@[stack@[p].1 as int]
                    == Color::Gray,
            forall|x: int|
                0 <= x < n && #[trigger] color@[x] == Color::Gray ==> exists|p: int|
                    0 <= p < stack@.len() && #[trigger] stack@[p] == (false, x as usize),
            forall|p: int, q: int|
                0 <= p < q < stack@.len() && !(#[trigger] stack@[p]).0 ==> g.reaches(
                    stack@[p].1 as int,
                    (#[trigger] stack@[q]).1 as int,
                ),
            forall|p: int, q: int|
                0 <= p < q < stack@.len() && !(#[trigger] stack@[p]).0 && !(#[trigger] stack@[q]).0
                    ==> stack@[p].1 != stack@[q].1,
            forall|k: int|
                0 <= k < found@.len() ==> {
                    let e = #[trigger] found@[k];
                    e.0 < g.classes@.len() && e.1 < g.classes@[e.0 as int].nodes@.len()
                        && g.closes_cycle(e.0 as int, e.1 as int)
                },
        decreases whites(color@), stack@.len(),
    {
        let ghost old_stack = stack@;
        let ghost old_color = color@;
        let ghost old_found = found@;
        let top: (bool, usize) = stack.pop().unwrap();
        let id: usize = top.1;
        let ghost q = stack@.len() as int;
        assert(old_stack[q] == top);
        assert(forall|p: int| 0 <= p < q ==> stack@[p] == old_stack[p]);
        if top.0 {
            if color[id] == Color::White {
                color.set(id, Color::Gray);
                stack.push((false, id));
                proof {
                    lemma_whites_update(old_color, id as int, Color::Gray);
                    lemma_reach_self(g, id as int);
                    assert forall|x: int|
                        0 <= x < color@.len() && color@[x] == Color::Gray implies g.reaches(
                        x,
                        id as int,
                    ) by {
                        if x != id {
                            assert(old_color[x] == Color::Gray);
                            let p = choose|p: int|
                                0 <= p < old_stack.len() && #[trigger] old_stack[p] == (
                                    false,
                                    x as usize,
                                );
                            assert(p != q);
                            assert(!old_stack[p].0);
                            assert(g.reaches(old_stack[p].1 as int, old_stack[q].1 as int));
                        }
                    }
                }
                let ghost marked = stack@;
                let pair = scan_class(g, &color, id, stack, found);
                stack = pair.0;
                found = pair.1;
                proof {
                    assert(forall|p: int|
                        0 <= p < marked.len() ==> stack@[p] == stack@.take(marked.len() as int)[p]);
                    assert(forall|k: int|
                        0 <= k < old_found.len() ==> found@[k] == found@.take(
                            old_found.len() as int,
                        )[k]);
                    lemma_enter(g, old_color, old_stack, old_found, pos, rank, clock, stack@, found@);
                    pos = pos.update(id as int, q);
                    assert(forall|p: int|
                        0 <= p <= q ==> stack@[p] == stack@.take(marked.len() as int)[p]);
                    assert(stack@[q] == (false, id));
                    assert(forall|p: int| 0 <= p < q ==> stack@[p] == old_stack[p]);
                    assert forall|x: int|
                        0 <= x < n && #[trigger] color@[x] == Color::Gray implies exists|p: int|
                        0 <= p < stack@.len() && #[trigger] stack@[p] == (false, x as usize) by {
                        if x == id {
                            assert(stack@[q] == (false, x as usize));
                        } else {
                            assert(old_color[x] == Color::Gray);
                            let p = choose|p: int|
                                0 <= p < old_stack.len() && #[trigger] old_stack[p] == (
                                    false,
                                    x as usize,
                                );
                            assert(p != q);
                            assert(stack@[p] == (false, x as usize));
                        }
                    }
                    assert forall|p: int, r: int|
                        0 <= p < r < stack@.len() && !(#[trigger] stack@[p]).0 implies g.reaches(
                        stack@[p].1 as int,
                        (#[trigger] stack@[r]).1 as int,
                    ) by {
                        if r < q {
                            assert(g.reaches(old_stack[p].1 as int, old_stack[r].1 as int));
                        } else if r == q {
                            assert(g.reaches(old_stack[p].1 as int, old_stack[q].1 as int));
                        } else {
                            assert(p <= q);
                            if p < q {
                                assert(g.reaches(old_stack[p].1 as int, old_stack[q].1 as int));
                            }
                            lemma_reach_step(g, stack@[p].1 as int, id as int, stack@[r].1 as int);
                        }
                    }
                    assert forall|k: int| 0 <= k < found@.len() implies {
                        let e = #[trigger] found@[k];
                        e.0 < g.classes@.len() && e.1 < g.classes@[e.0 as int].nodes@.len()
                            && g.closes_cycle(e.0 as int, e.1 as int)
                    } by {
                        if k < old_found.len() {
                            assert(found@[k] == found@.take(old_found.len() as int)[k]);
                        }
                    }
                }
            } else {
                proof {
                    lemma_skip(g, old_color, old_stack, old_found, pos);
                    assert(stack@ == old_stack.drop_last());
                }
            }
        } else {
            color.set(id, Color::Black);
            proof {
                lemma_exit(g, old_color, old_stack, old_found, pos, rank, clock);
                assert(stack@ == old_stack.drop_last());
                rank = rank.update(id as int, clock);
                clock = clock + 1;
                lemma_whites_update(old_color, id as int, Color::Black);
                assert forall|x: int|
                    0 <= x < n && #[trigger] color@[x] == Color::Gray implies exists|p: int|
                    0 <= p < stack@.len() && #[trigger] stack@[p] == (false, x as usize) by {
                    assert(old_color[x] == Color::Gray);
                    let p = choose|p: int|
                        0 <= p < old_stack.len() && #[trigger] old_stack[p] == (false, x as usize);
                    assert(stack@[p] == (false, x as usize));
                }
            }
        }
    }
    proof {
        assert forall|x: int| 0 <= x < n implies #[trigger] color@[x] == Color::Black by {
            if color@[x] == Color::White {
                assert(scheduled(stack@, x));
            }
        }
        assert(ranks(g, found@, rank));
    }
    found
}

} // verus!
