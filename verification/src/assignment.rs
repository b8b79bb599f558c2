//! Testing an assignment against a program.

use vstd::prelude::*;
use crate::feasible::values;
use crate::program::{row_value, Program, Row, Term};

verus! {

/// The terms name variables of `x`, and the sum of every leading part of
/// them fits a machine integer.
pub open spec fn evaluable(terms: Seq<Term>, x: Seq<int>) -> bool
    decreases terms.len(),
{
    terms.len() == 0 || (evaluable(terms.drop_last(), x) && terms.last().col < x.len() && i128::MIN
        <= row_value(terms, x) <= i128::MAX)
}

/// Every row of the program is evaluable under `x`.
pub open spec fn all_evaluable(p: &Program, x: Seq<int>) -> bool {
    forall|r: int| 0 <= r < p.rows@.len() ==> evaluable((#[trigger] p.rows@[r]).terms@, x)
}

/// The row's bounds hold of its value under `x`.
pub open spec fn row_holds(row: &Row, x: Seq<int>) -> bool {
    &&& row.lower.is_some() ==> row.lower.unwrap() <= row_value(row.terms@, x)
    &&& row.upper.is_some() ==> row_value(row.terms@, x) <= row.upper.unwrap()
}

/// A coefficient times a value stays far inside the machine integers.
proof fn lemma_term_bound(a: int, b: int)
    requires
        i64::MIN <= a <= i64::MAX,
        i64::MIN <= b <= i64::MAX,
    ensures
        -0x4000_0000_0000_0000_0000_0000_0000_0000 <= a * b <= 0x4000_0000_0000_0000_0000_0000_0000_0000,
{
    assert(-0x4000_0000_0000_0000_0000_0000_0000_0000 <= a * b
        <= 0x4000_0000_0000_0000_0000_0000_0000_0000) by (nonlinear_arith)
        requires
            -0x8000_0000_0000_0000 <= a <= 0x7fff_ffff_ffff_ffff,
            -0x8000_0000_0000_0000 <= b <= 0x7fff_ffff_ffff_ffff,
    ;
}

/// Evaluates a row under `x` and tests its bounds; fails where the row is
/// not evaluable.
pub fn row_satisfied(row: &Row, x: &Vec<i64>) -> (r: bool)
    ensures
        r == (evaluable(row.terms@, values(x@)) && row_holds(row, values(x@))),
{
    let ghost xs = values(x@);
    let mut acc: i128 = 0;
    let mut k: usize = 0;
    while k < row.terms.len()
        invariant
            k <= row.terms@.len(),
            xs == values(x@),
            evaluable(row.terms@.take(k as int), xs),
            acc == row_value(row.terms@.take(k as int), xs),
        decreases row.terms.len() - k,
    {
        let term: Term = row.terms[k];
        let ghost next = row.terms@.take(k + 1);
        proof {
            assert(next.drop_last() == row.terms@.take(k as int));
            assert(next.last() == term);
            lemma_not_evaluable(row.terms@, xs, k + 1);
        }
        if term.col >= x.len() {
            return false;
        }
        let value: i64 = x[term.col];
        proof {
            lemma_term_bound(term.coef as int, value as int);
            assert(xs[term.col as int] == value);
        }
        let product: i128 = (term.coef as i128) * (value as i128);
        if product > 0 && acc > i128::MAX - product {
            return false;
        }
        if product < 0 && acc < i128::MIN - product {
            return false;
        }
        acc = acc + product;
        k = k + 1;
    }
    assert(row.terms@.take(row.terms@.len() as int) == row.terms@);
    let above: bool = match row.lower {
        Some(lower) => lower as i128 <= acc,
        None => true,
    };
    let below: bool = match row.upper {
        Some(upper) => acc <= upper as i128,
        None => true,
    };
    above && below
}

/// Terms whose leading part is not evaluable are not evaluable.
proof fn lemma_not_evaluable(terms: Seq<Term>, x: Seq<int>, k: int)
    requires
        0 <= k <= terms.len(),
    ensures
        evaluable(terms, x) ==> evaluable(terms.take(k), x),
    decreases terms.len(),
{
    if k < terms.len() {
        assert(terms.drop_last().take(k) == terms.take(k));
        lemma_not_evaluable(terms.drop_last(), x, k);
    } else {
        assert(terms.take(k) == terms);
    }
}

/// Whether `x` satisfies the program: fails where a value leaves its
/// bounds, a row's bounds do not hold, or a row is not evaluable.
pub fn satisfies(p: &Program, x: &Vec<i64>) -> (r: bool)
    ensures
        r == (p.satisfied_by(values(x@)) && all_evaluable(p, values(x@))),
{
    let ghost xs = values(x@);
    if x.len() != p.cols.len() {
        return false;
    }
    let mut k: usize = 0;
    while k < p.cols.len()
        invariant
            k <= p.cols@.len(),
            x@.len() == p.cols@.len(),
            xs == values(x@),
            forall|i: int| 0 <= i < k ==> (#[trigger] p.cols@[i]).lower <= xs[i] <= p.cols@[i].upper,
        decreases p.cols.len() - k,
    {
        if x[k] < p.cols[k].lower || x[k] > p.cols[k].upper {
            assert(!(p.cols@[k as int].lower <= xs[k as int] <= p.cols@[k as int].upper));
            return false;
        }
        k = k + 1;
    }
    let mut r: usize = 0;
    while r < p.rows.len()
        invariant
            r <= p.rows@.len(),
            xs == values(x@),
            forall|i: int|
                0 <= i < r ==> evaluable((#[trigger] p.rows@[i]).terms@, xs) && row_holds(
                    &p.rows@[i],
                    xs,
                ),
        decreases p.rows.len() - r,
    {
        if !row_satisfied(&p.rows[r], x) {
            assert(!(evaluable(p.rows@[r as int].terms@, xs) && row_holds(&p.rows@[r as int], xs)));
            return false;
        }
        r = r + 1;
    }
    true
}

} // verus!
