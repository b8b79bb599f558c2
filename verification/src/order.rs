//! The total order on optional costs.

use vstd::prelude::*;
use std::cmp::Ordering;
use crate::cost::{is_better, rank_less, Config, Cost};

verus! {

/// Compares two optional costs: two unknown costs are equal, an unknown
/// cost is greater than any known one, and known costs compare by their
/// weighted sum.
pub fn cmp(cfg: &Config, a: &Option<Cost>, b: &Option<Cost>) -> (r: Ordering)
    ensures
        (r == Ordering::Less) == rank_less(*cfg, *a, *b),
        (r == Ordering::Greater) == rank_less(*cfg, *b, *a),
        (r == Ordering::Equal) == (!rank_less(*cfg, *a, *b) && !rank_less(*cfg, *b, *a)),
{
    if is_better(cfg, a, b) {
        Ordering::Less
    } else if is_better(cfg, b, a) {
        Ordering::Greater
    } else {
        Ordering::Equal
    }
}

} // verus!
