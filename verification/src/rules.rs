//! Which sets of rewrite rules a run uses.

use vstd::prelude::*;

verus! {

/// A set of rewrite rules, for vectors of a given number of slots.
#[derive(Clone, Copy, Debug, PartialEq, Eq, Structural)]
pub enum RuleSet {
    /// The general algebraic rules.
    Axiomatic(usize),
    /// The rules written for particular expression shapes.
    Specific(usize),
    /// The rules that introduce and move rotations.
    Rotation(usize),
}

/// The rule sets of a run: the axiomatic rules or else the specific ones,
/// followed by the rotation rules where rotation is enabled.
pub open spec fn rules_spec(slot_count: usize, axiomatic: bool, enable_rotation: bool) -> Seq<RuleSet> {
    let first = if axiomatic {
        RuleSet::Axiomatic(slot_count)
    } else {
        RuleSet::Specific(slot_count)
    };
    if enable_rotation {
        seq![first, RuleSet::Rotation(slot_count)]
    } else {
        seq![first]
    }
}

/// Selects the rule sets of a run.
pub fn rules(slot_count: usize, axiomatic: bool, enable_rotation: bool) -> (r: Vec<RuleSet>)
    ensures
        r@ == rules_spec(slot_count, axiomatic, enable_rotation),
{
    let mut chosen: Vec<RuleSet> = Vec::new();
    if axiomatic {
        chosen.push(RuleSet::Axiomatic(slot_count));
    } else {
        chosen.push(RuleSet::Specific(slot_count));
    }
    if enable_rotation {
        chosen.push(RuleSet::Rotation(slot_count));
    }
    assert(chosen@ =~= rules_spec(slot_count, axiomatic, enable_rotation));
    chosen
}

} // verus!
