use vstd::prelude::*;

verus! {

/// Rules used to combine two material coefficients (friction, restitution).
///
/// Each collider carries its own rule; the rule applied to a contact is the
/// one with the larger identifier among the two colliders.
#[derive(Copy, Clone, Debug, PartialEq, Eq, Structural)]
pub enum CoefficientCombineRule {
    /// The two coefficients are averaged.
    Average,
    /// The smallest coefficient is chosen.
    Min,
    /// The two coefficients are multiplied.
    Multiply,
    /// The greatest coefficient is chosen.
    Max,
}

/// The rule with the given identifier; identifiers from 3 up select `Max`.
pub open spec fn rule_of_value(v: int) -> CoefficientCombineRule {
    if v == 0 {
        CoefficientCombineRule::Average
    } else if v == 1 {
        CoefficientCombineRule::Min
    } else if v == 2 {
        CoefficientCombineRule::Multiply
    } else {
        CoefficientCombineRule::Max
    }
}

/// The larger of two rule identifiers.
pub open spec fn max_rule_value(a: u8, b: u8) -> int {
    if a >= b { a as int } else { b as int }
}

impl CoefficientCombineRule {
    /// The identifier of this rule: 0, 1, 2 or 3.
    pub open spec fn value(self) -> u8 {
        match self {
            CoefficientCombineRule::Average => 0,
            CoefficientCombineRule::Min => 1,
            CoefficientCombineRule::Multiply => 2,
            CoefficientCombineRule::Max => 3,
        }
    }

    /// The identifier of this rule.
    pub fn as_value(&self) -> (r: u8)
        ensures
            r == self.value(),
    {
        match self {
            CoefficientCombineRule::Average => 0,
            CoefficientCombineRule::Min => 1,
            CoefficientCombineRule::Multiply => 2,
            CoefficientCombineRule::Max => 3,
        }
    }

    /// The rule whose identifier is `val`. Identifiers above 3 are invalid.
    pub fn from_value(val: u8) -> (r: Self)
        requires
            val < 4,
        ensures
            r.value() == val,
            r == rule_of_value(val as int),
    {
        match val {
            0 => CoefficientCombineRule::Average,
            1 => CoefficientCombineRule::Min,
            2 => CoefficientCombineRule::Multiply,
            _ => CoefficientCombineRule::Max,
        }
    }

    /// The rule applied to a contact between colliders whose rules have the
    /// identifiers `rule_value1` and `rule_value2`: the one with the larger
    /// identifier (identifiers from 3 up meaning `Max`).
    pub fn effective_rule(rule_value1: u8, rule_value2: u8) -> (r: Self)
        ensures
            r == rule_of_value(max_rule_value(rule_value1, rule_value2)),
    {
        let effective = if rule_value1 >= rule_value2 {
            rule_value1
        } else {
            rule_value2
        };
        match effective {
            0 => CoefficientCombineRule::Average,
            1 => CoefficientCombineRule::Min,
            2 => CoefficientCombineRule::Multiply,
            _ => CoefficientCombineRule::Max,
        }
    }
}

/// Combining two coefficients uses the rule with the larger identifier: for
/// identifiers in `0..4` the effective rule is `from_value(max(r1, r2))`, it
/// does not depend on the order of the two colliders, and it is never a rule
/// with a smaller identifier than either input.
pub proof fn lemma_effective_rule_is_max(r1: u8, r2: u8)
    requires
        r1 < 4,
        r2 < 4,
    ensures
        rule_of_value(max_rule_value(r1, r2)).value() as int == max_rule_value(r1, r2),
        rule_of_value(max_rule_value(r1, r2)) == rule_of_value(max_rule_value(r2, r1)),
        rule_of_value(max_rule_value(r1, r2)).value() >= r1,
        rule_of_value(max_rule_value(r1, r2)).value() >= r2,
{
}

} // verus!
