//! The two-valued verdict of an authorization decision.

use vstd::prelude::*;

verus! {

/// The outcome of evaluating a request against a policy: the request is
/// either allowed or denied.
#[derive(Clone, Copy, Debug, PartialEq, Eq, Structural)]
pub enum Effect {
    Allow,
    Deny,
}

impl Effect {
    /// The rank of an effect in the least-permissive-first total order:
    /// `Deny` is the minimum element.
    pub open spec fn rank(self) -> int {
        match self {
            Effect::Deny => 0,
            Effect::Allow => 1,
        }
    }

    /// The least permissive of two effects: `Deny` wins whenever it is
    /// present on either side.
    pub fn least(self, other: Effect) -> (r: Effect)
        ensures
            r.rank() == if self.rank() <= other.rank() {
                self.rank()
            } else {
                other.rank()
            },
            r == self || r == other,
    {
        match (self, other) {
            (Effect::Deny, _) => Effect::Deny,
            (_, Effect::Deny) => Effect::Deny,
            _ => Effect::Allow,
        }
    }
}

/// The least-permissive-first total order: `Deny` sorts strictly before
/// `Allow`.
impl PartialOrd for Effect {
    fn partial_cmp(&self, other: &Effect) -> (r: Option<core::cmp::Ordering>)
    {
        let left: u32 = match self {
            Effect::Deny => 0,
            Effect::Allow => 1000,
        };
        let right: u32 = match other {
            Effect::Deny => 0,
            Effect::Allow => 1000,
        };
        if left < right {
            Option::Some(core::cmp::Ordering::Less)
        } else if left == right {
            Option::Some(core::cmp::Ordering::Equal)
        } else {
            Option::Some(core::cmp::Ordering::Greater)
        }
    }
}

impl vstd::std_specs::cmp::PartialOrdSpecImpl for Effect {
    open spec fn obeys_partial_cmp_spec() -> bool {
        true
    }

    open spec fn partial_cmp_spec(&self, other: &Effect) -> Option<core::cmp::Ordering> {
        if self.rank() < other.rank() {
            Option::Some(core::cmp::Ordering::Less)
        } else if self.rank() == other.rank() {
            Option::Some(core::cmp::Ordering::Equal)
        } else {
            Option::Some(core::cmp::Ordering::Greater)
        }
    }
}

} // verus!
