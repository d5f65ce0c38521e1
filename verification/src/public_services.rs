use vstd::prelude::*;

use std::collections::BTreeMap;

use crate::value::BasisPoints;
use crate::world::World;

verus! {

/// Persistent regional capacity delivered by recurring public spending.
#[derive(Clone, Copy, Debug, PartialEq, Eq, Structural)]
pub struct RegionalPublicServices {
    pub healthcare: BasisPoints,
    pub infrastructure: BasisPoints,
    pub administration: BasisPoints,
}

/// A value moved toward a target by at most `step`, never past it.
pub open spec fn moved_toward(current: int, target: int, step: int) -> int {
    if current < target {
        if current + step < target {
            current + step
        } else {
            target
        }
    } else {
        if current - step > target {
            current - step
        } else {
            target
        }
    }
}

/// Moves a share toward a target by at most `step`.
pub fn move_toward(current: BasisPoints, target: BasisPoints, step: u16) -> (r: BasisPoints)
    ensures
        r@ == moved_toward(current@ as int, target@ as int, step as int),
{
    let c = current.get();
    let t = target.get();
    let value = if c < t {
        let up = c.saturating_add(step);
        if up < t {
            up
        } else {
            t
        }
    } else {
        let down = c.saturating_sub(step);
        if down > t {
            down
        } else {
            t
        }
    };
    BasisPoints::from_bounded(value)
}

impl Default for RegionalPublicServices {
    fn default() -> (r: Self)
        ensures
            r.healthcare@ == 5_000,
            r.infrastructure@ == 5_000,
            r.administration@ == 5_000,
    {
        RegionalPublicServices {
            healthcare: BasisPoints::half(),
            infrastructure: BasisPoints::half(),
            administration: BasisPoints::half(),
        }
    }
}

impl RegionalPublicServices {
    pub fn healthcare(self) -> (r: BasisPoints)
        ensures
            r == self.healthcare,
    {
        self.healthcare
    }

    pub fn infrastructure(self) -> (r: BasisPoints)
        ensures
            r == self.infrastructure,
    {
        self.infrastructure
    }

    pub fn administration(self) -> (r: BasisPoints)
        ensures
            r == self.administration,
    {
        self.administration
    }

    /// One year of adjustment toward a funding target: administration moves by at
    /// most 250 points, and healthcare and infrastructure move by at most 500 points
    /// toward the target capped at administration plus 1,000 points.
    pub fn adjusted_toward_funding(self, funding_target: BasisPoints) -> (r: Self)
        ensures
            ({
                let administration = moved_toward(
                    self.administration@ as int,
                    funding_target@ as int,
                    250,
                );
                let ceiling = if administration + 1_000 < 10_000 {
                    administration + 1_000
                } else {
                    10_000
                };
                let delivered = if funding_target@ < ceiling {
                    funding_target@ as int
                } else {
                    ceiling
                };
                &&& r.administration@ == administration
                &&& r.healthcare@ == moved_toward(self.healthcare@ as int, delivered, 500)
                &&& r.infrastructure@ == moved_toward(self.infrastructure@ as int, delivered, 500)
            }),
    {
        let administration = move_toward(self.administration, funding_target, 250);
        let raised = administration.get() + 1_000;
        let ceiling = if raised < BasisPoints::MAX {
            raised
        } else {
            BasisPoints::MAX
        };
        let target = funding_target.get();
        let delivered = BasisPoints::from_bounded(
            if target < ceiling {
                target
            } else {
                ceiling
            },
        );
        RegionalPublicServices {
            healthcare: move_toward(self.healthcare, delivered, 500),
            infrastructure: move_toward(self.infrastructure, delivered, 500),
            administration,
        }
    }
}

impl World {
    pub fn regional_public_services(&self) -> (r: &BTreeMap<u32, RegionalPublicServices>)
        ensures
            r@ == self@.regional_public_services,
    {
        &self.regional_public_services
    }
}

} // verus!
