use vstd::prelude::*;

use crate::ids::GoodId;
use crate::world::{is_blank, validated_name, WorldError};

verus! {

/// A tradable good.
#[derive(Clone, Debug, PartialEq, Eq)]
pub struct Good {
    pub id: GoodId,
    pub name: String,
}

impl Good {
    /// Creates a good; rejects a blank name.
    pub fn new(id: GoodId, name: &str) -> (r: Result<Self, WorldError>)
        ensures
            is_blank(name@) ==> r == Err::<Self, WorldError>(WorldError::EmptyName("good")),
            !is_blank(name@) ==> (r matches Ok(g) && g.id == id && g.name@ == name@),
    {
        let name = validated_name("good", name)?;
        Ok(Good { id, name })
    }

    pub fn id(&self) -> (r: GoodId)
        ensures
            r == self.id,
    {
        self.id
    }

    pub fn name(&self) -> (r: &str)
        ensures
            r@ == self.name@,
    {
        self.name.as_str()
    }
}

/// The urgency of a household need, most urgent first.
#[derive(Clone, Copy, Debug, PartialEq, Eq, Structural, PartialOrd, Ord, Hash)]
pub enum NeedTier {
    Survival,
    Participation,
    Development,
    Discretionary,
}

/// The rank of a need tier in urgency order.
pub open spec fn tier_rank(tier: NeedTier) -> int {
    match tier {
        NeedTier::Survival => 0,
        NeedTier::Participation => 1,
        NeedTier::Development => 2,
        NeedTier::Discretionary => 3,
    }
}

/// Computes `tier_rank`.
pub fn tier_index(tier: NeedTier) -> (r: u8)
    ensures
        r == tier_rank(tier),
{
    match tier {
        NeedTier::Survival => 0,
        NeedTier::Participation => 1,
        NeedTier::Development => 2,
        NeedTier::Discretionary => 3,
    }
}

} // verus!
