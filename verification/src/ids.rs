use vstd::prelude::*;

verus! {

/// Stable identity of a named human actor.
#[derive(Clone, Copy, Debug, PartialEq, Eq, Structural, PartialOrd, Ord, Hash)]
pub struct ActorId(pub u32);

impl ActorId {
    pub open spec fn view(self) -> u32 {
        self.0
    }

    pub fn new(value: u32) -> (r: Self)
        ensures
            r@ == value,
    {
        ActorId(value)
    }

    pub fn get(self) -> (r: u32)
        ensures
            r == self@,
    {
        self.0
    }
}

/// Stable identity of a household cohort.
#[derive(Clone, Copy, Debug, PartialEq, Eq, Structural, PartialOrd, Ord, Hash)]
pub struct CohortId(pub u32);

impl CohortId {
    pub open spec fn view(self) -> u32 {
        self.0
    }

    pub fn new(value: u32) -> (r: Self)
        ensures
            r@ == value,
    {
        CohortId(value)
    }

    pub fn get(self) -> (r: u32)
        ensures
            r == self@,
    {
        self.0
    }
}

/// Stable identity of an occupation-specific skill.
#[derive(Clone, Copy, Debug, PartialEq, Eq, Structural, PartialOrd, Ord, Hash)]
pub struct SkillId(pub u32);

impl SkillId {
    pub open spec fn view(self) -> u32 {
        self.0
    }

    pub fn new(value: u32) -> (r: Self)
        ensures
            r@ == value,
    {
        SkillId(value)
    }

    pub fn get(self) -> (r: u32)
        ensures
            r == self@,
    {
        self.0
    }
}

/// Stable identity of a country.
#[derive(Clone, Copy, Debug, PartialEq, Eq, Structural, PartialOrd, Ord, Hash)]
pub struct CountryId(pub u32);

impl CountryId {
    pub open spec fn view(self) -> u32 {
        self.0
    }

    pub fn new(value: u32) -> (r: Self)
        ensures
            r@ == value,
    {
        CountryId(value)
    }

    pub fn get(self) -> (r: u32)
        ensures
            r == self@,
    {
        self.0
    }
}

/// Stable identity of a firm.
#[derive(Clone, Copy, Debug, PartialEq, Eq, Structural, PartialOrd, Ord, Hash)]
pub struct FirmId(pub u32);

impl FirmId {
    pub open spec fn view(self) -> u32 {
        self.0
    }

    pub fn new(value: u32) -> (r: Self)
        ensures
            r@ == value,
    {
        FirmId(value)
    }

    pub fn get(self) -> (r: u32)
        ensures
            r == self@,
    {
        self.0
    }
}

/// Stable identity of a good.
#[derive(Clone, Copy, Debug, PartialEq, Eq, Structural, PartialOrd, Ord, Hash)]
pub struct GoodId(pub u32);

impl GoodId {
    pub open spec fn view(self) -> u32 {
        self.0
    }

    pub fn new(value: u32) -> (r: Self)
        ensures
            r@ == value,
    {
        GoodId(value)
    }

    pub fn get(self) -> (r: u32)
        ensures
            r == self@,
    {
        self.0
    }
}

/// Stable identity of a node of the power network.
#[derive(Clone, Copy, Debug, PartialEq, Eq, Structural, PartialOrd, Ord, Hash)]
pub struct PowerNodeId(pub u32);

impl PowerNodeId {
    pub open spec fn view(self) -> u32 {
        self.0
    }

    pub fn new(value: u32) -> (r: Self)
        ensures
            r@ == value,
    {
        PowerNodeId(value)
    }

    pub fn get(self) -> (r: u32)
        ensures
            r == self@,
    {
        self.0
    }
}

/// Stable identity of an investment project.
#[derive(Clone, Copy, Debug, PartialEq, Eq, Structural, PartialOrd, Ord, Hash)]
pub struct ProjectId(pub u32);

impl ProjectId {
    pub open spec fn view(self) -> u32 {
        self.0
    }

    pub fn new(value: u32) -> (r: Self)
        ensures
            r@ == value,
    {
        ProjectId(value)
    }

    pub fn get(self) -> (r: u32)
        ensures
            r == self@,
    {
        self.0
    }
}

/// Stable identity of a production recipe.
#[derive(Clone, Copy, Debug, PartialEq, Eq, Structural, PartialOrd, Ord, Hash)]
pub struct RecipeId(pub u32);

impl RecipeId {
    pub open spec fn view(self) -> u32 {
        self.0
    }

    pub fn new(value: u32) -> (r: Self)
        ensures
            r@ == value,
    {
        RecipeId(value)
    }

    pub fn get(self) -> (r: u32)
        ensures
            r == self@,
    {
        self.0
    }
}

/// Stable identity of a region.
#[derive(Clone, Copy, Debug, PartialEq, Eq, Structural, PartialOrd, Ord, Hash)]
pub struct RegionId(pub u32);

impl RegionId {
    pub open spec fn view(self) -> u32 {
        self.0
    }

    pub fn new(value: u32) -> (r: Self)
        ensures
            r@ == value,
    {
        RegionId(value)
    }

    pub fn get(self) -> (r: u32)
        ensures
            r == self@,
    {
        self.0
    }
}

/// Stable identity of a logistics route.
#[derive(Clone, Copy, Debug, PartialEq, Eq, Structural, PartialOrd, Ord, Hash)]
pub struct RouteId(pub u32);

impl RouteId {
    pub open spec fn view(self) -> u32 {
        self.0
    }

    pub fn new(value: u32) -> (r: Self)
        ensures
            r@ == value,
    {
        RouteId(value)
    }

    pub fn get(self) -> (r: u32)
        ensures
            r == self@,
    {
        self.0
    }
}

/// Stable identity of a shipment.
#[derive(Clone, Copy, Debug, PartialEq, Eq, Structural, PartialOrd, Ord, Hash)]
pub struct ShipmentId(pub u32);

impl ShipmentId {
    pub open spec fn view(self) -> u32 {
        self.0
    }

    pub fn new(value: u32) -> (r: Self)
        ensures
            r@ == value,
    {
        ShipmentId(value)
    }

    pub fn get(self) -> (r: u32)
        ensures
            r == self@,
    {
        self.0
    }
}

/// Stable identity of a logistics terminal.
#[derive(Clone, Copy, Debug, PartialEq, Eq, Structural, PartialOrd, Ord, Hash)]
pub struct TerminalId(pub u32);

impl TerminalId {
    pub open spec fn view(self) -> u32 {
        self.0
    }

    pub fn new(value: u32) -> (r: Self)
        ensures
            r@ == value,
    {
        TerminalId(value)
    }

    pub fn get(self) -> (r: u32)
        ensures
            r == self@,
    {
        self.0
    }
}

} // verus!
