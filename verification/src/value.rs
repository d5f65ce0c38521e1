use vstd::prelude::*;

verus! {

/// A head count of people.
#[derive(Clone, Copy, Debug, Default, PartialEq, Eq, Structural, PartialOrd, Ord, Hash)]
pub struct Population(u64);

impl Population {
    /// The number of people.
    pub closed spec fn view(self) -> u64 {
        self.0
    }

    /// The population of `people`.
    pub closed spec fn spec_from(people: u64) -> Population {
        Population(people)
    }

    pub broadcast proof fn lemma_spec_from_view(people: u64)
        ensures
            #[trigger] Population::spec_from(people)@ == people,
    {
    }

    /// A population is the population of its head count.
    pub broadcast proof fn lemma_from_own_view(p: Population)
        ensures
            #[trigger] Population::spec_from(p@) == p,
    {
    }

    pub fn new(people: u64) -> (r: Self)
        ensures
            r@ == people,
    {
        Population(people)
    }

    pub fn people(self) -> (r: u64)
        ensures
            r == self@,
    {
        self.0
    }

    /// Adds two populations, or `None` when the sum does not fit in `u64`.
    pub fn checked_add(self, other: Self) -> (r: Option<Self>)
        ensures
            r is Some <==> self@ + other@ <= u64::MAX,
            r matches Some(p) ==> p@ == self@ + other@,
    {
        match self.0.checked_add(other.0) {
            Some(value) => Some(Population(value)),
            None => None,
        }
    }
}

/// An amount of money in minor currency units.
#[derive(Clone, Copy, Debug, Default, PartialEq, Eq, Structural, PartialOrd, Ord, Hash)]
pub struct Money(i64);

impl Money {
    /// The amount in minor units.
    pub closed spec fn view(self) -> i64 {
        self.0
    }

    /// The amount of `value` minor units.
    pub closed spec fn spec_from(value: i64) -> Money {
        Money(value)
    }

    pub broadcast proof fn lemma_spec_from_view(value: i64)
        ensures
            #[trigger] Money::spec_from(value)@ == value,
    {
    }

    /// An amount is the amount of its minor units.
    pub broadcast proof fn lemma_from_own_view(m: Money)
        ensures
            #[trigger] Money::spec_from(m@) == m,
    {
    }

    pub fn from_minor_units(value: i64) -> (r: Self)
        ensures
            r@ == value,
            r == Money::spec_from(value),
    {
        Money(value)
    }

    pub fn minor_units(self) -> (r: i64)
        ensures
            r == self@,
    {
        self.0
    }

    /// The zero amount (the default value).
    pub fn zero() -> (r: Self)
        ensures
            r@ == 0,
    {
        Money(0)
    }

    /// Adds two amounts, or `None` when the sum does not fit in `i64`.
    pub fn checked_add(self, other: Self) -> (r: Option<Self>)
        ensures
            r is Some <==> i64::MIN <= self@ + other@ <= i64::MAX,
            r matches Some(m) ==> m@ == self@ + other@,
    {
        match self.0.checked_add(other.0) {
            Some(value) => Some(Money(value)),
            None => None,
        }
    }
}

/// The largest basis-point value: 100%.
pub const BASIS_POINTS_MAX: u16 = 10_000;

/// A fixed-point share where 10,000 means 100%.
#[derive(Clone, Copy, Debug, PartialEq, Eq, Structural, PartialOrd, Ord, Hash)]
pub struct BasisPoints(u16);

/// The saturating clamp of an integer into `lo..=hi`.
pub open spec fn clamp_int(value: int, lo: int, hi: int) -> int {
    if value < lo {
        lo
    } else if value > hi {
        hi
    } else {
        value
    }
}

impl BasisPoints {
    pub const MAX: u16 = 10_000;

    /// The share in basis points.
    pub closed spec fn view(self) -> u16 {
        self.0
    }

    #[verifier::type_invariant]
    closed spec fn bounded(self) -> bool {
        self.0 <= 10_000
    }

    /// Creates a share, rejecting values above 10,000.
    pub fn new(value: u16) -> (r: Result<Self, ValueError>)
        ensures
            value <= 10_000 ==> (r matches Ok(b) && b@ == value),
            value > 10_000 ==> r == Err::<Self, ValueError>(ValueError::BasisPointsOutOfRange(value)),
    {
        if value <= Self::MAX {
            Ok(BasisPoints(value))
        } else {
            Err(ValueError::BasisPointsOutOfRange(value))
        }
    }

    /// Creates a share from a value already known to be in range.
    pub fn from_bounded(value: u16) -> (r: Self)
        requires
            value <= 10_000,
        ensures
            r@ == value,
    {
        BasisPoints(value)
    }

    /// The share 0%.
    pub fn zero() -> (r: Self)
        ensures
            r@ == 0,
    {
        BasisPoints(0)
    }

    /// The share 50%.
    pub fn half() -> (r: Self)
        ensures
            r@ == 5_000,
    {
        BasisPoints(5_000)
    }

    /// The share 100%.
    /// The share of `value` basis points.
    pub closed spec fn spec_from(value: u16) -> BasisPoints {
        BasisPoints(value)
    }

    pub broadcast proof fn lemma_spec_from_view(value: u16)
        ensures
            #[trigger] BasisPoints::spec_from(value)@ == value,
    {
    }

    /// A share is the share of its basis points.
    pub broadcast proof fn lemma_from_own_view(b: BasisPoints)
        ensures
            #[trigger] BasisPoints::spec_from(b@) == b,
    {
    }

    pub fn full() -> (r: Self)
        ensures
            r@ == 10_000,
            r == BasisPoints::spec_from(10_000),
    {
        BasisPoints(10_000)
    }

    pub fn get(self) -> (r: u16)
        ensures
            r == self@,
            r <= 10_000,
    {
        proof {
            use_type_invariant(&self);
        }
        self.0
    }

    /// Moves the share by `delta`, saturating at 0% and 100%.
    pub fn shifted(self, delta: i32) -> (r: Self)
        ensures
            r@ == clamp_int(self@ + delta, 0, 10_000),
    {
        proof {
            use_type_invariant(&self);
        }
        let sum: i64 = self.0 as i64 + delta as i64;
        let value: i64 = if sum < 0 {
            0
        } else if sum > 10_000 {
            10_000
        } else {
            sum
        };
        BasisPoints(value as u16)
    }
}

/// A signed fixed-point rate where 1,000,000 means +100%.
#[derive(Clone, Copy, Debug, PartialEq, Eq, Structural, PartialOrd, Ord, Hash)]
pub struct RatePpm(i32);

impl RatePpm {
    pub const ONE: i32 = 1_000_000;

    /// The rate in parts per million.
    pub closed spec fn view(self) -> i32 {
        self.0
    }

    #[verifier::type_invariant]
    closed spec fn bounded(self) -> bool {
        -1_000_000 <= self.0 <= 1_000_000
    }

    /// Creates a rate, rejecting values outside -100%..=+100%.
    pub fn new(value: i32) -> (r: Result<Self, ValueError>)
        ensures
            -1_000_000 <= value <= 1_000_000 ==> (r matches Ok(p) && p@ == value),
            !(-1_000_000 <= value <= 1_000_000) ==> r == Err::<Self, ValueError>(ValueError::RatePpmOutOfRange(value)),
    {
        if value >= -Self::ONE && value <= Self::ONE {
            Ok(RatePpm(value))
        } else {
            Err(ValueError::RatePpmOutOfRange(value))
        }
    }

    /// The rate of `value` parts per million (within -100%..=+100%).
    pub closed spec fn spec_from(value: i32) -> RatePpm {
        RatePpm(value)
    }

    pub broadcast proof fn lemma_spec_from_view(value: i32)
        ensures
            #[trigger] RatePpm::spec_from(value)@ == value,
    {
    }

    /// A rate is the rate of its parts per million.
    pub broadcast proof fn lemma_from_own_view(r: RatePpm)
        ensures
            #[trigger] RatePpm::spec_from(r@) == r,
    {
    }

    /// A rate known to lie within -100%..=+100%.
    pub fn from_bounded(value: i32) -> (r: Self)
        requires
            -1_000_000 <= value <= 1_000_000,
        ensures
            r@ == value,
    {
        RatePpm(value)
    }

    pub fn get(self) -> (r: i32)
        ensures
            r == self@,
            -1_000_000 <= r <= 1_000_000,
    {
        proof {
            use_type_invariant(&self);
        }
        self.0
    }
}

/// A physical quantity in thousandths of a unit.
#[derive(Clone, Copy, Debug, Default, PartialEq, Eq, Structural, PartialOrd, Ord, Hash)]
pub struct QuantityMilli(u64);

impl QuantityMilli {
    pub const SCALE: u64 = 1_000;

    /// The quantity in thousandths of a unit.
    pub closed spec fn view(self) -> u64 {
        self.0
    }

    /// The quantity of `value` thousandths.
    pub closed spec fn spec_from(value: u64) -> QuantityMilli {
        QuantityMilli(value)
    }

    pub broadcast proof fn lemma_spec_from_view(value: u64)
        ensures
            #[trigger] QuantityMilli::spec_from(value)@ == value,
    {
    }

    /// A quantity is the quantity of its thousandths.
    pub broadcast proof fn lemma_from_own_view(q: QuantityMilli)
        ensures
            #[trigger] QuantityMilli::spec_from(q@) == q,
    {
    }

    pub fn new(value: u64) -> (r: Self)
        ensures
            r@ == value,
            r == QuantityMilli::spec_from(value),
    {
        QuantityMilli(value)
    }

    pub fn get(self) -> (r: u64)
        ensures
            r == self@,
    {
        self.0
    }
}

/// A rejected bounded value.
#[derive(Clone, Copy, Debug, PartialEq, Eq)]
pub enum ValueError {
    BasisPointsOutOfRange(u16),
    RatePpmOutOfRange(i32),
}

} // verus!
