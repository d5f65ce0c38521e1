use vstd::prelude::*;

use std::collections::BTreeMap;

use crate::ids::CountryId;
use crate::ordered::{key_order, keys_in_order};
use crate::public_services::RegionalPublicServices;
use crate::value::BasisPoints;
use crate::world::{World, WorldError, WorldView};

verus! {

/// Pressure at which legitimacy neither rises nor falls.
pub const LEGITIMACY_NEUTRAL_PRESSURE_BPS: i32 = 3_000;
/// Pressure points per point of annual legitimacy change.
pub const LEGITIMACY_PRESSURE_DIVISOR: i32 = 20;

/// Population-weighted material and institutional pressure observed in one region.
#[derive(Clone, Copy, Debug, PartialEq, Eq, Structural)]
pub struct RegionalSocialPressure {
    pub chronic_unemployment: BasisPoints,
    pub livelihood_stress: BasisPoints,
    pub public_service_shortfall: BasisPoints,
    pub combined: BasisPoints,
}

impl Default for RegionalSocialPressure {
    fn default() -> (r: Self)
        ensures
            r.chronic_unemployment@ == 0,
            r.livelihood_stress@ == 0,
            r.public_service_shortfall@ == 0,
            r.combined@ == 0,
    {
        RegionalSocialPressure {
            chronic_unemployment: BasisPoints::zero(),
            livelihood_stress: BasisPoints::zero(),
            public_service_shortfall: BasisPoints::zero(),
            combined: BasisPoints::zero(),
        }
    }
}

impl RegionalSocialPressure {
    /// Builds a pressure reading from four basis-point components, each at most 10,000.
    pub fn from_components(
        unemployment: u16,
        livelihood: u16,
        services: u16,
        combined: u16,
    ) -> (r: Self)
        requires
            unemployment <= 10_000,
            livelihood <= 10_000,
            services <= 10_000,
            combined <= 10_000,
        ensures
            r.chronic_unemployment@ == unemployment,
            r.livelihood_stress@ == livelihood,
            r.public_service_shortfall@ == services,
            r.combined@ == combined,
    {
        RegionalSocialPressure {
            chronic_unemployment: BasisPoints::from_bounded(unemployment),
            livelihood_stress: BasisPoints::from_bounded(livelihood),
            public_service_shortfall: BasisPoints::from_bounded(services),
            combined: BasisPoints::from_bounded(combined),
        }
    }

    pub fn chronic_unemployment(self) -> (r: BasisPoints)
        ensures
            r == self.chronic_unemployment,
    {
        self.chronic_unemployment
    }

    pub fn livelihood_stress(self) -> (r: BasisPoints)
        ensures
            r == self.livelihood_stress,
    {
        self.livelihood_stress
    }

    pub fn public_service_shortfall(self) -> (r: BasisPoints)
        ensures
            r == self.public_service_shortfall,
    {
        self.public_service_shortfall
    }

    pub fn combined(self) -> (r: BasisPoints)
        ensures
            r == self.combined,
    {
        self.combined
    }
}

/// Annual legitimacy change caused by a pressure reading, truncated toward zero.
pub open spec fn legitimacy_effect_spec(pressure: int) -> int {
    let numerator = LEGITIMACY_NEUTRAL_PRESSURE_BPS - pressure;
    if numerator >= 0 {
        numerator / 20
    } else {
        -((-numerator) / 20)
    }
}

/// Annual legitimacy change: positive below the neutral pressure, negative above.
pub fn legitimacy_effect(pressure: BasisPoints) -> (r: i32)
    ensures
        r == legitimacy_effect_spec(pressure@ as int),
        -350 <= r <= 150,
{
    (LEGITIMACY_NEUTRAL_PRESSURE_BPS - pressure.get() as i32) / LEGITIMACY_PRESSURE_DIVISOR
}

/// A population-weighted average, capped at 10,000 basis points; zero for no people.
pub fn weighted_average(weighted: u128, population: u128) -> (r: Result<u16, WorldError>)
    ensures
        population == 0 ==> r == Ok::<u16, WorldError>(0),
        population > 0 ==> r == Ok::<u16, WorldError>(
            if weighted / population < 10_000 {
                (weighted / population) as u16
            } else {
                10_000u16
            },
        ),
{
    if population == 0 {
        return Ok(0);
    }
    let average = weighted / population;
    if average < 10_000 {
        Ok(average as u16)
    } else {
        Ok(10_000)
    }
}

/// `x` saturated at `u128::MAX`.
pub open spec fn sat_u128(x: int) -> int {
    if x > u128::MAX {
        u128::MAX as int
    } else {
        x
    }
}

/// The saturating totals of people and of `value * people` over the regions of
/// `country` among the region ids `ks`.
pub open spec fn weighted_totals(
    w: WorldView,
    country: CountryId,
    ks: Seq<u32>,
    value: spec_fn(u32) -> int,
) -> (int, int)
    decreases ks.len(),
{
    if ks.len() == 0 {
        (0, 0)
    } else {
        let (people, weighted) = weighted_totals(w, country, ks.drop_last(), value);
        let id = ks.last();
        if w.regions[id].country == country {
            let p = w.regions[id].population@ as int;
            (sat_u128(people + p), sat_u128(weighted + sat_u128(value(id) * p)))
        } else {
            (people, weighted)
        }
    }
}

/// The combined pressure recorded for a region in `regional` (zero when absent).
pub open spec fn combined_of(regional: Map<u32, RegionalSocialPressure>, id: u32) -> int {
    if regional.contains_key(id) {
        regional[id].combined@ as int
    } else {
        0
    }
}

/// The population-weighted combined pressure of a country, capped at 10,000 (zero
/// for a country without people).
pub open spec fn country_pressure_spec(
    w: WorldView,
    country: CountryId,
    regional: Map<u32, RegionalSocialPressure>,
) -> int {
    let (people, weighted) = weighted_totals(
        w,
        country,
        key_order(w.regions),
        |id: u32| combined_of(regional, id),
    );
    if people == 0 {
        0
    } else if weighted / people < 10_000 {
        weighted / people
    } else {
        10_000
    }
}

/// Iterates the regions of `country` and returns the saturating totals of people and
/// of `value(id) * people`, where `values[i]` is the value of the i-th region id.
pub(crate) fn region_weighted_totals(
    world: &World,
    country: CountryId,
    keys: &Vec<u32>,
    values: &Vec<u16>,
    value: Ghost<spec_fn(u32) -> int>,
) -> (r: (u128, u128))
    requires
        keys@ == key_order(world@.regions),
        forall|k: int| 0 <= k < keys@.len() ==> world@.regions.contains_key(#[trigger] keys@[k]),
        values@.len() == keys@.len(),
        forall|k: int| 0 <= k < keys@.len() ==> values@[k] as int == (value@)(#[trigger] keys@[k]),
    ensures
        (r.0 as int, r.1 as int) == weighted_totals(world@, country, keys@, value@),
{
    let mut people: u128 = 0;
    let mut weighted: u128 = 0;
    let mut i: usize = 0;
    while i < keys.len()
        invariant
            keys@ == key_order(world@.regions),
            forall|k: int| 0 <= k < keys@.len() ==> world@.regions.contains_key(#[trigger] keys@[k]),
            values@.len() == keys@.len(),
            forall|k: int| 0 <= k < keys@.len() ==> values@[k] as int == (value@)(#[trigger] keys@[k]),
            i <= keys.len(),
            (people as int, weighted as int) == weighted_totals(
                world@,
                country,
                keys@.take(i as int),
                value@,
            ),
        decreases keys.len() - i,
    {
        let region = world.regions.get(&keys[i]).unwrap();
        proof {
            assert(keys@.take(i as int + 1).drop_last() =~= keys@.take(i as int));
        }
        if region.country == country {
            let p = region.population.people() as u128;
            people = people.saturating_add(p);
            let scaled: u128 = match (values[i] as u128).checked_mul(p) {
                Some(v) => v,
                None => u128::MAX,
            };
            weighted = weighted.saturating_add(scaled);
        }
        i = i + 1;
    }
    proof {
        assert(keys@.take(keys@.len() as int) =~= keys@);
    }
    (people, weighted)
}

/// The social pressure of a region from the aggregates of its household cohorts
/// (people, unemployment pressure times people, livelihood stress times people) and its
/// public services: each cohort component is a population-weighted average, the
/// service shortfall is 10,000 less the mean delivered service, and the combined
/// pressure weighs them 2:3:1.
pub fn social_pressure_from(
    people: u128,
    unemployment_weighted: u128,
    livelihood_weighted: u128,
    services: RegionalPublicServices,
) -> (r: RegionalSocialPressure)
    ensures
        ({
            let u = if people == 0 {
                0
            } else if unemployment_weighted / people < 10_000 {
                unemployment_weighted / people
            } else {
                10_000
            };
            let l = if people == 0 {
                0
            } else if livelihood_weighted / people < 10_000 {
                livelihood_weighted / people
            } else {
                10_000
            };
            let delivered = (services.healthcare@ + services.infrastructure@
                + services.administration@) / 3;
            let shortfall = 10_000 - delivered;
            &&& r.chronic_unemployment@ == u
            &&& r.livelihood_stress@ == l
            &&& r.public_service_shortfall@ == shortfall
            &&& r.combined@ == (u * 2 + l * 3 + shortfall) / 6
        }),
{
    let unemployment = match weighted_average(unemployment_weighted, people) {
        Ok(v) => v,
        Err(_) => 0,
    };
    let livelihood = match weighted_average(livelihood_weighted, people) {
        Ok(v) => v,
        Err(_) => 0,
    };
    let delivered: u32 = (services.healthcare.get() as u32 + services.infrastructure.get() as u32
        + services.administration.get() as u32) / 3;
    let shortfall: u16 = (10_000 - delivered) as u16;
    let combined: u32 = (unemployment as u32 * 2 + livelihood as u32 * 3 + shortfall as u32) / 6;
    RegionalSocialPressure {
        chronic_unemployment: BasisPoints::from_bounded(unemployment),
        livelihood_stress: BasisPoints::from_bounded(livelihood),
        public_service_shortfall: BasisPoints::from_bounded(shortfall),
        combined: BasisPoints::from_bounded(combined as u16),
    }
}

impl World {
    pub fn regional_social_pressure(&self) -> (r: &BTreeMap<u32, RegionalSocialPressure>)
        ensures
            r@ == self@.regional_social_pressure,
    {
        &self.regional_social_pressure
    }

    /// The population-weighted combined social pressure of a country's regions, read
    /// from `regional` (see `country_pressure_spec`).
    pub fn country_social_pressure(
        &self,
        country: CountryId,
        regional: &BTreeMap<u32, RegionalSocialPressure>,
    ) -> (r: BasisPoints)
        ensures
            r@ == country_pressure_spec(self@, country, regional@),
    {
        let keys = keys_in_order(&self.regions);
        let ghost value = |id: u32| combined_of(regional@, id);
        let mut values: Vec<u16> = Vec::new();
        let mut i: usize = 0;
        while i < keys.len()
            invariant
                i <= keys.len(),
                value == (|id: u32| combined_of(regional@, id)),
                values@.len() == i,
                forall|k: int| 0 <= k < i ==> values@[k] as int == value(#[trigger] keys@[k]),
            decreases keys.len() - i,
        {
            let v: u16 = match regional.get(&keys[i]) {
                Some(p) => p.combined.get(),
                None => 0,
            };
            values.push(v);
            i = i + 1;
        }
        let (people, weighted) = region_weighted_totals(self, country, &keys, &values, Ghost(value));
        let average = match weighted_average(weighted, people) {
            Ok(v) => v,
            Err(_) => 0,
        };
        BasisPoints::from_bounded(average)
    }
}

} // verus!
