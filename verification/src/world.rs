use vstd::prelude::*;
use std::collections::BTreeMap;

use crate::ids::{
    ActorId, CohortId, CountryId, FirmId, GoodId, PowerNodeId, ProjectId, RecipeId, RegionId,
    RouteId, ShipmentId, SkillId, TerminalId,
};
use crate::demand::Good;
use crate::event::{DomainEvent, EventEnvelope, EventLog};
use crate::investment::InvestmentProject;
use crate::logistics::{LogisticsRoute, RouteCapacityLedger};
use crate::political_economy::RegionalSocialPressure;
use crate::production::{Firm, ProductionRecipe};
use crate::public_services::RegionalPublicServices;
use crate::regional_interests::{RegionalInterest, RegionalPolicyOutcome};
use crate::relief::GovernmentEmergencyPolicy;
use crate::rng::WorldSeed;
use crate::service_allocation::CountryServiceAllocation;
use crate::terminal::{LogisticsTerminal, TerminalCapacityLedger, TerminalQueue, TerminalQueueEntry};
use crate::time::{SimDate, TimeError};
use crate::cohort::HouseholdCohort;
use crate::labor::{
    EmploymentAgreement, RegionalLaborMarketObservation, RegionalSkillLaborMarketObservation, WorkforceTraining,
};
use crate::cohort::EducationLevel;
use crate::market::MarketOfferOutcome;
use crate::social::{CohortExperience, SocialStress, SocialStressMemory};
use crate::migration::RegionalHousingMarket;
use crate::value::{BasisPoints, Money, Population, QuantityMilli};

verus! {

/// Whether a character is Unicode `White_Space`, the set that `str::trim` removes.
pub open spec fn is_unicode_whitespace(c: char) -> bool {
    let u = c as u32;
    ||| 0x9 <= u <= 0xd
    ||| u == 0x20
    ||| u == 0x85
    ||| u == 0xa0
    ||| u == 0x1680
    ||| 0x2000 <= u <= 0x200a
    ||| u == 0x2028
    ||| u == 0x2029
    ||| u == 0x202f
    ||| u == 0x205f
    ||| u == 0x3000
}

/// A name is blank when it is empty or made only of whitespace.
pub open spec fn is_blank(s: Seq<char>) -> bool {
    forall|i: int| 0 <= i < s.len() ==> is_unicode_whitespace(#[trigger] s[i])
}

/// Decides `is_unicode_whitespace` for one character.
pub fn is_whitespace_char(c: char) -> (r: bool)
    ensures
        r == is_unicode_whitespace(c),
{
    let u = c as u32;
    (0x9 <= u && u <= 0xd) || u == 0x20 || u == 0x85 || u == 0xa0 || u == 0x1680 || (0x2000 <= u
        && u <= 0x200a) || u == 0x2028 || u == 0x2029 || u == 0x202f || u == 0x205f || u == 0x3000
}

/// Whether a name is empty or whitespace only.
pub fn name_is_blank(name: &str) -> (r: bool)
    ensures
        r == is_blank(name@),
{
    let mut index: usize = 0;
    let mut blank = true;
    for c in it: name.chars()
        invariant
            it.seq() == name@,
            blank == (forall|i: int| 0 <= i < it.index() ==> is_unicode_whitespace(#[trigger] name@[i])),
    {
        if !is_whitespace_char(c) {
            blank = false;
        }
    }
    blank
}

/// Copies a name, rejecting a blank one with `EmptyName(kind)`.
pub fn validated_name(kind: &'static str, name: &str) -> (r: Result<String, WorldError>)
    ensures
        is_blank(name@) ==> r == Err::<String, WorldError>(WorldError::EmptyName(kind)),
        !is_blank(name@) ==> (r matches Ok(s) && s@ == name@),
{
    if name_is_blank(name) {
        Err(WorldError::EmptyName(kind))
    } else {
        Ok(name.to_owned())
    }
}

/// The fiscal and political indicators of a country.
#[derive(Clone, Copy, Debug, PartialEq, Eq)]
pub struct CountryIndicators {
    pub treasury: Money,
    pub public_debt: Money,
    pub legitimacy: BasisPoints,
    pub elite_cohesion: BasisPoints,
}

impl CountryIndicators {
    pub fn new(
        treasury: Money,
        public_debt: Money,
        legitimacy: BasisPoints,
        elite_cohesion: BasisPoints,
    ) -> (r: Self)
        ensures
            r == (CountryIndicators { treasury, public_debt, legitimacy, elite_cohesion }),
    {
        CountryIndicators { treasury, public_debt, legitimacy, elite_cohesion }
    }

    pub fn treasury(self) -> (r: Money)
        ensures
            r == self.treasury,
    {
        self.treasury
    }

    pub fn public_debt(self) -> (r: Money)
        ensures
            r == self.public_debt,
    {
        self.public_debt
    }

    pub fn legitimacy(self) -> (r: BasisPoints)
        ensures
            r == self.legitimacy,
    {
        self.legitimacy
    }

    pub fn elite_cohesion(self) -> (r: BasisPoints)
        ensures
            r == self.elite_cohesion,
    {
        self.elite_cohesion
    }
}

/// A sovereign country with a stable identity.
#[derive(Clone, Debug, PartialEq, Eq)]
pub struct Country {
    pub id: CountryId,
    pub name: String,
    pub indicators: CountryIndicators,
}

impl Country {
    /// Creates a country with empty treasury and debt and 50% legitimacy and cohesion;
    /// rejects a blank name.
    pub fn new(id: CountryId, name: &str) -> (r: Result<Self, WorldError>)
        ensures
            is_blank(name@) ==> r == Err::<Self, WorldError>(WorldError::EmptyName("country")),
            !is_blank(name@) ==> (r matches Ok(c) && c.id == id && c.name@ == name@
                && c.indicators.treasury@ == 0 && c.indicators.public_debt@ == 0
                && c.indicators.legitimacy@ == 5_000 && c.indicators.elite_cohesion@ == 5_000),
    {
        let name = validated_name("country", name)?;
        Ok(Country {
            id,
            name,
            indicators: CountryIndicators::new(
                Money::zero(),
                Money::zero(),
                BasisPoints::half(),
                BasisPoints::half(),
            ),
        })
    }

    pub fn id(&self) -> (r: CountryId)
        ensures
            r == self.id,
    {
        self.id
    }

    pub fn name(&self) -> (r: &str)
        ensures
            r@ == self.name@,
    {
        self.name.as_str()
    }

    pub fn with_indicators(self, indicators: CountryIndicators) -> (r: Self)
        ensures
            r == (Country { indicators, ..self }),
    {
        Country { indicators, ..self }
    }

    pub fn indicators(&self) -> (r: CountryIndicators)
        ensures
            r == self.indicators,
    {
        self.indicators
    }
}

/// An aggregate simulation region of one country.
#[derive(Clone, Debug, PartialEq, Eq)]
pub struct Region {
    pub id: RegionId,
    pub country: CountryId,
    pub name: String,
    pub population: Population,
    pub annual_output: Money,
}

impl Region {
    /// Creates a region; rejects a blank name.
    pub fn new(
        id: RegionId,
        country: CountryId,
        name: &str,
        population: Population,
        annual_output: Money,
    ) -> (r: Result<Self, WorldError>)
        ensures
            is_blank(name@) ==> r == Err::<Self, WorldError>(WorldError::EmptyName("region")),
            !is_blank(name@) ==> (r matches Ok(g) && g.id == id && g.country == country
                && g.name@ == name@ && g.population == population && g.annual_output
                == annual_output),
    {
        let name = validated_name("region", name)?;
        Ok(Region { id, country, name, population, annual_output })
    }

    pub fn id(&self) -> (r: RegionId)
        ensures
            r == self.id,
    {
        self.id
    }

    pub fn country(&self) -> (r: CountryId)
        ensures
            r == self.country,
    {
        self.country
    }

    pub fn name(&self) -> (r: &str)
        ensures
            r@ == self.name@,
    {
        self.name.as_str()
    }

    pub fn population(&self) -> (r: Population)
        ensures
            r == self.population,
    {
        self.population
    }

    pub fn annual_output(&self) -> (r: Money)
        ensures
            r == self.annual_output,
    {
        self.annual_output
    }
}

/// A named human actor.
#[derive(Clone, Debug, PartialEq, Eq)]
pub struct Actor {
    pub id: ActorId,
    pub name: String,
    pub home_region: RegionId,
    pub born_year: i32,
}

impl Actor {
    /// Creates an actor; rejects a blank name.
    pub fn new(id: ActorId, name: &str, home_region: RegionId, born_year: i32) -> (r: Result<
        Self,
        WorldError,
    >)
        ensures
            is_blank(name@) ==> r == Err::<Self, WorldError>(WorldError::EmptyName("actor")),
            !is_blank(name@) ==> (r matches Ok(a) && a.id == id && a.name@ == name@
                && a.home_region == home_region && a.born_year == born_year),
    {
        let name = validated_name("actor", name)?;
        Ok(Actor { id, name, home_region, born_year })
    }

    pub fn id(&self) -> (r: ActorId)
        ensures
            r == self.id,
    {
        self.id
    }

    pub fn name(&self) -> (r: &str)
        ensures
            r@ == self.name@,
    {
        self.name.as_str()
    }

    pub fn home_region(&self) -> (r: RegionId)
        ensures
            r == self.home_region,
    {
        self.home_region
    }

    pub fn born_year(&self) -> (r: i32)
        ensures
            r == self.born_year,
    {
        self.born_year
    }
}

/// The kind of a node in the power network.
#[derive(Clone, Copy, Debug, PartialEq, Eq, Structural, PartialOrd, Ord, Hash)]
pub enum PowerNodeKind {
    PoliticalOffice,
    Capital,
    MilitaryCommand,
    MediaPlatform,
    CivicOrganization,
}

/// A node in the power network, optionally held by an actor.
#[derive(Clone, Debug, PartialEq, Eq)]
pub struct PowerNode {
    pub id: PowerNodeId,
    pub country: CountryId,
    pub name: String,
    pub kind: PowerNodeKind,
    pub holder: Option<ActorId>,
}

impl PowerNode {
    /// Creates a power node; rejects a blank name.
    pub fn new(
        id: PowerNodeId,
        country: CountryId,
        name: &str,
        kind: PowerNodeKind,
        holder: Option<ActorId>,
    ) -> (r: Result<Self, WorldError>)
        ensures
            is_blank(name@) ==> r == Err::<Self, WorldError>(WorldError::EmptyName("power node")),
            !is_blank(name@) ==> (r matches Ok(n) && n.id == id && n.country == country
                && n.name@ == name@ && n.kind == kind && n.holder == holder),
    {
        let name = validated_name("power node", name)?;
        Ok(PowerNode { id, country, name, kind, holder })
    }

    pub fn id(&self) -> (r: PowerNodeId)
        ensures
            r == self.id,
    {
        self.id
    }

    pub fn country(&self) -> (r: CountryId)
        ensures
            r == self.country,
    {
        self.country
    }

    pub fn name(&self) -> (r: &str)
        ensures
            r@ == self.name@,
    {
        self.name.as_str()
    }

    pub fn kind(&self) -> (r: PowerNodeKind)
        ensures
            r == self.kind,
    {
        self.kind
    }

    pub fn holder(&self) -> (r: Option<ActorId>)
        ensures
            r == self.holder,
    {
        self.holder
    }
}

/// A weighted relationship from an actor to a power node.
#[derive(Clone, Copy, Debug, PartialEq, Eq)]
pub struct Influence {
    pub actor: ActorId,
    pub node: PowerNodeId,
    pub weight: BasisPoints,
}

impl Influence {
    pub fn new(actor: ActorId, node: PowerNodeId, weight: BasisPoints) -> (r: Self)
        ensures
            r == (Influence { actor, node, weight }),
    {
        Influence { actor, node, weight }
    }

    pub fn actor(self) -> (r: ActorId)
        ensures
            r == self.actor,
    {
        self.actor
    }

    pub fn node(self) -> (r: PowerNodeId)
        ensures
            r == self.node,
    {
        self.node
    }

    pub fn weight(self) -> (r: BasisPoints)
        ensures
            r == self.weight,
    {
        self.weight
    }
}

/// A rejected world command or an unrepresentable result.
#[derive(Clone, Debug, PartialEq, Eq)]
pub enum WorldError {
    DuplicateCountry(CountryId),
    DuplicateGood(GoodId),
    DuplicateFirm(FirmId),
    DuplicateInvestmentProject(ProjectId),
    DuplicateRecipe(RecipeId),
    DuplicateRegion(RegionId),
    DuplicateActor(ActorId),
    DuplicatePowerNode(PowerNodeId),
    DuplicateInfluence { actor: ActorId, node: PowerNodeId },
    UnknownCountry(CountryId),
    UnknownGood(GoodId),
    UnknownFirm(FirmId),
    UnknownRecipe(RecipeId),
    MissingRegionalPrice { region: RegionId, good: GoodId },
    UnknownRegion(RegionId),
    UnknownActor(ActorId),
    UnknownPowerNode(PowerNodeId),
    EmptyName(&'static str),
    InvalidPrice,
    UnknownCohort(CohortId),
    DuplicateCohort(CohortId),
    InsufficientHouseholdWealth(CohortId),
    MonthlyStageAlreadyExecuted { stage: &'static str, date: SimDate },
    InvalidHousingMarket(&'static str),
    InvalidProduction(&'static str),
    UnknownInvestmentProject(ProjectId),
    InsufficientCommittedInvestment(FirmId),
    InvalidInvestmentProject(&'static str),
    InvalidLogistics(&'static str),
    InvalidTerminal(&'static str),
    DuplicateTerminal(TerminalId),
    InsufficientTerminalCapacity(TerminalId),
    UnknownTerminal(TerminalId),
    DuplicateLogisticsRoute(RouteId),
    DuplicateShipment(ShipmentId),
    UnknownShipment(ShipmentId),
    InsufficientFirmInventory { firm: FirmId, good: GoodId },
    NoFeasibleLogisticsRoute(ShipmentId),
    UnknownLogisticsRoute(RouteId),
    InsufficientRouteCapacity(RouteId),
    InsufficientFirmCash(FirmId),
    InvalidServiceAllocation(&'static str),
    UnauthorizedGovernmentAction { actor: ActorId, country: CountryId },
    InvalidEmergencyRelief(&'static str),
    InsufficientTreasury(CountryId),
    InvalidMarketClearing(&'static str),
    InvalidEmployment(&'static str),
    PopulationAccounting {
        region: RegionId,
        region_population: Population,
        cohort_population: Population,
    },
    AnnualClosureAlreadyExecuted(i32),
    ArithmeticOverflow(&'static str),
    Time(TimeError),
}

/// The simulation state: registries keyed by raw ids, ledgers and the event history.
#[derive(Clone, Debug, PartialEq, Eq)]
pub struct World {
    pub seed: WorldSeed,
    pub date: SimDate,
    pub last_annual_closure_year: Option<i32>,
    pub goods: BTreeMap<u32, Good>,
    pub production_recipes: BTreeMap<u32, ProductionRecipe>,
    pub firms: BTreeMap<u32, Firm>,
    pub committed_investments: BTreeMap<u32, Money>,
    pub investment_projects: BTreeMap<u32, InvestmentProject>,
    pub logistics_routes: BTreeMap<u32, LogisticsRoute>,
    pub route_capacity: RouteCapacityLedger,
    pub route_capacity_pressure: BTreeMap<u32, u8>,
    pub terminals: BTreeMap<u32, LogisticsTerminal>,
    pub terminal_capacity: TerminalCapacityLedger,
    pub terminal_queue: TerminalQueue,
    pub regional_prices: BTreeMap<(u32, u32), Money>,
    pub countries: BTreeMap<u32, Country>,
    pub regions: BTreeMap<u32, Region>,
    pub actors: BTreeMap<u32, Actor>,
    pub power_nodes: BTreeMap<u32, PowerNode>,
    pub influences: BTreeMap<(u32, u32), Influence>,
    pub regional_interests: BTreeMap<u32, RegionalInterest>,
    pub regional_policy_outcomes: BTreeMap<u32, RegionalPolicyOutcome>,
    pub regional_social_pressure: BTreeMap<u32, RegionalSocialPressure>,
    pub regional_public_services: BTreeMap<u32, RegionalPublicServices>,
    pub country_service_allocations: BTreeMap<u32, CountryServiceAllocation>,
    pub government_emergency_policies: BTreeMap<u32, GovernmentEmergencyPolicy>,
    pub government_reserves: BTreeMap<(u32, u32), QuantityMilli>,
    pub government_reserve_priorities: BTreeMap<(u32, u32, u32), BasisPoints>,
    pub cohorts: BTreeMap<u32, HouseholdCohort>,
    pub employment_agreements: BTreeMap<(u32, u32), EmploymentAgreement>,
    pub regional_labor_market: BTreeMap<u32, RegionalLaborMarketObservation>,
    pub regional_housing: BTreeMap<u32, RegionalHousingMarket>,
    pub firm_production_targets: BTreeMap<u32, u64>,
    pub recipe_minimum_education: BTreeMap<u32, EducationLevel>,
    pub regional_skill_labor_market: BTreeMap<(u32, u32), RegionalSkillLaborMarketObservation>,
    pub monthly_consumption: BTreeMap<(u32, u32, u32), QuantityMilli>,
    pub unmet_demand: BTreeMap<(u32, u32, u32), QuantityMilli>,
    pub deprivation_pressure: BTreeMap<u32, BasisPoints>,
    pub monthly_firm_market_outcomes: BTreeMap<u32, Vec<MarketOfferOutcome>>,
    pub social_stress: BTreeMap<u32, SocialStress>,
    pub social_stress_memory: BTreeMap<u32, SocialStressMemory>,
    pub cohort_experience: BTreeMap<u32, CohortExperience>,
    pub last_cohort_experience_date: Option<SimDate>,
    pub recipe_required_skill: BTreeMap<u32, SkillId>,
    pub cohort_skills: BTreeMap<(u32, u32), u8>,
    pub workforce_training: BTreeMap<u32, WorkforceTraining>,
    pub last_labor_market_date: Option<SimDate>,
    pub events: EventLog,
}

/// The abstract state of a world: every registry as a map, every ledger by its view.
#[verifier::ext_equal]
pub struct WorldView {
    pub seed: u64,
    pub date: SimDate,
    pub last_annual_closure_year: Option<i32>,
    pub goods: Map<u32, Good>,
    pub production_recipes: Map<u32, ProductionRecipe>,
    pub firms: Map<u32, Firm>,
    pub committed_investments: Map<u32, Money>,
    pub investment_projects: Map<u32, InvestmentProject>,
    pub logistics_routes: Map<u32, LogisticsRoute>,
    pub route_capacity: Map<u32, u64>,
    pub route_capacity_pressure: Map<u32, u8>,
    pub terminals: Map<u32, LogisticsTerminal>,
    pub terminal_capacity: Map<u32, u64>,
    pub terminal_queue: Map<u32, Seq<TerminalQueueEntry>>,
    pub regional_prices: Map<(u32, u32), Money>,
    pub countries: Map<u32, Country>,
    pub regions: Map<u32, Region>,
    pub actors: Map<u32, Actor>,
    pub power_nodes: Map<u32, PowerNode>,
    pub influences: Map<(u32, u32), Influence>,
    pub regional_interests: Map<u32, RegionalInterest>,
    pub regional_policy_outcomes: Map<u32, RegionalPolicyOutcome>,
    pub regional_social_pressure: Map<u32, RegionalSocialPressure>,
    pub regional_public_services: Map<u32, RegionalPublicServices>,
    pub country_service_allocations: Map<u32, Map<u32, BasisPoints>>,
    pub government_emergency_policies: Map<u32, GovernmentEmergencyPolicy>,
    pub government_reserves: Map<(u32, u32), QuantityMilli>,
    pub government_reserve_priorities: Map<(u32, u32, u32), BasisPoints>,
    pub cohorts: Map<u32, HouseholdCohort>,
    pub employment_agreements: Map<(u32, u32), EmploymentAgreement>,
    pub regional_labor_market: Map<u32, RegionalLaborMarketObservation>,
    pub regional_housing: Map<u32, RegionalHousingMarket>,
    pub firm_production_targets: Map<u32, u64>,
    pub recipe_minimum_education: Map<u32, EducationLevel>,
    pub regional_skill_labor_market: Map<(u32, u32), RegionalSkillLaborMarketObservation>,
    pub monthly_consumption: Map<(u32, u32, u32), QuantityMilli>,
    pub unmet_demand: Map<(u32, u32, u32), QuantityMilli>,
    pub deprivation_pressure: Map<u32, BasisPoints>,
    pub monthly_firm_market_outcomes: Map<u32, Seq<MarketOfferOutcome>>,
    pub social_stress: Map<u32, SocialStress>,
    pub social_stress_memory: Map<u32, SocialStressMemory>,
    pub cohort_experience: Map<u32, CohortExperience>,
    pub last_cohort_experience_date: Option<SimDate>,
    pub recipe_required_skill: Map<u32, SkillId>,
    pub cohort_skills: Map<(u32, u32), u8>,
    pub workforce_training: Map<u32, WorkforceTraining>,
    pub last_labor_market_date: Option<SimDate>,
    pub events: Seq<EventEnvelope>,
}

/// Whether a power node is a political office of `country` held by `actor`.
pub open spec fn holds_office_in(node: PowerNode, actor: ActorId, country: CountryId) -> bool {
    &&& node.country == country
    &&& node.kind == PowerNodeKind::PoliticalOffice
    &&& node.holder == Some(actor)
}

/// Whether `actor` currently holds a political office of `country`.
pub open spec fn is_office_holder(w: WorldView, actor: ActorId, country: CountryId) -> bool {
    exists|id: u32| #[trigger] w.power_nodes.contains_key(id) && holds_office_in(w.power_nodes[id], actor, country)
}

impl World {
    pub open spec fn view(&self) -> WorldView {
        WorldView {
            seed: self.seed@,
            date: self.date,
            last_annual_closure_year: self.last_annual_closure_year,
            goods: self.goods@,
            production_recipes: self.production_recipes@,
            firms: self.firms@,
            committed_investments: self.committed_investments@,
            investment_projects: self.investment_projects@,
            logistics_routes: self.logistics_routes@,
            route_capacity: self.route_capacity@,
            route_capacity_pressure: self.route_capacity_pressure@,
            terminals: self.terminals@,
            terminal_capacity: self.terminal_capacity@,
            terminal_queue: self.terminal_queue@,
            regional_prices: self.regional_prices@,
            countries: self.countries@,
            regions: self.regions@,
            actors: self.actors@,
            power_nodes: self.power_nodes@,
            influences: self.influences@,
            regional_interests: self.regional_interests@,
            regional_policy_outcomes: self.regional_policy_outcomes@,
            regional_social_pressure: self.regional_social_pressure@,
            regional_public_services: self.regional_public_services@,
            country_service_allocations: self.country_service_allocations@.map_values(
                |a: CountryServiceAllocation| a@,
            ),
            government_emergency_policies: self.government_emergency_policies@,
            government_reserves: self.government_reserves@,
            government_reserve_priorities: self.government_reserve_priorities@,
            cohorts: self.cohorts@,
            employment_agreements: self.employment_agreements@,
            regional_labor_market: self.regional_labor_market@,
            regional_housing: self.regional_housing@,
            firm_production_targets: self.firm_production_targets@,
            recipe_minimum_education: self.recipe_minimum_education@,
            regional_skill_labor_market: self.regional_skill_labor_market@,
            monthly_consumption: self.monthly_consumption@,
            unmet_demand: self.unmet_demand@,
            deprivation_pressure: self.deprivation_pressure@,
            monthly_firm_market_outcomes: self.monthly_firm_market_outcomes@.map_values(
                |v: Vec<MarketOfferOutcome>| v@,
            ),
            social_stress: self.social_stress@,
            social_stress_memory: self.social_stress_memory@,
            cohort_experience: self.cohort_experience@,
            last_cohort_experience_date: self.last_cohort_experience_date,
            recipe_required_skill: self.recipe_required_skill@,
            cohort_skills: self.cohort_skills@,
            workforce_training: self.workforce_training@,
            last_labor_market_date: self.last_labor_market_date,
            events: self.events@,
        }
    }

    /// Creates an empty world and records its founding event.
    pub fn new(seed: WorldSeed, start_date: SimDate) -> (r: Self)
        ensures
            r@ == (WorldView {
                seed: seed@,
                date: start_date,
                last_annual_closure_year: None,
                goods: Map::empty(),
                production_recipes: Map::empty(),
                firms: Map::empty(),
                committed_investments: Map::empty(),
                investment_projects: Map::empty(),
                logistics_routes: Map::empty(),
                route_capacity: Map::empty(),
                route_capacity_pressure: Map::empty(),
                terminals: Map::empty(),
                terminal_capacity: Map::empty(),
                terminal_queue: Map::empty(),
                regional_prices: Map::empty(),
                countries: Map::empty(),
                regions: Map::empty(),
                actors: Map::empty(),
                power_nodes: Map::empty(),
                influences: Map::empty(),
                regional_interests: Map::empty(),
                regional_policy_outcomes: Map::empty(),
                regional_social_pressure: Map::empty(),
                regional_public_services: Map::empty(),
                country_service_allocations: Map::empty(),
                government_emergency_policies: Map::empty(),
                government_reserves: Map::empty(),
                government_reserve_priorities: Map::empty(),
                cohorts: Map::empty(),
                employment_agreements: Map::empty(),
                regional_labor_market: Map::empty(),
                regional_housing: Map::empty(),
                firm_production_targets: Map::empty(),
                recipe_minimum_education: Map::empty(),
                regional_skill_labor_market: Map::empty(),
                monthly_consumption: Map::empty(),
                unmet_demand: Map::empty(),
                deprivation_pressure: Map::empty(),
                monthly_firm_market_outcomes: Map::empty(),
                social_stress: Map::empty(),
                social_stress_memory: Map::empty(),
                cohort_experience: Map::empty(),
                last_cohort_experience_date: None,
                recipe_required_skill: Map::empty(),
                cohort_skills: Map::empty(),
                workforce_training: Map::empty(),
                last_labor_market_date: None,
                events: seq![
                    EventEnvelope { date: start_date, event: DomainEvent::WorldFounded { seed: seed@ } },
                ],
            }),
    {
        let mut events = EventLog::new();
        events.append(start_date, DomainEvent::WorldFounded { seed: seed.get() });
        let w = World {
            seed,
            date: start_date,
            last_annual_closure_year: None,
            goods: BTreeMap::new(),
            production_recipes: BTreeMap::new(),
            firms: BTreeMap::new(),
            committed_investments: BTreeMap::new(),
            investment_projects: BTreeMap::new(),
            logistics_routes: BTreeMap::new(),
            route_capacity: RouteCapacityLedger::new(),
            route_capacity_pressure: BTreeMap::new(),
            terminals: BTreeMap::new(),
            terminal_capacity: TerminalCapacityLedger::new(),
            terminal_queue: TerminalQueue::new(),
            regional_prices: BTreeMap::new(),
            countries: BTreeMap::new(),
            regions: BTreeMap::new(),
            actors: BTreeMap::new(),
            power_nodes: BTreeMap::new(),
            influences: BTreeMap::new(),
            regional_interests: BTreeMap::new(),
            regional_policy_outcomes: BTreeMap::new(),
            regional_social_pressure: BTreeMap::new(),
            regional_public_services: BTreeMap::new(),
            country_service_allocations: BTreeMap::new(),
            government_emergency_policies: BTreeMap::new(),
            government_reserves: BTreeMap::new(),
            government_reserve_priorities: BTreeMap::new(),
            cohorts: BTreeMap::new(),
            employment_agreements: BTreeMap::new(),
            regional_labor_market: BTreeMap::new(),
            regional_housing: BTreeMap::new(),
            firm_production_targets: BTreeMap::new(),
            recipe_minimum_education: BTreeMap::new(),
            regional_skill_labor_market: BTreeMap::new(),
            monthly_consumption: BTreeMap::new(),
            unmet_demand: BTreeMap::new(),
            deprivation_pressure: BTreeMap::new(),
            monthly_firm_market_outcomes: BTreeMap::new(),
            social_stress: BTreeMap::new(),
            social_stress_memory: BTreeMap::new(),
            cohort_experience: BTreeMap::new(),
            last_cohort_experience_date: None,
            recipe_required_skill: BTreeMap::new(),
            cohort_skills: BTreeMap::new(),
            workforce_training: BTreeMap::new(),
            last_labor_market_date: None,
            events,
        };
        assert(w.terminal_queue@ =~= Map::empty());
        assert(w@.country_service_allocations =~= Map::empty());
        w
    }

    /// Adds a country and records the registration; rejects a duplicate id and then
    /// changes nothing.
    pub fn register_country(&mut self, country: Country) -> (r: Result<(), WorldError>)
        ensures
            old(self)@.countries.contains_key(country.id@) ==> r == Err::<(), WorldError>(
                WorldError::DuplicateCountry(country.id),
            ) && final(self)@ == old(self)@,
            !old(self)@.countries.contains_key(country.id@) ==> r is Ok && final(self)@ == (
            WorldView {
                countries: old(self)@.countries.insert(country.id@, country),
                events: old(self)@.events.push(
                    EventEnvelope {
                        date: old(self)@.date,
                        event: DomainEvent::CountryRegistered { country: country.id, name: country.name },
                    },
                ),
                ..old(self)@
            }),
    {
        if self.countries.contains_key(&country.id.get()) {
            return Err(WorldError::DuplicateCountry(country.id));
        }
        let id = country.id;
        let name = country.name.clone();
        self.events.append(self.date, DomainEvent::CountryRegistered { country: id, name });
        self.countries.insert(id.get(), country);
        Ok(())
    }

    /// Adds a region after checking its country; rejects a duplicate id or an
    /// unknown country and then changes nothing.
    pub fn register_region(&mut self, region: Region) -> (r: Result<(), WorldError>)
        ensures
            old(self)@.regions.contains_key(region.id@) ==> r == Err::<(), WorldError>(
                WorldError::DuplicateRegion(region.id),
            ) && final(self)@ == old(self)@,
            !old(self)@.regions.contains_key(region.id@) && !old(self)@.countries.contains_key(
                region.country@,
            ) ==> r == Err::<(), WorldError>(WorldError::UnknownCountry(region.country))
                && final(self)@ == old(self)@,
            !old(self)@.regions.contains_key(region.id@) && old(self)@.countries.contains_key(
                region.country@,
            ) ==> r is Ok && final(self)@ == (WorldView {
                regions: old(self)@.regions.insert(region.id@, region),
                events: old(self)@.events.push(
                    EventEnvelope {
                        date: old(self)@.date,
                        event: DomainEvent::RegionRegistered {
                            region: region.id,
                            country: region.country,
                            name: region.name,
                        },
                    },
                ),
                ..old(self)@
            }),
    {
        if self.regions.contains_key(&region.id.get()) {
            return Err(WorldError::DuplicateRegion(region.id));
        }
        if !self.countries.contains_key(&region.country.get()) {
            return Err(WorldError::UnknownCountry(region.country));
        }
        let event = DomainEvent::RegionRegistered {
            region: region.id,
            country: region.country,
            name: region.name.clone(),
        };
        self.events.append(self.date, event);
        self.regions.insert(region.id.get(), region);
        Ok(())
    }

    /// Adds an actor after checking the home region; rejects a duplicate id or an
    /// unknown region and then changes nothing.
    pub fn register_actor(&mut self, actor: Actor) -> (r: Result<(), WorldError>)
        ensures
            old(self)@.actors.contains_key(actor.id@) ==> r == Err::<(), WorldError>(
                WorldError::DuplicateActor(actor.id),
            ) && final(self)@ == old(self)@,
            !old(self)@.actors.contains_key(actor.id@) && !old(self)@.regions.contains_key(
                actor.home_region@,
            ) ==> r == Err::<(), WorldError>(WorldError::UnknownRegion(actor.home_region))
                && final(self)@ == old(self)@,
            !old(self)@.actors.contains_key(actor.id@) && old(self)@.regions.contains_key(
                actor.home_region@,
            ) ==> r is Ok && final(self)@ == (WorldView {
                actors: old(self)@.actors.insert(actor.id@, actor),
                events: old(self)@.events.push(
                    EventEnvelope {
                        date: old(self)@.date,
                        event: DomainEvent::ActorRegistered {
                            actor: actor.id,
                            home_region: actor.home_region,
                            name: actor.name,
                        },
                    },
                ),
                ..old(self)@
            }),
    {
        if self.actors.contains_key(&actor.id.get()) {
            return Err(WorldError::DuplicateActor(actor.id));
        }
        if !self.regions.contains_key(&actor.home_region.get()) {
            return Err(WorldError::UnknownRegion(actor.home_region));
        }
        let event = DomainEvent::ActorRegistered {
            actor: actor.id,
            home_region: actor.home_region,
            name: actor.name.clone(),
        };
        self.events.append(self.date, event);
        self.actors.insert(actor.id.get(), actor);
        Ok(())
    }

    /// Adds a power node after checking its country and holder; rejects a duplicate
    /// id, an unknown country or an unknown holder (in that order) and then changes nothing.
    pub fn register_power_node(&mut self, node: PowerNode) -> (r: Result<(), WorldError>)
        ensures
            old(self)@.power_nodes.contains_key(node.id@) ==> r == Err::<(), WorldError>(
                WorldError::DuplicatePowerNode(node.id),
            ) && final(self)@ == old(self)@,
            !old(self)@.power_nodes.contains_key(node.id@) && !old(self)@.countries.contains_key(
                node.country@,
            ) ==> r == Err::<(), WorldError>(WorldError::UnknownCountry(node.country))
                && final(self)@ == old(self)@,
            !old(self)@.power_nodes.contains_key(node.id@) && old(self)@.countries.contains_key(
                node.country@,
            ) && (node.holder matches Some(h) && !old(self)@.actors.contains_key(h@)) ==> r
                == Err::<(), WorldError>(WorldError::UnknownActor(node.holder->0))
                && final(self)@ == old(self)@,
            !old(self)@.power_nodes.contains_key(node.id@) && old(self)@.countries.contains_key(
                node.country@,
            ) && !(node.holder matches Some(h) && !old(self)@.actors.contains_key(h@)) ==> r is Ok
                && final(self)@ == (WorldView {
                power_nodes: old(self)@.power_nodes.insert(node.id@, node),
                events: old(self)@.events.push(
                    EventEnvelope {
                        date: old(self)@.date,
                        event: DomainEvent::PowerNodeRegistered {
                            node: node.id,
                            country: node.country,
                            name: node.name,
                        },
                    },
                ),
                ..old(self)@
            }),
    {
        if self.power_nodes.contains_key(&node.id.get()) {
            return Err(WorldError::DuplicatePowerNode(node.id));
        }
        if !self.countries.contains_key(&node.country.get()) {
            return Err(WorldError::UnknownCountry(node.country));
        }
        if let Some(holder) = node.holder {
            if !self.actors.contains_key(&holder.get()) {
                return Err(WorldError::UnknownActor(holder));
            }
        }
        let event = DomainEvent::PowerNodeRegistered {
            node: node.id,
            country: node.country,
            name: node.name.clone(),
        };
        self.events.append(self.date, event);
        self.power_nodes.insert(node.id.get(), node);
        Ok(())
    }

    /// Adds one weighted actor-to-node relationship; rejects a duplicate pair, an
    /// unknown actor or an unknown node (in that order) and then changes nothing.
    pub fn establish_influence(&mut self, influence: Influence) -> (r: Result<(), WorldError>)
        ensures
            ({
                let key = (influence.actor@, influence.node@);
                &&& old(self)@.influences.contains_key(key) ==> r == Err::<(), WorldError>(
                    WorldError::DuplicateInfluence { actor: influence.actor, node: influence.node },
                ) && final(self)@ == old(self)@
                &&& !old(self)@.influences.contains_key(key) && !old(self)@.actors.contains_key(
                    influence.actor@,
                ) ==> r == Err::<(), WorldError>(WorldError::UnknownActor(influence.actor))
                    && final(self)@ == old(self)@
                &&& !old(self)@.influences.contains_key(key) && old(self)@.actors.contains_key(
                    influence.actor@,
                ) && !old(self)@.power_nodes.contains_key(influence.node@) ==> r == Err::<
                    (),
                    WorldError,
                >(WorldError::UnknownPowerNode(influence.node)) && final(self)@ == old(self)@
                &&& !old(self)@.influences.contains_key(key) && old(self)@.actors.contains_key(
                    influence.actor@,
                ) && old(self)@.power_nodes.contains_key(influence.node@) ==> r is Ok
                    && final(self)@ == (WorldView {
                    influences: old(self)@.influences.insert(key, influence),
                    events: old(self)@.events.push(
                        EventEnvelope {
                            date: old(self)@.date,
                            event: DomainEvent::InfluenceEstablished {
                                actor: influence.actor,
                                node: influence.node,
                                weight: influence.weight,
                            },
                        },
                    ),
                    ..old(self)@
                })
            }),
    {
        let key = (influence.actor.get(), influence.node.get());
        if self.influences.contains_key(&key) {
            return Err(
                WorldError::DuplicateInfluence { actor: influence.actor, node: influence.node },
            );
        }
        if !self.actors.contains_key(&influence.actor.get()) {
            return Err(WorldError::UnknownActor(influence.actor));
        }
        if !self.power_nodes.contains_key(&influence.node.get()) {
            return Err(WorldError::UnknownPowerNode(influence.node));
        }
        self.events.append(
            self.date,
            DomainEvent::InfluenceEstablished {
                actor: influence.actor,
                node: influence.node,
                weight: influence.weight,
            },
        );
        self.influences.insert(key, influence);
        Ok(())
    }

    /// Adds a good; rejects a duplicate id and then changes nothing.
    pub fn register_good(&mut self, good: Good) -> (r: Result<(), WorldError>)
        ensures
            old(self)@.goods.contains_key(good.id@) ==> r == Err::<(), WorldError>(
                WorldError::DuplicateGood(good.id),
            ) && final(self)@ == old(self)@,
            !old(self)@.goods.contains_key(good.id@) ==> r is Ok && final(self)@ == (WorldView {
                goods: old(self)@.goods.insert(good.id@, good),
                ..old(self)@
            }),
    {
        if self.goods.contains_key(&good.id.get()) {
            return Err(WorldError::DuplicateGood(good.id));
        }
        self.goods.insert(good.id.get(), good);
        Ok(())
    }

    pub fn seed(&self) -> (r: WorldSeed)
        ensures
            r == self.seed,
    {
        self.seed
    }

    pub fn date(&self) -> (r: SimDate)
        ensures
            r == self.date,
    {
        self.date
    }

    pub fn goods(&self) -> (r: &BTreeMap<u32, Good>)
        ensures
            r@ == self@.goods,
    {
        &self.goods
    }

    pub fn countries(&self) -> (r: &BTreeMap<u32, Country>)
        ensures
            r@ == self@.countries,
    {
        &self.countries
    }

    pub fn regions(&self) -> (r: &BTreeMap<u32, Region>)
        ensures
            r@ == self@.regions,
    {
        &self.regions
    }

    pub fn actors(&self) -> (r: &BTreeMap<u32, Actor>)
        ensures
            r@ == self@.actors,
    {
        &self.actors
    }

    pub fn power_nodes(&self) -> (r: &BTreeMap<u32, PowerNode>)
        ensures
            r@ == self@.power_nodes,
    {
        &self.power_nodes
    }

    pub fn influences(&self) -> (r: &BTreeMap<(u32, u32), Influence>)
        ensures
            r@ == self@.influences,
    {
        &self.influences
    }

    pub fn events(&self) -> (r: &EventLog)
        ensures
            r@ == self@.events,
    {
        &self.events
    }
}

impl From<TimeError> for WorldError {
    fn from(value: TimeError) -> (r: Self) {
        WorldError::Time(value)
    }
}

impl vstd::std_specs::convert::FromSpecImpl<TimeError> for WorldError {
    open spec fn obeys_from_spec() -> bool {
        true
    }

    open spec fn from_spec(v: TimeError) -> Self {
        WorldError::Time(v)
    }
}

} // verus!
