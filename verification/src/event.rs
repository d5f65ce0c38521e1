use vstd::prelude::*;
use std::collections::BTreeMap;

use crate::ids::{
    ActorId, CountryId, FirmId, GoodId, PowerNodeId, ProjectId, RegionId, RouteId, ShipmentId, TerminalId,
};
use crate::relief::EmergencyReliefStrategy;
use crate::time::SimDate;
use crate::value::{BasisPoints, Money, Population, QuantityMilli, RatePpm};
use crate::regional_interests::{RegionalFiscalPosition, RegionalPolicyPriority};
use crate::service_allocation::{ServiceAllocationInfluenceKind, ServiceAllocationSource};

use crate::migration::HouseholdMigration;
use crate::cohort::EducationLevel;

verus! {

/// A fact recorded by a successful world command.
#[derive(Clone, Debug, PartialEq, Eq)]
pub enum DomainEvent {
    WorldFounded { seed: u64 },
    HouseholdMigrated { migration: HouseholdMigration },
    SocialStressUpdated { cohort: crate::ids::CohortId, health_risk: BasisPoints, unrest_pressure: BasisPoints },
    CohortExperienceUpdated {
        cohort: crate::ids::CohortId,
        survival_shortage_months: u32,
        unemployment_months: u32,
        debt_distress_months: u32,
    },
    MarketTrade { buyer: crate::ids::CohortId, seller: FirmId, good: GoodId, quantity: QuantityMilli, spend: Money },
    EmploymentMatched {
        firm: FirmId,
        cohort: crate::ids::CohortId,
        workers: u64,
        wage: Money,
        minimum_education: EducationLevel,
        labor_market_adjustment_basis_points: i16,
    },
    WorkforceTrainingCompleted {
        cohort: crate::ids::CohortId,
        previous_education: EducationLevel,
        new_education: EducationLevel,
    },
    RegionalLaborMarketObserved {
        region: RegionId,
        available_workers: u64,
        vacancies: u64,
        offers: u64,
        hires: u64,
        average_offered_wage: Money,
        unemployment_pressure_months: u8,
        vacancy_pressure_months: u8,
    },
    RegionalSkillLaborMarketObserved {
        region: RegionId,
        minimum_education: EducationLevel,
        qualified_available_workers: u64,
        vacancies: u64,
        unemployment_pressure_months: u8,
        vacancy_pressure_months: u8,
    },
    HouseholdCohortSplitForTraining {
        source_cohort: crate::ids::CohortId,
        training_cohort: crate::ids::CohortId,
        people: u64,
        households: u64,
        annual_income: Money,
        liquid_wealth: Money,
        debt: Money,
    },
    WorkforceTrainingStarted {
        cohort: crate::ids::CohortId,
        previous_education: EducationLevel,
        target_education: EducationLevel,
        months: u8,
        tuition_paid: Money,
        sponsoring_firm: Option<FirmId>,
    },
    ObservedLaborMatchingCompleted { offers: u64, matches: u64, switches: u64, retentions: u64 },
    EmploymentSwitched {
        from_firm: FirmId,
        to_firm: FirmId,
        cohort: crate::ids::CohortId,
        previous_wage: Money,
        offered_wage: Money,
        minimum_education: EducationLevel,
        labor_market_adjustment_basis_points: i16,
    },
    CountryRegistered { country: CountryId, name: String },
    RegionRegistered { region: RegionId, country: CountryId, name: String },
    ActorRegistered { actor: ActorId, home_region: RegionId, name: String },
    PowerNodeRegistered { node: PowerNodeId, country: CountryId, name: String },
    InfluenceEstablished { actor: ActorId, node: PowerNodeId, weight: BasisPoints },
    CountryServiceAllocationSet { actor: ActorId, country: CountryId, shares: BTreeMap<u32, BasisPoints> },
    GovernmentEmergencyPolicySet { actor: ActorId, country: CountryId, strategy: EmergencyReliefStrategy },
    EmergencyReliefDebtIssued { actor: ActorId, country: CountryId, amount: Money },
    InvestmentProjectLaunched { project: ProjectId, firm: FirmId, budget: Money },
    InvestmentProjectAdvanced { project: ProjectId },
    InvestmentProjectCompleted { project: ProjectId, firm: FirmId },
    ShipmentQueuedAtTerminal { shipment: ShipmentId, terminal: TerminalId },
    ShipmentAdmittedToTerminal { shipment: ShipmentId, terminal: TerminalId },
    MarketFreightPaid { buyer: crate::ids::CohortId, seller: FirmId, carrier: FirmId, route: RouteId, amount: Money },
    FirmProcurementFreightPaid { buyer: FirmId, seller: FirmId, carrier: FirmId, route: RouteId, amount: Money },
    RegionPopulationChanged { region: RegionId, population: Population, rate: RatePpm },
    RegionOutputChanged { region: RegionId, annual_output: Money, rate: RatePpm },
    RegionalSocialPressureUpdated {
        region: RegionId,
        chronic_unemployment: BasisPoints,
        livelihood_stress: BasisPoints,
        public_service_shortfall: BasisPoints,
        combined: BasisPoints,
    },
    RegionalServiceAllocationInfluenceApplied {
        country: CountryId,
        actor: ActorId,
        office: PowerNodeId,
        region: RegionId,
        kind: ServiceAllocationInfluenceKind,
        weight: BasisPoints,
        score_bonus: u16,
    },
    RegionalServiceBudgetAllocated {
        country: CountryId,
        region: RegionId,
        source: ServiceAllocationSource,
        share: BasisPoints,
        service_budget: Money,
    },
    RegionalPublicServicesUpdated {
        region: RegionId,
        service_budget: Money,
        funding_target: BasisPoints,
        healthcare: BasisPoints,
        infrastructure: BasisPoints,
        administration: BasisPoints,
    },
    PublicDebtInterestCharged { country: CountryId, opening_debt: Money, interest: Money },
    PublicDebtRestructured {
        country: CountryId,
        debt_before: Money,
        debt_after: Money,
        principal_written_off: Money,
    },
    CountryFiscalYearClosed { country: CountryId, revenue: Money, spending: Money, treasury: Money, debt: Money },
    CountryLegitimacyPressureApplied {
        country: CountryId,
        population_weighted_pressure: BasisPoints,
        legitimacy_effect: i32,
    },
    CountryRegionalConfidenceApplied {
        country: CountryId,
        population_weighted_confidence: BasisPoints,
        legitimacy_effect: i32,
    },
    CountryPoliticsChanged { country: CountryId, legitimacy: BasisPoints, elite_cohesion: BasisPoints },
    RegionalPolicyOutcomeRecorded {
        region: RegionId,
        taxes_paid: Money,
        service_allocation: Money,
        net_transfer: Money,
        fiscal_position: RegionalFiscalPosition,
    },
    RegionalInterestUpdated {
        region: RegionId,
        previous_priority: RegionalPolicyPriority,
        priority: RegionalPolicyPriority,
        priority_pressure: BasisPoints,
        satisfaction: BasisPoints,
        years_persistent: u8,
    },
    YearAdvanced { year: i32 },
    RouteCapacityExpanded {
        route: RouteId,
        carrier: FirmId,
        previous_capacity: QuantityMilli,
        added_capacity: QuantityMilli,
        cost: Money,
    },
    GovernmentReserveProcured {
        actor: ActorId,
        country: CountryId,
        region: RegionId,
        seller: FirmId,
        good: GoodId,
        quantity: QuantityMilli,
        cost: Money,
    },
    GovernmentReservePrioritySet {
        actor: ActorId,
        country: CountryId,
        region: RegionId,
        good: GoodId,
        priority: BasisPoints,
    },
    SurvivalRationingApplied {
        country: CountryId,
        region: RegionId,
        good: GoodId,
        requested: QuantityMilli,
        available: QuantityMilli,
        cohorts: u64,
    },
}

/// An event together with the simulation date on which it was recorded.
#[derive(Clone, Debug, PartialEq, Eq)]
pub struct EventEnvelope {
    pub date: SimDate,
    pub event: DomainEvent,
}

impl EventEnvelope {
    pub fn date(&self) -> (r: SimDate)
        ensures
            r == self.date,
    {
        self.date
    }

    pub fn event(&self) -> (r: &DomainEvent)
        ensures
            *r == self.event,
    {
        &self.event
    }
}

/// The append-only history of a world.
#[derive(Clone, Debug, PartialEq, Eq)]
pub struct EventLog {
    pub entries: Vec<EventEnvelope>,
}

impl EventLog {
    /// The recorded envelopes, oldest first.
    pub open spec fn view(&self) -> Seq<EventEnvelope> {
        self.entries@
    }

    pub fn new() -> (r: Self)
        ensures
            r@ == Seq::<EventEnvelope>::empty(),
    {
        EventLog { entries: Vec::new() }
    }

    /// Records one event at the end of the log.
    pub fn append(&mut self, date: SimDate, event: DomainEvent)
        ensures
            final(self)@ == old(self)@.push(EventEnvelope { date, event }),
    {
        self.entries.push(EventEnvelope { date, event });
    }

    pub fn len(&self) -> (r: usize)
        ensures
            r == self@.len(),
    {
        self.entries.len()
    }

    pub fn is_empty(&self) -> (r: bool)
        ensures
            r == (self@.len() == 0),
    {
        self.entries.len() == 0
    }

    pub fn events(&self) -> (r: &[EventEnvelope])
        ensures
            r@ == self@,
    {
        self.entries.as_slice()
    }
}

} // verus!
