use vstd::prelude::*;

pub mod annual;
pub mod apportion;
pub mod cohort;
pub mod demand;
pub mod event;
pub mod fingerprint;
pub mod ids;
pub mod investment;
pub mod labor;
pub mod labor_market;
pub mod logistics;
pub mod management;
pub mod market;
pub mod migration;
pub mod multileg;
pub mod observation;
pub mod ordered;
pub mod political_economy;
pub mod pricing;
pub mod procurement;
pub mod production;
pub mod public_reserve;
pub mod public_services;
pub mod ranking;
pub mod rationing;
pub mod regional_interests;
pub mod relief;
pub mod rng;
pub mod route_investment;
pub mod service_allocation;
pub mod settlement;
pub mod simulation;
pub mod social;
pub mod terminal;
pub mod time;
pub mod value;
pub mod world;

verus! {
}
