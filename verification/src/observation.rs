use vstd::prelude::*;
use std::collections::BTreeMap;

use crate::market::MarketOfferOutcome;
use crate::time::SimDate;
use crate::value::Money;

verus! {

/// The longest operating history kept per firm, in months.
pub const FIRM_OBSERVATION_HISTORY_LIMIT: usize = 12;

/// One month of a firm's observed operations: revenue, output, the input prices it
/// faced (by good id) and the outcome of its offers.
#[derive(Clone, Debug, PartialEq, Eq)]
pub struct FirmOperatingObservation {
    pub date: SimDate,
    pub sales_revenue: Money,
    pub final_sales_revenue: Money,
    pub produced_batches: u64,
    pub input_prices: BTreeMap<u32, Money>,
    pub market_outcomes: Vec<MarketOfferOutcome>,
}

impl FirmOperatingObservation {
    pub fn date(&self) -> (r: SimDate)
        ensures
            r == self.date,
    {
        self.date
    }

    pub fn sales_revenue(&self) -> (r: Money)
        ensures
            r == self.sales_revenue,
    {
        self.sales_revenue
    }

    pub fn final_sales_revenue(&self) -> (r: Money)
        ensures
            r == self.final_sales_revenue,
    {
        self.final_sales_revenue
    }

    pub fn produced_batches(&self) -> (r: u64)
        ensures
            r == self.produced_batches,
    {
        self.produced_batches
    }

    pub fn input_prices(&self) -> (r: &BTreeMap<u32, Money>)
        ensures
            r@ == self.input_prices@,
    {
        &self.input_prices
    }

    pub fn market_outcomes(&self) -> (r: &[MarketOfferOutcome])
        ensures
            r@ == self.market_outcomes@,
    {
        self.market_outcomes.as_slice()
    }
}

} // verus!
