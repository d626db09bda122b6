//! The record one source's latest observation is kept in.

use vstd::prelude::*;

verus! {

/// Price data from a single source: the source label, the price in
/// micro-dollars (1 unit = 1e-6 USD), the report's timestamp in whole
/// seconds, and the account that submitted it.
pub struct PriceReport {
    pub source: String,
    pub price_usd: u128,
    pub timestamp: u64,
    pub reporter: String,
}

/// The mathematical value of a `PriceReport`: both identifier strings
/// are taken as character sequences.
pub ghost struct ReportView {
    pub source: Seq<char>,
    pub price_usd: u128,
    pub timestamp: u64,
    pub reporter: Seq<char>,
}

impl View for PriceReport {
    type V = ReportView;

    open spec fn view(&self) -> ReportView {
        ReportView {
            source: self.source@,
            price_usd: self.price_usd,
            timestamp: self.timestamp,
            reporter: self.reporter@,
        }
    }
}

impl Clone for PriceReport {
    fn clone(&self) -> (r: Self)
        ensures
            r@ == self@,
    {
        PriceReport {
            source: self.source.clone(),
            price_usd: self.price_usd,
            timestamp: self.timestamp,
            reporter: self.reporter.clone(),
        }
    }
}

} // verus!
