//! Immutable configuration of the stabilization controller.
//!
//! The configuration names the native reserve currency, the two beneficiary
//! accounts (the stability fund and the market maker), the percentage each
//! receives from an expansion, the quote amplification factor, and the base
//! unit of every known currency.

use vstd::prelude::*;

verus! {

/// The base unit configured for one currency: `unit` minor units make up
/// one unit in which observed prices are denominated.
#[derive(Clone, Copy, PartialEq, Eq, Structural, Debug)]
pub struct BaseUnitEntry {
    pub currency: u64,
    pub unit: u64,
}

/// The configured singletons of the controller, fixed for its lifetime.
pub struct Config {
    /// The currency that serves as the native reserve asset. It is never
    /// the target of an expansion or contraction.
    pub native_id: u64,
    /// The stability fund account, receiving its share of minted supply.
    pub settpay_account: u64,
    /// The market maker account that supplies and absorbs the native-asset
    /// settlement value.
    pub serper_account: u64,
    /// Percentage of an expansion amount paid to the stability fund.
    pub settpay_ratio: u64,
    /// Percentage of an expansion amount reserved for the market maker.
    pub serper_ratio: u64,
    /// Amplification factor applied to the price deviation when quoting.
    pub serp_quote_multiple: u64,
    /// Base unit per currency, looked up by the quotation engine.
    pub base_units: Vec<BaseUnitEntry>,
}

/// First base unit recorded for `c` in `entries`, if any.
pub open spec fn unit_in(entries: Seq<BaseUnitEntry>, c: u64) -> Option<u64>
    decreases entries.len(),
{
    if entries.len() == 0 {
        None
    } else if entries[0].currency == c {
        Some(entries[0].unit)
    } else {
        unit_in(entries.skip(1), c)
    }
}

impl Config {
    /// The two distribution percentages never claim more than the whole
    /// amount between them.
    pub open spec fn wf(self) -> bool {
        self.settpay_ratio + self.serper_ratio <= 100
    }

    /// The configured base unit of `c`, if one is configured.
    pub open spec fn spec_base_unit(self, c: u64) -> Option<u64> {
        unit_in(self.base_units@, c)
    }

    /// Look up the configured base unit of `currency_id`.
    pub fn base_unit(&self, currency_id: u64) -> (r: Option<u64>)
        ensures
            r == self.spec_base_unit(currency_id),
    {
        let n = self.base_units.len();
        let mut i: usize = 0;
        proof {
            assert(self.base_units@.skip(0) =~= self.base_units@);
        }
        while i < n
            invariant
                i <= n,
                n == self.base_units.len(),
                unit_in(self.base_units@, currency_id) == unit_in(
                    self.base_units@.skip(i as int),
                    currency_id,
                ),
            decreases n - i,
        {
            let entry = self.base_units[i];
            proof {
                assert(self.base_units@.skip(i as int)[0] == self.base_units@[i as int]);
                assert(self.base_units@.skip(i as int).skip(1) =~= self.base_units@.skip(
                    i as int + 1,
                ));
            }
            if entry.currency == currency_id {
                return Some(entry.unit);
            }
            i = i + 1;
        }
        proof {
            assert(self.base_units@.skip(n as int).len() == 0);
        }
        None
    }
}

} // verus!
