//! Stabilization core for an elastic-supply pegged currency.
//!
//! The crate combines a saturating fixed-point arithmetic type ([`fixed`]),
//! a multi-asset ledger holding free balances, reserved balances and total
//! issuance per currency ([`ledger`]), a price registry and quotation engine
//! ([`prices`], [`market`]), and a proportional distribution policy
//! ([`distribution`]). The controller in [`market`] decides whether minting
//! or burning a pegged currency is admissible, settles the value of the
//! change against a native reserve asset, and records the quoted price.

pub mod config;
pub mod distribution;
pub mod fixed;
pub mod ledger;
pub mod market;
pub mod prices;

pub use config::{BaseUnitEntry, Config};
pub use distribution::split;
pub use fixed::{Price, PRICE_ONE};
pub use ledger::{AccountEntry, IssuanceEntry, Ledger, LedgerError};
pub use market::{Error, Event, SerpMarket};
pub use prices::PriceRegistry;
