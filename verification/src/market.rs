//! The price quotation engine and the supply elasticity controller.
//!
//! The controller reads the latest recorded prices of the native reserve
//! asset and of the target currency, quotes a settlement price with a
//! premium proportional to the deviation from the peg, splits expansion
//! proceeds between the stability fund and the market maker, and settles
//! the change against the market maker's native reserve. Every check runs
//! before the first mutation: a failed call leaves the ledger, the price
//! registry and the event log exactly as they were.

use vstd::prelude::*;
use crate::config::Config;
use crate::distribution::lemma_split_round_trip;
use crate::distribution::spec_share;
use crate::distribution::split;
use crate::fixed::price;
use crate::fixed::sat_u128;
use crate::fixed::sat_u64;
use crate::fixed::Price;
use crate::fixed::PRICE_ONE;
use crate::ledger::Ledger;
use crate::ledger::LedgerError;
use crate::prices::PriceRegistry;

verus! {

use vstd::arithmetic::div_mod::lemma_div_is_ordered;
use vstd::arithmetic::mul::lemma_mul_inequality;

/// Why an operation of the controller failed. A failed operation changes
/// nothing.
#[derive(Clone, Copy, PartialEq, Eq, Structural, Debug)]
pub enum Error {
    /// The operation targeted the native reserve asset.
    InvalidTarget,
    /// Expanding would push the currency's issuance past `u64::MAX`.
    SupplyOverflow,
    /// Contracting would draw more than the currency's issuance.
    SupplyUnderflow,
    /// A needed price is missing from the registry, or a quotation ran
    /// into a zero denominator.
    PriceUnavailable,
    /// A ledger primitive refused the settlement; the reason is passed on
    /// unchanged.
    LedgerFailure(LedgerError),
}

/// A notification the controller emits, in the order emitted.
#[derive(Clone, Copy, PartialEq, Eq, Structural, Debug)]
pub enum Event {
    /// The supply of the currency was expanded by the amount.
    SerpedUpSupply(u64, u64),
    /// The supply of the currency was contracted by the amount.
    SerpedDownSupply(u64, u64),
    /// A new price was recorded for the currency.
    NewPrice(u64, Price),
}

/// The stabilization controller: immutable configuration, the price
/// registry it maintains, and the log of notifications it has emitted.
pub struct SerpMarket {
    pub config: Config,
    pub prices: PriceRegistry,
    pub events: Vec<Event>,
}

/// The stabilization quote for a price with bit pattern `price_bits`:
/// the peg fraction `price / unit`, raised by `multiple` times its
/// deviation above one. A price at or below the peg carries no premium.
pub open spec fn spec_quote(price_bits: u128, unit: u64, multiple: u64) -> u128 {
    let fraction = price_bits as int / unit as int;
    let deviation = if fraction >= PRICE_ONE as int {
        fraction - PRICE_ONE as int
    } else {
        0
    };
    let premium = sat_u128(deviation * multiple) as int;
    sat_u128(fraction + premium)
}

/// The stabilization quote never falls when the price rises: for a fixed
/// base unit and amplification factor it is monotone in the quoted price.
pub proof fn lemma_quote_monotonic(p1: u128, p2: u128, unit: u64, multiple: u64)
    requires
        p1 <= p2,
        unit > 0,
    ensures
        spec_quote(p1, unit, multiple) <= spec_quote(p2, unit, multiple),
{
    lemma_div_is_ordered(p1 as int, p2 as int, unit as int);
    let f1 = p1 as int / unit as int;
    let f2 = p2 as int / unit as int;
    let d1 = if f1 >= PRICE_ONE as int {
        f1 - PRICE_ONE as int
    } else {
        0
    };
    let d2 = if f2 >= PRICE_ONE as int {
        f2 - PRICE_ONE as int
    } else {
        0
    };
    lemma_mul_inequality(d1, d2, multiple as int);
}

impl SerpMarket {
    /// The configuration is well-formed.
    pub open spec fn wf(self) -> bool {
        self.config.wf()
    }

    /// A controller with the given configuration, an empty price registry
    /// and an empty event log.
    pub fn new(config: Config) -> (r: SerpMarket)
        requires
            config.wf(),
        ensures
            r.wf(),
            r.config == config,
            forall|c: u64| r.prices.spec_price(c) is None,
            r.events@.len() == 0,
    {
        SerpMarket { config: config, prices: PriceRegistry::new(), events: Vec::new() }
    }

    /// Bit pattern of the registry price of the native asset, zero when
    /// none is recorded.
    pub open spec fn spec_native_bits(self) -> u128 {
        match self.prices.spec_price(self.config.native_id) {
            Some(p) => p.bits,
            None => 0,
        }
    }

    /// Bit pattern of the registry price of `c`, zero when none is
    /// recorded.
    pub open spec fn spec_stable_bits(self, c: u64) -> u128 {
        match self.prices.spec_price(c) {
            Some(p) => p.bits,
            None => 0,
        }
    }

    /// The base unit of `c`, zero when none is configured.
    pub open spec fn spec_unit(self, c: u64) -> u64 {
        match self.config.spec_base_unit(c) {
            Some(u) => u,
            None => 0,
        }
    }

    /// Bit pattern of the relative price of the native asset in terms of
    /// `c`, as the controller computes it from the registry.
    pub open spec fn spec_relative_bits(self, c: u64) -> u128 {
        sat_u128(self.spec_native_bits() * PRICE_ONE / self.spec_stable_bits(c) as int)
    }

    /// Bit pattern of the settlement quote for `c`.
    pub open spec fn spec_quoted_bits(self, c: u64) -> u128 {
        spec_quote(self.spec_relative_bits(c), self.spec_unit(c), self.config.serp_quote_multiple)
    }

    /// Everything a supply change needs from the registry and the
    /// configuration is present and usable.
    pub open spec fn spec_prices_ready(self, c: u64) -> bool {
        &&& self.prices.spec_price(self.config.native_id) is Some
        &&& self.prices.spec_price(c) is Some
        &&& self.spec_stable_bits(c) != 0
        &&& self.config.spec_base_unit(c) is Some
        &&& self.spec_unit(c) != 0
    }

    /// Native settlement owed by the market maker for its share of an
    /// expansion by `amount`: the share divided by the quoted price.
    pub open spec fn spec_expand_settlement(self, c: u64, amount: u64) -> u64 {
        sat_u64(spec_share(amount, self.config.serper_ratio) * PRICE_ONE / self.spec_quoted_bits(
            c,
        ) as int)
    }

    /// Native settlement returned to the market maker for a contraction by
    /// `amount`: the amount scaled by the quoted price.
    pub open spec fn spec_contract_settlement(self, c: u64, amount: u64) -> u64 {
        sat_u64(self.spec_quoted_bits(c) * amount / PRICE_ONE as int)
    }

    /// Record and return the relative price of `base_id` in terms of
    /// `quote_id`: how much quote currency one base unit of the base
    /// currency is worth. Undefined when the quote price is zero; nothing
    /// changes then.
    pub fn get_relative_price(
        &mut self,
        base_id: u64,
        base_price: Price,
        quote_id: u64,
        quote_price: Price,
    ) -> (r: Result<Price, Error>)
        ensures
            final(self).config == old(self).config,
            (r is Err) <==> quote_price.bits == 0,
            r is Err ==> r == Err::<Price, Error>(Error::PriceUnavailable) && *final(self) == *old(self),
            r is Ok ==> ({
                let rel = price(sat_u128(base_price.bits * PRICE_ONE / quote_price.bits as int));
                &&& r == Ok::<Price, Error>(rel)
                &&& final(self).prices.spec_price(base_id) == Some(rel)
                &&& (forall|c2: u64|
                    c2 != base_id ==> final(self).prices.spec_price(c2) == old(self).prices.spec_price(c2))
                &&& final(self).events@ == old(self).events@.push(Event::NewPrice(base_id, rel))
            }),
    {
        let rel = match base_price.div_fixed(quote_price) {
            Some(p) => p,
            None => {
                return Err(Error::PriceUnavailable);
            },
        };
        self.prices.set_price(base_id, rel);
        self.events.push(Event::NewPrice(base_id, rel));
        Ok(rel)
    }

    /// Normalize an externally observed peg price of `currency_id` into
    /// internal units by scaling it with the currency's base unit, record
    /// it, and return it. Fails when the currency has no configured base
    /// unit; nothing changes then.
    pub fn get_stable_price(&mut self, currency_id: u64, base_price: Price) -> (r: Result<
        Price,
        Error,
    >)
        ensures
            final(self).config == old(self).config,
            (r is Err) <==> old(self).config.spec_base_unit(currency_id) is None,
            r is Err ==> r == Err::<Price, Error>(Error::PriceUnavailable) && *final(self) == *old(self),
            match old(self).config.spec_base_unit(currency_id) {
                Some(unit) => ({
                    let sp = price(sat_u128(base_price.bits * unit));
                    &&& r == Ok::<Price, Error>(sp)
                    &&& final(self).prices.spec_price(currency_id) == Some(sp)
                    &&& (forall|c2: u64|
                        c2 != currency_id ==> final(self).prices.spec_price(c2) == old(self).prices.spec_price(c2))
                    &&& final(self).events@ == old(self).events@.push(
                        Event::NewPrice(currency_id, sp),
                    )
                }),
                None => true,
            },
    {
        let unit = match self.config.base_unit(currency_id) {
            Some(u) => u,
            None => {
                return Err(Error::PriceUnavailable);
            },
        };
        let sp = base_price.mul_int(unit);
        self.prices.set_price(currency_id, sp);
        self.events.push(Event::NewPrice(currency_id, sp));
        Ok(sp)
    }

    /// The stabilization quote for an observed price of `currency_id`: the
    /// peg fraction plus the configured premium on its deviation above the
    /// peg. Fails when the currency has no usable base unit.
    pub fn quote_serp_price(&self, currency_id: u64, observed: Price) -> (r: Result<Price, Error>)
        ensures
            match self.config.spec_base_unit(currency_id) {
                Some(unit) => if unit == 0 {
                    r == Err::<Price, Error>(Error::PriceUnavailable)
                } else {
                    r == Ok::<Price, Error>(
                        price(spec_quote(observed.bits, unit, self.config.serp_quote_multiple)),
                    )
                },
                None => r == Err::<Price, Error>(Error::PriceUnavailable),
            },
    {
        let unit = match self.config.base_unit(currency_id) {
            Some(u) => u,
            None => {
                return Err(Error::PriceUnavailable);
            },
        };
        if unit == 0 {
            return Err(Error::PriceUnavailable);
        }
        let fraction = match observed.div_int(unit) {
            Some(p) => p,
            None => {
                return Err(Error::PriceUnavailable);
            },
        };
        let one = Price { bits: PRICE_ONE };
        let deviation = fraction.saturating_sub(one);
        let premium = deviation.mul_int(self.config.serp_quote_multiple);
        let quoted = fraction.saturating_add(premium);
        Ok(quoted)
    }

    /// The raw magnitude of supply change a newly observed price implies:
    /// the deviation fraction `new_price / base_unit - 1`, scaled by the
    /// currency's current total issuance, rounding down and saturating.
    pub fn calculate_supply_change(
        &self,
        ledger: &Ledger,
        currency_id: u64,
        new_price: Price,
    ) -> (r: Result<u64, Error>)
        ensures
            match self.config.spec_base_unit(currency_id) {
                Some(unit) => if unit == 0 {
                    r == Err::<u64, Error>(Error::PriceUnavailable)
                } else {
                    ({
                        let fraction = new_price.bits as int / unit as int;
                        let deviation = sat_u128(fraction - PRICE_ONE as int);
                        r == Ok::<u64, Error>(
                            sat_u64(
                                deviation * ledger.spec_issuance(currency_id)
                                    / PRICE_ONE as int,
                            ),
                        )
                    })
                },
                None => r == Err::<u64, Error>(Error::PriceUnavailable),
            },
    {
        let unit = match self.config.base_unit(currency_id) {
            Some(u) => u,
            None => {
                return Err(Error::PriceUnavailable);
            },
        };
        if unit == 0 {
            return Err(Error::PriceUnavailable);
        }
        let fraction = match new_price.div_int(unit) {
            Some(p) => p,
            None => {
                return Err(Error::PriceUnavailable);
            },
        };
        let one = Price { bits: PRICE_ONE };
        let deviation = fraction.saturating_sub(one);
        let issuance = ledger.total_issuance(currency_id);
        Ok(deviation.mul_int_floor(issuance))
    }

    /// Which result an expansion of `c` by `amount` returns, check by
    /// check, against the given ledger state.
    pub open spec fn spec_expand_check(self, ledger: Ledger, c: u64, amount: u64) -> Result<
        (),
        Error,
    > {
        if amount == 0 {
            Ok(())
        } else if c == self.config.native_id {
            Err(Error::InvalidTarget)
        } else if ledger.spec_issuance(c) + amount > u64::MAX {
            Err(Error::SupplyOverflow)
        } else if !self.spec_prices_ready(c) {
            Err(Error::PriceUnavailable)
        } else if self.spec_quoted_bits(c) == 0 {
            Err(Error::PriceUnavailable)
        } else if ledger.spec_reserved(self.config.native_id, self.config.serper_account)
            < self.spec_expand_settlement(c, amount) {
            Err(Error::LedgerFailure(LedgerError::InsufficientReserved))
        } else {
            Ok(())
        }
    }

    /// Which result a contraction of `c` by `amount` returns, check by
    /// check, against the given ledger state.
    pub open spec fn spec_contract_check(self, ledger: Ledger, c: u64, amount: u64) -> Result<
        (),
        Error,
    > {
        if amount == 0 {
            Ok(())
        } else if c == self.config.native_id {
            Err(Error::InvalidTarget)
        } else if ledger.spec_issuance(c) < amount {
            Err(Error::SupplyUnderflow)
        } else if !self.spec_prices_ready(c) {
            Err(Error::PriceUnavailable)
        } else if ledger.spec_reserved(c, self.config.serper_account) < amount {
            Err(Error::LedgerFailure(LedgerError::InsufficientReserved))
        } else if ledger.spec_issuance(self.config.native_id) + self.spec_contract_settlement(
            c,
            amount,
        ) > u64::MAX {
            Err(Error::LedgerFailure(LedgerError::Overflow))
        } else {
            Ok(())
        }
    }

    /// Expand the supply of `currency_id` by `expand_by`.
    ///
    /// The expansion is split between the stability fund, which receives
    /// its share as free balance, and the market maker, whose share is
    /// minted into its reserved balance and paid for by slashing the
    /// equivalent native-asset value, at the quoted settlement price, from
    /// its native reserve. The relative price and the quote are recorded
    /// in the registry and notifications are emitted. Every check runs
    /// before the first mutation, so a failed call changes nothing; a
    /// zero amount succeeds and changes nothing.
    pub fn expand_supply(&mut self, ledger: &mut Ledger, currency_id: u64, expand_by: u64) -> (r:
        Result<(), Error>)
        requires
            old(self).wf(),
            old(ledger).wf(),
        ensures
            final(self).wf(),
            final(ledger).wf(),
            final(self).config == old(self).config,
            r == old(self).spec_expand_check(*old(ledger), currency_id, expand_by),
            !(r is Ok && expand_by > 0) ==> *final(self) == *old(self) && *final(ledger) == *old(ledger),
            r is Ok && expand_by > 0 ==> ({
                let native = old(self).config.native_id;
                let fund = old(self).config.settpay_account;
                let maker = old(self).config.serper_account;
                let to_fund = spec_share(expand_by, old(self).config.settpay_ratio);
                let to_maker = spec_share(expand_by, old(self).config.serper_ratio);
                let settle = old(self).spec_expand_settlement(currency_id, expand_by);
                let rel = price(old(self).spec_relative_bits(currency_id));
                let quoted = price(old(self).spec_quoted_bits(currency_id));
                &&& final(ledger).spec_free(currency_id, fund) == old(ledger).spec_free(
                    currency_id,
                    fund,
                ) + to_fund
                &&& final(ledger).spec_reserved(currency_id, maker) == old(ledger).spec_reserved(
                    currency_id,
                    maker,
                ) + to_maker
                &&& final(ledger).spec_reserved(native, maker) == old(ledger).spec_reserved(
                    native,
                    maker,
                ) - settle
                &&& final(ledger).spec_issuance(currency_id) == old(ledger).spec_issuance(
                    currency_id,
                ) + to_fund + to_maker
                &&& final(ledger).spec_issuance(native) == old(ledger).spec_issuance(native)
                    - settle
                &&& (forall|c2: u64|
                    c2 != currency_id && c2 != native ==> final(ledger).spec_issuance(c2) == old(ledger).spec_issuance(c2))
                &&& (forall|c2: u64, a2: u64|
                    !(c2 == currency_id && a2 == fund) ==> final(ledger).spec_free(c2, a2) == old(ledger).spec_free(c2, a2))
                &&& (forall|c2: u64, a2: u64|
                    !((c2 == currency_id || c2 == native) && a2 == maker) ==> final(ledger).spec_reserved(c2, a2) == old(ledger).spec_reserved(c2, a2))
                &&& final(self).prices.spec_price(native) == Some(rel)
                &&& final(self).prices.spec_price(currency_id) == Some(quoted)
                &&& (forall|c2: u64|
                    c2 != currency_id && c2 != native ==> final(self).prices.spec_price(c2) == old(self).prices.spec_price(c2))
                &&& final(self).events@ == old(self).events@.push(Event::NewPrice(native, rel))
                    .push(Event::SerpedUpSupply(currency_id, expand_by)).push(
                    Event::NewPrice(currency_id, quoted),
                )
            }),
    {
        let native = self.config.native_id;
        let fund = self.config.settpay_account;
        let maker = self.config.serper_account;
        if expand_by == 0 {
            return Ok(());
        }
        if currency_id == native {
            return Err(Error::InvalidTarget);
        }
        let supply = ledger.total_issuance(currency_id);
        if expand_by > u64::MAX - supply {
            return Err(Error::SupplyOverflow);
        }
        let native_price = match self.prices.price(native) {
            Some(p) => p,
            None => {
                return Err(Error::PriceUnavailable);
            },
        };
        let stable_price = match self.prices.price(currency_id) {
            Some(p) => p,
            None => {
                return Err(Error::PriceUnavailable);
            },
        };
        if stable_price.bits == 0 {
            return Err(Error::PriceUnavailable);
        }
        let rel = match native_price.div_fixed(stable_price) {
            Some(p) => p,
            None => {
                return Err(Error::PriceUnavailable);
            },
        };
        let quoted = match self.quote_serp_price(currency_id, rel) {
            Ok(p) => p,
            Err(e) => {
                return Err(e);
            },
        };
        if quoted.bits == 0 {
            return Err(Error::PriceUnavailable);
        }
        let shares = split(expand_by, self.config.settpay_ratio, self.config.serper_ratio);
        let to_fund = shares.0;
        let to_maker = shares.1;
        let settle = match quoted.div_into(to_maker) {
            Some(s) => s,
            None => {
                return Err(Error::PriceUnavailable);
            },
        };
        if ledger.reserved_balance(native, maker) < settle {
            return Err(Error::LedgerFailure(LedgerError::InsufficientReserved));
        }
        // Every check has passed; commit the mutations.
        proof {
            lemma_split_round_trip(
                expand_by,
                self.config.settpay_ratio,
                self.config.serper_ratio,
            );
        }
        match ledger.deposit(currency_id, fund, to_fund) {
            Ok(u) => u,
            Err(e) => {
                return Err(Error::LedgerFailure(e));
            },
        };
        match ledger.deposit_reserved(currency_id, maker, to_maker) {
            Ok(u) => u,
            Err(e) => {
                return Err(Error::LedgerFailure(e));
            },
        };
        match ledger.slash_reserved(native, maker, settle) {
            Ok(u) => u,
            Err(e) => {
                return Err(Error::LedgerFailure(e));
            },
        };
        self.prices.set_price(native, rel);
        self.events.push(Event::NewPrice(native, rel));
        self.events.push(Event::SerpedUpSupply(currency_id, expand_by));
        self.prices.set_price(currency_id, quoted);
        self.events.push(Event::NewPrice(currency_id, quoted));
        Ok(())
    }

    /// Contract the supply of `currency_id` by `contract_by`.
    ///
    /// The whole amount is slashed from the market maker's reserved
    /// balance of the currency, and the native-asset value of the amount
    /// at the quoted settlement price is minted back into the market
    /// maker's native reserve. The relative price and the quote are
    /// recorded in the registry and notifications are emitted. Every
    /// check runs before the first mutation, so a failed call changes
    /// nothing; a zero amount succeeds and changes nothing.
    pub fn contract_supply(&mut self, ledger: &mut Ledger, currency_id: u64, contract_by: u64) -> (r:
        Result<(), Error>)
        requires
            old(self).wf(),
            old(ledger).wf(),
        ensures
            final(self).wf(),
            final(ledger).wf(),
            final(self).config == old(self).config,
            r == old(self).spec_contract_check(*old(ledger), currency_id, contract_by),
            !(r is Ok && contract_by > 0) ==> *final(self) == *old(self) && *final(ledger) == *old(ledger),
            r is Ok && contract_by > 0 ==> ({
                let native = old(self).config.native_id;
                let maker = old(self).config.serper_account;
                let settle = old(self).spec_contract_settlement(currency_id, contract_by);
                let rel = price(old(self).spec_relative_bits(currency_id));
                let quoted = price(old(self).spec_quoted_bits(currency_id));
                &&& final(ledger).spec_reserved(currency_id, maker) == old(ledger).spec_reserved(
                    currency_id,
                    maker,
                ) - contract_by
                &&& final(ledger).spec_reserved(native, maker) == old(ledger).spec_reserved(
                    native,
                    maker,
                ) + settle
                &&& final(ledger).spec_issuance(currency_id) == old(ledger).spec_issuance(
                    currency_id,
                ) - contract_by
                &&& final(ledger).spec_issuance(native) == old(ledger).spec_issuance(native)
                    + settle
                &&& (forall|c2: u64|
                    c2 != currency_id && c2 != native ==> final(ledger).spec_issuance(c2) == old(ledger).spec_issuance(c2))
                &&& (forall|c2: u64, a2: u64|
                    final(ledger).spec_free(c2, a2) == old(ledger).spec_free(c2, a2))
                &&& (forall|c2: u64, a2: u64|
                    !((c2 == currency_id || c2 == native) && a2 == maker) ==> final(ledger).spec_reserved(c2, a2) == old(ledger).spec_reserved(c2, a2))
                &&& final(self).prices.spec_price(native) == Some(rel)
                &&& final(self).prices.spec_price(currency_id) == Some(quoted)
                &&& (forall|c2: u64|
                    c2 != currency_id && c2 != native ==> final(self).prices.spec_price(c2) == old(self).prices.spec_price(c2))
                &&& final(self).events@ == old(self).events@.push(Event::NewPrice(native, rel))
                    .push(Event::SerpedDownSupply(currency_id, contract_by)).push(
                    Event::NewPrice(currency_id, quoted),
                )
            }),
    {
        let native = self.config.native_id;
        let maker = self.config.serper_account;
        if contract_by == 0 {
            return Ok(());
        }
        if currency_id == native {
            return Err(Error::InvalidTarget);
        }
        let supply = ledger.total_issuance(currency_id);
        if supply < contract_by {
            return Err(Error::SupplyUnderflow);
        }
        let native_price = match self.prices.price(native) {
            Some(p) => p,
            None => {
                return Err(Error::PriceUnavailable);
            },
        };
        let stable_price = match self.prices.price(currency_id) {
            Some(p) => p,
            None => {
                return Err(Error::PriceUnavailable);
            },
        };
        if stable_price.bits == 0 {
            return Err(Error::PriceUnavailable);
        }
        let rel = match native_price.div_fixed(stable_price) {
            Some(p) => p,
            None => {
                return Err(Error::PriceUnavailable);
            },
        };
        let quoted = match self.quote_serp_price(currency_id, rel) {
            Ok(p) => p,
            Err(e) => {
                return Err(e);
            },
        };
        let settle = quoted.mul_int_floor(contract_by);
        if ledger.reserved_balance(currency_id, maker) < contract_by {
            return Err(Error::LedgerFailure(LedgerError::InsufficientReserved));
        }
        let native_issuance = ledger.total_issuance(native);
        if settle > u64::MAX - native_issuance {
            return Err(Error::LedgerFailure(LedgerError::Overflow));
        }
        // Every check has passed; commit the mutations.
        match ledger.slash_reserved(currency_id, maker, contract_by) {
            Ok(u) => u,
            Err(e) => {
                return Err(Error::LedgerFailure(e));
            },
        };
        match ledger.deposit_reserved(native, maker, settle) {
            Ok(u) => u,
            Err(e) => {
                return Err(Error::LedgerFailure(e));
            },
        };
        self.prices.set_price(native, rel);
        self.events.push(Event::NewPrice(native, rel));
        self.events.push(Event::SerpedDownSupply(currency_id, contract_by));
        self.prices.set_price(currency_id, quoted);
        self.events.push(Event::NewPrice(currency_id, quoted));
        Ok(())
    }
}

} // verus!
