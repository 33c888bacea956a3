use serp_market::{
    split, BaseUnitEntry, Config, Error, Event, Ledger, LedgerError, Price, SerpMarket, PRICE_ONE,
};

const DNAR: u64 = 1;
const JUSD: u64 = 2;
const SETTPAY: u64 = 10;
const SERPER: u64 = 20;
const ALICE: u64 = 30;

fn config() -> Config {
    Config {
        native_id: DNAR,
        settpay_account: SETTPAY,
        serper_account: SERPER,
        settpay_ratio: 75,
        serper_ratio: 25,
        serp_quote_multiple: 1,
        base_units: vec![
            BaseUnitEntry { currency: DNAR, unit: 1 },
            BaseUnitEntry { currency: JUSD, unit: 1000 },
        ],
    }
}

/// A market whose registry quotes the native asset at `native_observed`
/// and the stablecoin at its peg, over a ledger with 400_000 stablecoin
/// issued (100_000 of it reserved by the market maker) and 100_000 native
/// reserved by the market maker.
fn setup(native_observed: u64) -> (SerpMarket, Ledger) {
    let mut market = SerpMarket::new(config());
    let mut ledger = Ledger::new();
    ledger.deposit(JUSD, ALICE, 300_000).unwrap();
    ledger.deposit_reserved(JUSD, SERPER, 100_000).unwrap();
    ledger.deposit_reserved(DNAR, SERPER, 100_000).unwrap();
    market
        .get_stable_price(DNAR, Price::from_int(native_observed))
        .unwrap();
    market.get_stable_price(JUSD, Price::from_int(1)).unwrap();
    (market, ledger)
}

#[test]
fn expand_supply_should_work() {
    // A relative price of 1500 stablecoin units per native unit over a
    // base unit of 1000 quotes at 2: fraction 1.5 plus one times the 0.5
    // deviation.
    let (mut market, mut ledger) = setup(1_500_000);
    assert_eq!(market.expand_supply(&mut ledger, JUSD, 40_000), Ok(()));
    assert_eq!(ledger.free_balance(JUSD, SETTPAY), 30_000);
    assert_eq!(ledger.reserved_balance(JUSD, SERPER), 110_000);
    assert_eq!(ledger.reserved_balance(DNAR, SERPER), 95_000);
    assert_eq!(ledger.total_issuance(JUSD), 440_000);
    assert_eq!(ledger.total_issuance(DNAR), 95_000);
    assert_eq!(
        market.events,
        vec![
            Event::NewPrice(DNAR, Price { bits: 1_500_000 * PRICE_ONE }),
            Event::NewPrice(JUSD, Price { bits: 1000 * PRICE_ONE }),
            Event::NewPrice(DNAR, Price { bits: 1500 * PRICE_ONE }),
            Event::SerpedUpSupply(JUSD, 40_000),
            Event::NewPrice(JUSD, Price { bits: 2 * PRICE_ONE }),
        ]
    );
}

#[test]
fn contract_supply_should_work() {
    // A relative price of 2500 stablecoin units per native unit quotes at
    // 4: fraction 2.5 plus one times the 1.5 deviation.
    let (mut market, mut ledger) = setup(2_500_000);
    assert_eq!(market.contract_supply(&mut ledger, JUSD, 40_000), Ok(()));
    assert_eq!(ledger.reserved_balance(JUSD, SERPER), 60_000);
    assert_eq!(ledger.reserved_balance(DNAR, SERPER), 260_000);
    assert_eq!(ledger.total_issuance(JUSD), 360_000);
    assert_eq!(ledger.total_issuance(DNAR), 260_000);
    assert_eq!(
        market.events[2..],
        [
            Event::NewPrice(DNAR, Price { bits: 2500 * PRICE_ONE }),
            Event::SerpedDownSupply(JUSD, 40_000),
            Event::NewPrice(JUSD, Price { bits: 4 * PRICE_ONE }),
        ]
    );
}

#[test]
fn zero_amounts_are_no_ops() {
    let (mut market, mut ledger) = setup(1_500_000);
    let events_before = market.events.clone();
    assert_eq!(market.expand_supply(&mut ledger, JUSD, 0), Ok(()));
    assert_eq!(market.contract_supply(&mut ledger, JUSD, 0), Ok(()));
    assert_eq!(ledger.total_issuance(JUSD), 400_000);
    assert_eq!(ledger.total_issuance(DNAR), 100_000);
    assert_eq!(ledger.free_balance(JUSD, SETTPAY), 0);
    assert_eq!(ledger.reserved_balance(JUSD, SERPER), 100_000);
    assert_eq!(ledger.reserved_balance(DNAR, SERPER), 100_000);
    assert_eq!(market.events, events_before);
}

#[test]
fn native_asset_is_never_serped() {
    let (mut market, mut ledger) = setup(1_500_000);
    assert_eq!(
        market.expand_supply(&mut ledger, DNAR, 5),
        Err(Error::InvalidTarget)
    );
    assert_eq!(
        market.contract_supply(&mut ledger, DNAR, 5),
        Err(Error::InvalidTarget)
    );
    assert_eq!(ledger.total_issuance(DNAR), 100_000);
    assert_eq!(ledger.reserved_balance(DNAR, SERPER), 100_000);
}

#[test]
fn expand_guards_supply_overflow() {
    let (mut market, mut ledger) = setup(1_500_000);
    ledger.deposit(JUSD, ALICE, u64::MAX - 400_000).unwrap();
    assert_eq!(ledger.total_issuance(JUSD), u64::MAX);
    assert_eq!(
        market.expand_supply(&mut ledger, JUSD, 1),
        Err(Error::SupplyOverflow)
    );
    assert_eq!(ledger.total_issuance(JUSD), u64::MAX);
    assert_eq!(ledger.free_balance(JUSD, SETTPAY), 0);
    assert_eq!(ledger.reserved_balance(JUSD, SERPER), 100_000);
}

#[test]
fn contract_guards_supply_underflow() {
    let (mut market, mut ledger) = setup(2_500_000);
    assert_eq!(
        market.contract_supply(&mut ledger, JUSD, 400_001),
        Err(Error::SupplyUnderflow)
    );
    assert_eq!(ledger.total_issuance(JUSD), 400_000);
    assert_eq!(ledger.reserved_balance(JUSD, SERPER), 100_000);
}

#[test]
fn relative_price_needs_nonzero_quote() {
    let mut market = SerpMarket::new(config());
    let events_before = market.events.clone();
    assert_eq!(
        market.get_relative_price(DNAR, Price::from_int(5), JUSD, Price { bits: 0 }),
        Err(Error::PriceUnavailable)
    );
    assert_eq!(market.events, events_before);
    let rel = market
        .get_relative_price(DNAR, Price::from_int(6), JUSD, Price::from_int(3))
        .unwrap();
    assert_eq!(rel.bits, 2 * PRICE_ONE);
    assert_eq!(market.events, vec![Event::NewPrice(DNAR, rel)]);
}

#[test]
fn supply_change_aborts_on_unavailable_price() {
    // A recorded zero price for the stablecoin makes the relative price
    // computation a division by zero; both operations abort untouched.
    let mut market = SerpMarket::new(config());
    let mut ledger = Ledger::new();
    ledger.deposit_reserved(JUSD, SERPER, 100_000).unwrap();
    ledger.deposit_reserved(DNAR, SERPER, 100_000).unwrap();
    market
        .get_stable_price(DNAR, Price::from_int(1_500_000))
        .unwrap();
    market.get_stable_price(JUSD, Price::from_int(0)).unwrap();
    assert_eq!(
        market.expand_supply(&mut ledger, JUSD, 40_000),
        Err(Error::PriceUnavailable)
    );
    assert_eq!(
        market.contract_supply(&mut ledger, JUSD, 40_000),
        Err(Error::PriceUnavailable)
    );
    assert_eq!(ledger.reserved_balance(JUSD, SERPER), 100_000);
    assert_eq!(ledger.reserved_balance(DNAR, SERPER), 100_000);
    assert_eq!(ledger.total_issuance(JUSD), 100_000);
    assert_eq!(ledger.total_issuance(DNAR), 100_000);
}

#[test]
fn supply_change_aborts_on_missing_price() {
    let mut market = SerpMarket::new(config());
    let mut ledger = Ledger::new();
    ledger.deposit_reserved(JUSD, SERPER, 100_000).unwrap();
    assert_eq!(
        market.expand_supply(&mut ledger, JUSD, 40_000),
        Err(Error::PriceUnavailable)
    );
    assert_eq!(ledger.total_issuance(JUSD), 100_000);
}

#[test]
fn expand_needs_native_reserve() {
    // The market maker reserves only 100 native units, less than the
    // 5_000 the settlement would slash.
    let mut market = SerpMarket::new(config());
    let mut ledger = Ledger::new();
    ledger.deposit(JUSD, ALICE, 300_000).unwrap();
    ledger.deposit_reserved(JUSD, SERPER, 100_000).unwrap();
    ledger.deposit_reserved(DNAR, SERPER, 100).unwrap();
    market
        .get_stable_price(DNAR, Price::from_int(1_500_000))
        .unwrap();
    market.get_stable_price(JUSD, Price::from_int(1)).unwrap();
    assert_eq!(
        market.expand_supply(&mut ledger, JUSD, 40_000),
        Err(Error::LedgerFailure(LedgerError::InsufficientReserved))
    );
    assert_eq!(ledger.reserved_balance(DNAR, SERPER), 100);
    assert_eq!(ledger.total_issuance(JUSD), 400_000);
}

#[test]
fn contract_needs_native_headroom() {
    // The settlement of 160_000 native units cannot be minted on top of
    // an almost saturated native issuance.
    let (mut market, mut ledger) = setup(2_500_000);
    ledger.deposit(DNAR, ALICE, u64::MAX - 150_000).unwrap();
    assert_eq!(
        market.contract_supply(&mut ledger, JUSD, 40_000),
        Err(Error::LedgerFailure(LedgerError::Overflow))
    );
    assert_eq!(ledger.reserved_balance(JUSD, SERPER), 100_000);
    assert_eq!(ledger.total_issuance(JUSD), 400_000);
}

#[test]
fn contract_needs_reserved_stablecoin() {
    let (mut market, mut ledger) = setup(2_500_000);
    assert_eq!(
        market.contract_supply(&mut ledger, JUSD, 100_001),
        Err(Error::LedgerFailure(LedgerError::InsufficientReserved))
    );
    assert_eq!(ledger.reserved_balance(JUSD, SERPER), 100_000);
    assert_eq!(ledger.total_issuance(JUSD), 400_000);
}

#[test]
fn quote_adds_premium_above_peg() {
    let market = SerpMarket::new(config());
    // At the peg the quote is the raw fraction.
    let at_peg = market.quote_serp_price(JUSD, Price::from_int(1000)).unwrap();
    assert_eq!(at_peg.bits, PRICE_ONE);
    // Above the peg the deviation is amplified once more.
    let above = market.quote_serp_price(JUSD, Price::from_int(1500)).unwrap();
    assert_eq!(above.bits, 2 * PRICE_ONE);
    // Below the peg no premium is charged.
    let below = market.quote_serp_price(JUSD, Price::from_int(500)).unwrap();
    assert_eq!(below.bits, PRICE_ONE / 2);
    assert_eq!(
        market.quote_serp_price(99, Price::from_int(1000)),
        Err(Error::PriceUnavailable)
    );
}

#[test]
fn quote_is_monotone_in_the_price() {
    let market = SerpMarket::new(config());
    let mut last: u128 = 0;
    for observed in [0u64, 100, 500, 999, 1000, 1001, 1500, 2000, 1_000_000] {
        let quoted = market
            .quote_serp_price(JUSD, Price::from_int(observed))
            .unwrap();
        assert!(quoted.bits >= last);
        last = quoted.bits;
    }
}

#[test]
fn stable_price_scales_by_base_unit() {
    let mut market = SerpMarket::new(config());
    let sp = market.get_stable_price(JUSD, Price::from_int(3)).unwrap();
    assert_eq!(sp.bits, 3000 * PRICE_ONE);
    assert_eq!(
        market.get_stable_price(99, Price::from_int(3)),
        Err(Error::PriceUnavailable)
    );
}

#[test]
fn supply_change_follows_price_deviation() {
    let (market, ledger) = setup(1_500_000);
    // A price of twice the base unit deviates by one whole peg unit, so
    // the implied change is the whole issuance.
    let change = market
        .calculate_supply_change(&ledger, JUSD, Price::from_int(2000))
        .unwrap();
    assert_eq!(change, 400_000);
    // Half the base unit lies below the peg; the saturating deviation is
    // zero.
    let none = market
        .calculate_supply_change(&ledger, JUSD, Price::from_int(500))
        .unwrap();
    assert_eq!(none, 0);
    // One and a half base units imply half the issuance.
    let half = market
        .calculate_supply_change(&ledger, JUSD, Price::from_int(1500))
        .unwrap();
    assert_eq!(half, 200_000);
}

#[test]
fn split_is_proportional_and_bounded() {
    assert_eq!(split(40_000, 75, 25), (30_000, 10_000));
    assert_eq!(split(100, 30, 30), (30, 30));
    // Rounding can leave a residue even when the ratios sum to the whole.
    assert_eq!(split(1, 50, 50), (0, 0));
    let (a, b) = split(99, 33, 66);
    assert!(a + b <= 99);
    assert_eq!((a, b), (32, 65));
}

#[test]
fn issuance_invariant_survives_supply_changes() {
    let (mut market, mut ledger) = setup(1_500_000);
    market.expand_supply(&mut ledger, JUSD, 40_000).unwrap();
    market.contract_supply(&mut ledger, JUSD, 10_000).unwrap();
    for currency in [DNAR, JUSD] {
        let mut total: u64 = 0;
        for account in [SETTPAY, SERPER, ALICE] {
            total += ledger.free_balance(currency, account);
            total += ledger.reserved_balance(currency, account);
        }
        assert_eq!(ledger.total_issuance(currency), total);
    }
}
