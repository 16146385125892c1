use token_mill::constant::{BASE_PRECISION, MAX_PRICE, MAX_TOTAL_SUPPLY, PRICES_LENGTH};
use token_mill::errors::MarketError;
use token_mill::market::{Market, MarketFees, SwapAmountType};
use token_mill::math::{div, mul_div, pow10_checked, Rounding};

fn fresh_market() -> Market {
    Market {
        base_reserve: 0,
        bid_prices: [0; PRICES_LENGTH],
        ask_prices: [0; PRICES_LENGTH],
        width_scaled: 0,
        total_supply: 0,
        fees: MarketFees {
            staking_fee_share: 0,
            creator_fee_share: 0,
            pending_staking_fees: 0,
            pending_creator_fees: 0,
        },
        quote_token_decimals: 0,
    }
}

/// Ten-million whole base tokens, in base units.
const TEST_SUPPLY: u64 = 10_000_000 * BASE_PRECISION;

fn rising_prices() -> [u64; PRICES_LENGTH] {
    let mut p = [0u64; PRICES_LENGTH];
    let mut i = 0;
    while i < PRICES_LENGTH {
        p[i] = (i as u64 + 1) * 1_000_000;
        i += 1;
    }
    p
}

fn test_market(creator_share: u16, staking_share: u16) -> Market {
    let mut m = fresh_market();
    m.initialize(6, TEST_SUPPLY, creator_share, staking_share)
        .unwrap();
    m.check_and_set_prices(rising_prices(), rising_prices())
        .unwrap();
    m
}

#[test]
fn initialize_rejects_bad_total_supply() {
    let mut m = fresh_market();
    assert_eq!(
        m.initialize(6, MAX_TOTAL_SUPPLY + 1, 0, 0),
        Err(MarketError::InvalidTotalSupply)
    );
    assert_eq!(
        m.initialize(6, MAX_TOTAL_SUPPLY + 10, 0, 0),
        Err(MarketError::InvalidTotalSupply)
    );
    // not an exact multiple of the interval count
    assert_eq!(
        m.initialize(6, TEST_SUPPLY + 1, 0, 0),
        Err(MarketError::InvalidTotalSupply)
    );
    // below one precision unit per interval
    assert_eq!(
        m.initialize(6, 10 * BASE_PRECISION - 10, 0, 0),
        Err(MarketError::InvalidTotalSupply)
    );
    assert_eq!(m.initialize(6, 10 * BASE_PRECISION, 0, 0), Ok(()));
    assert_eq!(m.total_supply, 10 * BASE_PRECISION);
    assert_eq!(m.base_reserve, 10 * BASE_PRECISION);
    assert_eq!(m.width_scaled, BASE_PRECISION * 10_000);
}

#[test]
fn largest_market_quotes_whole_curve() {
    let mut m = fresh_market();
    m.initialize(0, MAX_TOTAL_SUPPLY, 0, 0).unwrap();
    let mut bid = [0u64; PRICES_LENGTH];
    let mut ask = [0u64; PRICES_LENGTH];
    let mut i = 0;
    while i < PRICES_LENGTH {
        bid[i] = MAX_PRICE - 10 + i as u64;
        ask[i] = MAX_PRICE - 10 + i as u64;
        i += 1;
    }
    m.check_and_set_prices(bid, ask).unwrap();
    let (base, quote) = m
        .get_quote_amount(MAX_TOTAL_SUPPLY, SwapAmountType::ExactOutput)
        .unwrap();
    assert_eq!(base, MAX_TOTAL_SUPPLY);
    assert!(quote > 0);
}

#[test]
fn prices_validated_and_set_exactly_once() {
    let mut m = fresh_market();
    m.initialize(6, TEST_SUPPLY, 0, 0).unwrap();
    assert!(!m.are_prices_set());

    let mut bad_bid = rising_prices();
    bad_bid[3] = rising_prices()[3] + 1; // bid above ask at index 3
    assert_eq!(
        m.check_and_set_prices(bad_bid, rising_prices()),
        Err(MarketError::BidAskMismatch)
    );

    let mut flat_bid = rising_prices();
    let mut flat_ask = rising_prices();
    flat_bid[5] = flat_bid[4]; // not strictly increasing
    flat_ask[5] = flat_ask[4];
    assert_eq!(
        m.check_and_set_prices(flat_bid, flat_ask),
        Err(MarketError::DecreasingPrices)
    );

    let mut bid_too_high = rising_prices();
    let mut ask_too_high = rising_prices();
    let mut i = 0;
    while i < PRICES_LENGTH {
        bid_too_high[i] = MAX_PRICE - 9 + i as u64;
        ask_too_high[i] = MAX_PRICE - 9 + i as u64;
        i += 1;
    }
    assert_eq!(
        m.check_and_set_prices(bid_too_high, ask_too_high),
        Err(MarketError::PriceTooHigh)
    );

    assert!(!m.are_prices_set());
    assert_eq!(m.check_and_set_prices(rising_prices(), rising_prices()), Ok(()));
    assert!(m.are_prices_set());

    // a second call is rejected even with different, themselves valid values
    let mut other = rising_prices();
    let mut i = 0;
    while i < PRICES_LENGTH {
        other[i] += 7;
        i += 1;
    }
    assert_eq!(
        m.check_and_set_prices(other, other),
        Err(MarketError::PricesAlreadySet)
    );
    assert_eq!(m.bid_prices, rising_prices());
}

#[test]
fn distribute_fee_sums_to_swap_fee() {
    let cases: [(u16, u16, Option<u16>); 7] = [
        (2_000, 3_000, None),
        (2_000, 3_000, Some(0)),
        (2_000, 3_000, Some(10_000)),
        (5_000, 5_000, None),
        (5_000, 5_000, Some(2_500)),
        (0, 0, Some(10_000)),
        (10_000, 0, None),
    ];
    for (creator_share, staking_share, referral_share) in cases {
        let mut fees = MarketFees {
            staking_fee_share: staking_share,
            creator_fee_share: creator_share,
            pending_staking_fees: 3,
            pending_creator_fees: 4,
        };
        let swap_fee = 1_000_000_007u64;
        let (creator, staking, protocol, referral) =
            fees.distribute_fee(swap_fee, referral_share).unwrap();
        assert_eq!(creator + staking + protocol + referral, swap_fee);
        assert_eq!(
            creator,
            (swap_fee as u128 * creator_share as u128 / 10_000) as u64
        );
        assert_eq!(
            staking,
            (swap_fee as u128 * staking_share as u128 / 10_000) as u64
        );
        assert_eq!(fees.pending_creator_fees, 4 + creator);
        assert_eq!(fees.pending_staking_fees, 3 + staking);
    }
}

#[test]
fn distribute_fee_exact_split() {
    let mut fees = MarketFees {
        staking_fee_share: 1_500,
        creator_fee_share: 2_500,
        pending_staking_fees: 0,
        pending_creator_fees: 0,
    };
    let r = fees.distribute_fee(10_000, Some(1_000)).unwrap();
    // creator 25%, staking 15%, of the rest 10% to the referrer
    assert_eq!(r, (2_500, 1_500, 5_400, 600));
}

#[test]
fn distribute_fee_rejects_shares_above_full() {
    let mut fees = MarketFees {
        staking_fee_share: 8_000,
        creator_fee_share: 8_000,
        pending_staking_fees: 0,
        pending_creator_fees: 0,
    };
    assert_eq!(
        fees.distribute_fee(10_000, None),
        Err(MarketError::MathError)
    );
    assert_eq!(fees.pending_creator_fees, 0);
    assert_eq!(fees.pending_staking_fees, 0);
}

#[test]
fn one_interval_buy_matches_trapezoid_area() {
    let mut m = test_market(0, 0);
    assert_eq!(m.circulating_supply(), 0);
    let interval_base = TEST_SUPPLY / 10;
    let (base, quote) = m
        .get_quote_amount(interval_base, SwapAmountType::ExactOutput)
        .unwrap();
    assert_eq!(base, interval_base);
    // closed-form trapezoid area over one segment: amount * (p0 + p1) / 2,
    // rescaled from price precision into quote-token precision
    let p0 = 1_000_000u128;
    let p1 = 2_000_000u128;
    let expected = interval_base as u128 * (p0 + p1) / 2 * 1_000_000
        / (BASE_PRECISION as u128 * 10_000_000_000);
    assert_eq!(quote as u128, expected);
    assert_eq!(quote, 150_000_000);
}

#[test]
fn exact_output_caps_at_base_reserve() {
    let mut m = test_market(0, 0);
    m.base_reserve = TEST_SUPPLY / 2; // half the supply already sold
    let reserve = m.base_reserve;

    // exactly the reserve: the curve is exhausted with zero unspent base
    let (base, _quote) = m
        .get_quote_amount(reserve, SwapAmountType::ExactOutput)
        .unwrap();
    assert_eq!(base, reserve);

    // more than the reserve: settled base is capped at the reserve
    let (base, quote_capped) = m
        .get_quote_amount(reserve + 12_345, SwapAmountType::ExactOutput)
        .unwrap();
    assert_eq!(base, reserve);
    let (_, quote_exact) = m
        .get_quote_amount(reserve, SwapAmountType::ExactOutput)
        .unwrap();
    assert_eq!(quote_capped, quote_exact);
}

#[test]
fn exact_input_needs_circulating_supply() {
    let m = test_market(0, 0);
    // nothing sold yet: selling anything is a math error
    assert_eq!(
        m.get_quote_amount(1, SwapAmountType::ExactInput),
        Err(MarketError::MathError)
    );
}

#[test]
fn round_trip_never_profits() {
    let mut m = test_market(0, 0);
    m.base_reserve = TEST_SUPPLY / 2;
    let amounts = [1u64, 999, BASE_PRECISION, 3 * TEST_SUPPLY / 10 + 17];
    for base in amounts {
        let (_, sell_quote) = m.get_quote_amount(base, SwapAmountType::ExactInput).unwrap();
        let mut after_sell = m;
        after_sell.base_reserve = m.base_reserve + base;
        let (buy_base, buy_quote) = after_sell
            .get_quote_amount(base, SwapAmountType::ExactOutput)
            .unwrap();
        assert_eq!(buy_base, base);
        assert!(sell_quote <= buy_quote);
    }
}

#[test]
fn quote_is_monotone_in_base_amount() {
    let mut m = test_market(0, 0);
    m.base_reserve = TEST_SUPPLY / 2;
    let mut previous_out = 0u64;
    let mut previous_in = 0u64;
    let amounts = [
        0u64,
        1,
        BASE_PRECISION - 1,
        BASE_PRECISION,
        TEST_SUPPLY / 10,
        TEST_SUPPLY / 2 - 3,
        TEST_SUPPLY / 2,
    ];
    for base in amounts {
        let (_, q_out) = m.get_quote_amount(base, SwapAmountType::ExactOutput).unwrap();
        assert!(q_out >= previous_out);
        previous_out = q_out;
        let (_, q_in) = m.get_quote_amount(base, SwapAmountType::ExactInput).unwrap();
        assert!(q_in >= previous_in);
        previous_in = q_in;
    }
}

#[test]
fn base_amount_out_spends_the_budget() {
    let mut m = test_market(0, 0);
    // a budget that exactly covers the first interval
    let (base, quote) = m.get_base_amount_out(150_000_000).unwrap();
    assert_eq!(base, TEST_SUPPLY / 10);
    assert_eq!(quote, 150_000_000);

    // a budget beyond the whole curve: the remainder is reported unspent
    let whole_curve = m
        .get_quote_amount(TEST_SUPPLY, SwapAmountType::ExactOutput)
        .unwrap()
        .1;
    let (base, quote) = m.get_base_amount_out(whole_curve + 777).unwrap();
    assert_eq!(base, TEST_SUPPLY);
    assert_eq!(quote, whole_curve);
}

#[test]
fn base_amount_out_rounds_against_the_buyer() {
    let mut m = test_market(0, 0);
    let (base, quote) = m.get_base_amount_out(149_999_999).unwrap();
    // one quote unit short of the interval: strictly less base than the interval
    assert!(base < TEST_SUPPLY / 10);
    assert_eq!(quote, 149_999_999);
    // and buying that base amount explicitly costs no more than the budget
    let (b2, q2) = m.get_quote_amount(base, SwapAmountType::ExactOutput).unwrap();
    assert_eq!(b2, base);
    assert!(q2 <= 149_999_999);
}

#[test]
fn base_amount_in_covers_the_payout() {
    let mut m = test_market(0, 0);
    m.base_reserve = TEST_SUPPLY - TEST_SUPPLY / 10; // one interval circulating
    let (base, quote) = m.get_base_amount_in(150_000_000).unwrap();
    assert_eq!(base, TEST_SUPPLY / 10);
    assert_eq!(quote, 150_000_000);

    // a payout target beyond what the circulating supply can fund
    let (base, quote) = m.get_base_amount_in(150_000_001).unwrap();
    assert_eq!(base, TEST_SUPPLY / 10);
    assert_eq!(quote, 150_000_000);

    // a partial target: the seller supplies no less than needed
    let (base, quote) = m.get_base_amount_in(75_000_000).unwrap();
    assert!(base < TEST_SUPPLY / 10);
    assert_eq!(quote, 75_000_000);
    let (_, paid) = m.get_quote_amount(base, SwapAmountType::ExactInput).unwrap();
    assert!(paid >= 75_000_000);
}

#[test]
fn quote_decimals_too_large_fail() {
    let mut m = fresh_market();
    m.initialize(255, TEST_SUPPLY, 0, 0).unwrap();
    m.check_and_set_prices(rising_prices(), rising_prices())
        .unwrap();
    assert_eq!(
        m.get_quote_amount(1, SwapAmountType::ExactOutput),
        Err(MarketError::MathError)
    );
    assert_eq!(m.get_base_amount_out(1), Err(MarketError::MathError));
    assert_eq!(m.get_base_amount_in(1), Err(MarketError::MathError));
}

#[test]
fn mul_div_wide_intermediate() {
    // the product overflows a u128; the quotient does not
    let a = 1_000_000_000_000_000_000u128;
    let b = 1_000_000_000_000_000_000_000_000_000_000u128;
    let d = 100_000_000_000_000_000_000u128;
    assert_eq!(
        mul_div(a, b, d, Rounding::Down),
        Some(10_000_000_000_000_000_000_000_000_000)
    );
    assert_eq!(mul_div(3, 1u128 << 100, 7, Rounding::Down), Some((3 << 100) / 7));
    assert_eq!(mul_div(3, 1u128 << 100, 7, Rounding::Up), Some((3 << 100) / 7 + 1));
    assert_eq!(mul_div(5, 10, 0, Rounding::Down), None);
    // quotient too large for a u128
    assert_eq!(mul_div(u64::MAX as u128, u128::MAX, 1, Rounding::Down), None);
}

#[test]
fn div_rounding_directions() {
    assert_eq!(div(7, 2, Rounding::Down), Ok(3));
    assert_eq!(div(7, 2, Rounding::Up), Ok(4));
    assert_eq!(div(8, 2, Rounding::Up), Ok(4));
    assert_eq!(div(1, 0, Rounding::Down), Err(MarketError::MathError));
    assert_eq!(
        div(u128::MAX, 1, Rounding::Down),
        Err(MarketError::MathError)
    );
}

#[test]
fn pow10_checked_bounds() {
    assert_eq!(pow10_checked(0), Some(1));
    assert_eq!(pow10_checked(6), Some(1_000_000));
    assert_eq!(pow10_checked(38), Some(100_000_000_000_000_000_000_000_000_000_000_000_000));
    assert_eq!(pow10_checked(39), None);
    assert_eq!(pow10_checked(255), None);
}
