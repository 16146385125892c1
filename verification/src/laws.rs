use vstd::prelude::*;

verus! {

use vstd::arithmetic::div_mod::{
    lemma_fundamental_div_mod, lemma_div_pos_is_pos, lemma_div_is_ordered,
    lemma_mod_division_less_than_divisor, lemma_fundamental_div_mod_converse_div,
};
use vstd::arithmetic::mul::lemma_mul_inequality;
use crate::constant::{PRICES_LENGTH, INTERVAL_NUMBER, MAX_PRICE, SCALE, NORM_FACTOR};
use crate::market::{
    Market, circulating, wf, valid_price_arrays, price_array_wf, seg_num, seg_quote, walk_quote,
    quote_outcome, lemma_seg_quote_bounds, lemma_walk_quote_bounds, lemma_seg_quote_mono,
    lemma_width_bounds,
};
use crate::math::{rnd_div, pow10, lemma_rnd_div_mono, lemma_rnd_div_basics, lemma_pow10_monotone};

/// The quote amount `get_quote_amount` settles on success, in quote-token
/// precision: the walk's quote taken from the internal scale, rounded down
/// for a sale and up for a purchase.
pub open spec fn quote_value(m: Market, base_amount: int, exact_input: bool) -> int {
    rnd_div(
        quote_outcome(m, base_amount, exact_input).1 * pow10(m.quote_token_decimals as nat),
        SCALE as int,
        !exact_input,
    )
}

/// A validated price configuration leaves the final ask price nonzero, the
/// sentinel `check_and_set_prices` tests first. So a curve whose prices were
/// accepted once reports them as set, and by the contract of
/// `check_and_set_prices` every later call fails with `PricesAlreadySet`,
/// whatever arrays it carries: prices are set exactly once.
pub proof fn lemma_prices_set_exactly_once(bid: Seq<u64>, ask: Seq<u64>)
    requires
        valid_price_arrays(bid, ask),
    ensures
        ask[PRICES_LENGTH - 1] != 0,
{
    assert(ask[PRICES_LENGTH - 2] < ask[PRICES_LENGTH - 1]);
}

/// With the same amount taken from the same offset, a walk over pointwise
/// lower prices rounded down never pays more than a walk over pointwise
/// higher prices rounded up; and both leave the same base unpriced.
proof fn lemma_walk_quote_curve_le(pb: Seq<u64>, pa: Seq<u64>, w: int, i: int, used: int, left: int)
    requires
        price_array_wf(pb),
        price_array_wf(pa),
        forall|k: int| 0 <= k < PRICES_LENGTH ==> pb[k] <= pa[k],
        SCALE <= w <= MAX_PRICE,
        0 <= i <= INTERVAL_NUMBER,
        0 <= used < w,
        0 <= left,
    ensures
        walk_quote(pb, w, i, used, left, false).1 <= walk_quote(pa, w, i, used, left, true).1,
        walk_quote(pb, w, i, used, left, false).0 == walk_quote(pa, w, i, used, left, true).0,
    decreases INTERVAL_NUMBER - i,
{
    if left <= 0 || i >= INTERVAL_NUMBER {
    } else {
        let avail = w - used;
        let db = if left <= avail {
            left
        } else {
            avail
        };
        let nb = db * seg_num(pb[i] as int, pb[i + 1] as int, w, used, db);
        let na = db * seg_num(pa[i] as int, pa[i + 1] as int, w, used, db);
        lemma_seg_quote_bounds(pb[i] as int, pb[i + 1] as int, w, used, db, false);
        lemma_seg_quote_bounds(pa[i] as int, pa[i + 1] as int, w, used, db, true);
        assert(nb <= na) by (nonlinear_arith)
            requires
                0 <= pb[i] as int <= pa[i] as int,
                0 <= pb[i + 1] as int <= pa[i + 1] as int,
                0 <= db,
                0 <= db + 2 * used,
                db + 2 * used <= 2 * w,
                nb == db * ((pb[i + 1] as int - pb[i] as int) * (db + 2 * used) + 2 * (
                pb[i] as int) * w),
                na == db * ((pa[i + 1] as int - pa[i] as int) * (db + 2 * used) + 2 * (
                pa[i] as int) * w),
        ;
        lemma_rnd_div_mono(nb, na, 2 * SCALE as int * w, false);
        lemma_rnd_div_basics(na, 2 * SCALE as int * w, false);
        assert(rnd_div(na, 2 * SCALE as int * w, false) <= rnd_div(na, 2 * SCALE as int * w, true));
        lemma_walk_quote_curve_le(pb, pa, w, i + 1, 0, left - db);
    }
}

/// The walk's quote is monotone in the base amount, from the same start.
proof fn lemma_walk_quote_mono_left(
    p: Seq<u64>,
    w: int,
    i: int,
    used: int,
    l1: int,
    l2: int,
    up: bool,
)
    requires
        price_array_wf(p),
        SCALE <= w <= MAX_PRICE,
        0 <= i <= INTERVAL_NUMBER,
        0 <= used < w,
        0 <= l1 <= l2,
    ensures
        walk_quote(p, w, i, used, l1, up).1 <= walk_quote(p, w, i, used, l2, up).1,
    decreases INTERVAL_NUMBER - i,
{
    if l1 <= 0 || i >= INTERVAL_NUMBER {
        lemma_walk_quote_bounds(p, w, i, used, l1, up);
        lemma_walk_quote_bounds(p, w, i, used, l2, up);
    } else {
        let avail = w - used;
        let db1 = if l1 <= avail {
            l1
        } else {
            avail
        };
        let db2 = if l2 <= avail {
            l2
        } else {
            avail
        };
        lemma_seg_quote_mono(p[i] as int, p[i + 1] as int, w, used, db1, db2, up);
        lemma_walk_quote_mono_left(p, w, i + 1, 0, l1 - db1, l2 - db2, up);
    }
}

/// Taking the supply between two fixed endpoints in one piece from an earlier
/// offset never yields a smaller sub-segment quote than from a later offset.
proof fn lemma_seg_endpoint_mono(p0: int, p1: int, w: int, u2: int, u1: int, e: int, up: bool)
    requires
        0 <= p0 <= p1,
        0 < w,
        0 <= u2 <= u1 <= e <= w,
    ensures
        seg_quote(p0, p1, w, u1, e - u1, up) <= seg_quote(p0, p1, w, u2, e - u2, up),
{
    let n1 = (e - u1) * seg_num(p0, p1, w, u1, e - u1);
    let n2 = (e - u2) * seg_num(p0, p1, w, u2, e - u2);
    assert(0 <= n1 <= n2 && 0 < 2 * SCALE as int * w) by (nonlinear_arith)
        requires
            0 <= p0 <= p1,
            0 < w,
            0 <= u2 <= u1 <= e <= w,
            n1 == (e - u1) * ((p1 - p0) * ((e - u1) + 2 * u1) + 2 * p0 * w),
            n2 == (e - u2) * ((p1 - p0) * ((e - u2) + 2 * u2) + 2 * p0 * w),
            SCALE == 10_000_000_000u128,
    ;
    lemma_rnd_div_mono(n1, n2, 2 * SCALE as int * w, up);
}

/// A walk that starts earlier and ends at the same supply point never yields
/// a smaller quote: it prices everything the later walk prices, and more.
proof fn lemma_walk_quote_window(
    p: Seq<u64>,
    w: int,
    i2: int,
    u2: int,
    l2: int,
    i1: int,
    u1: int,
    l1: int,
    up: bool,
)
    requires
        price_array_wf(p),
        SCALE <= w <= MAX_PRICE,
        0 <= i2 <= i1 <= INTERVAL_NUMBER,
        0 <= u2 < w,
        0 <= u1 < w,
        0 <= l1,
        0 <= l2,
        i2 * w + u2 <= i1 * w + u1,
        i2 * w + u2 + l2 == i1 * w + u1 + l1,
    ensures
        walk_quote(p, w, i1, u1, l1, up).1 <= walk_quote(p, w, i2, u2, l2, up).1,
    decreases i1 - i2,
{
    let n: int = INTERVAL_NUMBER as int;
    if i2 == i1 {
        assert(i2 * w == i1 * w);
        assert(u2 <= u1);
        assert(l2 == l1 + u1 - u2);
        if l1 <= 0 {
            lemma_walk_quote_bounds(p, w, i2, u2, l2, up);
        } else if i1 >= n {
        } else {
            let avail1 = w - u1;
            let avail2 = w - u2;
            if l1 <= avail1 {
                assert(l2 <= avail2);
                let e = u1 + l1;
                lemma_seg_endpoint_mono(p[i1] as int, p[i1 + 1] as int, w, u2, u1, e, up);
                assert(walk_quote(p, w, i1 + 1, 0, 0, up) == (0int, 0int));
            } else {
                assert(l2 > avail2);
                lemma_seg_endpoint_mono(p[i1] as int, p[i1 + 1] as int, w, u2, u1, w, up);
                assert(l2 - avail2 == l1 - avail1);
            }
        }
    } else {
        assert((i1 - i2) * w >= w && (i1 - (i2 + 1)) * w >= 0 && (i2 + 1) * w == i2 * w + w
            && i1 * w == i2 * w + (i1 - i2) * w) by (nonlinear_arith)
            requires
                i2 + 1 <= i1,
                w >= 0,
        ;
        assert(l2 >= w - u2);
        assert(l2 > 0);
        let avail2 = w - u2;
        lemma_seg_quote_bounds(p[i2] as int, p[i2 + 1] as int, w, u2, avail2, up);
        lemma_walk_quote_window(p, w, i2 + 1, 0, l2 - avail2, i1, u1, l1, up);
        lemma_walk_quote_bounds(p, w, i2 + 1, 0, l2 - avail2, up);
    }
}

/// No-arbitrage round trip. Selling a base amount and immediately buying the
/// same amount back, with the reserve restored in between, never pays the
/// seller more than the buy-back costs: the sale integrates the bid curve
/// rounding down, the buy-back integrates the ask curve over the same supply
/// window rounding up, and bid never exceeds ask.
pub proof fn lemma_round_trip_no_arbitrage(m_sell: Market, m_buy: Market, base_amount: u64)
    requires
        wf(m_sell),
        wf(m_buy),
        m_buy.bid_prices == m_sell.bid_prices,
        m_buy.ask_prices == m_sell.ask_prices,
        m_buy.width_scaled == m_sell.width_scaled,
        m_buy.total_supply == m_sell.total_supply,
        m_buy.quote_token_decimals == m_sell.quote_token_decimals,
        base_amount <= circulating(m_sell),
        m_buy.base_reserve == m_sell.base_reserve + base_amount,
    ensures
        quote_value(m_sell, base_amount as int, true) <= quote_value(
            m_buy,
            base_amount as int,
            false,
        ),
{
    lemma_width_bounds(m_sell);
    let w = m_sell.width_scaled as int;
    let supply = circulating(m_sell) - base_amount;
    assert(circulating(m_buy) == supply);
    let ns = supply * NORM_FACTOR as int;
    let nb = base_amount as int * NORM_FACTOR as int;
    assert(ns >= 0 && nb >= 0 && ns <= m_sell.total_supply as int * NORM_FACTOR as int)
        by (nonlinear_arith)
        requires
            0 <= supply <= m_sell.total_supply,
            0 <= base_amount,
            ns == supply * NORM_FACTOR as int,
            nb == base_amount as int * NORM_FACTOR as int,
            NORM_FACTOR == 10_000u128,
    ;
    lemma_div_pos_is_pos(ns, w);
    lemma_mod_division_less_than_divisor(ns, w);
    lemma_div_is_ordered(ns, 10 * w, w);
    lemma_fundamental_div_mod_converse_div(10 * w, w, 10, 0);
    lemma_walk_quote_curve_le(m_sell.bid_prices@, m_sell.ask_prices@, w, ns / w, ns % w, nb);
    let qb = walk_quote(m_sell.bid_prices@, w, ns / w, ns % w, nb, false).1;
    let qa = walk_quote(m_sell.ask_prices@, w, ns / w, ns % w, nb, true).1;
    lemma_walk_quote_bounds(m_sell.bid_prices@, w, ns / w, ns % w, nb, false);
    let prec = pow10(m_sell.quote_token_decimals as nat);
    lemma_pow10_monotone(m_sell.quote_token_decimals as nat, m_sell.quote_token_decimals as nat);
    lemma_mul_inequality(qb, qa, prec);
    assert(qb * prec >= 0) by (nonlinear_arith)
        requires
            qb >= 0,
            prec >= 1,
    ;
    lemma_rnd_div_mono(qb * prec, qa * prec, SCALE as int, false);
    lemma_rnd_div_basics(qa * prec, SCALE as int, false);
}

/// Monotonicity of the forward quote: for a fixed curve, the quote amount is
/// non-decreasing in the base amount, in both trade directions.
pub proof fn lemma_quote_monotone(m: Market, b1: u64, b2: u64, exact_input: bool)
    requires
        wf(m),
        b1 <= b2,
        exact_input ==> b2 <= circulating(m),
    ensures
        quote_value(m, b1 as int, exact_input) <= quote_value(m, b2 as int, exact_input),
{
    lemma_width_bounds(m);
    let w = m.width_scaled as int;
    let prec = pow10(m.quote_token_decimals as nat);
    lemma_pow10_monotone(m.quote_token_decimals as nat, m.quote_token_decimals as nat);
    if exact_input {
        let s1 = circulating(m) - b1;
        let s2 = circulating(m) - b2;
        let ns1 = s1 * NORM_FACTOR as int;
        let ns2 = s2 * NORM_FACTOR as int;
        let nb1 = b1 as int * NORM_FACTOR as int;
        let nb2 = b2 as int * NORM_FACTOR as int;
        assert(0 <= ns2 <= ns1 && 0 <= nb1 <= nb2 && ns1 + nb1 == ns2 + nb2 && ns1
            <= m.total_supply as int * NORM_FACTOR as int) by (nonlinear_arith)
            requires
                0 <= s2 <= s1 <= m.total_supply,
                0 <= b1 <= b2,
                s1 + b1 == s2 + b2,
                ns1 == s1 * NORM_FACTOR as int,
                ns2 == s2 * NORM_FACTOR as int,
                nb1 == b1 as int * NORM_FACTOR as int,
                nb2 == b2 as int * NORM_FACTOR as int,
                NORM_FACTOR == 10_000u128,
        ;
        lemma_div_pos_is_pos(ns1, w);
        lemma_div_pos_is_pos(ns2, w);
        lemma_mod_division_less_than_divisor(ns1, w);
        lemma_mod_division_less_than_divisor(ns2, w);
        lemma_fundamental_div_mod(ns1, w);
        lemma_fundamental_div_mod(ns2, w);
        lemma_div_is_ordered(ns1, 10 * w, w);
        lemma_div_is_ordered(ns2, ns1, w);
        lemma_fundamental_div_mod_converse_div(10 * w, w, 10, 0);
        assert(w * (ns2 / w) + ns2 % w <= w * (ns1 / w) + ns1 % w);
        assert((ns2 / w) * w + ns2 % w == ns2 && (ns1 / w) * w + ns1 % w == ns1)
            by (nonlinear_arith)
            requires
                ns2 == w * (ns2 / w) + ns2 % w,
                ns1 == w * (ns1 / w) + ns1 % w,
        ;
        lemma_walk_quote_window(
            m.bid_prices@,
            w,
            ns2 / w,
            ns2 % w,
            nb2,
            ns1 / w,
            ns1 % w,
            nb1,
            false,
        );
        let q1 = walk_quote(m.bid_prices@, w, ns1 / w, ns1 % w, nb1, false).1;
        let q2 = walk_quote(m.bid_prices@, w, ns2 / w, ns2 % w, nb2, false).1;
        lemma_walk_quote_bounds(m.bid_prices@, w, ns1 / w, ns1 % w, nb1, false);
        lemma_mul_inequality(q1, q2, prec);
        assert(q1 * prec >= 0) by (nonlinear_arith)
            requires
                q1 >= 0,
                prec >= 1,
        ;
        lemma_rnd_div_mono(q1 * prec, q2 * prec, SCALE as int, false);
    } else {
        let ns = circulating(m) * NORM_FACTOR as int;
        let nb1 = b1 as int * NORM_FACTOR as int;
        let nb2 = b2 as int * NORM_FACTOR as int;
        assert(0 <= ns <= m.total_supply as int * NORM_FACTOR as int && 0 <= nb1 <= nb2)
            by (nonlinear_arith)
            requires
                0 <= circulating(m) <= m.total_supply,
                0 <= b1 <= b2,
                ns == circulating(m) * NORM_FACTOR as int,
                nb1 == b1 as int * NORM_FACTOR as int,
                nb2 == b2 as int * NORM_FACTOR as int,
                NORM_FACTOR == 10_000u128,
        ;
        lemma_div_pos_is_pos(ns, w);
        lemma_mod_division_less_than_divisor(ns, w);
        lemma_div_is_ordered(ns, 10 * w, w);
        lemma_fundamental_div_mod_converse_div(10 * w, w, 10, 0);
        lemma_walk_quote_mono_left(m.ask_prices@, w, ns / w, ns % w, nb1, nb2, true);
        let q1 = walk_quote(m.ask_prices@, w, ns / w, ns % w, nb1, true).1;
        let q2 = walk_quote(m.ask_prices@, w, ns / w, ns % w, nb2, true).1;
        lemma_walk_quote_bounds(m.ask_prices@, w, ns / w, ns % w, nb1, true);
        lemma_mul_inequality(q1, q2, prec);
        assert(q1 * prec >= 0) by (nonlinear_arith)
            requires
                q1 >= 0,
                prec >= 1,
        ;
        lemma_rnd_div_mono(q1 * prec, q2 * prec, SCALE as int, true);
    }
}

} // verus!
