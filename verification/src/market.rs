use vstd::prelude::*;

verus! {

use vstd::arithmetic::div_mod::{
    lemma_fundamental_div_mod, lemma_fundamental_div_mod_converse_div,
    lemma_fundamental_div_mod_converse_mod, lemma_div_pos_is_pos, lemma_div_is_ordered,
    lemma_mod_division_less_than_divisor,
};
use vstd::arithmetic::mul::lemma_mul_inequality;
use crate::constant::{
    PRICES_LENGTH, INTERVAL_NUMBER, MAX_TOTAL_SUPPLY, MAX_PRICE, BASE_PRECISION, SCALE,
    NORM_FACTOR, MAX_BPS,
};
use crate::errors::MarketError;
use crate::math::{
    Rounding, rnd_div, mul_div, div, pow10, pow10_checked, lemma_mul_le, lemma_rnd_div_basics,
    lemma_rnd_div_mono, lemma_rnd_div_exact, lemma_pow10_monotone,
};

/// Trade intent: whether the caller fixes the amount given up (selling a known
/// base amount) or the amount desired (buying a known base amount).
#[derive(Clone, Copy, Debug, PartialEq, Eq, Structural)]
pub enum SwapAmountType {
    ExactInput,
    ExactOutput,
}

/// Fee configuration and the running accumulators of undistributed fees.
#[derive(Clone, Copy, Debug, PartialEq, Eq, Structural)]
pub struct MarketFees {
    /// Staking share of each swap fee, in basis points.
    pub staking_fee_share: u16,
    /// Creator share of each swap fee, in basis points.
    pub creator_fee_share: u16,
    /// Accumulated, not-yet-withdrawn fees owed to the staking pool.
    pub pending_staking_fees: u64,
    /// Accumulated, not-yet-withdrawn fees owed to the creator.
    pub pending_creator_fees: u64,
}

/// A market: the priced supply schedule for one base/quote token pair.
#[derive(Clone, Copy, Debug)]
pub struct Market {
    /// Unsold base-token units still held by the curve.
    pub base_reserve: u64,
    /// Price paid to sellers at each interval boundary.
    pub bid_prices: [u64; PRICES_LENGTH],
    /// Price charged to buyers at each interval boundary.
    pub ask_prices: [u64; PRICES_LENGTH],
    /// Quantity of base supply per interval, in the engine's internal scale.
    pub width_scaled: u64,
    /// Total base supply, fixed at creation.
    pub total_supply: u64,
    /// Fee shares and pending fee balances.
    pub fees: MarketFees,
    /// Decimal precision of the quote asset, used only at the normalization
    /// boundary.
    pub quote_token_decimals: u8,
}

/// One boundary price per interval edge, weakly increasing, at or below the
/// absolute price ceiling.
pub open spec fn price_array_wf(p: Seq<u64>) -> bool {
    &&& p.len() == PRICES_LENGTH
    &&& forall|i: int, j: int| 0 <= i <= j < p.len() ==> p[i] <= p[j]
    &&& forall|i: int| 0 <= i < p.len() ==> p[i] <= MAX_PRICE
}

/// Both price arrays are well formed and the bid never exceeds the ask, so the
/// spread is non-negative everywhere. This holds of a freshly created market
/// (all prices zero) and of every validated price configuration.
pub open spec fn prices_wf(m: Market) -> bool {
    &&& price_array_wf(m.bid_prices@)
    &&& price_array_wf(m.ask_prices@)
    &&& forall|i: int| 0 <= i < PRICES_LENGTH ==> m.bid_prices@[i] <= m.ask_prices@[i]
}

/// The supply-side invariants established by `initialize` and preserved ever
/// after: a bounded total supply split into `INTERVAL_NUMBER` exact intervals,
/// the interval width carried in the internal scale, and a reserve that never
/// exceeds the total supply.
pub open spec fn supply_wf(m: Market) -> bool {
    &&& m.total_supply <= MAX_TOTAL_SUPPLY
    &&& m.total_supply as int % (INTERVAL_NUMBER as int) == 0
    &&& m.total_supply as int / (INTERVAL_NUMBER as int) >= BASE_PRECISION
    &&& m.width_scaled as int == (m.total_supply as int / (INTERVAL_NUMBER as int))
        * (NORM_FACTOR as int)
    &&& m.base_reserve <= m.total_supply
}

/// Full well-formedness of an initialized market.
pub open spec fn wf(m: Market) -> bool {
    supply_wf(m) && prices_wf(m)
}

/// Whether prices have been configured. The final ask price is the sentinel:
/// a validated ask curve is strictly increasing, so its last entry is nonzero.
pub open spec fn prices_set(m: Market) -> bool {
    m.ask_prices@[PRICES_LENGTH - 1] != 0
}

/// Base-token units already sold by the curve.
pub open spec fn circulating(m: Market) -> int {
    if m.base_reserve <= m.total_supply {
        m.total_supply - m.base_reserve
    } else {
        0
    }
}

/// A total supply the engine accepts: at most the ceiling, an exact multiple
/// of the interval count, with at least one precision unit per interval.
pub open spec fn valid_total_supply(total_supply: u64) -> bool {
    &&& total_supply <= MAX_TOTAL_SUPPLY
    &&& total_supply as int / (INTERVAL_NUMBER as int) >= BASE_PRECISION
    &&& (total_supply as int / (INTERVAL_NUMBER as int)) * (INTERVAL_NUMBER as int)
        == total_supply
}

/// Range of the interval width under `supply_wf`: between `SCALE` and
/// `MAX_PRICE`, with ten widths spanning the whole normalized supply.
pub proof fn lemma_width_bounds(m: Market)
    requires
        supply_wf(m),
    ensures
        SCALE <= m.width_scaled <= MAX_PRICE,
        10 * (m.width_scaled as int) == m.total_supply as int * (NORM_FACTOR as int),
{
    let ts = m.total_supply as int;
    let q = ts / (INTERVAL_NUMBER as int);
    lemma_fundamental_div_mod(ts, INTERVAL_NUMBER as int);
    assert(ts == 10 * q);
    assert(q <= 100_000_000_000_000) by (nonlinear_arith)
        requires
            ts == 10 * q,
            ts <= 1_000_000_000_000_000,
    ;
    assert(m.width_scaled as int == q * 10_000);
    assert(10 * (q * 10_000) == (10 * q) * 10_000) by (nonlinear_arith);
}

/// The checks `check_and_set_prices` performs, in the order it performs them:
/// the first violated rule, or `None` when the arrays are acceptable.
pub open spec fn find_price_error(bid: Seq<u64>, ask: Seq<u64>, i: int) -> Option<MarketError>
    decreases PRICES_LENGTH - i,
{
    if i < 0 || i >= PRICES_LENGTH {
        if ask[PRICES_LENGTH - 1] > MAX_PRICE {
            Some(MarketError::PriceTooHigh)
        } else {
            None
        }
    } else if bid[i] > ask[i] {
        Some(MarketError::BidAskMismatch)
    } else if i > 0 && (ask[i] <= ask[i - 1] || bid[i] <= bid[i - 1]) {
        Some(MarketError::DecreasingPrices)
    } else {
        find_price_error(bid, ask, i + 1)
    }
}

/// Price arrays the engine accepts: bid at or below ask everywhere, both
/// strictly increasing, final ask at or below the absolute ceiling.
pub open spec fn valid_price_arrays(bid: Seq<u64>, ask: Seq<u64>) -> bool {
    &&& bid.len() == PRICES_LENGTH
    &&& ask.len() == PRICES_LENGTH
    &&& forall|i: int| 0 <= i < PRICES_LENGTH ==> bid[i] <= ask[i]
    &&& forall|i: int| 1 <= i < PRICES_LENGTH ==> bid[i - 1] < #[trigger] bid[i]
    &&& forall|i: int| 1 <= i < PRICES_LENGTH ==> ask[i - 1] < #[trigger] ask[i]
    &&& ask[PRICES_LENGTH - 1] <= MAX_PRICE
}

/// In a strictly increasing array, every earlier entry is below every later one.
proof fn lemma_strict_chain(p: Seq<u64>, i: int, j: int)
    requires
        forall|k: int| 1 <= k < p.len() ==> p[k - 1] < #[trigger] p[k],
        0 <= i <= j < p.len(),
    ensures
        p[i] <= p[j],
    decreases j - i,
{
    if i < j {
        lemma_strict_chain(p, i, j - 1);
    }
}

/// The price checks accept exactly the valid array pairs.
proof fn lemma_price_error_none_iff_valid(bid: Seq<u64>, ask: Seq<u64>, i: int)
    requires
        bid.len() == PRICES_LENGTH,
        ask.len() == PRICES_LENGTH,
        0 <= i <= PRICES_LENGTH,
    ensures
        find_price_error(bid, ask, i) is None <==> {
            &&& forall|j: int| i <= j < PRICES_LENGTH ==> bid[j] <= ask[j]
            &&& forall|j: int| (if i > 1 { i } else { 1 }) <= j < PRICES_LENGTH
                ==> bid[j - 1] < #[trigger] bid[j]
            &&& forall|j: int| (if i > 1 { i } else { 1 }) <= j < PRICES_LENGTH
                ==> ask[j - 1] < #[trigger] ask[j]
            &&& ask[PRICES_LENGTH - 1] <= MAX_PRICE
        },
    decreases PRICES_LENGTH - i,
{
    if i < PRICES_LENGTH {
        lemma_price_error_none_iff_valid(bid, ask, i + 1);
    }
}

/// Doubled trapezoid numerator for a sub-segment of one interval whose price
/// ramps linearly from `p0` to `p1` over a width of `w`: `used` supply of the
/// interval is already consumed and `db` more is taken. All quantities are in
/// the internal scale.
pub open spec fn seg_num(p0: int, p1: int, w: int, used: int, db: int) -> int {
    (p1 - p0) * (db + 2 * used) + 2 * p0 * w
}

/// Quote value of one sub-segment, in the internal scale: the area under the
/// price ramp between the two supply points, in cross-multiplied integer form,
/// rounded in the given direction.
pub open spec fn seg_quote(p0: int, p1: int, w: int, used: int, db: int, up: bool) -> int {
    rnd_div(db * seg_num(p0, p1, w, used, db), 2 * SCALE as int * w, up)
}

/// The interval walk of the forward quote computation. Starting in segment
/// `i` of which `used` supply is consumed, with `left` base still to price,
/// it prices `min(left, width remaining)` in each segment until the base is
/// exhausted or the curve ends. Returns `(base left unpriced, quote)`.
pub open spec fn walk_quote(p: Seq<u64>, w: int, i: int, used: int, left: int, up: bool) -> (
    int,
    int,
)
    decreases INTERVAL_NUMBER - i,
{
    if left <= 0 || i < 0 || i >= INTERVAL_NUMBER {
        (left, 0)
    } else {
        let avail = w - used;
        let db = if left <= avail {
            left
        } else {
            avail
        };
        let dq = seg_quote(p[i] as int, p[i + 1] as int, w, used, db, up);
        let rest = walk_quote(p, w, i + 1, 0, left - db, up);
        (rest.0, dq + rest.1)
    }
}

/// One sub-segment's quote is non-negative and bounded, under the
/// well-formedness bounds of prices and width.
pub(crate) proof fn lemma_seg_quote_bounds(p0: int, p1: int, w: int, used: int, db: int, up: bool)
    requires
        0 <= p0 <= p1 <= MAX_PRICE,
        SCALE <= w <= MAX_PRICE,
        0 <= used < w,
        0 <= db <= w - used,
    ensures
        0 <= db * seg_num(p0, p1, w, used, db),
        0 <= seg_quote(p0, p1, w, used, db, up) <= 200_000_000_000_000_000_000_000_000int,
        seg_num(p0, p1, w, used, db) <= 4 * MAX_PRICE * w,
        0 <= seg_num(p0, p1, w, used, db),
        0 < 2 * SCALE as int * w,
{
    let num = seg_num(p0, p1, w, used, db);
    let d = 2 * SCALE as int * w;
    let cap = 200_000_000_000_000_000_000_000_000int;
    assert(0 < d && 0 <= num <= 4 * MAX_PRICE * w && 0 <= db * num && db * num <= cap * d)
        by (nonlinear_arith)
        requires
            0 <= p0 <= p1 <= MAX_PRICE,
            SCALE <= w <= MAX_PRICE,
            0 <= used < w,
            0 <= db <= w - used,
            num == (p1 - p0) * (db + 2 * used) + 2 * p0 * w,
            d == 2 * SCALE as int * w,
            cap == 200_000_000_000_000_000_000_000_000int,
            MAX_PRICE == 1_000_000_000_000_000_000u64,
            SCALE == 10_000_000_000u128,
    ;
    lemma_rnd_div_basics(db * num, d, up);
    lemma_rnd_div_mono(db * num, cap * d, d, up);
    lemma_rnd_div_exact(cap, d, up);
}

/// What the walk leaves unpriced and the range of its quote: the walk consumes
/// exactly `min(left, supply available up to the curve end)`, and its quote is
/// non-negative and bounded.
pub(crate) proof fn lemma_walk_quote_bounds(p: Seq<u64>, w: int, i: int, used: int, left: int, up: bool)
    requires
        price_array_wf(p),
        SCALE <= w <= MAX_PRICE,
        0 <= i <= INTERVAL_NUMBER,
        0 <= used < w,
        0 <= left,
    ensures
        ({
            let avail_rest = (INTERVAL_NUMBER - i) * w - used;
            let avail = if avail_rest >= 0 {
                avail_rest
            } else {
                0
            };
            let wq = walk_quote(p, w, i, used, left, up);
            &&& wq.0 == if left <= avail {
                0int
            } else {
                left - avail
            }
            &&& 0 <= wq.1 <= (INTERVAL_NUMBER - i) * 200_000_000_000_000_000_000_000_000int
        }),
    decreases INTERVAL_NUMBER - i,
{
    let n: int = INTERVAL_NUMBER as int;
    let cap = 200_000_000_000_000_000_000_000_000int;
    assert((n - i) * w >= 0 && (n - i) * cap >= 0 && (i < n ==> (n - i) * w >= w && (n - i) * cap
        >= cap)) by (nonlinear_arith)
        requires
            0 <= i <= n,
            w >= 0,
            cap > 0,
    ;
    if left <= 0 || i >= n {
        assert(walk_quote(p, w, i, used, left, up) == (left, 0int));
        if i >= n {
            assert((n - i) * w == 0) by (nonlinear_arith)
                requires
                    i == n,
            ;
        }
        assert(walk_quote(p, w, i, used, left, up).0 == left);
    } else {
        let avail_here = w - used;
        let db = if left <= avail_here {
            left
        } else {
            avail_here
        };
        assert(p[i] <= p[i + 1] && p[i + 1] <= MAX_PRICE);
        lemma_seg_quote_bounds(p[i] as int, p[i + 1] as int, w, used, db, up);
        lemma_walk_quote_bounds(p, w, i + 1, 0, left - db, up);
        assert((n - i) * w == (n - (i + 1)) * w + w && (n - i) * cap == (n - (i + 1)) * cap + cap)
            by (nonlinear_arith);
        let dq = seg_quote(p[i] as int, p[i + 1] as int, w, used, db, up);
        let rest = walk_quote(p, w, i + 1, 0, left - db, up);
        assert(walk_quote(p, w, i, used, left, up) == (rest.0, dq + rest.1));
        let avail_rest = (n - i) * w - used;
        let avail_rest2 = (n - (i + 1)) * w;
        assert(avail_rest == avail_rest2 + (w - used));
        assert(avail_rest2 >= 0);
        if left <= avail_here {
            assert(rest.0 == 0);
        } else {
            assert(db == avail_here);
            assert(rest.0 == if left - db <= avail_rest2 {
                0int
            } else {
                (left - db) - avail_rest2
            });
        }
    }
}

/// The walk of `get_quote_amount_with_parameters`: the supply window start and
/// the base amount, taken into the internal scale, walked over the given
/// price curve.
pub open spec fn quote_walk(m: Market, supply: int, base_amount: int, up: bool, p: Seq<u64>) -> (
    int,
    int,
) {
    let w = m.width_scaled as int;
    let ns = supply * NORM_FACTOR as int;
    let nb = base_amount * NORM_FACTOR as int;
    walk_quote(p, w, ns / w, ns % w, nb, up)
}

/// The walk of `get_quote_amount`: selling (exact input) prices the window
/// below the circulating supply on the bid curve rounding down; buying (exact
/// output) prices the window above it on the ask curve rounding up.
pub open spec fn quote_outcome(m: Market, base_amount: int, exact_input: bool) -> (int, int) {
    if exact_input {
        quote_walk(m, circulating(m) - base_amount, base_amount, false, m.bid_prices@)
    } else {
        quote_walk(m, circulating(m), base_amount, true, m.ask_prices@)
    }
}

/// Taking a base amount into the internal scale is exact: the scale is a
/// whole multiple of the base precision.
proof fn lemma_norm_exact(x: int)
    requires
        0 <= x,
    ensures
        (x * SCALE as int) / (BASE_PRECISION as int) == x * NORM_FACTOR as int,
{
    assert(x * SCALE as int == (x * NORM_FACTOR as int) * BASE_PRECISION as int)
        by (nonlinear_arith);
    assert(x * NORM_FACTOR as int >= 0) by (nonlinear_arith)
        requires
            x >= 0,
    ;
    lemma_fundamental_div_mod_converse_div(
        x * SCALE as int,
        BASE_PRECISION as int,
        x * NORM_FACTOR as int,
        0,
    );
}

/// One sub-segment's quote is monotone in the amount taken (same rounding,
/// same consumed offset).
pub(crate) proof fn lemma_seg_quote_mono(p0: int, p1: int, w: int, used: int, db1: int, db2: int, up: bool)
    requires
        0 <= p0 <= p1,
        0 < w,
        0 <= used < w,
        0 <= db1 <= db2 <= w - used,
    ensures
        seg_quote(p0, p1, w, used, db1, up) <= seg_quote(p0, p1, w, used, db2, up),
{
    let n1 = db1 * seg_num(p0, p1, w, used, db1);
    let n2 = db2 * seg_num(p0, p1, w, used, db2);
    assert(0 <= n1 <= n2 && 0 < 2 * SCALE as int * w) by (nonlinear_arith)
        requires
            0 <= p0 <= p1,
            0 < w,
            0 <= used < w,
            0 <= db1 <= db2 <= w - used,
            n1 == db1 * ((p1 - p0) * (db1 + 2 * used) + 2 * p0 * w),
            n2 == db2 * ((p1 - p0) * (db2 + 2 * used) + 2 * p0 * w),
            SCALE == 10_000_000_000u128,
    ;
    lemma_rnd_div_mono(n1, n2, 2 * SCALE as int * w, up);
}

/// The payout of selling `db` from the top of the `avail` occupied units of an
/// interval is monotone in `db`.
proof fn lemma_payout_mono(p0: int, p1: int, w: int, avail: int, db1: int, db2: int)
    requires
        0 <= p0 <= p1,
        0 < w,
        0 < avail <= w,
        0 <= db1 <= db2 <= avail,
    ensures
        seg_quote(p0, p1, w, avail - db1, db1, false) <= seg_quote(
            p0,
            p1,
            w,
            avail - db2,
            db2,
            false,
        ),
{
    let n1 = db1 * seg_num(p0, p1, w, avail - db1, db1);
    let n2 = db2 * seg_num(p0, p1, w, avail - db2, db2);
    assert(0 <= n1 <= n2 && 0 < 2 * SCALE as int * w) by (nonlinear_arith)
        requires
            0 <= p0 <= p1,
            0 < w,
            0 < avail <= w,
            0 <= db1 <= db2 <= avail,
            n1 == db1 * ((p1 - p0) * (db1 + 2 * (avail - db1)) + 2 * p0 * w),
            n2 == db2 * ((p1 - p0) * (db2 + 2 * (avail - db2)) + 2 * p0 * w),
            SCALE == 10_000_000_000u128,
    ;
    lemma_rnd_div_mono(n1, n2, 2 * SCALE as int * w, false);
}

/// The largest amount of the interval's remaining width whose rounded-up
/// quote cost stays within the budget `q`.
pub open spec fn is_max_affordable_base(p0: int, p1: int, w: int, used: int, q: int, db: int) -> bool {
    &&& 0 <= db <= w - used
    &&& seg_quote(p0, p1, w, used, db, true) <= q
    &&& (db == w - used || seg_quote(p0, p1, w, used, db + 1, true) > q)
}

/// That largest affordable amount, or zero when no amount qualifies (on a
/// well-formed curve the bound zero always qualifies, so the fallback is
/// never the value).
pub open spec fn max_affordable_base(p0: int, p1: int, w: int, used: int, q: int) -> int {
    let db = choose|db: int| is_max_affordable_base(p0, p1, w, used, q, db);
    if is_max_affordable_base(p0, p1, w, used, q, db) {
        db
    } else {
        0
    }
}

/// The largest affordable amount is unique, by monotonicity of the cost.
proof fn lemma_max_affordable_base_unique(p0: int, p1: int, w: int, used: int, q: int, db: int)
    requires
        0 <= p0 <= p1,
        0 < w,
        0 <= used < w,
        is_max_affordable_base(p0, p1, w, used, q, db),
    ensures
        max_affordable_base(p0, p1, w, used, q) == db,
{
    let other = choose|x: int| is_max_affordable_base(p0, p1, w, used, q, x);
    assert(is_max_affordable_base(p0, p1, w, used, q, other));
    if other < db {
        lemma_seg_quote_mono(p0, p1, w, used, other + 1, db, true);
    }
    if db < other {
        lemma_seg_quote_mono(p0, p1, w, used, db + 1, other, true);
    }
}

/// The smallest amount, sold from the top of the `avail` occupied units of an
/// interval, whose rounded-down payout reaches the target `q`.
pub open spec fn is_min_base_for_payout(p0: int, p1: int, w: int, avail: int, q: int, db: int) -> bool {
    &&& 1 <= db <= avail
    &&& seg_quote(p0, p1, w, avail - db, db, false) >= q
    &&& seg_quote(p0, p1, w, avail - (db - 1), db - 1, false) < q
}

/// That smallest sufficient amount, or zero when no amount qualifies (the
/// walk only asks for it when the whole occupied part pays out more than the
/// target, so the fallback is never the value).
pub open spec fn min_base_for_payout(p0: int, p1: int, w: int, avail: int, q: int) -> int {
    let db = choose|db: int| is_min_base_for_payout(p0, p1, w, avail, q, db);
    if is_min_base_for_payout(p0, p1, w, avail, q, db) {
        db
    } else {
        0
    }
}

/// The smallest sufficient amount is unique, by monotonicity of the payout.
proof fn lemma_min_base_for_payout_unique(p0: int, p1: int, w: int, avail: int, q: int, db: int)
    requires
        0 <= p0 <= p1,
        0 < w,
        0 < avail <= w,
        is_min_base_for_payout(p0, p1, w, avail, q, db),
    ensures
        min_base_for_payout(p0, p1, w, avail, q) == db,
{
    let other = choose|x: int| is_min_base_for_payout(p0, p1, w, avail, q, x);
    assert(is_min_base_for_payout(p0, p1, w, avail, q, other));
    if other < db {
        lemma_payout_mono(p0, p1, w, avail, other, db - 1);
    }
    if db < other {
        lemma_payout_mono(p0, p1, w, avail, db, other - 1);
    }
}

/// The interval walk of the inverse computation for a buy: starting in
/// segment `i` of which `used` is consumed, spend the budget `qleft` walking
/// the curve forward. Returns `(quote left unspent, base bought)`, both in
/// the internal scale. A segment the budget covers whole is taken whole; the
/// last one contributes the largest affordable amount and consumes the whole
/// remaining budget.
pub open spec fn walk_base_out(p: Seq<u64>, w: int, i: int, used: int, qleft: int) -> (int, int)
    decreases INTERVAL_NUMBER - i,
{
    if qleft <= 0 || i < 0 || i >= INTERVAL_NUMBER {
        (qleft, 0)
    } else {
        let avail = w - used;
        let cost_full = seg_quote(p[i] as int, p[i + 1] as int, w, used, avail, true);
        if cost_full <= qleft {
            let rest = walk_base_out(p, w, i + 1, 0, qleft - cost_full);
            (rest.0, avail + rest.1)
        } else {
            (0, max_affordable_base(p[i] as int, p[i + 1] as int, w, used, qleft))
        }
    }
}

/// The interval walk of the inverse computation for a sell: starting with
/// `avail` occupied units in segment `i` (whose prices are entries `i - 1`
/// and `i`), walk the curve backward — lower intervals pay less, so a payout
/// target consumes supply in decreasing-price order — until the target
/// `qleft` is met or supply zero is reached. Returns `(payout still owed,
/// base sold)`, both in the internal scale.
pub open spec fn walk_base_in(p: Seq<u64>, w: int, i: int, avail: int, qleft: int) -> (int, int)
    decreases i,
{
    if qleft <= 0 || i <= 0 || i > INTERVAL_NUMBER {
        (qleft, 0)
    } else {
        let payout_full = seg_quote(p[i - 1] as int, p[i] as int, w, 0, avail, false);
        if payout_full <= qleft {
            let rest = walk_base_in(p, w, i - 1, w, qleft - payout_full);
            (rest.0, avail + rest.1)
        } else {
            (0, min_base_for_payout(p[i - 1] as int, p[i] as int, w, avail, qleft))
        }
    }
}

/// Ranges of the buy-side inverse walk: the unspent budget never grows and
/// the base bought fits in the supply above the window start.
proof fn lemma_walk_base_out_bounds(p: Seq<u64>, w: int, i: int, used: int, qleft: int)
    requires
        price_array_wf(p),
        SCALE <= w <= MAX_PRICE,
        0 <= i <= INTERVAL_NUMBER,
        0 <= used < w,
        0 <= qleft,
    ensures
        ({
            let wo = walk_base_out(p, w, i, used, qleft);
            &&& 0 <= wo.0 <= qleft
            &&& 0 <= wo.1 <= (INTERVAL_NUMBER - i) * w - used || wo.1 == 0
        }),
    decreases INTERVAL_NUMBER - i,
{
    let n: int = INTERVAL_NUMBER as int;
    if qleft <= 0 || i >= n {
    } else {
        let avail = w - used;
        lemma_seg_quote_bounds(p[i] as int, p[i + 1] as int, w, used, avail, true);
        let cost_full = seg_quote(p[i] as int, p[i + 1] as int, w, used, avail, true);
        assert((n - i) * w == (n - (i + 1)) * w + w) by (nonlinear_arith);
        assert((n - (i + 1)) * w >= 0) by (nonlinear_arith)
            requires
                i + 1 <= n,
                w >= 0,
        ;
        if cost_full <= qleft {
            lemma_walk_base_out_bounds(p, w, i + 1, 0, qleft - cost_full);
        }
    }
}

/// Ranges of the sell-side inverse walk: the payout owed never grows and the
/// base sold fits in the supply below the window start.
proof fn lemma_walk_base_in_bounds(p: Seq<u64>, w: int, i: int, avail: int, qleft: int)
    requires
        price_array_wf(p),
        SCALE <= w <= MAX_PRICE,
        0 <= i <= INTERVAL_NUMBER,
        0 < avail <= w,
        0 <= qleft,
    ensures
        ({
            let wi = walk_base_in(p, w, i, avail, qleft);
            &&& 0 <= wi.0 <= qleft
            &&& 0 <= wi.1 <= (i - 1) * w + avail || wi.1 == 0
        }),
    decreases i,
{
    let n: int = INTERVAL_NUMBER as int;
    if qleft <= 0 || i <= 0 || i > n {
    } else {
        lemma_seg_quote_bounds(p[i - 1] as int, p[i] as int, w, 0, avail, false);
        let payout_full = seg_quote(p[i - 1] as int, p[i] as int, w, 0, avail, false);
        assert((i - 1) * w == ((i - 1) - 1) * w + w) by (nonlinear_arith);
        assert(((i - 1) - 1) * w >= 0 || i - 1 == 0) by (nonlinear_arith)
            requires
                0 <= i - 1,
                w >= 0,
        ;
        if payout_full <= qleft {
            lemma_walk_base_in_bounds(p, w, i - 1, w, qleft - payout_full);
            assert((i - 1) * w >= 0) by (nonlinear_arith)
                requires
                    i >= 1,
                    w >= 0,
            ;
        }
    }
}

impl MarketFees {
    /// The floor share of `amount` at `share_bps` basis points.
    pub open spec fn fee_cut(amount: int, share_bps: int) -> int {
        amount * share_bps / (MAX_BPS as int)
    }

    /// Everything `distribute_fee` needs to complete: each cut fits a `u64`,
    /// the cuts never exceed what they are cut from, and the pending
    /// accumulators do not overflow.
    pub open spec fn distribute_fee_ok(self, swap_fee: u64, referral_fee_share: Option<u16>) -> bool {
        let creator = Self::fee_cut(swap_fee as int, self.creator_fee_share as int);
        let staking = Self::fee_cut(swap_fee as int, self.staking_fee_share as int);
        let remaining = swap_fee - creator - staking;
        let referral = match referral_fee_share {
            Some(share) => Self::fee_cut(remaining, share as int),
            None => 0int,
        };
        &&& creator <= u64::MAX
        &&& staking <= u64::MAX
        &&& creator + staking <= swap_fee
        &&& referral <= u64::MAX
        &&& referral <= remaining
        &&& self.pending_creator_fees + creator <= u64::MAX
        &&& self.pending_staking_fees + staking <= u64::MAX
    }

    /// Splits a swap fee into creator, staking, protocol and referral cuts.
    /// The creator and staking cuts accumulate into the pending balances; the
    /// protocol and referral cuts are returned for external settlement. The
    /// four cuts always sum exactly to the fee.
    pub fn distribute_fee(&mut self, swap_fee: u64, referral_fee_share: Option<u16>) -> (r:
        Result<(u64, u64, u64, u64), MarketError>)
    ensures
        r is Ok <==> old(self).distribute_fee_ok(swap_fee, referral_fee_share),
        match r {
            Ok(fees) => {
                let creator = Self::fee_cut(swap_fee as int, old(self).creator_fee_share as int);
                let staking = Self::fee_cut(swap_fee as int, old(self).staking_fee_share as int);
                let remaining = swap_fee - creator - staking;
                let referral = match referral_fee_share {
                    Some(share) => Self::fee_cut(remaining, share as int),
                    None => 0int,
                };
                &&& fees.0 == creator
                &&& fees.1 == staking
                &&& fees.2 == remaining - referral
                &&& fees.3 == referral
                &&& fees.0 + fees.1 + fees.2 + fees.3 == swap_fee
                &&& final(self).pending_creator_fees == old(self).pending_creator_fees + creator
                &&& final(self).pending_staking_fees == old(self).pending_staking_fees + staking
                &&& final(self).creator_fee_share == old(self).creator_fee_share
                &&& final(self).staking_fee_share == old(self).staking_fee_share
            },
            Err(e) => e == MarketError::MathError && *final(self) == *old(self),
        },
    {
        proof {
            lemma_mul_le(swap_fee as int, self.creator_fee_share as int, u64::MAX as int, u16::MAX as int);
            lemma_mul_le(swap_fee as int, self.staking_fee_share as int, u64::MAX as int, u16::MAX as int);
        }
        let creator_wide = swap_fee as u128 * self.creator_fee_share as u128 / (MAX_BPS as u128);
        if creator_wide > u64::MAX as u128 {
            return Err(MarketError::MathError);
        }
        let creator_fee = creator_wide as u64;
        let staking_wide = swap_fee as u128 * self.staking_fee_share as u128 / (MAX_BPS as u128);
        if staking_wide > u64::MAX as u128 {
            return Err(MarketError::MathError);
        }
        let staking_fee = staking_wide as u64;
        if creator_fee > swap_fee || staking_fee > swap_fee - creator_fee {
            return Err(MarketError::MathError);
        }
        let remaining_fee = swap_fee - creator_fee - staking_fee;
        let referral_fee: u64 = match referral_fee_share {
            Some(share) => {
                proof {
                    lemma_mul_le(remaining_fee as int, share as int, u64::MAX as int, u16::MAX as int);
                }
                let referral_wide = remaining_fee as u128 * share as u128 / (MAX_BPS as u128);
                if referral_wide > u64::MAX as u128 {
                    return Err(MarketError::MathError);
                }
                referral_wide as u64
            },
            None => 0,
        };
        if referral_fee > remaining_fee {
            return Err(MarketError::MathError);
        }
        let protocol_fee = remaining_fee - referral_fee;
        if self.pending_creator_fees > u64::MAX - creator_fee
            || self.pending_staking_fees > u64::MAX - staking_fee {
            return Err(MarketError::MathError);
        }
        self.pending_creator_fees = self.pending_creator_fees + creator_fee;
        self.pending_staking_fees = self.pending_staking_fees + staking_fee;
        Ok((creator_fee, staking_fee, protocol_fee, referral_fee))
    }
}

impl Market {
    /// Sets up a market around a fixed total supply and fee shares. Rejects a
    /// total supply above the ceiling, below the minimum per-interval
    /// precision, or not an exact multiple of the interval count. On success
    /// the whole supply sits in the reserve; the price arrays are untouched
    /// (they are configured separately, exactly once).
    pub fn initialize(
        &mut self,
        quote_token_decimals: u8,
        total_supply: u64,
        creator_fee_share: u16,
        staking_fee_share: u16,
    ) -> (r: Result<(), MarketError>)
        ensures
            r is Ok <==> valid_total_supply(total_supply),
            match r {
                Ok(()) => {
                    &&& supply_wf(*final(self))
                    &&& final(self).total_supply == total_supply
                    &&& final(self).base_reserve == total_supply
                    &&& final(self).quote_token_decimals == quote_token_decimals
                    &&& final(self).width_scaled as int == (total_supply as int
                        / (INTERVAL_NUMBER as int)) * (NORM_FACTOR as int)
                    &&& final(self).fees.creator_fee_share == creator_fee_share
                    &&& final(self).fees.staking_fee_share == staking_fee_share
                    &&& final(self).fees.pending_creator_fees == old(
                        self,
                    ).fees.pending_creator_fees
                    &&& final(self).fees.pending_staking_fees == old(
                        self,
                    ).fees.pending_staking_fees
                    &&& final(self).bid_prices == old(self).bid_prices
                    &&& final(self).ask_prices == old(self).ask_prices
                },
                Err(e) => e == MarketError::InvalidTotalSupply && *final(self) == *old(self),
            },
    {
        let per_interval = total_supply / INTERVAL_NUMBER;
        proof {
            lemma_fundamental_div_mod(total_supply as int, INTERVAL_NUMBER as int);
        }
        if total_supply > MAX_TOTAL_SUPPLY || per_interval < BASE_PRECISION || per_interval
            * INTERVAL_NUMBER != total_supply {
            return Err(MarketError::InvalidTotalSupply);
        }
        let width_wide = per_interval as u128 * SCALE / (BASE_PRECISION as u128);
        proof {
            lemma_fundamental_div_mod_converse_div(
                per_interval as int * SCALE as int,
                BASE_PRECISION as int,
                per_interval as int * NORM_FACTOR as int,
                0,
            );
            assert(per_interval as int * SCALE as int == (per_interval as int
                * NORM_FACTOR as int) * BASE_PRECISION as int) by (nonlinear_arith);
            assert(per_interval as int * NORM_FACTOR as int <= 100_000_000_000_000int * 10_000)
                by (nonlinear_arith)
                requires
                    0 <= per_interval as int <= 100_000_000_000_000int,
            ;
        }
        self.quote_token_decimals = quote_token_decimals;
        self.total_supply = total_supply;
        self.base_reserve = total_supply;
        self.width_scaled = width_wide as u64;
        self.fees.creator_fee_share = creator_fee_share;
        self.fees.staking_fee_share = staking_fee_share;
        Ok(())
    }

    /// Validates and stores both price arrays, atomically and exactly once.
    #[verifier::loop_isolation(false)]
    pub fn check_and_set_prices(
        &mut self,
        bid_prices: [u64; PRICES_LENGTH],
        ask_prices: [u64; PRICES_LENGTH],
    ) -> (r: Result<(), MarketError>)
        ensures
            r is Ok <==> !prices_set(*old(self)) && valid_price_arrays(bid_prices@, ask_prices@),
            match r {
                Ok(()) => {
                    &&& final(self).bid_prices == bid_prices
                    &&& final(self).ask_prices == ask_prices
                    &&& final(self).base_reserve == old(self).base_reserve
                    &&& final(self).width_scaled == old(self).width_scaled
                    &&& final(self).total_supply == old(self).total_supply
                    &&& final(self).fees == old(self).fees
                    &&& final(self).quote_token_decimals == old(self).quote_token_decimals
                    &&& prices_set(*final(self))
                    &&& prices_wf(*final(self))
                },
                Err(e) => {
                    &&& *final(self) == *old(self)
                    &&& if prices_set(*old(self)) {
                        e == MarketError::PricesAlreadySet
                    } else {
                        find_price_error(bid_prices@, ask_prices@, 0) == Some(e)
                    }
                },
            },
    {
        if self.are_prices_set() {
            return Err(MarketError::PricesAlreadySet);
        }
        proof {
            lemma_price_error_none_iff_valid(bid_prices@, ask_prices@, 0);
        }
        let mut i: usize = 0;
        while i < PRICES_LENGTH
            invariant
                0 <= i <= PRICES_LENGTH,
                find_price_error(bid_prices@, ask_prices@, 0) == find_price_error(
                    bid_prices@,
                    ask_prices@,
                    i as int,
                ),
            decreases PRICES_LENGTH - i,
        {
            let bid_price = bid_prices[i];
            let ask_price = ask_prices[i];
            if bid_price > ask_price {
                return Err(MarketError::BidAskMismatch);
            }
            if i > 0 && (ask_price <= ask_prices[i - 1] || bid_price <= bid_prices[i - 1]) {
                return Err(MarketError::DecreasingPrices);
            }
            i = i + 1;
        }
        if ask_prices[PRICES_LENGTH - 1] > MAX_PRICE {
            return Err(MarketError::PriceTooHigh);
        }
        proof {
            let bs = bid_prices@;
            let asks = ask_prices@;
            assert forall|i2: int, j2: int| 0 <= i2 <= j2 < bs.len() implies bs[i2] <= bs[j2] by {
                lemma_strict_chain(bs, i2, j2);
            }
            assert forall|i2: int, j2: int| 0 <= i2 <= j2 < asks.len() implies asks[i2]
                <= asks[j2] by {
                lemma_strict_chain(asks, i2, j2);
            }
            assert forall|i2: int| 0 <= i2 < asks.len() implies asks[i2] <= MAX_PRICE by {
                lemma_strict_chain(asks, i2, PRICES_LENGTH - 1);
            }
        }
        self.bid_prices = bid_prices;
        self.ask_prices = ask_prices;
        Ok(())
    }

    /// Whether the price arrays have been configured.
    pub fn are_prices_set(&self) -> (r: bool)
        ensures
            r == prices_set(*self),
    {
        self.ask_prices[PRICES_LENGTH - 1] != 0
    }

    /// Base-token units already sold: `total_supply - base_reserve`,
    /// saturating at zero.
    pub fn circulating_supply(&self) -> (r: u64)
        ensures
            r == circulating(*self),
    {
        if self.base_reserve <= self.total_supply {
            self.total_supply - self.base_reserve
        } else {
            0
        }
    }

    /// Quote amount owed or received for a known base amount. Selling (exact
    /// input) integrates the bid curve over the window just below the
    /// circulating supply, rounding down; buying (exact output) integrates
    /// the ask curve over the window just above it, rounding up. Returns the
    /// base amount actually priced (capped at the curve boundary) and the
    /// quote amount, in quote-token precision.
    pub fn get_quote_amount(&self, base_amount: u64, swap_amount_type: SwapAmountType) -> (r:
        Result<(u64, u64), MarketError>)
        requires
            wf(*self),
        ensures
            ({
                let exact_input = swap_amount_type == SwapAmountType::ExactInput;
                let up = !exact_input;
                let wq = quote_outcome(*self, base_amount as int, exact_input);
                let scaled_q = wq.1 * pow10(self.quote_token_decimals as nat);
                &&& (r is Ok <==> {
                    &&& (exact_input ==> base_amount <= circulating(*self))
                    &&& pow10(self.quote_token_decimals as nat) <= u128::MAX
                    &&& scaled_q <= u128::MAX
                    &&& rnd_div(scaled_q, SCALE as int, up) <= u64::MAX
                })
                &&& match r {
                    Ok(amounts) => {
                        &&& amounts.0 == base_amount - rnd_div(
                            wq.0 * BASE_PRECISION as int,
                            SCALE as int,
                            up,
                        )
                        &&& amounts.1 == rnd_div(scaled_q, SCALE as int, up)
                        &&& exact_input ==> amounts.0 == base_amount
                        &&& !exact_input ==> amounts.0 == if base_amount <= self.base_reserve {
                            base_amount as int
                        } else {
                            self.base_reserve as int
                        }
                    },
                    Err(e) => e == MarketError::MathError,
                }
            }),
    {
        let circulating_supply = self.circulating_supply();
        let (supply, rounding) = match swap_amount_type {
            SwapAmountType::ExactInput => {
                if base_amount > circulating_supply {
                    return Err(MarketError::MathError);
                }
                (circulating_supply - base_amount, Rounding::Down)
            },
            SwapAmountType::ExactOutput => (circulating_supply, Rounding::Up),
        };
        let r = self.get_quote_amount_with_parameters(
            supply,
            base_amount,
            swap_amount_type,
            rounding,
        );
        proof {
            lemma_width_bounds(*self);
            let w = self.width_scaled as int;
            let ns = supply as int * NORM_FACTOR as int;
            let nb = base_amount as int * NORM_FACTOR as int;
            let up = rounding == Rounding::Up;
            let p = if swap_amount_type == SwapAmountType::ExactInput {
                self.bid_prices@
            } else {
                self.ask_prices@
            };
            lemma_mul_le(supply as int, NORM_FACTOR as int, self.total_supply as int,
                NORM_FACTOR as int);
            assert(ns <= 10 * w);
            lemma_div_pos_is_pos(ns, w);
            lemma_div_is_ordered(ns, 10 * w, w);
            lemma_fundamental_div_mod_converse_div(10 * w, w, 10, 0);
            lemma_mod_division_less_than_divisor(ns, w);
            lemma_fundamental_div_mod(ns, w);
            lemma_walk_quote_bounds(p, w, ns / w, ns % w, nb, up);
            let avail = (INTERVAL_NUMBER - ns / w) * w - ns % w;
            assert(avail == 10 * w - ns) by (nonlinear_arith)
                requires
                    avail == (10 - ns / w) * w - ns % w,
                    ns == w * (ns / w) + ns % w,
            ;
            let reserve_gap = if swap_amount_type == SwapAmountType::ExactInput {
                self.base_reserve as int + base_amount as int
            } else {
                self.base_reserve as int
            };
            assert(10 * w - ns == reserve_gap * NORM_FACTOR as int) by (nonlinear_arith)
                requires
                    10 * w == self.total_supply as int * NORM_FACTOR as int,
                    ns == supply as int * NORM_FACTOR as int,
                    reserve_gap == self.total_supply as int - supply as int,
            ;
            let wq = walk_quote(p, w, ns / w, ns % w, nb, up);
            if base_amount <= reserve_gap {
                assert(nb <= avail) by (nonlinear_arith)
                    requires
                        nb == base_amount as int * NORM_FACTOR as int,
                        avail == reserve_gap * NORM_FACTOR as int,
                        base_amount as int <= reserve_gap,
                        NORM_FACTOR == 10_000u128,
                ;
                assert(wq.0 == 0);
            } else {
                assert(nb > avail && nb - avail == (base_amount as int - reserve_gap)
                    * NORM_FACTOR as int) by (nonlinear_arith)
                    requires
                        nb == base_amount as int * NORM_FACTOR as int,
                        avail == reserve_gap * NORM_FACTOR as int,
                        base_amount as int > reserve_gap,
                        reserve_gap >= 0,
                        NORM_FACTOR == 10_000u128,
                ;
            }
            assert(wq.0 * BASE_PRECISION as int == (wq.0 / NORM_FACTOR as int) * SCALE as int
                && wq.0 % NORM_FACTOR as int == 0 && wq.0 / NORM_FACTOR as int == if base_amount
                <= reserve_gap {
                0int
            } else {
                base_amount - reserve_gap
            }) by {
                if base_amount <= reserve_gap {
                } else {
                    let gap = base_amount as int - reserve_gap;
                    lemma_fundamental_div_mod_converse_div(
                        gap * NORM_FACTOR as int,
                        NORM_FACTOR as int,
                        gap,
                        0,
                    );
                    assert(gap * NORM_FACTOR as int >= 0) by (nonlinear_arith)
                        requires
                            gap >= 0,
                    ;
                    assert((gap * NORM_FACTOR as int) * BASE_PRECISION as int == gap
                        * SCALE as int) by (nonlinear_arith);
                }
            }
            if r is Ok {
                let back = if base_amount <= reserve_gap {
                    0int
                } else {
                    base_amount as int - reserve_gap
                };
                lemma_rnd_div_exact(back, SCALE as int, up);
            }
        }
        r
    }

    /// The interval walk itself, from an explicit supply window start. The
    /// supply and the base amount are taken into the internal scale, the
    /// active segment is located, and each segment contributes the trapezoid
    /// area under its price ramp, rounded in the given direction; finally the
    /// unpriced base is returned to base precision and the quote to
    /// quote-token precision, with the same rounding.
    #[verifier::loop_isolation(false)]
    pub fn get_quote_amount_with_parameters(
        &self,
        supply: u64,
        base_amount: u64,
        swap_amount_type: SwapAmountType,
        rounding: Rounding,
    ) -> (r: Result<(u64, u64), MarketError>)
        requires
            wf(*self),
        ensures
            ({
                let up = rounding == Rounding::Up;
                let p = if swap_amount_type == SwapAmountType::ExactInput {
                    self.bid_prices@
                } else {
                    self.ask_prices@
                };
                let wq = quote_walk(*self, supply as int, base_amount as int, up, p);
                let scaled_q = wq.1 * pow10(self.quote_token_decimals as nat);
                &&& (r is Ok <==> {
                    &&& (supply as int * NORM_FACTOR as int) / (self.width_scaled as int)
                        <= INTERVAL_NUMBER
                    &&& pow10(self.quote_token_decimals as nat) <= u128::MAX
                    &&& scaled_q <= u128::MAX
                    &&& rnd_div(scaled_q, SCALE as int, up) <= u64::MAX
                })
                &&& match r {
                    Ok(amounts) => {
                        &&& amounts.0 == base_amount - rnd_div(
                            wq.0 * BASE_PRECISION as int,
                            SCALE as int,
                            up,
                        )
                        &&& amounts.1 == rnd_div(scaled_q, SCALE as int, up)
                    },
                    Err(e) => e == MarketError::MathError,
                }
            }),
    {
        proof {
            lemma_width_bounds(*self);
            lemma_norm_exact(supply as int);
            lemma_norm_exact(base_amount as int);
            lemma_mul_le(supply as int, SCALE as int, u64::MAX as int, SCALE as int);
            lemma_mul_le(base_amount as int, SCALE as int, u64::MAX as int, SCALE as int);
        }
        let price_curve = match swap_amount_type {
            SwapAmountType::ExactInput => &self.bid_prices,
            SwapAmountType::ExactOutput => &self.ask_prices,
        };
        let ghost p = price_curve@;
        let ghost up = rounding == Rounding::Up;
        let w = self.width_scaled as u128;
        let normalized_supply = supply as u128 * SCALE / (BASE_PRECISION as u128);
        let mut normalized_base_left = base_amount as u128 * SCALE / (BASE_PRECISION as u128);
        let mut normalized_quote: u128 = 0;
        let start = normalized_supply / w;
        proof {
            lemma_div_pos_is_pos(normalized_supply as int, w as int);
            lemma_mod_division_less_than_divisor(normalized_supply as int, w as int);
        }
        if start > INTERVAL_NUMBER as u128 {
            return Err(MarketError::MathError);
        }
        let mut i: usize = start as usize;
        let mut used: u128 = normalized_supply % w;
        let ghost i0 = i as int;
        let ghost used0 = used as int;
        let ghost nb0 = normalized_base_left as int;
        let ghost full = walk_quote(p, w as int, i0, used0, nb0, up);
        proof {
            lemma_walk_quote_bounds(p, w as int, i0, used0, nb0, up);
        }
        let mut price_0: u64 = price_curve[i];
        while normalized_base_left > 0 && i < PRICES_LENGTH - 1
            invariant
                i0 <= i as int <= INTERVAL_NUMBER,
                used < w,
                price_0 == p[i as int],
                normalized_base_left as int <= nb0,
                walk_quote(p, w as int, i as int, used as int, normalized_base_left as int, up).0
                    == full.0,
                normalized_quote + walk_quote(
                    p,
                    w as int,
                    i as int,
                    used as int,
                    normalized_base_left as int,
                    up,
                ).1 == full.1,
            decreases PRICES_LENGTH - i,
        {
            let price_1 = price_curve[i + 1];
            let ghost cur = walk_quote(
                p,
                w as int,
                i as int,
                used as int,
                normalized_base_left as int,
                up,
            );
            let avail = w - used;
            let delta_base = if normalized_base_left < avail {
                normalized_base_left
            } else {
                avail
            };
            proof {
                lemma_seg_quote_bounds(
                    price_0 as int,
                    price_1 as int,
                    w as int,
                    used as int,
                    delta_base as int,
                    up,
                );
                lemma_mul_le(
                    (price_1 - price_0) as int,
                    delta_base as int + 2 * used as int,
                    MAX_PRICE as int,
                    2 * MAX_PRICE,
                );
                lemma_mul_le(price_0 as int, w as int, MAX_PRICE as int, MAX_PRICE as int);
                lemma_walk_quote_bounds(
                    p,
                    w as int,
                    i as int + 1,
                    0,
                    normalized_base_left as int - delta_base as int,
                    up,
                );
            }
            let num = (price_1 - price_0) as u128 * (delta_base + 2 * used) + 2 * (
            price_0 as u128) * w;
            let delta_quote = mul_div(delta_base, num, 2 * SCALE * w, rounding).unwrap();
            normalized_base_left = normalized_base_left - delta_base;
            normalized_quote = normalized_quote + delta_quote;
            used = 0;
            price_0 = price_1;
            i = i + 1;
        }
        let base_unswapped = normalized_base_left * (BASE_PRECISION as u128);
        proof {
            lemma_mul_le(
                normalized_base_left as int,
                BASE_PRECISION as int,
                nb0,
                BASE_PRECISION as int,
            );
            lemma_mul_inequality(
                normalized_base_left as int,
                nb0,
                BASE_PRECISION as int,
            );
            lemma_rnd_div_mono(
                normalized_base_left as int * BASE_PRECISION as int,
                nb0 * BASE_PRECISION as int,
                SCALE as int,
                up,
            );
            assert(nb0 * BASE_PRECISION as int == base_amount as int * SCALE as int)
                by (nonlinear_arith)
                requires
                    nb0 == base_amount as int * NORM_FACTOR as int,
                    NORM_FACTOR == 10_000u128,
                    BASE_PRECISION == 1_000_000u64,
                    SCALE == 10_000_000_000u128,
            ;
            lemma_rnd_div_exact(base_amount as int, SCALE as int, up);
        }
        let base_back = match div(base_unswapped, SCALE, rounding) {
            Ok(v) => v,
            Err(_) => {
                proof {
                    assert(false);
                }
                return Err(MarketError::MathError);
            },
        };
        let base_amount_swapped = base_amount - base_back;
        let precision = match pow10_checked(self.quote_token_decimals) {
            Some(v) => v,
            None => {
                return Err(MarketError::MathError);
            },
        };
        let scaled_quote = match normalized_quote.checked_mul(precision) {
            Some(v) => v,
            None => {
                return Err(MarketError::MathError);
            },
        };
        let quote_amount_swapped = match div(scaled_quote, SCALE, rounding) {
            Ok(v) => v,
            Err(_) => {
                return Err(MarketError::MathError);
            },
        };
        Ok((base_amount_swapped, quote_amount_swapped))
    }

    /// Base amount a seller must supply to be paid `quote_amount`, walking the
    /// bid curve backward from the circulating supply: lower intervals pay
    /// less, so a payout target consumes supply in decreasing-price order.
    /// Base rounds up (never accept less base than funds the payout) and the
    /// unpaid part of the target is reported. Returns
    /// `(base sold, quote paid out)`.
    #[verifier::loop_isolation(false)]
    pub fn get_base_amount_in(&self, quote_amount: u64) -> (r: Result<(u64, u64), MarketError>)
        requires
            wf(*self),
        ensures
            r is Ok <==> pow10(self.quote_token_decimals as nat) <= u128::MAX,
            match r {
                Ok(amounts) => {
                    let prec = pow10(self.quote_token_decimals as nat);
                    let w = self.width_scaled as int;
                    let ns = circulating(*self) * NORM_FACTOR as int;
                    let nq = quote_amount as int * SCALE as int / prec;
                    let wi = if ns % w == 0 {
                        walk_base_in(self.bid_prices@, w, ns / w, w, nq)
                    } else {
                        walk_base_in(self.bid_prices@, w, ns / w + 1, ns % w, nq)
                    };
                    &&& amounts.0 == rnd_div(wi.1 * BASE_PRECISION as int, SCALE as int, true)
                    &&& amounts.1 == quote_amount - rnd_div(wi.0 * prec, SCALE as int, true)
                },
                Err(e) => e == MarketError::MathError,
            },
    {
        proof {
            lemma_width_bounds(*self);
            lemma_norm_exact(circulating(*self));
            lemma_mul_le(circulating(*self), SCALE as int, u64::MAX as int, SCALE as int);
            lemma_mul_le(quote_amount as int, SCALE as int, u64::MAX as int, SCALE as int);
        }
        let circulating_supply = self.circulating_supply();
        let w = self.width_scaled as u128;
        let normalized_supply = circulating_supply as u128 * SCALE / (BASE_PRECISION as u128);
        let precision = match pow10_checked(self.quote_token_decimals) {
            Some(v) => v,
            None => {
                return Err(MarketError::MathError);
            },
        };
        let ghost prec = precision as int;
        proof {
            lemma_pow10_monotone(0, self.quote_token_decimals as nat);
        }
        let mut normalized_quote_left = quote_amount as u128 * SCALE / precision;
        let ghost nq0 = normalized_quote_left as int;
        let mut normalized_base: u128 = 0;
        proof {
            lemma_div_pos_is_pos(normalized_supply as int, w as int);
            lemma_mod_division_less_than_divisor(normalized_supply as int, w as int);
            lemma_fundamental_div_mod(normalized_supply as int, w as int);
            lemma_mul_le(circulating_supply as int, NORM_FACTOR as int, self.total_supply as int,
                NORM_FACTOR as int);
            lemma_div_is_ordered(normalized_supply as int, 10 * w as int, w as int);
            lemma_fundamental_div_mod_converse_div(10 * w as int, w as int, 10, 0);
            lemma_div_pos_is_pos(quote_amount as int * SCALE as int, prec);
        }
        let mut i: usize = (normalized_supply / w) as usize;
        let mut interval_supply_available: u128 = normalized_supply % w;
        proof {
            assert(normalized_supply as int <= 10 * (w as int));
            if normalized_supply % w != 0 && normalized_supply / w == 10 {
                assert(w as int * (normalized_supply as int / w as int) == w as int * 10);
                assert(normalized_supply as int == w as int * 10 + normalized_supply as int
                    % w as int);
                assert(false);
            }
        }
        if interval_supply_available == 0 {
            interval_supply_available = w;
        } else {
            i = i + 1;
        }
        let ghost i0 = i as int;
        let ghost avail0 = interval_supply_available as int;
        let ghost full = walk_base_in(self.bid_prices@, w as int, i0, avail0, nq0);
        proof {
            lemma_walk_base_in_bounds(self.bid_prices@, w as int, i0, avail0, nq0);
            assert((i0 - 1) * w as int + avail0 <= 10 * w as int) by (nonlinear_arith)
                requires
                    0 <= i0 <= 10,
                    0 < avail0 <= w as int,
                    w as int > 0,
            ;
        }
        let mut price_1: u64 = self.bid_prices[i];
        while normalized_quote_left > 0 && i > 0
            invariant
                0 <= i as int <= i0,
                0 < interval_supply_available <= w,
                i as int == i0 || interval_supply_available == w,
                price_1 == self.bid_prices@[i as int],
                normalized_quote_left as int <= nq0,
                normalized_base as int + walk_base_in(
                    self.bid_prices@,
                    w as int,
                    i as int,
                    interval_supply_available as int,
                    normalized_quote_left as int,
                ).1 == full.1,
                walk_base_in(
                    self.bid_prices@,
                    w as int,
                    i as int,
                    interval_supply_available as int,
                    normalized_quote_left as int,
                ).0 == full.0,
            decreases i,
        {
            let price_0 = self.bid_prices[i - 1];
            let avail = interval_supply_available;
            proof {
                lemma_seg_quote_bounds(price_0 as int, price_1 as int, w as int, 0, avail as int,
                    false);
                lemma_mul_le(
                    (price_1 - price_0) as int,
                    avail as int,
                    MAX_PRICE as int,
                    2 * MAX_PRICE,
                );
                lemma_mul_le(price_0 as int, w as int, MAX_PRICE as int, MAX_PRICE as int);
                lemma_mul_le(2 * SCALE as int, w as int, 2 * SCALE as int, MAX_PRICE as int);
                lemma_walk_base_in_bounds(
                    self.bid_prices@,
                    w as int,
                    i as int,
                    avail as int,
                    normalized_quote_left as int,
                );
                lemma_walk_base_in_bounds(
                    self.bid_prices@,
                    w as int,
                    i as int - 1,
                    w as int,
                    0,
                );
            }
            let num = (price_1 - price_0) as u128 * avail + 2 * (price_0 as u128) * w;
            let payout_full = mul_div(avail, num, 2 * SCALE * w, Rounding::Down).unwrap();
            if payout_full <= normalized_quote_left {
                proof {
                    lemma_walk_base_in_bounds(
                        self.bid_prices@,
                        w as int,
                        i as int - 1,
                        w as int,
                        normalized_quote_left as int - payout_full as int,
                    );
                }
                normalized_base = normalized_base + avail;
                normalized_quote_left = normalized_quote_left - payout_full;
            } else {
                let delta_base = max_base_for_payout_exec(
                    price_0,
                    price_1,
                    w,
                    avail,
                    normalized_quote_left,
                );
                normalized_base = normalized_base + delta_base;
                normalized_quote_left = 0;
            }
            interval_supply_available = w;
            price_1 = price_0;
            i = i - 1;
        }
        proof {
            assert(full.1 == normalized_base as int);
            assert(full.0 == normalized_quote_left as int);
            lemma_mul_le(normalized_base as int, BASE_PRECISION as int, 10 * w as int,
                BASE_PRECISION as int);
            assert((i0 - 1) * w as int + avail0 <= 10 * w as int) by (nonlinear_arith)
                requires
                    0 <= i0 <= 10,
                    0 < avail0 <= w as int,
                    w as int > 0,
            ;
            lemma_rnd_div_mono(
                normalized_base as int * BASE_PRECISION as int,
                self.total_supply as int * SCALE as int,
                SCALE as int,
                true,
            );
            assert(10 * w as int * BASE_PRECISION as int == self.total_supply as int
                * SCALE as int) by (nonlinear_arith)
                requires
                    10 * w as int == self.total_supply as int * NORM_FACTOR as int,
                    NORM_FACTOR == 10_000u128,
                    BASE_PRECISION == 1_000_000u64,
                    SCALE == 10_000_000_000u128,
            ;
            assert(normalized_base as int * BASE_PRECISION as int <= self.total_supply as int
                * SCALE as int) by (nonlinear_arith)
                requires
                    normalized_base as int <= 10 * w as int,
                    10 * w as int * BASE_PRECISION as int == self.total_supply as int
                        * SCALE as int,
                    BASE_PRECISION == 1_000_000u64,
            ;
            lemma_rnd_div_exact(self.total_supply as int, SCALE as int, true);
            lemma_mul_le(normalized_quote_left as int, prec, nq0, prec);
            lemma_mul_inequality(normalized_quote_left as int, nq0, prec);
            lemma_fundamental_div_mod(quote_amount as int * SCALE as int, prec);
            lemma_rnd_div_mono(
                normalized_quote_left as int * prec,
                quote_amount as int * SCALE as int,
                SCALE as int,
                true,
            );
            lemma_rnd_div_exact(quote_amount as int, SCALE as int, true);
            assert(nq0 * prec <= quote_amount as int * SCALE as int) by (nonlinear_arith)
                requires
                    quote_amount as int * SCALE as int == prec * nq0 + (quote_amount as int
                        * SCALE as int) % prec,
                    (quote_amount as int * SCALE as int) % prec >= 0,
            ;
        }
        let base_amount_swapped = match div(
            normalized_base * (BASE_PRECISION as u128),
            SCALE,
            Rounding::Up,
        ) {
            Ok(v) => v,
            Err(_) => {
                proof {
                    assert(false);
                }
                return Err(MarketError::MathError);
            },
        };
        let paid_back = match div(normalized_quote_left * precision, SCALE, Rounding::Up) {
            Ok(v) => v,
            Err(_) => {
                proof {
                    assert(false);
                }
                return Err(MarketError::MathError);
            },
        };
        let quote_amount_swapped = quote_amount - paid_back;
        Ok((base_amount_swapped, quote_amount_swapped))
    }

    /// Base amount a buyer receives for spending `quote_amount`, walking the
    /// ask curve forward from the circulating supply. Base rounds down (never
    /// give more base than the quote strictly purchases) and the unspent part
    /// of the budget is reported. Returns `(base bought, quote spent)`.
    #[verifier::loop_isolation(false)]
    pub fn get_base_amount_out(&self, quote_amount: u64) -> (r: Result<(u64, u64), MarketError>)
        requires
            wf(*self),
        ensures
            r is Ok <==> pow10(self.quote_token_decimals as nat) <= u128::MAX,
            match r {
                Ok(amounts) => {
                    let prec = pow10(self.quote_token_decimals as nat);
                    let w = self.width_scaled as int;
                    let ns = circulating(*self) * NORM_FACTOR as int;
                    let nq = quote_amount as int * SCALE as int / prec;
                    let wo = walk_base_out(self.ask_prices@, w, ns / w, ns % w, nq);
                    &&& amounts.0 == rnd_div(wo.1 * BASE_PRECISION as int, SCALE as int, false)
                    &&& amounts.1 == quote_amount - rnd_div(wo.0 * prec, SCALE as int, false)
                },
                Err(e) => e == MarketError::MathError,
            },
    {
        proof {
            lemma_width_bounds(*self);
            lemma_norm_exact(circulating(*self));
            lemma_mul_le(circulating(*self), SCALE as int, u64::MAX as int, SCALE as int);
            lemma_mul_le(quote_amount as int, SCALE as int, u64::MAX as int, SCALE as int);
        }
        let circulating_supply = self.circulating_supply();
        let w = self.width_scaled as u128;
        let normalized_supply = circulating_supply as u128 * SCALE / (BASE_PRECISION as u128);
        let precision = match pow10_checked(self.quote_token_decimals) {
            Some(v) => v,
            None => {
                return Err(MarketError::MathError);
            },
        };
        let ghost prec = precision as int;
        proof {
            lemma_pow10_monotone(0, self.quote_token_decimals as nat);
        }
        let mut normalized_quote_left = quote_amount as u128 * SCALE / precision;
        let ghost nq0 = normalized_quote_left as int;
        let mut normalized_base: u128 = 0;
        proof {
            lemma_div_pos_is_pos(normalized_supply as int, w as int);
            lemma_mod_division_less_than_divisor(normalized_supply as int, w as int);
            lemma_fundamental_div_mod(normalized_supply as int, w as int);
            lemma_mul_le(circulating_supply as int, NORM_FACTOR as int, self.total_supply as int,
                NORM_FACTOR as int);
            lemma_div_is_ordered(normalized_supply as int, 10 * w as int, w as int);
            lemma_fundamental_div_mod_converse_div(10 * w as int, w as int, 10, 0);
            lemma_div_pos_is_pos(quote_amount as int * SCALE as int, prec);
        }
        let mut i: usize = (normalized_supply / w) as usize;
        let mut interval_supply_already_used: u128 = normalized_supply % w;
        let ghost i0 = i as int;
        let ghost used0 = interval_supply_already_used as int;
        let ghost full = walk_base_out(self.ask_prices@, w as int, i0, used0, nq0);
        proof {
            lemma_walk_base_out_bounds(self.ask_prices@, w as int, i0, used0, nq0);
            assert((INTERVAL_NUMBER - i0) * w as int - used0 <= 10 * w as int)
                by (nonlinear_arith)
                requires
                    0 <= i0 <= 10,
                    0 <= used0,
                    w as int > 0,
            ;
        }
        let mut price_0: u64 = self.ask_prices[i];
        while normalized_quote_left > 0 && i < PRICES_LENGTH - 1
            invariant
                i0 <= i as int <= INTERVAL_NUMBER,
                interval_supply_already_used < w,
                price_0 == self.ask_prices@[i as int],
                normalized_quote_left as int <= nq0,
                normalized_base as int + walk_base_out(
                    self.ask_prices@,
                    w as int,
                    i as int,
                    interval_supply_already_used as int,
                    normalized_quote_left as int,
                ).1 == full.1,
                walk_base_out(
                    self.ask_prices@,
                    w as int,
                    i as int,
                    interval_supply_already_used as int,
                    normalized_quote_left as int,
                ).0 == full.0,
            decreases PRICES_LENGTH - i,
        {
            let price_1 = self.ask_prices[i + 1];
            let avail = w - interval_supply_already_used;
            let used = interval_supply_already_used;
            proof {
                lemma_seg_quote_bounds(price_0 as int, price_1 as int, w as int, used as int,
                    avail as int, true);
                lemma_mul_le(
                    (price_1 - price_0) as int,
                    avail as int + 2 * used as int,
                    MAX_PRICE as int,
                    2 * MAX_PRICE,
                );
                lemma_mul_le(price_0 as int, w as int, MAX_PRICE as int, MAX_PRICE as int);
                lemma_mul_le(2 * SCALE as int, w as int, 2 * SCALE as int, MAX_PRICE as int);
                lemma_walk_base_out_bounds(
                    self.ask_prices@,
                    w as int,
                    i as int,
                    used as int,
                    normalized_quote_left as int,
                );
                assert((INTERVAL_NUMBER - i0) * w as int - used0 <= 10 * w as int)
                    by (nonlinear_arith)
                    requires
                        0 <= i0 <= 10,
                        0 <= used0,
                        w as int > 0,
                ;
            }
            let num = (price_1 - price_0) as u128 * (avail + 2 * used) + 2 * (price_0 as u128)
                * w;
            let cost_full = mul_div(avail, num, 2 * SCALE * w, Rounding::Up).unwrap();
            if cost_full <= normalized_quote_left {
                proof {
                    lemma_walk_base_out_bounds(
                        self.ask_prices@,
                        w as int,
                        i as int + 1,
                        0,
                        normalized_quote_left as int - cost_full as int,
                    );
                }
                normalized_base = normalized_base + avail;
                normalized_quote_left = normalized_quote_left - cost_full;
            } else {
                let delta_base = max_base_for_quote_exec(
                    price_0,
                    price_1,
                    w,
                    used,
                    normalized_quote_left,
                );
                normalized_base = normalized_base + delta_base;
                normalized_quote_left = 0;
            }
            interval_supply_already_used = 0;
            price_0 = price_1;
            i = i + 1;
        }
        proof {
            assert(full.1 == normalized_base as int);
            assert(full.0 == normalized_quote_left as int);
            assert((INTERVAL_NUMBER - i0) * w as int - used0 <= 10 * w as int)
                by (nonlinear_arith)
                requires
                    0 <= i0 <= 10,
                    0 <= used0,
                    w as int > 0,
            ;
            lemma_mul_le(normalized_base as int, BASE_PRECISION as int, 10 * w as int,
                BASE_PRECISION as int);
            lemma_rnd_div_mono(
                normalized_base as int * BASE_PRECISION as int,
                self.total_supply as int * SCALE as int,
                SCALE as int,
                false,
            );
            assert(10 * w as int * BASE_PRECISION as int == self.total_supply as int
                * SCALE as int) by (nonlinear_arith)
                requires
                    10 * w as int == self.total_supply as int * NORM_FACTOR as int,
                    NORM_FACTOR == 10_000u128,
                    BASE_PRECISION == 1_000_000u64,
                    SCALE == 10_000_000_000u128,
            ;
            assert(normalized_base as int * BASE_PRECISION as int <= self.total_supply as int
                * SCALE as int) by (nonlinear_arith)
                requires
                    normalized_base as int <= 10 * w as int,
                    10 * w as int * BASE_PRECISION as int == self.total_supply as int
                        * SCALE as int,
                    BASE_PRECISION == 1_000_000u64,
            ;
            lemma_rnd_div_exact(self.total_supply as int, SCALE as int, false);
            lemma_mul_le(normalized_quote_left as int, prec, nq0, prec);
            lemma_mul_inequality(normalized_quote_left as int, nq0, prec);
            lemma_fundamental_div_mod(quote_amount as int * SCALE as int, prec);
            lemma_rnd_div_mono(
                normalized_quote_left as int * prec,
                quote_amount as int * SCALE as int,
                SCALE as int,
                false,
            );
            lemma_rnd_div_exact(quote_amount as int, SCALE as int, false);
            assert(nq0 * prec <= quote_amount as int * SCALE as int) by (nonlinear_arith)
                requires
                    quote_amount as int * SCALE as int == prec * nq0 + (quote_amount as int
                        * SCALE as int) % prec,
                    (quote_amount as int * SCALE as int) % prec >= 0,
            ;
        }
        let base_amount_swapped = match div(
            normalized_base * (BASE_PRECISION as u128),
            SCALE,
            Rounding::Down,
        ) {
            Ok(v) => v,
            Err(_) => {
                proof {
                    assert(false);
                }
                return Err(MarketError::MathError);
            },
        };
        let unspent = match div(normalized_quote_left * precision, SCALE, Rounding::Down) {
            Ok(v) => v,
            Err(_) => {
                proof {
                    assert(false);
                }
                return Err(MarketError::MathError);
            },
        };
        let quote_amount_swapped = quote_amount - unspent;
        Ok((base_amount_swapped, quote_amount_swapped))
    }
}

/// Binary search for the largest amount of the interval's remaining width
/// whose rounded-up cost stays within the budget.
#[verifier::loop_isolation(false)]
fn max_base_for_quote_exec(p0: u64, p1: u64, w: u128, used: u128, q: u128) -> (db: u128)
    requires
        p0 <= p1,
        p1 <= MAX_PRICE,
        SCALE <= w <= MAX_PRICE as u128,
        used < w,
        seg_quote(p0 as int, p1 as int, w as int, used as int, w as int - used as int, true)
            > q,
    ensures
        is_max_affordable_base(p0 as int, p1 as int, w as int, used as int, q as int, db as int),
        db as int == max_affordable_base(p0 as int, p1 as int, w as int, used as int, q as int),
{
    let mut lo: u128 = 0;
    let mut hi: u128 = w - used;
    proof {
        let d = 2 * SCALE as int * w as int;
        assert(0 < d) by (nonlinear_arith)
            requires
                d == 2 * SCALE as int * w as int,
                w as int >= SCALE as int,
                SCALE == 10_000_000_000u128,
        ;
        assert(0 * seg_num(p0 as int, p1 as int, w as int, used as int, 0) == 0)
            by (nonlinear_arith);
        lemma_rnd_div_basics(0, d, true);
        assert(seg_quote(p0 as int, p1 as int, w as int, used as int, 0, true) == 0);
    }
    while lo + 1 < hi
        invariant
            0 <= lo < hi <= w - used,
            seg_quote(p0 as int, p1 as int, w as int, used as int, lo as int, true) <= q,
            seg_quote(p0 as int, p1 as int, w as int, used as int, hi as int, true) > q,
        decreases hi - lo,
    {
        let mid = lo + (hi - lo) / 2;
        proof {
            lemma_seg_quote_bounds(p0 as int, p1 as int, w as int, used as int, mid as int,
                true);
            lemma_mul_le(
                (p1 - p0) as int,
                mid as int + 2 * used as int,
                MAX_PRICE as int,
                2 * MAX_PRICE,
            );
            lemma_mul_le(p0 as int, w as int, MAX_PRICE as int, MAX_PRICE as int);
            lemma_mul_le(2 * SCALE as int, w as int, 2 * SCALE as int, MAX_PRICE as int);
        }
        let num = (p1 - p0) as u128 * (mid + 2 * used) + 2 * (p0 as u128) * w;
        let cost = mul_div(mid, num, 2 * SCALE * w, Rounding::Up).unwrap();
        if cost <= q {
            lo = mid;
        } else {
            hi = mid;
        }
    }
    proof {
        lemma_max_affordable_base_unique(
            p0 as int,
            p1 as int,
            w as int,
            used as int,
            q as int,
            lo as int,
        );
    }
    lo
}

/// Binary search for the smallest amount, sold from the top of the `avail`
/// occupied units of an interval, whose rounded-down payout reaches the
/// target.
#[verifier::loop_isolation(false)]
fn max_base_for_payout_exec(p0: u64, p1: u64, w: u128, avail: u128, q: u128) -> (db: u128)
    requires
        p0 <= p1,
        p1 <= MAX_PRICE,
        SCALE <= w <= MAX_PRICE as u128,
        0 < avail <= w,
        0 < q,
        seg_quote(p0 as int, p1 as int, w as int, 0, avail as int, false) > q,
    ensures
        is_min_base_for_payout(p0 as int, p1 as int, w as int, avail as int, q as int, db as int),
        db as int == min_base_for_payout(p0 as int, p1 as int, w as int, avail as int, q as int),
{
    let mut lo: u128 = 0;
    let mut hi: u128 = avail;
    proof {
        let d = 2 * SCALE as int * w as int;
        assert(0 < d) by (nonlinear_arith)
            requires
                d == 2 * SCALE as int * w as int,
                w as int >= SCALE as int,
                SCALE == 10_000_000_000u128,
        ;
        assert(0 * seg_num(p0 as int, p1 as int, w as int, avail as int, 0) == 0)
            by (nonlinear_arith);
        lemma_rnd_div_basics(0, d, false);
        assert(seg_quote(p0 as int, p1 as int, w as int, avail as int, 0, false) == 0);
    }
    while lo + 1 < hi
        invariant
            0 <= lo < hi <= avail,
            seg_quote(p0 as int, p1 as int, w as int, avail as int - lo as int, lo as int, false)
                < q,
            seg_quote(p0 as int, p1 as int, w as int, avail as int - hi as int, hi as int, false)
                >= q,
        decreases hi - lo,
    {
        let mid = lo + (hi - lo) / 2;
        let used = avail - mid;
        proof {
            lemma_seg_quote_bounds(p0 as int, p1 as int, w as int, used as int, mid as int,
                false);
            lemma_mul_le(
                (p1 - p0) as int,
                mid as int + 2 * used as int,
                MAX_PRICE as int,
                2 * MAX_PRICE,
            );
            lemma_mul_le(p0 as int, w as int, MAX_PRICE as int, MAX_PRICE as int);
            lemma_mul_le(2 * SCALE as int, w as int, 2 * SCALE as int, MAX_PRICE as int);
        }
        let num = (p1 - p0) as u128 * (mid + 2 * used) + 2 * (p0 as u128) * w;
        let payout = mul_div(mid, num, 2 * SCALE * w, Rounding::Down).unwrap();
        if payout < q {
            lo = mid;
        } else {
            hi = mid;
        }
    }
    proof {
        lemma_min_base_for_payout_unique(
            p0 as int,
            p1 as int,
            w as int,
            avail as int,
            q as int,
            hi as int,
        );
    }
    hi
}

} // verus!
