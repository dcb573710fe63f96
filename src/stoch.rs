use crate::quote::{Quote, QuoteRow, PRICE_SCALE};
use vstd::arithmetic::div_mod::{lemma_div_by_multiple, lemma_div_is_ordered, lemma_div_pos_is_pos};
use vstd::prelude::*;

verus! {

/// The largest `u64`, as the bound of every value a series holds.
pub open spec fn max_value() -> int {
    u64::MAX as int
}

/// The values of a series as mathematical integers.
pub open spec fn ints(s: Seq<u64>) -> Seq<int> {
    s.map_values(|v: u64| v as int)
}

/// Sum of the first `i` values of `s`.
pub open spec fn prefix_sum(s: Seq<int>, i: int) -> int
    decreases i,
{
    if i <= 0 {
        0
    } else {
        prefix_sum(s, i - 1) + s[i - 1]
    }
}

/// Sum of the `w` values of `s` that start at index `start`.
pub open spec fn window_sum(s: Seq<int>, start: int, w: int) -> int {
    prefix_sum(s, start + w) - prefix_sum(s, start)
}

/// Number of full windows of size `w` over `n` values: `n - w + 1`, or none
/// where the window is empty or longer than the series.
pub open spec fn output_len(n: int, w: int) -> int {
    if w >= 1 && n >= w {
        n - w + 1
    } else {
        0
    }
}

/// Simple moving average: output `k` is the mean of values `k .. k + w`,
/// rounded down.
pub open spec fn sma_spec(s: Seq<int>, w: int) -> Seq<int> {
    Seq::new(output_len(s.len() as int, w) as nat, |k: int| window_sum(s, k, w) / w)
}

/// Wilder's smoothing at output `k`: the mean of the first `w` values, then
/// each step `(x + (w - 1) * prev) / w`, that is `alpha * x + (1 - alpha) * prev`
/// with `alpha = 1 / w`, rounded down.
pub open spec fn rma_at(s: Seq<int>, w: int, k: int) -> int
    decreases k,
{
    if k <= 0 {
        prefix_sum(s, w) / w
    } else {
        (s[w - 1 + k] + (w - 1) * rma_at(s, w, k - 1)) / w
    }
}

/// Wilder's smoothing (RMA) of `s` with period `w`.
pub open spec fn rma_spec(s: Seq<int>, w: int) -> Seq<int> {
    Seq::new(output_len(s.len() as int, w) as nat, |k: int| rma_at(s, w, k))
}

/// The last value of a series, if it has one.
pub open spec fn last_of(s: Seq<int>) -> Option<int> {
    if s.len() == 0 {
        None
    } else {
        Some(s.last())
    }
}

/// Every value of `s` lies in `[0, m]`.
pub open spec fn bounded(s: Seq<int>, m: int) -> bool {
    forall|i: int| 0 <= i < s.len() ==> 0 <= #[trigger] s[i] <= m
}

proof fn lemma_ints_bounded(s: Seq<u64>)
    ensures
        bounded(ints(s), max_value()),
        ints(s).len() == s.len(),
{
    assert forall|i: int| 0 <= i < ints(s).len() implies 0 <= #[trigger] ints(s)[i] <= max_value() by {
        assert(ints(s)[i] == s[i] as int);
    }
}

/// A sum of values in `[0, m]` over `i - j` of them lies in `[0, (i - j) * m]`.
proof fn lemma_window_bounds(s: Seq<int>, m: int, j: int, i: int)
    requires
        bounded(s, m),
        0 <= j <= i <= s.len(),
    ensures
        0 <= prefix_sum(s, i) - prefix_sum(s, j) <= (i - j) * m,
    decreases i - j,
{
    if i > j {
        lemma_window_bounds(s, m, j, i - 1);
        assert(0 <= s[i - 1] <= m);
        assert(prefix_sum(s, i) == prefix_sum(s, i - 1) + s[i - 1]);
        assert((i - 1 - j) * m + m == (i - j) * m) by (nonlinear_arith);
    } else {
        assert((i - j) * m == 0) by (nonlinear_arith)
            requires i == j;
    }
}

/// `a / d <= b` where `a <= b * d`.
proof fn lemma_div_le(a: int, b: int, d: int)
    requires
        0 <= a <= b * d,
        0 < d,
        0 <= b,
    ensures
        0 <= a / d <= b,
{
    lemma_div_is_ordered(a, b * d, d);
    lemma_div_by_multiple(b, d);
    lemma_div_pos_is_pos(a, d);
}

proof fn lemma_rma_bounded(s: Seq<int>, m: int, w: int, k: int)
    requires
        bounded(s, m),
        0 <= m,
        1 <= w,
        0 <= k,
        w - 1 + k < s.len(),
    ensures
        0 <= rma_at(s, w, k) <= m,
    decreases k,
{
    if k == 0 {
        lemma_window_bounds(s, m, 0, w);
        assert(w * m == m * w) by (nonlinear_arith);
        lemma_div_le(prefix_sum(s, w), m, w);
    } else {
        lemma_rma_bounded(s, m, w, k - 1);
        let p = rma_at(s, w, k - 1);
        let x = s[w - 1 + k];
        assert(0 <= (w - 1) * p <= (w - 1) * m) by (nonlinear_arith)
            requires 0 <= p <= m, 1 <= w;
        assert(0 <= x <= m);
        assert(x + (w - 1) * p <= m * w) by (nonlinear_arith)
            requires 0 <= x <= m, 0 <= p <= m, 1 <= w;
        lemma_div_le(x + (w - 1) * p, m, w);
    }
}

/// Simple moving averages of `vals` over windows of `period` values, one per
/// full window; none where `period` is zero or longer than `vals`.
pub fn get_smas(vals: &[u64], period: usize) -> (r: Vec<u64>)
    ensures
        ints(r@) == sma_spec(ints(vals@), period as int),
{
    let ghost s = ints(vals@);
    let n = vals.len();
    let mut r: Vec<u64> = Vec::new();
    if period == 0 || n < period {
        assert(ints(r@) =~= sma_spec(s, period as int));
        return r;
    }
    proof {
        lemma_ints_bounded(vals@);
    }
    let mut sum: u128 = 0;
    let mut i: usize = 0;
    while i < period
        invariant
            0 <= i <= period <= n,
            n == vals.len(),
            s == ints(vals@),
            bounded(s, max_value()),
            s.len() == n,
            sum == prefix_sum(s, i as int),
        decreases period - i,
    {
        proof {
            lemma_window_bounds(s, max_value(), 0, i + 1);
            assert((i + 1) * max_value() <= u64::MAX * u64::MAX) by (nonlinear_arith)
                requires i + 1 <= u64::MAX;
        }
        sum = sum + vals[i] as u128;
        i = i + 1;
    }
    let p = period as u128;
    proof {
        lemma_window_bounds(s, max_value(), 0, period as int);
        assert(period * max_value() == max_value() * period) by (nonlinear_arith);
        lemma_div_le(sum as int, max_value(), period as int);
    }
    r.push((sum / p) as u64);
    let mut k: usize = 1;
    while k <= n - period
        invariant
            1 <= k <= n - period + 1,
            1 <= period <= n,
            p == period,
            n == vals.len(),
            s == ints(vals@),
            bounded(s, max_value()),
            s.len() == n,
            sum == window_sum(s, k - 1, period as int),
            r@.len() == k,
            forall|j: int| 0 <= j < k ==> r@[j] as int == window_sum(s, j, period as int) / (period as int),
        decreases n - period + 1 - k,
    {
        proof {
            lemma_window_bounds(s, max_value(), k as int, k + period);
            lemma_window_bounds(s, max_value(), k - 1, k - 1 + period);
            lemma_window_bounds(s, max_value(), k as int, k - 1 + period);
            assert(prefix_sum(s, k - 1 + period + 1) == prefix_sum(s, k - 1 + period) + s[k - 1 + period]);
            assert(period * max_value() <= u64::MAX * u64::MAX) by (nonlinear_arith)
                requires period <= u64::MAX;
            assert(period * max_value() == max_value() * period) by (nonlinear_arith);
            lemma_div_le(window_sum(s, k as int, period as int), max_value(), period as int);
            assert(prefix_sum(s, k as int) == prefix_sum(s, k - 1) + s[k - 1]);
        }
        sum = sum - vals[k - 1] as u128;
        sum = sum + vals[k - 1 + period] as u128;
        r.push((sum / p) as u64);
        k = k + 1;
    }
    assert(ints(r@) =~= sma_spec(s, period as int));
    r
}

/// Wilder's smoothing (RMA) of `vals` with `period`: seeded with the mean of
/// the first `period` values, one output per full window; none where `period`
/// is zero or longer than `vals`.
pub fn get_rmas(vals: &[u64], period: usize) -> (r: Vec<u64>)
    ensures
        ints(r@) == rma_spec(ints(vals@), period as int),
{
    let ghost s = ints(vals@);
    let n = vals.len();
    let mut r: Vec<u64> = Vec::new();
    if period == 0 || n < period {
        assert(ints(r@) =~= rma_spec(s, period as int));
        return r;
    }
    proof {
        lemma_ints_bounded(vals@);
    }
    let mut sum: u128 = 0;
    let mut i: usize = 0;
    while i < period
        invariant
            0 <= i <= period <= n,
            n == vals.len(),
            s == ints(vals@),
            bounded(s, max_value()),
            s.len() == n,
            sum == prefix_sum(s, i as int),
        decreases period - i,
    {
        proof {
            lemma_window_bounds(s, max_value(), 0, i + 1);
            assert((i + 1) * max_value() <= u64::MAX * u64::MAX) by (nonlinear_arith)
                requires i + 1 <= u64::MAX;
        }
        sum = sum + vals[i] as u128;
        i = i + 1;
    }
    let p = period as u128;
    proof {
        lemma_rma_bounded(s, max_value(), period as int, 0);
    }
    let mut avg: u64 = (sum / p) as u64;
    r.push(avg);
    let mut k: usize = 1;
    while k <= n - period
        invariant
            1 <= k <= n - period + 1,
            1 <= period <= n,
            p == period,
            n == vals.len(),
            s == ints(vals@),
            bounded(s, max_value()),
            s.len() == n,
            avg == rma_at(s, period as int, k - 1),
            r@.len() == k,
            forall|j: int| 0 <= j < k ==> r@[j] as int == rma_at(s, period as int, j),
        decreases n - period + 1 - k,
    {
        proof {
            lemma_rma_bounded(s, max_value(), period as int, k as int);
            assert((p - 1) * avg <= (u64::MAX - 1) * u64::MAX) by (nonlinear_arith)
                requires p - 1 <= u64::MAX - 1, avg <= u64::MAX;
        }
        let x = vals[period - 1 + k] as u128;
        avg = ((x + (p - 1) * avg as u128) / p) as u64;
        r.push(avg);
        k = k + 1;
    }
    assert(ints(r@) =~= rma_spec(s, period as int));
    r
}


/// `|a - b|`.
pub open spec fn abs_diff(a: int, b: int) -> int {
    if a >= b {
        a - b
    } else {
        b - a
    }
}

/// The larger of `a` and `b`.
pub open spec fn max2(a: int, b: int) -> int {
    if a >= b {
        a
    } else {
        b
    }
}

/// The smaller of `a` and `b`.
pub open spec fn min2(a: int, b: int) -> int {
    if a <= b {
        a
    } else {
        b
    }
}

/// Number of consecutive pairs among `n` bars.
pub open spec fn pairs_len(n: int) -> int {
    if n >= 1 {
        n - 1
    } else {
        0
    }
}

/// True range of a bar given the bar before it:
/// `max(high - low, |high - prevClose|, |low - prevClose|)`, where a
/// negative `high - low` counts as zero (it never exceeds the other two).
pub open spec fn true_range_of(prev: Quote, cur: Quote) -> int {
    max2(
        if cur.high >= cur.low { cur.high - cur.low } else { 0 },
        max2(abs_diff(cur.high as int, prev.close as int), abs_diff(cur.low as int, prev.close as int)),
    )
}

/// Upward directional movement: the rise of the high where it exceeds the
/// fall of the low and is positive, else zero.
pub open spec fn pos_dm_of(prev: Quote, cur: Quote) -> int {
    let up = cur.high - prev.high;
    let down = prev.low - cur.low;
    if up > down && up > 0 {
        up
    } else {
        0
    }
}

/// Downward directional movement: the fall of the low where it exceeds the
/// rise of the high and is positive, else zero.
pub open spec fn neg_dm_of(prev: Quote, cur: Quote) -> int {
    let up = cur.high - prev.high;
    let down = prev.low - cur.low;
    if down > up && down > 0 {
        down
    } else {
        0
    }
}

/// Rise of the close over the previous close, or zero.
pub open spec fn gain_of(prev: Quote, cur: Quote) -> int {
    if cur.close > prev.close {
        cur.close - prev.close
    } else {
        0
    }
}

/// Fall of the close below the previous close, or zero.
pub open spec fn loss_of(prev: Quote, cur: Quote) -> int {
    if prev.close > cur.close {
        prev.close - cur.close
    } else {
        0
    }
}

/// True ranges of every bar from the second on.
pub open spec fn true_range_spec(q: Seq<Quote>) -> Seq<int> {
    Seq::new(pairs_len(q.len() as int) as nat, |i: int| true_range_of(q[i], q[i + 1]))
}

/// Upward directional movements of every bar from the second on.
pub open spec fn pos_dm_spec(q: Seq<Quote>) -> Seq<int> {
    Seq::new(pairs_len(q.len() as int) as nat, |i: int| pos_dm_of(q[i], q[i + 1]))
}

/// Downward directional movements of every bar from the second on.
pub open spec fn neg_dm_spec(q: Seq<Quote>) -> Seq<int> {
    Seq::new(pairs_len(q.len() as int) as nat, |i: int| neg_dm_of(q[i], q[i + 1]))
}

/// Close-to-close gains of every bar from the second on.
pub open spec fn gain_spec(q: Seq<Quote>) -> Seq<int> {
    Seq::new(pairs_len(q.len() as int) as nat, |i: int| gain_of(q[i], q[i + 1]))
}

/// Close-to-close losses of every bar from the second on.
pub open spec fn loss_spec(q: Seq<Quote>) -> Seq<int> {
    Seq::new(pairs_len(q.len() as int) as nat, |i: int| loss_of(q[i], q[i + 1]))
}

/// One hundred, in fixed-point units.
pub open spec fn hundred() -> int {
    100 * PRICE_SCALE
}

/// Directional index from the smoothed true range and smoothed movements.
/// `+DI` and `-DI` are `100 * dm / atr`; as they share the denominator,
/// `100 * |+DI - -DI| / (+DI + -DI)` equals `100 * |pos - neg| / (pos + neg)`,
/// which is taken in a single rounding. A zero range or a zero sum gives zero.
pub open spec fn dx_of(atr: int, pos: int, neg: int) -> int {
    if atr == 0 || pos + neg == 0 {
        0
    } else {
        hundred() * abs_diff(pos, neg) / (pos + neg)
    }
}

/// Directional index series: true range and both movements smoothed by RMA
/// with `period`, then combined by `dx_of`.
pub open spec fn dx_spec(q: Seq<Quote>, period: int) -> Seq<int> {
    let atr = rma_spec(true_range_spec(q), period);
    let pos = rma_spec(pos_dm_spec(q), period);
    let neg = rma_spec(neg_dm_spec(q), period);
    Seq::new(atr.len(), |k: int| dx_of(atr[k], pos[k], neg[k]))
}

/// Average directional index: the directional index smoothed by RMA with the
/// same period.
pub open spec fn adx_spec(q: Seq<Quote>, period: int) -> Seq<int> {
    rma_spec(dx_spec(q, period), period)
}

/// Relative strength index from smoothed gains and losses:
/// `100 - 100 / (1 + up / down)`, which equals `100 * up / (up + down)`;
/// 100 where `down` is zero, 0 where `up` is zero.
pub open spec fn rsi_of(up: int, down: int) -> int {
    if down == 0 {
        hundred()
    } else if up == 0 {
        0
    } else {
        hundred() * up / (up + down)
    }
}

/// Relative strength index series with `period`.
pub open spec fn rsi_spec(q: Seq<Quote>, period: int) -> Seq<int> {
    let ups = rma_spec(gain_spec(q), period);
    let downs = rma_spec(loss_spec(q), period);
    Seq::new(ups.len(), |k: int| rsi_of(ups[k], downs[k]))
}

/// Highest high among the `len` rows from `start`.
pub open spec fn highest_high(rows: Seq<QuoteRow>, start: int, len: int) -> int
    decreases len,
{
    if len <= 1 {
        rows[start].quote.high as int
    } else {
        max2(highest_high(rows, start, len - 1), rows[start + len - 1].quote.high as int)
    }
}

/// Lowest low among the `len` rows from `start`.
pub open spec fn lowest_low(rows: Seq<QuoteRow>, start: int, len: int) -> int
    decreases len,
{
    if len <= 1 {
        rows[start].quote.low as int
    } else {
        min2(lowest_low(rows, start, len - 1), rows[start + len - 1].quote.low as int)
    }
}

/// Stochastic %K of the window of `k_len` rows from `start`:
/// `100 * (close - lowest low) / (highest high - lowest low)` at the window's
/// last row, and 50 where the range is empty.
pub open spec fn stoch_k_of(rows: Seq<QuoteRow>, start: int, k_len: int) -> int {
    let hi = highest_high(rows, start, k_len);
    let lo = lowest_low(rows, start, k_len);
    let c = rows[start + k_len - 1].quote.close as int;
    if hi == lo {
        hundred() / 2
    } else {
        hundred() * (c - lo) / (hi - lo)
    }
}

/// Stochastic %K series over windows of `k_len` rows.
pub open spec fn stoch_spec(rows: Seq<QuoteRow>, k_len: int) -> Seq<int> {
    Seq::new(output_len(rows.len() as int, k_len) as nat, |j: int| stoch_k_of(rows, j, k_len))
}

/// Every row's close lies within its low-high range.
pub open spec fn consistent_rows(rows: Seq<QuoteRow>) -> bool {
    forall|i: int| 0 <= i < rows.len() ==> (#[trigger] rows[i]).quote.is_consistent()
}

fn abs_diff_u64(a: u64, b: u64) -> (r: u64)
    ensures
        r == abs_diff(a as int, b as int),
{
    if a >= b {
        a - b
    } else {
        b - a
    }
}

fn max_u64(a: u64, b: u64) -> (r: u64)
    ensures
        r == max2(a as int, b as int),
{
    if a >= b {
        a
    } else {
        b
    }
}

fn min_u64(a: u64, b: u64) -> (r: u64)
    ensures
        r == min2(a as int, b as int),
{
    if a <= b {
        a
    } else {
        b
    }
}

/// True range of every bar from the second on; none for fewer than two bars.
pub fn get_true_ranges(quotes: &[Quote]) -> (r: Vec<u64>)
    ensures
        ints(r@) == true_range_spec(quotes@),
{
    let mut r: Vec<u64> = Vec::new();
    let n = quotes.len();
    let mut i: usize = 1;
    while i < n
        invariant
            n == quotes@.len(),
            1 <= i,
            i <= n || i == 1,
            r@.len() == i - 1,
            forall|j: int| 0 <= j < i - 1 ==> r@[j] as int == true_range_of(quotes@[j], quotes@[j + 1]),
        decreases n - i,
    {
        let prev = &quotes[i - 1];
        let cur = &quotes[i];
        let tr = max_u64(
            if cur.high >= cur.low { cur.high - cur.low } else { 0 },
            max_u64(abs_diff_u64(cur.high, prev.close), abs_diff_u64(cur.low, prev.close)),
        );
        r.push(tr);
        i = i + 1;
    }
    assert(r@.len() == pairs_len(quotes@.len() as int));
    assert forall|j: int| 0 <= j < r@.len() implies #[trigger] ints(r@)[j] == true_range_spec(quotes@)[j] by {
        assert(ints(r@)[j] == r@[j] as int);
    }
    assert(ints(r@) =~= true_range_spec(quotes@));
    r
}

/// Upward and downward directional movements of every bar from the second on.
fn directional_movements(quotes: &[Quote]) -> (r: (Vec<u64>, Vec<u64>))
    ensures
        ints(r.0@) == pos_dm_spec(quotes@),
        ints(r.1@) == neg_dm_spec(quotes@),
{
    let mut pos: Vec<u64> = Vec::new();
    let mut neg: Vec<u64> = Vec::new();
    let n = quotes.len();
    let mut i: usize = 1;
    while i < n
        invariant
            n == quotes@.len(),
            1 <= i,
            i <= n || i == 1,
            pos@.len() == i - 1,
            neg@.len() == i - 1,
            forall|j: int| 0 <= j < i - 1 ==> pos@[j] as int == pos_dm_of(quotes@[j], quotes@[j + 1]),
            forall|j: int| 0 <= j < i - 1 ==> neg@[j] as int == neg_dm_of(quotes@[j], quotes@[j + 1]),
        decreases n - i,
    {
        let prev = &quotes[i - 1];
        let cur = &quotes[i];
        let up: i128 = cur.high as i128 - prev.high as i128;
        let down: i128 = prev.low as i128 - cur.low as i128;
        pos.push(if up > down && up > 0 { up as u64 } else { 0 });
        neg.push(if down > up && down > 0 { down as u64 } else { 0 });
        i = i + 1;
    }
    assert(pos@.len() == pairs_len(quotes@.len() as int));
    assert forall|j: int| 0 <= j < pos@.len() implies #[trigger] ints(pos@)[j] == pos_dm_spec(quotes@)[j] by {
        assert(ints(pos@)[j] == pos@[j] as int);
    }
    assert(ints(pos@) =~= pos_dm_spec(quotes@));
    assert(neg@.len() == pairs_len(quotes@.len() as int));
    assert forall|j: int| 0 <= j < neg@.len() implies #[trigger] ints(neg@)[j] == neg_dm_spec(quotes@)[j] by {
        assert(ints(neg@)[j] == neg@[j] as int);
    }
    assert(ints(neg@) =~= neg_dm_spec(quotes@));
    (pos, neg)
}

/// Close-to-close gains and losses of every bar from the second on.
fn close_changes(quotes: &[Quote]) -> (r: (Vec<u64>, Vec<u64>))
    ensures
        ints(r.0@) == gain_spec(quotes@),
        ints(r.1@) == loss_spec(quotes@),
{
    let mut gains: Vec<u64> = Vec::new();
    let mut losses: Vec<u64> = Vec::new();
    let n = quotes.len();
    let mut i: usize = 1;
    while i < n
        invariant
            n == quotes@.len(),
            1 <= i,
            i <= n || i == 1,
            gains@.len() == i - 1,
            losses@.len() == i - 1,
            forall|j: int| 0 <= j < i - 1 ==> gains@[j] as int == gain_of(quotes@[j], quotes@[j + 1]),
            forall|j: int| 0 <= j < i - 1 ==> losses@[j] as int == loss_of(quotes@[j], quotes@[j + 1]),
        decreases n - i,
    {
        let prev = quotes[i - 1].close;
        let cur = quotes[i].close;
        gains.push(if cur > prev { cur - prev } else { 0 });
        losses.push(if prev > cur { prev - cur } else { 0 });
        i = i + 1;
    }
    assert(gains@.len() == pairs_len(quotes@.len() as int));
    assert forall|j: int| 0 <= j < gains@.len() implies #[trigger] ints(gains@)[j] == gain_spec(quotes@)[j] by {
        assert(ints(gains@)[j] == gains@[j] as int);
    }
    assert(ints(gains@) =~= gain_spec(quotes@));
    assert(losses@.len() == pairs_len(quotes@.len() as int));
    assert forall|j: int| 0 <= j < losses@.len() implies #[trigger] ints(losses@)[j] == loss_spec(quotes@)[j] by {
        assert(ints(losses@)[j] == losses@[j] as int);
    }
    assert(ints(losses@) =~= loss_spec(quotes@));
    (gains, losses)
}

/// Directional index (DX) of every full smoothing window: true range and
/// directional movements are smoothed by RMA with `period`, and each output
/// is `dx_of` of the three, between 0 and 100.
pub fn get_directional_indexes(quotes: &[Quote], period: usize) -> (r: Vec<u64>)
    ensures
        ints(r@) == dx_spec(quotes@, period as int),
{
    let trs = get_true_ranges(quotes);
    let (pos, neg) = directional_movements(quotes);
    let atrs = get_rmas(&trs, period);
    let pos_s = get_rmas(&pos, period);
    let neg_s = get_rmas(&neg, period);
    let ghost spec_atr = rma_spec(true_range_spec(quotes@), period as int);
    let ghost spec_pos = rma_spec(pos_dm_spec(quotes@), period as int);
    let ghost spec_neg = rma_spec(neg_dm_spec(quotes@), period as int);
    assert(ints(atrs@).len() == atrs@.len());
    assert(ints(pos_s@).len() == pos_s@.len());
    assert(ints(neg_s@).len() == neg_s@.len());
    let mut r: Vec<u64> = Vec::new();
    let mut k: usize = 0;
    while k < atrs.len()
        invariant
            0 <= k <= atrs@.len(),
            atrs@.len() == pos_s@.len(),
            atrs@.len() == neg_s@.len(),
            ints(atrs@) == spec_atr,
            ints(pos_s@) == spec_pos,
            ints(neg_s@) == spec_neg,
            r@.len() == k,
            forall|j: int| 0 <= j < k ==> r@[j] as int == dx_of(spec_atr[j], spec_pos[j], spec_neg[j]),
        decreases atrs@.len() - k,
    {
        let atr = atrs[k];
        let p = pos_s[k] as u128;
        let n = neg_s[k] as u128;
        assert(spec_atr[k as int] == atr as int);
        assert(spec_pos[k as int] == p as int);
        assert(spec_neg[k as int] == n as int);
        let sum = p + n;
        let dx: u64 = if atr == 0 || sum == 0 {
            0
        } else {
            let d: u128 = if p >= n { p - n } else { n - p };
            proof {
                assert(hundred() * d <= hundred() * sum) by (nonlinear_arith)
                    requires d <= sum;
                lemma_div_le(hundred() * d, hundred(), sum as int);
                assert(d <= u64::MAX);
                assert(hundred() * d <= hundred() * u64::MAX) by (nonlinear_arith)
                    requires d <= u64::MAX;
            }
            ((100 * PRICE_SCALE as u128) * d / sum) as u64
        };
        r.push(dx);
        k = k + 1;
    }
    assert(ints(r@) =~= dx_spec(quotes@, period as int));
    r
}

/// Average directional index (ADX): the directional index series smoothed
/// once more by RMA with `period`.
pub fn get_adxs(quotes: &[Quote], period: usize) -> (r: Vec<u64>)
    ensures
        ints(r@) == adx_spec(quotes@, period as int),
{
    let dxs = get_directional_indexes(quotes, period);
    get_rmas(&dxs, period)
}

/// Latest value of the ADX series (directional period `dilen`) smoothed by a
/// further RMA pass with `adxlen`; `None` where the history is too short.
/// This is the double-smoothed reading, not the textbook average of the
/// current ADX and a lagged one.
pub fn get_adxr(quotes: &[Quote], dilen: usize, adxlen: usize) -> (r: Option<u64>)
    ensures
        r is Some <==> last_of(rma_spec(adx_spec(quotes@, dilen as int), adxlen as int)) is Some,
        r matches Some(v) ==> last_of(rma_spec(adx_spec(quotes@, dilen as int), adxlen as int))
            == Some(v as int),
{
    let adxs = get_adxs(quotes, dilen);
    let smoothed = get_rmas(&adxs, adxlen);
    let ghost s = rma_spec(adx_spec(quotes@, dilen as int), adxlen as int);
    if smoothed.len() == 0 {
        None
    } else {
        assert(ints(smoothed@)[smoothed@.len() - 1] == smoothed@[smoothed@.len() - 1] as int);
        Some(smoothed[smoothed.len() - 1])
    }
}

/// Relative strength index of every full smoothing window, between 0 and 100:
/// gains and losses are smoothed by RMA with `period` and combined by `rsi_of`.
pub fn get_rsis(quotes: &[Quote], period: usize) -> (r: Vec<u64>)
    ensures
        ints(r@) == rsi_spec(quotes@, period as int),
{
    let (gains, losses) = close_changes(quotes);
    let ups = get_rmas(&gains, period);
    let downs = get_rmas(&losses, period);
    let ghost spec_up = rma_spec(gain_spec(quotes@), period as int);
    let ghost spec_down = rma_spec(loss_spec(quotes@), period as int);
    assert(ints(ups@).len() == ups@.len());
    assert(ints(downs@).len() == downs@.len());
    let mut r: Vec<u64> = Vec::new();
    let mut k: usize = 0;
    while k < ups.len()
        invariant
            0 <= k <= ups@.len(),
            ups@.len() == downs@.len(),
            ints(ups@) == spec_up,
            ints(downs@) == spec_down,
            r@.len() == k,
            forall|j: int| 0 <= j < k ==> r@[j] as int == rsi_of(spec_up[j], spec_down[j]),
        decreases ups@.len() - k,
    {
        let up = ups[k] as u128;
        let down = downs[k] as u128;
        assert(spec_up[k as int] == up as int);
        assert(spec_down[k as int] == down as int);
        let rsi: u64 = if down == 0 {
            100 * PRICE_SCALE
        } else if up == 0 {
            0
        } else {
            proof {
                assert(hundred() * up <= hundred() * (up + down)) by (nonlinear_arith)
                    requires 0 <= down;
                lemma_div_le(hundred() * up, hundred(), (up + down) as int);
                assert(hundred() * up <= hundred() * u64::MAX) by (nonlinear_arith)
                    requires up <= u64::MAX;
            }
            ((100 * PRICE_SCALE as u128) * up / (up + down)) as u64
        };
        r.push(rsi);
        k = k + 1;
    }
    assert(ints(r@) =~= rsi_spec(quotes@, period as int));
    r
}

/// Latest relative strength index with `period`, or `None` where the history
/// is too short to give one.
pub fn get_last_rsi(quotes: &[Quote], period: usize) -> (r: Option<u64>)
    ensures
        r is Some <==> last_of(rsi_spec(quotes@, period as int)) is Some,
        r matches Some(v) ==> last_of(rsi_spec(quotes@, period as int)) == Some(v as int),
{
    let rsis = get_rsis(quotes, period);
    if rsis.len() == 0 {
        None
    } else {
        assert(ints(rsis@)[rsis@.len() - 1] == rsis@[rsis@.len() - 1] as int);
        Some(rsis[rsis.len() - 1])
    }
}

proof fn lemma_window_extremes(rows: Seq<QuoteRow>, start: int, len: int)
    requires
        1 <= len,
    ensures
        highest_high(rows, start, len) >= rows[start + len - 1].quote.high,
        lowest_low(rows, start, len) <= rows[start + len - 1].quote.low,
{
}

/// Stochastic %K over windows of `k_len` rows, one per full window, between
/// 0 and 100; none where `k_len` is zero or longer than `rows`.
pub fn get_stochastics(rows: &[QuoteRow], k_len: usize) -> (r: Vec<u64>)
    requires
        consistent_rows(rows@),
    ensures
        ints(r@) == stoch_spec(rows@, k_len as int),
{
    let n = rows.len();
    let mut r: Vec<u64> = Vec::new();
    if k_len == 0 || n < k_len {
        assert(ints(r@) =~= stoch_spec(rows@, k_len as int));
        return r;
    }
    let mut j: usize = 0;
    while j <= n - k_len
        invariant
            1 <= k_len <= n,
            n == rows.len(),
            consistent_rows(rows@),
            0 <= j <= n - k_len + 1,
            r@.len() == j,
            forall|t: int| 0 <= t < j ==> r@[t] as int == stoch_k_of(rows@, t, k_len as int),
        decreases n - k_len + 1 - j,
    {
        let mut hi: u64 = rows[j].quote.high;
        let mut lo: u64 = rows[j].quote.low;
        let mut t: usize = 1;
        while t < k_len
            invariant
                1 <= t <= k_len,
                j + k_len <= n,
                n == rows.len(),
                hi == highest_high(rows@, j as int, t as int),
                lo == lowest_low(rows@, j as int, t as int),
            decreases k_len - t,
        {
            hi = max_u64(hi, rows[j + t].quote.high);
            lo = min_u64(lo, rows[j + t].quote.low);
            t = t + 1;
        }
        let close = rows[j + k_len - 1].quote.close;
        proof {
            lemma_window_extremes(rows@, j as int, k_len as int);
            assert(rows@[j + k_len - 1].quote.is_consistent());
        }
        let k: u64 = if hi == lo {
            50 * PRICE_SCALE
        } else {
            let num = (close - lo) as u128;
            let den = (hi - lo) as u128;
            proof {
                assert(hundred() * num <= hundred() * den) by (nonlinear_arith)
                    requires num <= den;
                lemma_div_le(hundred() * num, hundred(), den as int);
                assert(hundred() * num <= hundred() * u64::MAX) by (nonlinear_arith)
                    requires num <= u64::MAX;
            }
            ((100 * PRICE_SCALE as u128) * num / den) as u64
        };
        r.push(k);
        j = j + 1;
    }
    assert(ints(r@) =~= stoch_spec(rows@, k_len as int));
    r
}

/// Slow stochastic: %K over `k_len` rows, smoothed by an SMA of `k_smooth`
/// (%K smoothed), then by an SMA of `d_smooth` (%D); the latest %D, or `None`
/// where the history is too short to give one.
pub fn get_slow_stoch(k_len: usize, k_smooth: usize, d_smooth: usize, rows: &[QuoteRow]) -> (r: Option<u64>)
    requires
        consistent_rows(rows@),
    ensures
        r is Some <==> last_of(sma_spec(sma_spec(stoch_spec(rows@, k_len as int), k_smooth as int), d_smooth as int)) is Some,
        r matches Some(v) ==> last_of(sma_spec(sma_spec(stoch_spec(rows@, k_len as int), k_smooth as int), d_smooth as int))
            == Some(v as int),
{
    let stochs = get_stochastics(rows, k_len);
    let ks = get_smas(&stochs, k_smooth);
    let ds = get_smas(&ks, d_smooth);
    if ds.len() == 0 {
        None
    } else {
        assert(ints(ds@)[ds@.len() - 1] == ds@[ds@.len() - 1] as int);
        Some(ds[ds.len() - 1])
    }
}

} // verus!
