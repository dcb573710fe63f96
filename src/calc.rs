use crate::quote::QuoteRow;
use crate::stoch::{
    bounded, get_smas, ints, max_value, output_len, prefix_sum, rma_at, rma_spec, sma_spec, window_sum,
};
use vstd::arithmetic::div_mod::{
    lemma_div_by_multiple, lemma_div_is_ordered, lemma_div_multiples_vanish, lemma_div_pos_is_pos,
};
use vstd::prelude::*;

verus! {

/// Closing prices of the rows, in order.
pub open spec fn closes(rows: Seq<QuoteRow>) -> Seq<int> {
    rows.map_values(|r: QuoteRow| r.quote.close as int)
}

/// Smoothing divisor count of step `i`: it grows as `i + 1` while the window
/// fills up, then stays at `w`.
pub open spec fn ema_span(w: int, i: int) -> int {
    if i + 1 < w {
        i + 1
    } else {
        w
    }
}

/// Exponential moving average after value `i`: seeded with the first value;
/// step `i` moves towards `s[i]` by the factor `2 / (m + 1)` with
/// `m = ema_span(w, i)`, so the factor shrinks from `2/3` while the window
/// fills and is `2 / (w + 1)` from value `w - 1` on. Each step is
/// `(prev * (m - 1) + 2 * x) / (m + 1)`, rounded down.
pub open spec fn ema_at(s: Seq<int>, w: int, i: int) -> int
    decreases i,
{
    if i <= 0 {
        s[0]
    } else {
        let m = ema_span(w, i);
        (ema_at(s, w, i - 1) * (m - 1) + 2 * s[i]) / (m + 1)
    }
}

/// EMA series with window `w`: one value per full window, the first at value
/// `w - 1`.
pub open spec fn ema_spec(s: Seq<int>, w: int) -> Seq<int> {
    Seq::new(output_len(s.len() as int, w) as nat, |k: int| ema_at(s, w, k + w - 1))
}

proof fn lemma_closes_bounded(rows: Seq<QuoteRow>)
    ensures
        bounded(closes(rows), max_value()),
        closes(rows).len() == rows.len(),
{
    assert forall|i: int| 0 <= i < closes(rows).len() implies 0 <= #[trigger] closes(rows)[i] <= max_value() by {
        assert(closes(rows)[i] == rows[i].quote.close as int);
    }
}

proof fn lemma_ema_bounded(s: Seq<int>, m: int, w: int, i: int)
    requires
        bounded(s, m),
        1 <= w,
        0 <= i < s.len(),
    ensures
        0 <= ema_at(s, w, i) <= m,
    decreases i,
{
    if i > 0 {
        lemma_ema_bounded(s, m, w, i - 1);
        let p = ema_at(s, w, i - 1);
        let x = s[i];
        let k = ema_span(w, i);
        assert(0 <= x <= m);
        assert(0 <= p * (k - 1) + 2 * x <= m * (k + 1)) by (nonlinear_arith)
            requires 0 <= x <= m, 0 <= p <= m, 1 <= k;
        lemma_div_is_ordered(p * (k - 1) + 2 * x, m * (k + 1), k + 1);
        lemma_div_by_multiple(m, k + 1);
        lemma_div_pos_is_pos(p * (k - 1) + 2 * x, k + 1);
    } else {
        assert(0 <= s[0] <= m);
    }
}

/// Exponential moving averages of the rows' closes with `window`, each paired
/// with the id of the row it ends at; none where `window` is zero or longer
/// than `quotes`. The average is seeded with the first close and smoothed with
/// a factor that shrinks while the window fills (see `ema_at`).
pub fn get_exp_moving_avgs(window: usize, quotes: &[QuoteRow]) -> (r: Vec<(i32, u64)>)
    ensures
        r@.len() == output_len(quotes@.len() as int, window as int),
        forall|k: int|
            0 <= k < r@.len() ==> (#[trigger] r@[k]).0 == quotes@[k + window - 1].id
                && r@[k].1 == ema_spec(closes(quotes@), window as int)[k],
{
    let ghost s = closes(quotes@);
    let n = quotes.len();
    let mut r: Vec<(i32, u64)> = Vec::new();
    if window == 0 || n < window {
        return r;
    }
    proof {
        lemma_closes_bounded(quotes@);
    }
    let w = window as u128;
    let mut avg: u64 = quotes[0].quote.close;
    assert(s[0] == quotes@[0].quote.close as int);
    if window == 1 {
        r.push((quotes[0].id, avg));
    }
    let mut i: usize = 1;
    while i < n
        invariant
            1 <= window <= n,
            w == window,
            n == quotes@.len(),
            s == closes(quotes@),
            bounded(s, max_value()),
            s.len() == n,
            1 <= i <= n,
            avg == ema_at(s, window as int, i - 1),
            r@.len() == output_len(i as int, window as int),
            forall|k: int|
                0 <= k < r@.len() ==> (#[trigger] r@[k]).0 == quotes@[k + window - 1].id
                    && r@[k].1 == ema_at(s, window as int, k + window - 1),
        decreases n - i,
    {
        let m: u128 = if (i as u128) + 1 < w { (i as u128) + 1 } else { w };
        let x = quotes[i].quote.close;
        proof {
            assert(s[i as int] == x as int);
            lemma_ema_bounded(s, max_value(), window as int, i as int);
            assert(avg * (m - 1) + 2 * x <= u64::MAX * (u64::MAX as int + 1)) by (nonlinear_arith)
                requires avg <= u64::MAX, x <= u64::MAX, 1 <= m <= u64::MAX;
        }
        avg = (((avg as u128) * (m - 1) + 2 * (x as u128)) / (m + 1)) as u64;
        if i + 1 >= window {
            r.push((quotes[i].id, avg));
        }
        i = i + 1;
    }
    r
}

/// Simple moving averages of the rows' closes over `window` rows, each paired
/// with the id of the row the window ends at; none where `window` is zero or
/// longer than `quotes`.
pub fn get_moving_avgs(window: usize, quotes: &[QuoteRow]) -> (r: Vec<(i32, u64)>)
    ensures
        r@.len() == output_len(quotes@.len() as int, window as int),
        forall|k: int|
            0 <= k < r@.len() ==> (#[trigger] r@[k]).0 == quotes@[k + window - 1].id
                && r@[k].1 == sma_spec(closes(quotes@), window as int)[k],
{
    let mut vals: Vec<u64> = Vec::new();
    let mut i: usize = 0;
    while i < quotes.len()
        invariant
            0 <= i <= quotes@.len(),
            vals@.len() == i,
            forall|j: int| 0 <= j < i ==> vals@[j] as int == closes(quotes@)[j],
        decreases quotes@.len() - i,
    {
        vals.push(quotes[i].quote.close);
        i = i + 1;
    }
    assert(ints(vals@) =~= closes(quotes@));
    let avgs = get_smas(&vals, window);
    let ghost spec = sma_spec(closes(quotes@), window as int);
    let n = quotes.len();
    let mut r: Vec<(i32, u64)> = Vec::new();
    let mut k: usize = 0;
    while k < avgs.len()
        invariant
            ints(avgs@) == spec,
            n == quotes@.len(),
            avgs@.len() == spec.len(),
            spec.len() == output_len(quotes@.len() as int, window as int),
            0 <= k <= avgs@.len(),
            r@.len() == k,
            forall|t: int|
                0 <= t < k ==> (#[trigger] r@[t]).0 == quotes@[t + window - 1].id && r@[t].1 == spec[t],
        decreases avgs@.len() - k,
    {
        assert(ints(avgs@)[k as int] == avgs@[k as int] as int);
        assert(1 <= window && k + window <= n);
        r.push((quotes[k + window - 1].id, avgs[k]));
        k = k + 1;
    }
    r
}

/// A window longer than the series gives no output: simple, Wilder's and
/// exponential averages of fewer than `w` values are all empty.
pub proof fn lemma_short_series_give_nothing(s: Seq<int>, w: int)
    requires
        s.len() < w,
    ensures
        sma_spec(s, w).len() == 0,
        rma_spec(s, w).len() == 0,
        ema_spec(s, w).len() == 0,
{
}

proof fn lemma_constant_prefix(s: Seq<int>, c: int, i: int)
    requires
        0 <= i <= s.len(),
        forall|j: int| 0 <= j < s.len() ==> #[trigger] s[j] == c,
    ensures
        prefix_sum(s, i) == i * c,
    decreases i,
{
    if i > 0 {
        lemma_constant_prefix(s, c, i - 1);
        assert(s[i - 1] == c);
        assert((i - 1) * c + c == i * c) by (nonlinear_arith);
    } else {
        assert(i * c == 0) by (nonlinear_arith)
            requires i == 0;
    }
}

proof fn lemma_constant_rma(s: Seq<int>, c: int, w: int, k: int)
    requires
        1 <= w,
        0 <= k,
        w - 1 + k < s.len(),
        forall|j: int| 0 <= j < s.len() ==> #[trigger] s[j] == c,
    ensures
        rma_at(s, w, k) == c,
    decreases k,
{
    if k == 0 {
        lemma_constant_prefix(s, c, w);
        assert(w * c == w * c);
        lemma_div_multiples_vanish(c, w);
    } else {
        lemma_constant_rma(s, c, w, k - 1);
        assert(s[w - 1 + k] + (w - 1) * c == w * c) by (nonlinear_arith)
            requires s[w - 1 + k] == c;
        lemma_div_multiples_vanish(c, w);
    }
}

proof fn lemma_constant_ema(s: Seq<int>, c: int, w: int, i: int)
    requires
        1 <= w,
        0 <= i < s.len(),
        forall|j: int| 0 <= j < s.len() ==> #[trigger] s[j] == c,
    ensures
        ema_at(s, w, i) == c,
    decreases i,
{
    if i > 0 {
        lemma_constant_ema(s, c, w, i - 1);
        let m = ema_span(w, i);
        assert(c * (m - 1) + 2 * s[i] == (m + 1) * c) by (nonlinear_arith)
            requires s[i] == c;
        lemma_div_multiples_vanish(c, m + 1);
    }
}

/// On a constant series every output of the simple, Wilder's and exponential
/// averages equals that constant.
pub proof fn lemma_constant_series_averages(s: Seq<int>, c: int, w: int)
    requires
        forall|j: int| 0 <= j < s.len() ==> #[trigger] s[j] == c,
    ensures
        forall|k: int| 0 <= k < sma_spec(s, w).len() ==> #[trigger] sma_spec(s, w)[k] == c,
        forall|k: int| 0 <= k < rma_spec(s, w).len() ==> #[trigger] rma_spec(s, w)[k] == c,
        forall|k: int| 0 <= k < ema_spec(s, w).len() ==> #[trigger] ema_spec(s, w)[k] == c,
{
    assert forall|k: int| 0 <= k < sma_spec(s, w).len() implies #[trigger] sma_spec(s, w)[k] == c by {
        lemma_constant_prefix(s, c, k + w);
        lemma_constant_prefix(s, c, k);
        assert((k + w) * c - k * c == w * c) by (nonlinear_arith);
        assert(window_sum(s, k, w) == w * c);
        lemma_div_multiples_vanish(c, w);
    }
    assert forall|k: int| 0 <= k < rma_spec(s, w).len() implies #[trigger] rma_spec(s, w)[k] == c by {
        lemma_constant_rma(s, c, w, k);
    }
    assert forall|k: int| 0 <= k < ema_spec(s, w).len() implies #[trigger] ema_spec(s, w)[k] == c by {
        lemma_constant_ema(s, c, w, k + w - 1);
    }
}

} // verus!
