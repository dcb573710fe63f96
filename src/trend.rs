use crate::calc::{closes, ema_at, ema_spec, get_exp_moving_avgs};
use crate::quote::{Quote, QuoteRow};
use crate::stoch::{
    adx_spec, consistent_rows, get_adxr, get_last_rsi, get_slow_stoch, last_of, output_len, rma_spec,
    rsi_spec, sma_spec, stoch_spec,
};
use vstd::prelude::*;

verus! {

/// Window of the fastest of the four exponential averages whose order marks a trend.
pub const EMA_FAST: usize = 8;

/// Window of the second exponential average.
pub const EMA_MID: usize = 21;

/// Window of the third exponential average, the one loose mode compares with.
pub const EMA_SLOW: usize = 34;

/// Window of the slowest exponential average.
pub const EMA_LONG: usize = 89;

/// Period of the relative strength index that is reported.
pub const RSI_PERIOD: usize = 2;

/// Trend strength a candidate must exceed: 20, in fixed-point units.
pub const STRENGTH_FLOOR: u64 = 2_000_000_000;

/// Midpoint of the stochastic scale: 50, in fixed-point units.
pub const STOCH_MIDPOINT: i64 = 5_000_000_000;

/// Settings of a screening pass.
#[derive(Clone, Copy, Debug, PartialEq, Eq, Structural)]
pub struct TrendParams {
    /// Report every ticker with enough history, whatever the filter says.
    pub force: bool,
    /// Accept `EMA8` above (below) `EMA34` alone as a trend.
    pub loose: bool,
    /// Number of latest rows over which the trend must hold.
    pub ema_period: usize,
    pub stoch_k_len: usize,
    pub stoch_k_smoothing: usize,
    pub stoch_d_smoothing: usize,
    /// Distance from 50 the slow stochastic must reach, in fixed-point units.
    pub stoch_threshold: i64,
    /// Period of the directional index behind the strength reading.
    pub adx_period: usize,
}

/// The readings of a ticker that is reported.
#[derive(Clone, Copy, Debug, PartialEq, Eq, Structural)]
pub struct TrendReport {
    pub bull: bool,
    pub bear: bool,
    pub slow_stoch: Option<u64>,
    pub strength: Option<u64>,
    pub rsi: Option<u64>,
}

/// The bars of the rows, in order.
pub open spec fn quotes_of(rows: Seq<QuoteRow>) -> Seq<Quote> {
    rows.map_values(|r: QuoteRow| r.quote)
}

/// EMA with window `w` at row `i`, where a full window ends there.
pub open spec fn ema_value(rows: Seq<QuoteRow>, w: int, i: int) -> Option<int> {
    if 1 <= w && w <= i + 1 && 0 <= i < rows.len() {
        Some(ema_at(closes(rows), w, i))
    } else {
        None
    }
}

/// `a` is above `b` (`up`) or below it, both being defined.
pub open spec fn ordered(a: Option<int>, b: Option<int>, up: bool) -> bool {
    match (a, b) {
        (Some(x), Some(y)) => if up {
            x > y
        } else {
            x < y
        },
        _ => false,
    }
}

/// Row `i` shows an up (`up`) or down trend: `EMA8 > EMA21 > EMA34 > EMA89`
/// or the reverse, or, in loose mode, `EMA8` above or below `EMA34` alone.
pub open spec fn row_trend(rows: Seq<QuoteRow>, i: int, loose: bool, up: bool) -> bool {
    let e8 = ema_value(rows, EMA_FAST as int, i);
    let e21 = ema_value(rows, EMA_MID as int, i);
    let e34 = ema_value(rows, EMA_SLOW as int, i);
    let e89 = ema_value(rows, EMA_LONG as int, i);
    (ordered(e8, e21, up) && ordered(e21, e34, up) && ordered(e34, e89, up)) || (loose && ordered(e8, e34, up))
}

/// The trend holds on each of the last `period` rows.
pub open spec fn trend_holds(rows: Seq<QuoteRow>, period: int, loose: bool, up: bool) -> bool {
    forall|i: int| rows.len() - period <= i < rows.len() ==> #[trigger] row_trend(rows, i, loose, up)
}

/// The slow stochastic is at or below `50 - threshold` (oversold).
pub open spec fn oversold(stoch: Option<int>, threshold: int) -> bool {
    match stoch {
        Some(v) => v <= STOCH_MIDPOINT - threshold,
        None => false,
    }
}

/// The slow stochastic is at or above `50 + threshold` (overbought).
pub open spec fn overbought(stoch: Option<int>, threshold: int) -> bool {
    match stoch {
        Some(v) => v >= STOCH_MIDPOINT + threshold,
        None => false,
    }
}

/// The strength reading exceeds `STRENGTH_FLOOR`.
pub open spec fn strong(strength: Option<int>) -> bool {
    match strength {
        Some(v) => v > STRENGTH_FLOOR,
        None => false,
    }
}

/// An optional reading as a `u64`.
pub open spec fn opt_u64(o: Option<int>) -> Option<u64> {
    match o {
        Some(v) => Some(v as u64),
        None => None,
    }
}

/// Slow stochastic of the rows with the settings of `p`.
pub open spec fn slow_stoch_spec(rows: Seq<QuoteRow>, p: TrendParams) -> Option<int> {
    last_of(
        sma_spec(
            sma_spec(stoch_spec(rows, p.stoch_k_len as int), p.stoch_k_smoothing as int),
            p.stoch_d_smoothing as int,
        ),
    )
}

/// Strength reading: the latest ADX with `adx_period`.
pub open spec fn strength_spec(rows: Seq<QuoteRow>, p: TrendParams) -> Option<int> {
    last_of(rma_spec(adx_spec(quotes_of(rows), p.adx_period as int), 1))
}

/// The report on a ticker's rows, if it is reported: the rows must cover
/// `ema_period`; then the ticker is reported under `force`, or where it is in
/// an up trend and oversold or in a down trend and overbought, with a strength
/// above the floor.
pub open spec fn report_spec(rows: Seq<QuoteRow>, p: TrendParams) -> Option<TrendReport> {
    if p.ema_period > rows.len() {
        None
    } else {
        let bull = trend_holds(rows, p.ema_period as int, p.loose, true);
        let bear = trend_holds(rows, p.ema_period as int, p.loose, false);
        let stoch = slow_stoch_spec(rows, p);
        let strength = strength_spec(rows, p);
        let rsi = last_of(rsi_spec(quotes_of(rows), RSI_PERIOD as int));
        if p.force || (((bull && oversold(stoch, p.stoch_threshold as int)) || (bear && overbought(
            stoch,
            p.stoch_threshold as int,
        ))) && strong(strength)) {
            Some(
                TrendReport {
                    bull,
                    bear,
                    slow_stoch: opt_u64(stoch),
                    strength: opt_u64(strength),
                    rsi: opt_u64(rsi),
                },
            )
        } else {
            None
        }
    }
}

/// The EMA with window `w` at row `i`, read from that EMA's output `avgs`.
fn ema_at_row(avgs: &Vec<(i32, u64)>, rows: &[QuoteRow], w: usize, i: usize) -> (r: Option<u64>)
    requires
        1 <= w,
        i < rows@.len(),
        avgs@.len() == output_len(rows@.len() as int, w as int),
        forall|k: int| 0 <= k < avgs@.len() ==> (#[trigger] avgs@[k]).1 == ema_spec(closes(rows@), w as int)[k],
    ensures
        r matches Some(v) ==> ema_value(rows@, w as int, i as int) == Some(v as int),
        r is None <==> ema_value(rows@, w as int, i as int) is None,
{
    if i >= w - 1 {
        let v = avgs[i - (w - 1)].1;
        Some(v)
    } else {
        None
    }
}

/// An optional `u64` reading as an optional integer.
pub open spec fn opt_int(o: Option<u64>) -> Option<int> {
    match o {
        Some(x) => Some(x as int),
        None => None,
    }
}

fn above(a: Option<u64>, b: Option<u64>, up: bool) -> (r: bool)
    ensures
        r == ordered(opt_int(a), opt_int(b), up),
{
    match (a, b) {
        (Some(x), Some(y)) => if up {
            x > y
        } else {
            x < y
        },
        _ => false,
    }
}

/// Screen one ticker's stored rows, in time order (see `report_spec`).
pub fn screen(rows: &[QuoteRow], params: &TrendParams) -> (r: Option<TrendReport>)
    requires
        consistent_rows(rows@),
    ensures
        r == report_spec(rows@, *params),
{
    let n = rows.len();
    if params.ema_period > n {
        return None;
    }
    let e8 = get_exp_moving_avgs(EMA_FAST, rows);
    let e21 = get_exp_moving_avgs(EMA_MID, rows);
    let e34 = get_exp_moving_avgs(EMA_SLOW, rows);
    let e89 = get_exp_moving_avgs(EMA_LONG, rows);
    let mut bull = true;
    let mut bear = true;
    let mut i: usize = n - params.ema_period;
    while i < n
        invariant
            n == rows@.len(),
            n - params.ema_period <= i <= n,
            e8@.len() == output_len(n as int, EMA_FAST as int),
            e21@.len() == output_len(n as int, EMA_MID as int),
            e34@.len() == output_len(n as int, EMA_SLOW as int),
            e89@.len() == output_len(n as int, EMA_LONG as int),
            forall|k: int| 0 <= k < e8@.len() ==> (#[trigger] e8@[k]).1 == ema_spec(closes(rows@), EMA_FAST as int)[k],
            forall|k: int| 0 <= k < e21@.len() ==> (#[trigger] e21@[k]).1 == ema_spec(closes(rows@), EMA_MID as int)[k],
            forall|k: int| 0 <= k < e34@.len() ==> (#[trigger] e34@[k]).1 == ema_spec(closes(rows@), EMA_SLOW as int)[k],
            forall|k: int| 0 <= k < e89@.len() ==> (#[trigger] e89@[k]).1 == ema_spec(closes(rows@), EMA_LONG as int)[k],
            bull == forall|j: int| n - params.ema_period <= j < i ==> #[trigger] row_trend(rows@, j, params.loose, true),
            bear == forall|j: int| n - params.ema_period <= j < i ==> #[trigger] row_trend(rows@, j, params.loose, false),
        decreases n - i,
    {
        let a = ema_at_row(&e8, rows, EMA_FAST, i);
        let b = ema_at_row(&e21, rows, EMA_MID, i);
        let c = ema_at_row(&e34, rows, EMA_SLOW, i);
        let d = ema_at_row(&e89, rows, EMA_LONG, i);
        assert(opt_int(a) == ema_value(rows@, EMA_FAST as int, i as int));
        assert(opt_int(b) == ema_value(rows@, EMA_MID as int, i as int));
        assert(opt_int(c) == ema_value(rows@, EMA_SLOW as int, i as int));
        assert(opt_int(d) == ema_value(rows@, EMA_LONG as int, i as int));
        let row_up = (above(a, b, true) && above(b, c, true) && above(c, d, true)) || (params.loose && above(a, c, true));
        let row_down = (above(a, b, false) && above(b, c, false) && above(c, d, false)) || (params.loose && above(
            a,
            c,
            false,
        ));
        assert(row_up == row_trend(rows@, i as int, params.loose, true));
        assert(row_down == row_trend(rows@, i as int, params.loose, false));
        bull = bull && row_up;
        bear = bear && row_down;
        i = i + 1;
    }
    let stoch = get_slow_stoch(params.stoch_k_len, params.stoch_k_smoothing, params.stoch_d_smoothing, rows);
    let mut quotes: Vec<Quote> = Vec::new();
    let mut j: usize = 0;
    while j < n
        invariant
            n == rows@.len(),
            0 <= j <= n,
            quotes@.len() == j,
            forall|t: int| 0 <= t < j ==> quotes@[t] == rows@[t].quote,
        decreases n - j,
    {
        quotes.push(rows[j].quote);
        j = j + 1;
    }
    assert(quotes@ =~= quotes_of(rows@));
    let strength = get_adxr(&quotes, params.adx_period, 1);
    let rsi = get_last_rsi(&quotes, RSI_PERIOD);
    let mid = STOCH_MIDPOINT as i128;
    let thr = params.stoch_threshold as i128;
    let low = match stoch {
        Some(v) => (v as i128) <= mid - thr,
        None => false,
    };
    let high = match stoch {
        Some(v) => (v as i128) >= mid + thr,
        None => false,
    };
    let strong_enough = match strength {
        Some(v) => v > STRENGTH_FLOOR,
        None => false,
    };
    if params.force || (((bull && low) || (bear && high)) && strong_enough) {
        Some(TrendReport { bull, bear, slow_stoch: stoch, strength, rsi })
    } else {
        None
    }
}

} // verus!
