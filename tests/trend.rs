use slurp::quote::{Quote, QuoteRow, PRICE_SCALE};
use slurp::trend::{screen, TrendParams, STOCH_MIDPOINT};

fn row(id: i32, high: u64, low: u64, close: u64) -> QuoteRow {
    QuoteRow {
        id,
        quote: Quote { timestamp: id as i64, open: close, close, high, low, avg: -1, volume: 0, count: 0 },
    }
}

fn params(force: bool, loose: bool, ema_period: usize) -> TrendParams {
    TrendParams {
        force,
        loose,
        ema_period,
        stoch_k_len: 8,
        stoch_k_smoothing: 3,
        stoch_d_smoothing: 3,
        stoch_threshold: 10 * PRICE_SCALE as i64,
        adx_period: 13,
    }
}

/// A steady climb that ends with a pull-back to the bottom of the recent range.
fn rising_then_dipping() -> Vec<QuoteRow> {
    let mut rows = Vec::new();
    for i in 0..120 {
        let c = (100 + 2 * i) as u64 * PRICE_SCALE;
        rows.push(row(i, c + PRICE_SCALE, c - PRICE_SCALE, c));
    }
    for i in 120..124 {
        let c = (338 - 3 * (i - 119)) as u64 * PRICE_SCALE;
        rows.push(row(i, c + PRICE_SCALE, c - PRICE_SCALE, c - PRICE_SCALE));
    }
    rows
}

#[test]
fn short_history_is_not_screened() {
    let rows = rising_then_dipping();
    assert_eq!(screen(&rows[..10], &params(true, false, 42)), None);
}

#[test]
fn forced_report_carries_readings() {
    let rows = rising_then_dipping();
    let r = screen(&rows, &params(true, false, 3)).unwrap();
    assert!(r.bull);
    assert!(!r.bear);
    assert!(r.slow_stoch.is_some());
    assert!(r.strength.is_some());
    assert!(r.rsi.is_some());
}

#[test]
fn uptrend_pull_back_is_a_candidate() {
    let rows = rising_then_dipping();
    let r = screen(&rows, &params(false, false, 3)).unwrap();
    assert!(r.bull);
    let stoch = r.slow_stoch.unwrap() as i64;
    assert!(stoch <= STOCH_MIDPOINT - 10 * PRICE_SCALE as i64);
    assert!(r.strength.unwrap() > 20 * PRICE_SCALE);
}

#[test]
fn flat_history_is_no_candidate() {
    let rows: Vec<QuoteRow> = (0..120).map(|i| row(i, 5 * PRICE_SCALE, 5 * PRICE_SCALE, 5 * PRICE_SCALE)).collect();
    assert_eq!(screen(&rows, &params(false, true, 10)), None);
    let forced = screen(&rows, &params(true, false, 10)).unwrap();
    assert!(!forced.bull && !forced.bear);
    assert_eq!(forced.slow_stoch, Some(50 * PRICE_SCALE));
}

/// A steady fall that ends with a bounce to the top of the recent range.
fn falling_then_bouncing() -> Vec<QuoteRow> {
    let mut rows = Vec::new();
    for i in 0..120 {
        let c = (400 - 2 * i) as u64 * PRICE_SCALE;
        rows.push(row(i, c + PRICE_SCALE, c - PRICE_SCALE, c));
    }
    for i in 120..124 {
        let c = (162 + 3 * (i - 119)) as u64 * PRICE_SCALE;
        rows.push(row(i, c + PRICE_SCALE, c - PRICE_SCALE, c + PRICE_SCALE));
    }
    rows
}

#[test]
fn downtrend_bounce_is_a_candidate() {
    let rows = falling_then_bouncing();
    let r = screen(&rows, &params(false, false, 3)).unwrap();
    assert!(r.bear);
    assert!(!r.bull);
    assert!(r.slow_stoch.unwrap() as i64 >= STOCH_MIDPOINT + 10 * PRICE_SCALE as i64);
    assert!(r.strength.unwrap() > 20 * PRICE_SCALE);
}

#[test]
fn high_threshold_filters_candidates_out() {
    let rows = falling_then_bouncing();
    let mut p = params(false, false, 3);
    p.stoch_threshold = 45 * PRICE_SCALE as i64;
    assert_eq!(screen(&rows, &p), None);
}
