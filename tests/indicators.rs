use slurp::calc::{get_exp_moving_avgs, get_moving_avgs};
use slurp::quote::{Quote, QuoteRow, PRICE_SCALE};
use slurp::stoch::{
    get_adxr, get_adxs, get_directional_indexes, get_last_rsi, get_rmas, get_rsis, get_slow_stoch,
    get_smas, get_stochastics, get_true_ranges,
};

const S: u64 = PRICE_SCALE;

fn fixed(x: f64) -> u64 {
    (x * S as f64).round() as u64
}

fn to_f64(v: u64) -> f64 {
    v as f64 / S as f64
}

fn bar(high: f64, low: f64, close: f64) -> Quote {
    Quote {
        timestamp: 0,
        open: fixed(close),
        close: fixed(close),
        high: fixed(high),
        low: fixed(low),
        avg: -1,
        volume: 0,
        count: 0,
    }
}

fn rows_of_closes(closes: &[f64]) -> Vec<QuoteRow> {
    closes
        .iter()
        .enumerate()
        .map(|(i, c)| QuoteRow { id: i as i32, quote: bar(*c, *c, *c) })
        .collect()
}

fn sample_bars() -> Vec<Quote> {
    vec![
        bar(10.0, 8.0, 9.0),
        bar(11.0, 9.0, 10.0),
        bar(12.0, 9.0, 11.0),
        bar(11.0, 8.0, 9.0),
        bar(13.0, 10.0, 12.0),
        bar(14.0, 11.0, 13.0),
    ]
}

fn sample_rows() -> Vec<QuoteRow> {
    sample_bars()
        .into_iter()
        .enumerate()
        .map(|(i, q)| QuoteRow { id: 100 + i as i32, quote: q })
        .collect()
}

#[test]
fn test_moving_avgs() {
    let mocks = rows_of_closes(&[2.0, 3.0, 4.0, 5.5, 6.0, 7.0]);
    let avgs = get_moving_avgs(3, &mocks);
    assert_eq!(
        avgs,
        vec![(2, 300_000_000), (3, 416_666_666), (4, 516_666_666), (5, 616_666_666)]
    );
    let expected = [(2, 3.0), (3, 12.5 / 3.0), (4, 15.5 / 3.0), (5, 18.5 / 3.0)];
    for ((id, v), (eid, ev)) in avgs.iter().zip(expected.iter()) {
        assert_eq!(id, eid);
        assert!((to_f64(*v) - ev).abs() < 1e-8);
    }
}

#[test]
fn test_exp_avgs() {
    let mocks = rows_of_closes(&[2.0, 3.0, 4.0, 5.5, 6.0, 7.0]);
    let avgs = get_exp_moving_avgs(3, &mocks);
    assert_eq!(
        avgs,
        vec![(2, 333_333_333), (3, 441_666_666), (4, 520_833_333), (5, 610_416_666)]
    );
    let expected = [
        (2, 3.333333333333333),
        (3, 4.416666666666666),
        (4, 5.208333333333333),
        (5, 6.104166666666666),
    ];
    for ((id, v), (eid, ev)) in avgs.iter().zip(expected.iter()) {
        assert_eq!(id, eid);
        assert!((to_f64(*v) - ev).abs() < 1e-8);
    }
}

#[test]
fn test_relative_moving_avgs() {
    let vals: Vec<u64> = [1.0, 2.0, 3.0, 4.0, 5.0].iter().map(|v| fixed(*v)).collect();
    let rmas = get_rmas(&vals, 4);
    assert_eq!(rmas, vec![fixed(2.5), fixed(3.125)]);
    let as_f64: Vec<f64> = rmas.iter().map(|v| to_f64(*v)).collect();
    assert_eq!(as_f64, vec![2.5, 3.125]);
}

#[test]
fn sma_matches_stated_decimals() {
    let vals: Vec<u64> = [2.0, 3.0, 4.0, 5.5, 6.0, 7.0].iter().map(|v| fixed(*v)).collect();
    let smas = get_smas(&vals, 3);
    let stated = [3.0, 4.1666667, 5.1666667, 6.1666667];
    assert_eq!(smas.len(), stated.len());
    for (v, e) in smas.iter().zip(stated.iter()) {
        assert!((to_f64(*v) - e).abs() < 5e-8);
    }
}

#[test]
fn ema_matches_stated_decimals() {
    let mocks = rows_of_closes(&[2.0, 3.0, 4.0, 5.5, 6.0, 7.0]);
    let avgs = get_exp_moving_avgs(3, &mocks);
    let stated = [3.3333333, 4.4166667, 5.2083333, 6.1041667];
    assert_eq!(avgs.len(), stated.len());
    for ((_, v), e) in avgs.iter().zip(stated.iter()) {
        assert!((to_f64(*v) - e).abs() < 5e-8);
    }
}

#[test]
fn short_series_give_no_averages() {
    let vals: Vec<u64> = vec![fixed(1.0), fixed(2.0)];
    assert!(get_smas(&vals, 3).is_empty());
    assert!(get_rmas(&vals, 3).is_empty());
    assert!(get_exp_moving_avgs(3, &rows_of_closes(&[1.0, 2.0])).is_empty());
    assert!(get_moving_avgs(3, &rows_of_closes(&[1.0, 2.0])).is_empty());
    assert!(get_smas(&[], 1).is_empty());
}

#[test]
fn zero_window_gives_no_averages() {
    let vals: Vec<u64> = vec![fixed(1.0), fixed(2.0)];
    assert!(get_smas(&vals, 0).is_empty());
    assert!(get_rmas(&vals, 0).is_empty());
    assert!(get_exp_moving_avgs(0, &rows_of_closes(&[1.0, 2.0])).is_empty());
}

#[test]
fn window_equal_to_length_gives_one_average() {
    let vals: Vec<u64> = vec![fixed(1.0), fixed(2.0), fixed(6.0)];
    assert_eq!(get_smas(&vals, 3), vec![fixed(3.0)]);
    assert_eq!(get_rmas(&vals, 3), vec![fixed(3.0)]);
}

#[test]
fn window_of_one_repeats_the_series() {
    let mocks = rows_of_closes(&[2.0, 3.0, 4.0]);
    assert_eq!(
        get_exp_moving_avgs(1, &mocks),
        vec![(0, fixed(2.0)), (1, fixed(3.0)), (2, fixed(4.0))]
    );
    let vals: Vec<u64> = vec![fixed(2.0), fixed(3.0), fixed(4.0)];
    assert_eq!(get_smas(&vals, 1), vals);
    assert_eq!(get_rmas(&vals, 1), vals);
}

#[test]
fn constant_series_averages_equal_the_constant() {
    let c = fixed(7.25);
    let vals: Vec<u64> = vec![c; 12];
    let rows = rows_of_closes(&[7.25; 12]);
    for w in 1..=12 {
        assert!(get_smas(&vals, w).iter().all(|v| *v == c));
        assert!(get_rmas(&vals, w).iter().all(|v| *v == c));
        assert!(get_exp_moving_avgs(w, &rows).iter().all(|(_, v)| *v == c));
        assert_eq!(get_smas(&vals, w).len(), 12 - w + 1);
    }
}

#[test]
fn largest_values_do_not_overflow() {
    let vals: Vec<u64> = vec![u64::MAX; 5];
    assert_eq!(get_smas(&vals, 3), vec![u64::MAX; 3]);
    assert_eq!(get_rmas(&vals, 3), vec![u64::MAX; 3]);
    let rows: Vec<QuoteRow> = (0..5)
        .map(|i| QuoteRow {
            id: i,
            quote: Quote {
                timestamp: 0,
                open: u64::MAX,
                close: u64::MAX,
                high: u64::MAX,
                low: u64::MAX,
                avg: 0,
                volume: 0,
                count: 0,
            },
        })
        .collect();
    assert!(get_exp_moving_avgs(3, &rows).iter().all(|(_, v)| *v == u64::MAX));
}

#[test]
fn true_ranges_of_sample() {
    let q = sample_bars();
    assert_eq!(
        get_true_ranges(&q),
        vec![fixed(2.0), fixed(3.0), fixed(3.0), fixed(4.0), fixed(3.0)]
    );
    assert!(get_true_ranges(&q[..1]).is_empty());
    assert!(get_true_ranges(&[]).is_empty());
}

#[test]
fn true_range_of_inverted_bar_ignores_negative_range() {
    // previous close 2, high 1, low 3: max(high - low, |1 - 2|, |3 - 2|) = 1
    let q = vec![bar(2.0, 2.0, 2.0), bar(1.0, 3.0, 2.0)];
    assert_eq!(get_true_ranges(&q), vec![fixed(1.0)]);
}

#[test]
fn true_range_uses_previous_close_gap() {
    let q = vec![bar(10.0, 9.0, 9.5), bar(15.0, 14.0, 14.5)];
    assert_eq!(get_true_ranges(&q), vec![fixed(5.5)]);
}

#[test]
fn directional_index_and_adx_of_sample() {
    let q = sample_bars();
    assert_eq!(
        get_directional_indexes(&q, 2),
        vec![10_000_000_000, 0, 6_666_666_666, 8_000_000_000]
    );
    assert_eq!(get_adxs(&q, 2), vec![5_000_000_000, 5_833_333_333, 6_916_666_666]);
    assert_eq!(get_adxr(&q, 2, 1), Some(6_916_666_666));
    assert_eq!(get_adxr(&q, 2, 2), Some((6_916_666_666 + 5_416_666_666) / 2));
    assert_eq!(get_adxr(&q, 4, 4), None);
}

#[test]
fn directional_index_of_flat_bars_is_zero() {
    let q = vec![bar(5.0, 5.0, 5.0); 6];
    assert!(get_directional_indexes(&q, 2).iter().all(|v| *v == 0));
}

#[test]
fn rsi_of_sample() {
    let q = sample_bars();
    assert_eq!(
        get_rsis(&q, 2),
        vec![10_000_000_000, 3_333_333_333, 7_777_777_777, 8_461_538_461]
    );
    assert_eq!(get_last_rsi(&q, 2), Some(8_461_538_461));
    assert_eq!(get_last_rsi(&q[..2], 2), None);
}

#[test]
fn rsi_extremes() {
    let rising: Vec<Quote> = (1..6).map(|i| bar(i as f64, i as f64, i as f64)).collect();
    assert!(get_rsis(&rising, 2).iter().all(|v| *v == 100 * S));
    let falling: Vec<Quote> = (1..6).rev().map(|i| bar(i as f64, i as f64, i as f64)).collect();
    assert!(get_rsis(&falling, 2).iter().all(|v| *v == 0));
}

#[test]
fn stochastics_of_sample() {
    let rows = sample_rows();
    assert_eq!(
        get_stochastics(&rows, 3),
        vec![7_500_000_000, 2_500_000_000, 8_000_000_000, 8_333_333_333]
    );
    assert_eq!(get_slow_stoch(3, 2, 2, &rows), Some(6_708_333_333));
    assert_eq!(get_slow_stoch(3, 3, 3, &rows), None);
    assert!(get_stochastics(&rows, 7).is_empty());
}

#[test]
fn stochastic_of_empty_range_is_midpoint() {
    let rows = rows_of_closes(&[4.0, 4.0, 4.0]);
    assert_eq!(get_stochastics(&rows, 2), vec![50 * S, 50 * S]);
}
