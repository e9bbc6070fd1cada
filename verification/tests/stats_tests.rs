use rust_core::engine::{PriceSeries, Trade};
use rust_core::fixed::SIZE_UNIT;
use rust_core::stats::{compute_stats, max_drawdown};

fn date(i: usize) -> String {
    format!("2020-01-{:02} 00:00:00", i + 1)
}

fn series_with_closes(closes: &[i64]) -> PriceSeries {
    PriceSeries {
        live_mode: false,
        date: (0..closes.len()).map(date).collect(),
        open: closes.to_vec(),
        high: closes.to_vec(),
        low: closes.to_vec(),
        close: closes.to_vec(),
        close2: closes.to_vec(),
        ask: closes.to_vec(),
        bid: closes.to_vec(),
        ask2: closes.to_vec(),
        bid2: closes.to_vec(),
    }
}

fn closed(id: u64, size: i64, entry: i64, exit: i64, ei: usize, xi: usize) -> Trade {
    Trade {
        id,
        instrument: 1,
        size,
        entry_price: entry,
        entry_index: ei,
        exit_price: Some(exit),
        exit_index: Some(xi),
    }
}

#[test]
fn drawdown_round_trip_scenario() {
    // Equity 100000, 110000, 90000, 105000 over four daily ticks: the worst
    // drawdown is (90000 - 110000) / 110000 = -18.1818%.
    let equity: Vec<i128> = vec![100_000, 110_000, 90_000, 105_000];
    assert_eq!(max_drawdown(&equity), -181_818);
}

#[test]
fn stats_of_the_round_trip_curve() {
    let equity: Vec<i128> = vec![100_000, 110_000, 90_000, 105_000];
    let data = series_with_closes(&[100, 110, 90, 105]);
    let trades: Vec<Trade> = vec![];
    let s = compute_stats(&trades, &equity, &data, 1234);
    assert_eq!(s.start, 0);
    assert_eq!(s.end, 3);
    assert_eq!(s.duration, 3);
    assert_eq!(s.start_date, date(0));
    assert_eq!(s.end_date, date(3));
    // Four daily observations span three calendar days.
    assert_eq!(s.duration_days, Some(3));
    assert_eq!(s.max_drawdown_ppm, -181_818);
    // (105000 - 100000) / 100000 = +5%.
    assert_eq!(s.return_ppm, 50_000);
    // (105 - 100) / 100 = +5%; alpha is the difference.
    assert_eq!(s.buy_hold_return_ppm, 50_000);
    assert_eq!(s.alpha_ppm, 0);
    assert_eq!(s.equity_final, 105_000);
    assert_eq!(s.num_trades, 0);
    assert_eq!(s.win_rate_ppm, 0);
    assert_eq!(s.profit_factor_ppm, None);
    assert_eq!(s.exposure_time_ppm, 0);
    assert_eq!(s.max_margin_usage_bp, 1234);
    // The equity and benchmark move in lockstep here, so beta is 1.
    assert_eq!(s.beta_milli, 1000);
    assert!(s.volatility_ann_ppm.is_some());
}

#[test]
fn trade_figures_with_wins_and_losses() {
    // Two winners (+10, +30 per share) and one loser (-20 per share).
    let trades = vec![
        closed(0, SIZE_UNIT, 100, 110, 0, 1),
        closed(1, SIZE_UNIT, 100, 130, 1, 2),
        closed(2, SIZE_UNIT, 100, 80, 2, 3),
    ];
    let equity: Vec<i128> = vec![1_000_000, 1_100_000, 1_400_000, 1_200_000];
    let data = series_with_closes(&[100, 110, 130, 80]);
    let s = compute_stats(&trades, &equity, &data, 0);
    let u = SIZE_UNIT as i128;
    assert_eq!(s.num_trades, 3);
    // Two of three trades won.
    assert_eq!(s.win_rate_ppm, 666_666);
    assert_eq!(s.best_trade, 30 * u);
    assert_eq!(s.worst_trade, -20 * u);
    assert_eq!(s.avg_win, 20 * u);
    assert_eq!(s.avg_loss, -20 * u);
    // 40 won over 20 lost: profit factor 2.
    assert_eq!(s.profit_factor_ppm, Some(2_000_000));
    // Every tick had an open trade.
    assert_eq!(s.exposure_time_ppm, 1_000_000);
}

#[test]
fn exposure_counts_the_union_of_trade_spans() {
    // One trade covers ticks 0..=1 of four: half the run.
    let trades = vec![closed(0, SIZE_UNIT, 100, 110, 0, 1)];
    let equity: Vec<i128> = vec![1_000_000; 4];
    let data = series_with_closes(&[100, 110, 110, 110]);
    let s = compute_stats(&trades, &equity, &data, 0);
    assert_eq!(s.exposure_time_ppm, 500_000);
}

#[test]
fn unparseable_dates_leave_time_figures_empty() {
    let mut data = series_with_closes(&[100, 110]);
    data.date = vec!["not a date".to_string(), "also wrong".to_string()];
    let equity: Vec<i128> = vec![100_000, 110_000];
    let s = compute_stats(&[].to_vec(), &equity, &data, 0);
    assert_eq!(s.duration_days, None);
    assert_eq!(s.volatility_ann_ppm, None);
    // The price-only figures are unaffected.
    assert_eq!(s.return_ppm, 100_000);
}

#[test]
fn duration_days_follow_the_timestamps() {
    let mut data = series_with_closes(&[100, 110]);
    data.date = vec![
        "2020-01-01 00:00:00".to_string(),
        "2020-03-01 12:00:00".to_string(),
    ];
    let equity: Vec<i128> = vec![100_000, 110_000];
    let s = compute_stats(&[].to_vec(), &equity, &data, 0);
    // January and February 2020 plus half a day: 60 full days.
    assert_eq!(s.duration_days, Some(60));
}

#[test]
fn flat_equity_has_no_drawdown_and_no_volatility() {
    let equity: Vec<i128> = vec![100_000; 5];
    let data = series_with_closes(&[100; 5]);
    let s = compute_stats(&[].to_vec(), &equity, &data, 0);
    assert_eq!(s.max_drawdown_ppm, 0);
    assert_eq!(s.volatility_ann_ppm, Some(0));
    assert_eq!(s.return_ppm, 0);
    assert_eq!(s.beta_milli, 0);
}

#[test]
fn single_point_curve_is_degenerate_but_defined() {
    let equity: Vec<i128> = vec![100_000];
    let data = series_with_closes(&[100]);
    let s = compute_stats(&[].to_vec(), &equity, &data, 0);
    assert_eq!(s.duration, 0);
    assert_eq!(s.max_drawdown_ppm, 0);
    assert_eq!(s.return_ppm, 0);
    assert_eq!(s.volatility_ann_ppm, Some(0));
}
