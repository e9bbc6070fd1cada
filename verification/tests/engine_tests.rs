use rust_core::engine::{Backtest, Broker, Order, OrderError, Position, PriceSeries, Tick, Trade};
use rust_core::fixed::SIZE_UNIT;
use rust_core::position::PositionManager;
use rust_core::strategies::{SimpleStrategy, SmaStrategy};

fn date(i: usize) -> String {
    format!("2020-01-{:02} 00:00:00", i + 1)
}

fn bar_series(closes: &[i64]) -> PriceSeries {
    PriceSeries {
        live_mode: false,
        date: (0..closes.len()).map(date).collect(),
        open: closes.to_vec(),
        high: closes.to_vec(),
        low: closes.to_vec(),
        close: closes.to_vec(),
        close2: closes.to_vec(),
        ask: closes.to_vec(),
        bid: closes.to_vec(),
        ask2: closes.to_vec(),
        bid2: closes.to_vec(),
    }
}

fn ohlc_series(bars: &[(i64, i64, i64, i64)]) -> PriceSeries {
    PriceSeries {
        live_mode: false,
        date: (0..bars.len()).map(date).collect(),
        open: bars.iter().map(|b| b.0).collect(),
        high: bars.iter().map(|b| b.1).collect(),
        low: bars.iter().map(|b| b.2).collect(),
        close: bars.iter().map(|b| b.3).collect(),
        close2: bars.iter().map(|b| b.3).collect(),
        ask: bars.iter().map(|b| b.3).collect(),
        bid: bars.iter().map(|b| b.3).collect(),
        ask2: bars.iter().map(|b| b.3).collect(),
        bid2: bars.iter().map(|b| b.3).collect(),
    }
}

fn cash_broker(data: PriceSeries, cash: i128) -> Broker {
    // A cash account: margin ratio 1, no commission, no spread, 90% call.
    Broker::new(data, cash, 0, 0, 1, 1, 9000, false, false, false, false)
}

fn leveraged_broker(data: PriceSeries, cash: i128) -> Broker {
    // 10x leverage: margin ratio 1/10.
    Broker::new(data, cash, 0, 0, 1, 10, 9000, false, false, false, false)
}

fn market_order(size: i64) -> Order {
    Order {
        size,
        limit: None,
        stop: None,
        sl: None,
        tp: None,
        parent_trade: None,
        instrument: 1,
    }
}

#[test]
fn fractional_order_rejected_in_cash_account() {
    // Margin ratio 1 and a size of 1.5 shares: refused, and not queued.
    let mut b = cash_broker(bar_series(&[100, 100]), 10_000_000);
    let r = b.new_order(market_order(SIZE_UNIT + SIZE_UNIT / 2), 100);
    assert_eq!(r, Err(OrderError::FractionalOrderNotAllowed));
    assert!(b.orders.is_empty());
}

#[test]
fn fractional_order_allowed_under_leverage() {
    let mut b = leveraged_broker(bar_series(&[100, 100]), 10_000_000);
    let r = b.new_order(market_order(SIZE_UNIT + SIZE_UNIT / 2), 100);
    assert!(r.is_ok());
    assert_eq!(b.orders.len(), 1);
}

#[test]
fn margin_exceeded_rejected() {
    // Cash buys 1_000_000 / 100 = 10_000 size units at price 100; ask for 2 shares.
    let mut b = cash_broker(bar_series(&[100, 100]), 1_000_000);
    let r = b.new_order(market_order(2 * SIZE_UNIT), 100);
    assert_eq!(r, Err(OrderError::MarginExceeded));
    assert!(b.orders.is_empty());
}

#[test]
fn trade_limit_rejected_on_fourth_long() {
    let mut b = cash_broker(bar_series(&[100; 8]), 1_000_000_000_000);
    for i in 0..3 {
        assert!(b.new_order(market_order(SIZE_UNIT), 100).is_ok());
        b.next(i);
    }
    assert_eq!(b.trades.len(), 3);
    let r = b.new_order(market_order(SIZE_UNIT), 100);
    assert_eq!(r, Err(OrderError::TradeLimitExceeded));
    // The short side is unaffected by the long cap.
    assert!(b.new_order(market_order(-SIZE_UNIT), 100).is_ok());
}

#[test]
fn limit_order_below_low_stays_queued() {
    // A long limit at 90 when the bar's low is 100 must not fill.
    let mut b = cash_broker(bar_series(&[100, 100]), 100_000_000);
    let mut o = market_order(SIZE_UNIT);
    o.limit = Some(90);
    assert!(b.new_order(o, 100).is_ok());
    b.process_orders(0);
    assert_eq!(b.orders.len(), 1);
    assert_eq!(b.orders[0].limit, Some(90));
    assert!(b.trades.is_empty());
}

#[test]
fn limit_order_fills_when_low_crosses() {
    let mut b = cash_broker(ohlc_series(&[(100, 101, 89, 100)]), 100_000_000);
    let mut o = market_order(SIZE_UNIT);
    o.limit = Some(90);
    assert!(b.new_order(o, 100).is_ok());
    b.process_orders(0);
    assert!(b.orders.is_empty());
    assert_eq!(b.trades.len(), 1);
    // Limit orders execute at the limit price.
    assert_eq!(b.trades[0].entry_price, 90);
}

#[test]
fn contingent_stop_attaches_to_new_trade() {
    // Opening a long with a stop loss at 95 queues exactly one contingent
    // stop order pointing at the new trade.
    let mut b = cash_broker(bar_series(&[100, 100]), 100_000_000);
    let mut o = market_order(SIZE_UNIT);
    o.sl = Some(95);
    assert!(b.new_order(o, 100).is_ok());
    b.process_orders(0);
    assert_eq!(b.trades.len(), 1);
    assert_eq!(b.trades[0].entry_price, 100);
    let tid = b.trades[0].id;
    assert_eq!(b.orders.len(), 1);
    let c = b.orders[0];
    assert_eq!(c.stop, Some(95));
    assert_eq!(c.parent_trade, Some(tid));
    assert_eq!(c.sl, None);
    // A non-contingent order submitted on the same tick queues behind it.
    assert!(b.new_order(market_order(SIZE_UNIT), 100).is_ok());
    assert_eq!(b.orders[0].parent_trade, Some(tid));
    assert_eq!(b.orders[1].parent_trade, None);
}

#[test]
fn protective_stop_closes_the_trade() {
    // Entry at 100 on tick 0; the bar at tick 1 trades down to 94, so the
    // protective stop at 95 fires and realizes the loss.
    let data = ohlc_series(&[(100, 100, 100, 100), (100, 100, 94, 96)]);
    let mut b = cash_broker(data, 100_000_000);
    let mut o = market_order(SIZE_UNIT);
    o.sl = Some(95);
    assert!(b.new_order(o, 100).is_ok());
    b.next(0);
    assert_eq!(b.trades.len(), 1);
    b.next(1);
    assert!(b.trades.is_empty());
    assert_eq!(b.closed_trades.len(), 1);
    let t = b.closed_trades[0];
    // The stop was cleared and the order executed at the tick's open.
    assert_eq!(t.exit_price, Some(100));
    assert_eq!(t.exit_index, Some(1));
}

#[test]
fn stop_entry_triggers_on_high() {
    // A long stop-entry at 105 fires when the high reaches it.
    let data = ohlc_series(&[(100, 106, 99, 104)]);
    let mut b = cash_broker(data, 100_000_000);
    let mut o = market_order(SIZE_UNIT);
    o.stop = Some(105);
    assert!(b.new_order(o, 100).is_ok());
    b.process_orders(0);
    assert_eq!(b.trades.len(), 1);
    assert_eq!(b.trades[0].entry_price, 100);
}

#[test]
fn cash_conservation_after_round_trip() {
    // Buy one share at 100, close at 110: final cash is initial plus the
    // sum of closed-trade profits, exactly.
    let initial: i128 = 10_000_000;
    let mut b = cash_broker(bar_series(&[100, 110]), initial);
    assert!(b.new_order(market_order(SIZE_UNIT), 100).is_ok());
    b.next(0);
    b.next(1);
    assert_eq!(b.trades.len(), 1);
    b.close_position(0, 1);
    assert!(b.trades.is_empty());
    let pnl_sum: i128 = b.closed_trades.iter().map(|t| t.pnl()).sum();
    assert_eq!(pnl_sum, SIZE_UNIT as i128 * 10);
    assert_eq!(b.cash, initial + pnl_sum);
}

#[test]
fn pnl_sign_symmetry() {
    let long = Trade {
        id: 0,
        instrument: 1,
        size: 3 * SIZE_UNIT,
        entry_price: 100,
        entry_index: 0,
        exit_price: Some(117),
        exit_index: Some(4),
    };
    let short = Trade { id: 1, size: -3 * SIZE_UNIT, ..long };
    assert_eq!(long.pnl(), -short.pnl());
    assert_eq!(long.pnl(), 3 * SIZE_UNIT as i128 * 17);
}

#[test]
fn pl_pct_is_signed_fraction_of_entry() {
    let t = Trade {
        id: 0,
        instrument: 1,
        size: SIZE_UNIT,
        entry_price: 100,
        entry_index: 0,
        exit_price: Some(110),
        exit_index: Some(1),
    };
    // +10% of the entry price, in parts per million.
    assert_eq!(t.pl_pct(), 100_000);
    let s = Trade { size: -SIZE_UNIT, ..t };
    assert_eq!(s.pl_pct(), -100_000);
}

#[test]
fn margin_call_flattens_the_book() {
    // 10x leverage, two five-share longs at 100: usage hits 100% and the
    // call at 90% liquidates everything; afterwards usage is zero.
    let mut b = leveraged_broker(bar_series(&[100, 100]), 1_000_000);
    assert!(b.new_order(market_order(5 * SIZE_UNIT), 100).is_ok());
    assert!(b.new_order(market_order(5 * SIZE_UNIT), 100).is_ok());
    b.next(0);
    assert!(b.trades.is_empty());
    assert_eq!(b.closed_trades.len(), 2);
    assert_eq!(b.current_margin_usage(), 0);
    assert!(!b.ruined);
}

#[test]
fn ruin_zeroes_cash_and_equity_for_good() {
    // 10x leverage, eight shares at 100 with one million cash; the price
    // falls to 80 and equity goes negative: the account is ruined.
    let data = bar_series(&[100, 80, 80]);
    let mut b = leveraged_broker(data, 1_000_000);
    assert!(b.new_order(market_order(8 * SIZE_UNIT), 100).is_ok());
    b.next(0);
    assert_eq!(b.trades.len(), 1);
    b.next(1);
    assert!(b.ruined);
    assert_eq!(b.cash, 0);
    assert!(b.trades.is_empty());
    assert!(b.orders.is_empty());
    assert_eq!(b.equity[1], 0);
    assert_eq!(b.equity[2], 0);
    // Ruin is terminal: the next tick changes nothing.
    b.next(2);
    assert_eq!(b.cash, 0);
    assert_eq!(b.equity[2], 0);
    assert!(b.ruined);
}

#[test]
fn exclusive_orders_flatten_before_queueing() {
    let mut b = Broker::new(
        bar_series(&[100, 100]),
        100_000_000,
        0,
        0,
        1,
        1,
        9000,
        false,
        false,
        true,
        false,
    );
    assert!(b.new_order(market_order(SIZE_UNIT), 100).is_ok());
    b.next(0);
    assert_eq!(b.trades.len(), 1);
    assert!(b.new_order(market_order(SIZE_UNIT), 100).is_ok());
    // Admission dropped the open trade and every older order.
    assert!(b.trades.is_empty());
    assert_eq!(b.orders.len(), 1);
}

#[test]
fn trade_on_close_uses_previous_close() {
    let data = ohlc_series(&[(100, 100, 100, 103), (105, 106, 104, 106)]);
    let mut b = Broker::new(data, 100_000_000, 0, 0, 1, 1, 9000, true, false, false, false);
    assert!(b.new_order(market_order(SIZE_UNIT), 100).is_ok());
    b.next(1);
    assert_eq!(b.trades.len(), 1);
    // Executed at tick 0's close, not tick 1's open.
    assert_eq!(b.trades[0].entry_price, 103);
}

#[test]
fn adjusted_price_applies_commission_and_spread() {
    // Commission 0.1% (1000 ppm) and a fixed spread of 5 price units.
    let b = Broker::new(
        bar_series(&[100_000]),
        1_000_000_000,
        1000,
        5,
        1,
        1,
        9000,
        false,
        false,
        false,
        false,
    );
    assert_eq!(b.adjusted_price(SIZE_UNIT, 100_000), 100_105);
    assert_eq!(b.adjusted_price(-SIZE_UNIT, 100_000), 99_895);
    assert_eq!(b.adjusted_price(0, 100_000), 100_000);
}

#[test]
fn scaling_rescales_by_equity_ratio() {
    // One share at 100 with the close at 150: equity is 1.5x the base, so
    // a proposed size scales by 1.5.
    let data = bar_series(&[150]);
    let mut b = Broker::new(data, 1_000_000, 0, 0, 1, 1, 9000, false, false, false, true);
    b.trades.push(Trade {
        id: 0,
        instrument: 1,
        size: SIZE_UNIT,
        entry_price: 100,
        entry_index: 0,
        exit_price: None,
        exit_index: None,
    });
    b.next_trade_id = 1;
    b.update_equity(0);
    assert_eq!(b.equity[0], 1_500_000);
    assert_eq!(b.scale_order_size(SIZE_UNIT), (SIZE_UNIT + SIZE_UNIT / 2) as i128);
}

#[test]
fn scaling_happens_before_the_fractional_check() {
    // The scaled size (1.5 shares) is fractional, so a cash account refuses
    // the order even though the proposed size was a whole share.
    let data = bar_series(&[150]);
    let mut b = Broker::new(data, 1_000_000, 0, 0, 1, 1, 9000, false, false, false, true);
    b.trades.push(Trade {
        id: 0,
        instrument: 1,
        size: SIZE_UNIT,
        entry_price: 100,
        entry_index: 0,
        exit_price: None,
        exit_index: None,
    });
    b.next_trade_id = 1;
    b.update_equity(0);
    let r = b.new_order(market_order(SIZE_UNIT), 100);
    assert_eq!(r, Err(OrderError::FractionalOrderNotAllowed));
}

#[test]
fn live_mode_fills_long_at_ask_and_stops_on_bid() {
    let mut data = bar_series(&[100]);
    data.live_mode = true;
    data.ask = vec![101];
    data.bid = vec![99];
    let mut b = cash_broker(data, 100_000_000);
    assert!(b.new_order(market_order(SIZE_UNIT), 101).is_ok());
    b.process_orders(0);
    assert_eq!(b.trades.len(), 1);
    assert_eq!(b.trades[0].entry_price, 101);

    // Append a falling quote; the protective stop fires on the bid.
    let mut b2 = {
        let mut data = bar_series(&[100]);
        data.live_mode = true;
        data.ask = vec![101];
        data.bid = vec![99];
        cash_broker(data, 100_000_000)
    };
    let mut o = market_order(SIZE_UNIT);
    o.sl = Some(95);
    assert!(b2.new_order(o, 101).is_ok());
    b2.next(0);
    assert_eq!(b2.trades.len(), 1);
    b2.append_tick(Tick {
        date: date(1),
        open: 94,
        high: 94,
        low: 94,
        close: 94,
        close2: 94,
        ask: 95,
        bid: 94,
        ask2: 95,
        bid2: 94,
    });
    b2.next(1);
    assert!(b2.trades.is_empty());
    assert_eq!(b2.closed_trades.len(), 1);
    // Executed at the ask (a long order's live reference price).
    assert_eq!(b2.closed_trades[0].exit_price, Some(95));
}

#[test]
fn position_helpers_sum_over_open_trades() {
    let trades = vec![
        Trade {
            id: 0,
            instrument: 1,
            size: 2 * SIZE_UNIT,
            entry_price: 100,
            entry_index: 0,
            exit_price: None,
            exit_index: None,
        },
        Trade {
            id: 1,
            instrument: 1,
            size: -SIZE_UNIT,
            entry_price: 110,
            entry_index: 0,
            exit_price: None,
            exit_index: None,
        },
    ];
    assert_eq!(Position::size(&trades), SIZE_UNIT as i128);
    // At 120: long gains 2*20 shares-worth, short loses 10.
    assert_eq!(
        Position::pl(&trades, 120),
        2 * SIZE_UNIT as i128 * 20 - SIZE_UNIT as i128 * 10
    );
}

#[test]
fn trade_close_sets_exit_fields() {
    let mut t = Trade {
        id: 7,
        instrument: 1,
        size: SIZE_UNIT,
        entry_price: 100,
        entry_index: 2,
        exit_price: None,
        exit_index: None,
    };
    t.close(5, 104);
    assert_eq!(t.exit_price, Some(104));
    assert_eq!(t.exit_index, Some(5));
}

#[test]
fn position_manager_caps_each_side() {
    let mut pm = PositionManager::new(2);
    assert!(pm.can_open_long());
    pm.register_position(SIZE_UNIT);
    pm.register_position(SIZE_UNIT);
    assert!(!pm.can_open_long());
    assert!(pm.can_open_short());
    pm.register_position(-SIZE_UNIT);
    assert_eq!(pm.total_positions(), 3);
    pm.close_position(SIZE_UNIT);
    assert!(pm.can_open_long());
    pm.close_position(-SIZE_UNIT);
    pm.close_position(-SIZE_UNIT);
    assert_eq!(pm.open_shorts, 0);
    pm.reset();
    assert_eq!(pm.total_positions(), 0);
}

#[test]
fn simple_strategy_round_trip_conserves_cash() {
    let data = bar_series(&[100, 105, 110, 120]);
    let initial: i128 = 10_000_000;
    let mut bt = Backtest::new(
        data,
        SimpleStrategy::new(),
        initial,
        0,
        0,
        1,
        1,
        9000,
        false,
        false,
        false,
        false,
    );
    bt.run();
    let pnl_sum: i128 = bt.broker.closed_trades.iter().map(|t| t.pnl()).sum();
    assert!(bt.broker.trades.is_empty());
    assert_eq!(bt.broker.cash, initial + pnl_sum);
    // The order submitted on the first tick fills at the second tick's
    // open, and the position is sold at the last close.
    assert_eq!(bt.broker.closed_trades.len(), 1);
    assert_eq!(bt.broker.closed_trades[0].entry_price, 105);
    assert_eq!(bt.broker.closed_trades[0].exit_price, Some(120));
}

#[test]
fn sma_strategy_runs_clean() {
    let mut closes: Vec<i64> = Vec::new();
    for i in 0..60i64 {
        // A dip and a recovery produce at least one cross each way.
        closes.push(1000 + ((i - 30) * (i - 30)) / 5);
    }
    let data = bar_series(&closes);
    let initial: i128 = 1_000_000_000;
    let mut bt = Backtest::new(
        data,
        SmaStrategy::new(),
        initial,
        0,
        0,
        1,
        1,
        9000,
        false,
        false,
        false,
        false,
    );
    bt.run();
    let pnl_sum: i128 = bt.broker.closed_trades.iter().map(|t| t.pnl()).sum();
    if !bt.broker.ruined {
        assert_eq!(bt.broker.cash, initial + pnl_sum);
    }
    assert_eq!(bt.broker.equity.len(), 60);
    // One usage record at construction plus at least one per tick.
    assert!(bt.broker.margin_usage_history.len() >= 61);
}

#[test]
fn margin_usage_is_zero_for_cash_account() {
    let mut b = cash_broker(bar_series(&[100, 100]), 100_000_000);
    assert!(b.new_order(market_order(SIZE_UNIT), 100).is_ok());
    b.next(0);
    assert_eq!(b.current_margin_usage(), 0);
}

#[test]
fn margin_usage_in_basis_points() {
    // 10x leverage: five shares at 100 against one million cash is 50%.
    let mut b = leveraged_broker(bar_series(&[100, 100]), 1_000_000);
    assert!(b.new_order(market_order(5 * SIZE_UNIT), 100).is_ok());
    b.next(0);
    assert_eq!(b.current_margin_usage(), 5000);
    assert_eq!(b.max_margin_usage, 5000);
    assert_eq!(b.available_buying_power(), 10_000_000 - 5_000_000);
}
