//! Events, fills, markouts and cancellations.
use hft_mm::config::{available_tokens, default_config, find_token, Config, LogTerms};
use hft_mm::double::Double;
use hft_mm::exchange::{OpenOrder, OrderRequest};
use hft_mm::json::parse_json;
use hft_mm::market::{decay_exponents, Decay};
use hft_mm::markout::{markout_exponents, update_markout_score};
use hft_mm::risk::{apply_position_limits, RefreshReason};
use hft_mm::trading::{
    begin_cancel_check, extract_order_details, fill_lock_secs, finish_cancel_check, managed_sides,
    process_ws_event, AckStep,
};
use hft_mm::types::{Bbo, MmState, OrderLevel, Side, TrackedOrder, VolRegime};
use hft_mm::websocket::WsEvent;

fn d(x: f64) -> Double {
    Double::from_bits(x.to_bits())
}

fn f(x: Double) -> f64 {
    f64::from_bits(x.to_bits())
}

fn config() -> Config {
    let token = find_token(&available_tokens(), "XYZ100").unwrap();
    let logs = LogTerms {
        tick_log10: d(f(token.tick_size).log10()),
        min_size_log10: d(f(token.min_size).log10()),
        arrival_ln: d((1.0f64 + 0.001 / 1.5).ln()),
    };
    default_config(token, "key".to_string(), "0xabc", logs)
}

fn decay(s: &MmState, now: f64) -> Decay {
    let e = decay_exponents(s, d(now));
    Decay {
        minute: d(f(e.minute).exp()),
        ten_minutes: d(f(e.ten_minutes).exp()),
        ten_seconds: d(f(e.ten_seconds).exp()),
    }
}

fn book(c: &Config, s: &mut MmState, mid: f64, bids: f64, asks: f64, now: f64) {
    let e = WsEvent::L2Update {
        best_bid: d(mid - 1.0),
        best_ask: d(mid + 1.0),
        mid: d(mid),
        bid_depth_5: d(bids),
        ask_depth_5: d(asks),
    };
    let w = decay(s, now);
    process_ws_event(c, s, e, d(now), w);
}

fn fill(c: &Config, s: &mut MmState, tid: &str, oid: u64, is_buy: bool, px: f64, sz: f64, now: f64) {
    let e = WsEvent::Fill {
        tid: tid.to_string(),
        coin: "xyz:XYZ100".to_string(),
        price: d(px),
        size: d(sz),
        fee: d(-0.5),
        closed_pnl: d(0.25),
        oid,
        is_buy,
    };
    assert!(s.has_fill_room());
    let w = decay(s, now);
    process_ws_event(c, s, e, d(now), w);
}

fn tracked_order(px: f64, sz: f64, is_buy: bool, ts: f64) -> TrackedOrder {
    TrackedOrder {
        price: d(px),
        size: d(sz),
        is_buy,
        ts: d(ts),
        target_price: d(px),
        drift_ticks: 0,
    }
}

#[test]
fn the_first_book_sets_the_stage() {
    let c = config();
    let mut s = MmState::new(1_000_000);
    book(&c, &mut s, 24000.0, 3.0, 1.0, 1100.0);
    let b = s.bbo.unwrap();
    assert_eq!((f(b.best_bid), f(b.best_ask), f(b.mid)), (23999.0, 24001.0, 24000.0));
    assert_eq!(f(s.last_ws_msg_ts), 1100.0);
    assert_eq!(s.price_history.len(), 1);
    assert_eq!((f(s.book_imbalance), f(s.book_imbalance_ema)), (0.5, 0.5));
    assert_eq!(s.vol_regime, VolRegime::Normal);
    assert_eq!(f(s.t_remaining_secs), 500.0);
    assert_eq!(f(s.reservation_price), 24000.0);
    assert_eq!((f(s.ewma_variance), f(s.last_mid_for_variance)), (0.0, 24000.0));
    assert_eq!(f(s.as_delta), (0.001 * 1e-18 * 500.0) / 2.0 + (1.0 / 0.001) * (1.0f64 + 0.001 / 1.5).ln());
}

#[test]
fn variances_run_with_their_half_lives() {
    let c = config();
    let mut s = MmState::new(1_000_000);
    book(&c, &mut s, 24000.0, 1.0, 1.0, 1001.0);
    book(&c, &mut s, 24002.0, 1.0, 3.0, 1003.0);
    assert_eq!((f(s.ewma_variance), f(s.long_term_variance)), (2.0, 2.0));
    let ln2 = std::f64::consts::LN_2;
    let w = (1.0 - (-2.0 * ln2 / 10.0).exp()).clamp(0.01, 0.5);
    assert_eq!(f(s.book_imbalance), -0.5);
    assert_eq!(f(s.book_imbalance_ema), 0.0 * (1.0 - w) + -0.5 * w);
    book(&c, &mut s, 24012.0, 1.0, 1.0, 1003.5);
    let instant = 100.0 / 0.5;
    let a = (1.0 - (-0.5 * ln2 / 60.0).exp()).clamp(0.001, 0.5);
    let l = (1.0 - (-0.5 * ln2 / 600.0).exp()).clamp(0.0005, 0.1);
    let (short, long) = (2.0 * (1.0 - a) + instant * a, 2.0 * (1.0 - l) + instant * l);
    assert_eq!((f(s.ewma_variance), f(s.long_term_variance)), (short, long));
    let ratio = short / long;
    let want = if ratio < 0.5 {
        VolRegime::Low
    } else if ratio < 2.0 {
        VolRegime::Normal
    } else if ratio < 5.0 {
        VolRegime::High
    } else {
        VolRegime::Extreme
    };
    assert_eq!(s.vol_regime, want);
    let before = s.ewma_variance;
    book(&c, &mut s, 24013.0, 0.0, 0.0, 1003.505);
    assert_eq!(s.ewma_variance, before);
    assert_eq!(f(s.book_imbalance), 0.0);
}

#[test]
fn the_price_window_is_held() {
    let c = config();
    let mut s = MmState::new(1_000_000);
    for i in 0..100 {
        book(&c, &mut s, 24000.0 + i as f64, 1.0, 1.0, 1001.0 + i as f64);
    }
    assert_eq!(s.price_history.len(), 64);
    assert_eq!(f(s.price_history[63]), 24099.0);
    assert_eq!(f(s.price_history[0]), 24036.0);
    assert!(f(s.volatility) > 0.0);
    let mut late = MmState::new(1_000_000);
    book(&c, &mut late, 24000.0, 1.0, 1.0, 9000.0);
    assert_eq!(f(late.t_remaining_secs), 1.0);
}

#[test]
fn positions_and_losses_of_connection_are_noted() {
    let c = config();
    let mut s = MmState::new(0);
    let w = decay(&s, 1.0);
    let e = WsEvent::PositionUpdate {
        position: d(0.5),
        unrealized_pnl: d(-1.0),
        entry_price: Some(d(24000.0)),
        margin_used: d(3.0),
        equity: d(100.0),
    };
    process_ws_event(&c, &mut s, e, d(1.0), w);
    assert_eq!((f(s.position), f(s.unrealized_pnl), f(s.equity)), (0.5, -1.0, 100.0));
    assert_eq!((s.entry_price.map(f), f(s.position_margin)), (Some(24000.0), 3.0));
    let e = WsEvent::PositionUpdate {
        position: d(0.0),
        unrealized_pnl: d(0.0),
        entry_price: None,
        margin_used: d(0.0),
        equity: d(0.0),
    };
    process_ws_event(&c, &mut s, e, d(1.0), w);
    assert_eq!((f(s.position), f(s.equity)), (0.0, 100.0));
    process_ws_event(&c, &mut s, WsEvent::Disconnected, d(1.0), w);
    assert_eq!(s.last_status, "WS disconnected, reconnecting...");
}

#[test]
fn a_fill_is_counted() {
    let c = config();
    let mut s = MmState::new(0);
    s.bbo = Some(Bbo { best_bid: d(23999.0), best_ask: d(24001.0), mid: d(24000.0) });
    s.buy_oids = vec![7, 8];
    s.order_details.insert(7, tracked_order(23999.0, 0.02, true, 90.0));
    fill(&c, &mut s, "t1", 7, true, 23999.0, 0.01, 100.0);
    assert_eq!(f(s.stats.total_volume), 239.99);
    assert_eq!((s.stats.fills_count, f(s.stats.total_fees), f(s.stats.session_pnl)), (1, 0.5, 0.25));
    assert_eq!((f(s.stats.queue_time_sum), s.stats.queue_time_count), (10.0, 1));
    assert_eq!((f(s.stats.spread_capture_sum), s.stats.spread_capture_count), (1.0, 1));
    assert_eq!((s.stats.maker_fills, s.stats.taker_fills), (1, 0));
    assert_eq!(f(s.stats.best_pnl), 0.25);
    assert_eq!(s.pending_rts.len(), 1);
    assert!(s.waiting_for_rt);
    assert_eq!(s.fill_lock_side, Some(Side::Buy));
    assert_eq!(f(s.fill_lock_until), 100.25);
    assert_eq!((s.consecutive_buy_fills, s.consecutive_sell_fills), (1, 0));
    assert_eq!(f(s.order_details[&7].size), 0.01);
    assert_eq!(s.fill_history.len(), 1);
    assert_eq!(f(s.fill_history[0].order_ts), 90.0);
    assert_eq!(s.buy_oids, vec![7, 8]);
    fill(&c, &mut s, "t2", 7, true, 23999.0, 0.00995, 101.0);
    assert!(!s.order_details.contains_key(&7));
    assert_eq!(s.buy_oids, vec![8]);
    fill(&c, &mut s, "t3", 99, false, 24002.0, 0.01, 500.0);
    assert_eq!((s.stats.maker_fills, s.stats.taker_fills, s.stats.fills_count), (2, 1, 3));
    assert_eq!((s.consecutive_buy_fills, s.consecutive_sell_fills), (0, 1));
    assert_eq!(s.stats.queue_time_count, 2);
    assert_eq!(f(s.fill_history[2].order_ts), 500.0);
}

#[test]
fn a_fill_counts_once() {
    let c = config();
    let mut s = MmState::new(0);
    fill(&c, &mut s, "t1", 1, true, 10.0, 1.0, 5.0);
    let volume = s.stats.total_volume;
    fill(&c, &mut s, "t1", 1, false, 99.0, 9.0, 6.0);
    assert_eq!((s.stats.fills_count, s.stats.total_volume), (1, volume));
    assert_eq!(s.fill_lock_side, Some(Side::Buy));
    assert_eq!(s.processed_fill_ids.len(), 1);
}

#[test]
fn round_trips_are_matched() {
    let c = config();
    let mut s = MmState::new(0);
    fill(&c, &mut s, "a", 1, true, 100.0, 2.0, 10.0);
    fill(&c, &mut s, "b", 2, true, 101.0, 1.0, 20.0);
    assert_eq!(s.pending_rts.len(), 2);
    fill(&c, &mut s, "c", 3, false, 103.0, 1.0, 30.0);
    assert_eq!((s.stats.rt_count, f(s.stats.rt_profit)), (1, 3.0 * 1.0 - 0.5));
    assert_eq!(s.pending_rts.len(), 1);
    assert_eq!(f(s.pending_rts[0].price), 101.0);
    assert!(!s.waiting_for_rt);
    // The next leg drops the one that is a minute old.
    fill(&c, &mut s, "d", 4, true, 102.0, 1.0, 80.0);
    assert_eq!(s.pending_rts.len(), 1);
    assert_eq!(f(s.pending_rts[0].price), 102.0);
    let mut short = MmState::new(0);
    fill(&c, &mut short, "a", 1, false, 100.0, 2.0, 10.0);
    fill(&c, &mut short, "b", 2, true, 98.0, 5.0, 11.0);
    assert_eq!(f(short.stats.rt_profit), 2.0 * 2.0 - 0.5);
    assert_eq!(f(short.recent_rt_pnls[0]), 3.5);
}

#[test]
fn records_of_fills_are_bounded() {
    let c = config();
    let mut s = MmState::new(0);
    for i in 0..120 {
        fill(&c, &mut s, &format!("t{i}"), i, i % 2 == 0, 100.0, 1.0, 10.0 + i as f64);
    }
    assert_eq!(s.fill_history.len(), 50);
    assert_eq!(s.recent_fill_sides.len(), 20);
    assert_eq!(s.recent_rt_pnls.len(), 10);
    assert_eq!(f(s.fill_history[0].time), 80.0);
    assert_eq!(s.stats.maker_fills + s.stats.taker_fills, s.stats.fills_count);
    assert_eq!(s.processed_fill_ids.len(), 120);
}

#[test]
fn a_fill_locks_its_side_for_a_while() {
    let c = config();
    assert_eq!(f(fill_lock_secs(&c)), 0.25);
    let mut s = MmState::new(0);
    s.bbo = Some(Bbo { best_bid: d(23999.0), best_ask: d(24001.0), mid: d(24000.0) });
    fill(&c, &mut s, "a", 1, false, 24001.0, 0.001, 100.0);
    for (now, left) in [(100.2, 0), (100.25, 1)] {
        let mut bids = vec![OrderLevel { price: d(23999.0), size: d(1.0) }];
        let mut asks = vec![OrderLevel { price: d(24001.0), size: d(1.0) }];
        apply_position_limits(&c, &s, &mut bids, &mut asks, &RefreshReason::Periodic, d(now));
        assert_eq!((bids.len(), asks.len()), (1, left));
    }
}

#[test]
fn markouts_are_sampled_at_their_horizons() {
    let c = config();
    let mut s = MmState::new(0);
    let run = |s: &mut MmState, now: f64| {
        let w: Vec<Double> =
            markout_exponents(s, d(now), &c).iter().map(|&x| d(f(x).exp())).collect();
        assert!(s.has_markout_room());
        update_markout_score(s, d(now), &c, &w);
    };
    fill(&c, &mut s, "a", 1, true, 24000.0, 0.01, 100.0);
    fill(&c, &mut s, "b", 2, false, 24000.0, 0.01, 101.0);
    run(&mut s, 110.0);
    assert!(!s.fill_history[0].checked_1s);
    s.bbo = Some(Bbo { best_bid: d(23995.0), best_ask: d(23997.0), mid: d(23996.0) });
    run(&mut s, 101.5);
    assert_eq!((f(s.stats.markout_1s_sum), s.stats.markout_1s_count), (-4.0, 1));
    assert_eq!(s.fill_history[0].markout_1s.map(f), Some(-4.0));
    assert!(!s.fill_history[0].checked && s.adverse_fill_count == 0);
    assert_eq!(f(s.markout_score), 0.0);
    run(&mut s, 102.0);
    assert_eq!((s.stats.markout_1s_count, f(s.stats.markout_1s_sum)), (2, 0.0));
    assert!(s.fill_history[0].checked && s.adverse_fill_count == 1);
    assert_eq!(f(s.markout_score), 1.0);
    run(&mut s, 106.0);
    assert_eq!((s.stats.markout_5s_count, f(s.stats.markout_5s_sum)), (2, 0.0));
    assert_eq!(s.adverse_fill_count, 1);
    let ln2 = std::f64::consts::LN_2;
    let (wa, wb) = ((-6.0 * ln2 / 180.0f64).exp(), (-5.0 * ln2 / 180.0f64).exp());
    assert_eq!(f(s.markout_score), (wa / (0.0 + wa + wb)).min(1.0));
    assert!(f(s.markout_score) >= 0.0 && f(s.markout_score) <= 1.0);
    run(&mut s, 111.0);
    assert_eq!((s.stats.markout_10s_count, s.fill_history[1].markout_10s.map(f)), (2, Some(4.0)));
    let stats = s.stats;
    run(&mut s, 111.0);
    assert_eq!(s.stats, stats);
}

#[test]
fn resting_orders_are_tracked() {
    let req = |is_buy: bool, px: f64| OrderRequest {
        coin: "x".to_string(),
        is_buy,
        sz: d(0.5),
        limit_px: d(px),
        reduce_only: false,
        tif: "Alo".to_string(),
    };
    let result = parse_json(
        r#"{"response":{"data":{"statuses":[{"resting":{"oid":5}},{"error":"x"},{"resting":{"oid":6}},{"resting":{"oid":7}}]}}}"#,
    )
    .unwrap();
    let m = extract_order_details(&result, &vec![req(true, 1.0), req(true, 2.0), req(false, 3.0)], d(9.0));
    assert_eq!(m.len(), 2);
    assert_eq!(m[&5], tracked_of(1.0, true));
    assert_eq!(m[&6], tracked_of(3.0, false));
    assert!(extract_order_details(&parse_json("{}").unwrap(), &vec![], d(9.0)).is_empty());
}

fn tracked_of(px: f64, is_buy: bool) -> TrackedOrder {
    tracked_order(px, 0.5, is_buy, 9.0)
}

fn open(coin: &str, oid: u64) -> OpenOrder {
    OpenOrder { coin: coin.to_string(), oid }
}

fn pending() -> MmState {
    let mut s = MmState::new(0);
    s.buy_oids = vec![1];
    s.sell_oids = vec![2];
    s.order_details.insert(1, tracked_order(1.0, 1.0, true, 0.0));
    s.cancel_pending_since = Some(d(100.0));
    s.last_cancel_check_ts = d(100.0);
    s
}

#[test]
fn cancellations_are_waited_for() {
    let c = config();
    let mut s = pending();
    assert_eq!(begin_cancel_check(&mut s, d(100.1)), AckStep::Wait);
    assert_eq!(f(s.last_cancel_check_ts), 100.0);
    assert_eq!(begin_cancel_check(&mut s, d(100.2)), AckStep::Ask { since: d(100.0) });
    assert_eq!(f(s.last_cancel_check_ts), 100.2);
    let (b, a) = (s.buy_oids.clone(), s.sell_oids.clone());
    let still = vec![open("xyz:XYZ100", 3), open("XYZ100", 2)];
    assert!(finish_cancel_check(&c, &mut s, d(100.0), &b, &a, Some(&still), d(100.2)));
    assert_eq!(s.buy_oids, vec![1]);
    assert!(finish_cancel_check(&c, &mut s, d(100.0), &b, &a, None, d(103.0)));
    let other = vec![open("BTC", 2), open("XYZ100", 3)];
    assert!(!finish_cancel_check(&c, &mut s, d(100.0), &b, &a, Some(&other), d(100.2)));
    assert!(s.buy_oids.is_empty() && s.sell_oids.is_empty() && s.order_details.is_empty());
    assert!(s.cancel_pending_since.is_none());
    assert_eq!(begin_cancel_check(&mut s, d(200.0)), AckStep::Idle);
    let mut s = pending();
    assert!(!finish_cancel_check(&c, &mut s, d(100.0), &b, &a, Some(&still), d(103.5)));
    assert!(s.buy_oids.is_empty());
    let mut s = pending();
    assert!(!finish_cancel_check(&c, &mut s, d(100.0), &b, &a, None, d(103.5)));
    assert!(s.sell_oids.is_empty());
}

#[test]
fn sides_are_chosen_by_reason() {
    let b = Bbo { best_bid: d(9.0), best_ask: d(11.0), mid: d(10.0) };
    let sides = |r: RefreshReason, anchor: Option<f64>| managed_sides(&r, b, anchor.map(d), true, false);
    assert_eq!(sides(RefreshReason::NoRefresh, None), (false, false));
    assert_eq!(sides(RefreshReason::Initial, None), (true, true));
    assert_eq!(sides(RefreshReason::StopExit { sell: true }, None), (false, true));
    assert_eq!(sides(RefreshReason::StopExit { sell: false }, None), (true, false));
    assert_eq!(sides(RefreshReason::Replenish, None), (false, true));
    assert_eq!(sides(RefreshReason::SameSideLock(Side::Buy), None), (false, true));
    assert_eq!(sides(RefreshReason::SameSideLock(Side::Sell), None), (true, false));
    assert_eq!(sides(RefreshReason::UrgentDrift(9), None), (true, true));
    assert_eq!(sides(RefreshReason::UrgentDrift(9), Some(10.0)), (true, false));
    assert_eq!(sides(RefreshReason::NormalDrift(9), Some(10.5)), (false, true));
    assert_eq!(sides(RefreshReason::SpreadChange { from: 1, to: 5 }, None), (true, true));
    assert_eq!(sides(RefreshReason::QuoteTtl(d(1.0)), None), (true, true));
    assert_eq!(sides(RefreshReason::Periodic, None), (true, true));
}
