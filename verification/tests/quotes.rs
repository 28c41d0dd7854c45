//! Quotes, risk checks and limits.
use std::collections::VecDeque;

use hft_mm::config::{available_tokens, default_config, find_token, Config, LogTerms};
use hft_mm::double::Double;
use hft_mm::risk::{
    apply_position_limits, check_risks, drift_from, floor_to_decimals, flow_toxicity,
    market_width, should_refresh, tick_distance, RefreshReason, RiskAction,
};
use hft_mm::strategy::{
    as_quotes, calc_size, calculate_levels, compute_price_variance, horizon_for,
    inventory_risk_units, recent_pnl, round_to_decimals, update_volatility, variance_for,
};
use hft_mm::types::{Bbo, MmState, OrderLevel, Side, VolRegime};

fn d(x: f64) -> Double {
    Double::from_bits(x.to_bits())
}

fn f(x: Double) -> f64 {
    f64::from_bits(x.to_bits())
}

fn config(name: &str) -> Config {
    let token = find_token(&available_tokens(), name).unwrap();
    let logs = LogTerms {
        tick_log10: d(f(token.tick_size).log10()),
        min_size_log10: d(f(token.min_size).log10()),
        arrival_ln: d((1.0f64 + 0.001 / 1.5).ln()),
    };
    default_config(token, "key".to_string(), "0xabc", logs)
}

fn bbo(bid: f64, ask: f64) -> Bbo {
    Bbo { best_bid: d(bid), best_ask: d(ask), mid: d((bid + ask) * 0.5) }
}

fn deque(v: &[f64]) -> VecDeque<Double> {
    v.iter().map(|&x| d(x)).collect()
}

fn state() -> MmState {
    let mut s = MmState::new(0);
    s.bbo = Some(bbo(23999.0, 24001.0));
    s
}

fn levels(v: &[(f64, f64)]) -> Vec<OrderLevel> {
    v.iter().map(|&(p, s)| OrderLevel { price: d(p), size: d(s) }).collect()
}

fn pairs(v: &[OrderLevel]) -> Vec<(f64, f64)> {
    v.iter().map(|l| (f(l.price), f(l.size))).collect()
}

#[test]
fn variance_is_that_of_the_changes() {
    assert_eq!(f(compute_price_variance(&deque(&[1.0, 2.0, 3.0, 4.0]), 64)), 0.0);
    assert_eq!(f(compute_price_variance(&deque(&[1.0, 3.0, 1.0, 3.0, 1.0]), 64)), 4.0);
    assert_eq!(f(compute_price_variance(&deque(&[9.0, 1.0, 3.0, 1.0, 3.0, 1.0]), 5)), 4.0);
    assert_eq!(f(compute_price_variance(&deque(&[1.0, 3.0, 1.0, 3.0, 1.0]), 4)), 0.0);
    assert_eq!(f(compute_price_variance(&deque(&[1.0, 2.0, 3.0, 4.0, 5.0]), 64)), 0.0);
}

#[test]
fn volatility_is_relative() {
    assert_eq!(f(update_volatility(&deque(&[1.0, 2.0, 1.0, 2.0]))), 0.0);
    let p: [f64; 6] = [100.0, 101.0, 100.0, 102.0, 0.0, 100.0];
    let (mut a, mut b) = (0.0f64, 0.0f64);
    for i in 1..p.len() {
        if p[i - 1] > 0.0 {
            let r = (p[i] - p[i - 1]) / p[i - 1];
            a += r;
            b += r * r;
        }
    }
    let n = (p.len() - 1) as f64;
    let want = ((b / n) - (a / n) * (a / n)).max(0.0).sqrt() * 100.0;
    assert_eq!(f(update_volatility(&deque(&p))), want);
}

#[test]
fn quotes_follow_the_model() {
    let (r, delta) = as_quotes(d(100.0), d(2.0), d(9.0), d(600.0), d(0.001), d(0.5));
    assert_eq!(f(r), 100.0 - 2.0 * 0.001 * 9.0 * 600.0);
    assert_eq!(f(delta), (0.001 * 9.0 * 600.0) / 2.0 + (1.0 / 0.001) * 0.5);
    assert_eq!(f(inventory_risk_units(d(3.0), d(100.0), d(0.0))), 3.0);
    assert_eq!(f(inventory_risk_units(d(3.0), d(0.0), d(50.0))), 3.0);
    assert_eq!(f(inventory_risk_units(d(3.0), d(100.0), d(50.0))), 6.0);
}

#[test]
fn inventory_moves_the_reservation_price() {
    for q in [0.0, 0.5, 30.0] {
        let (long, _) = as_quotes(d(100.0), d(q), d(2.0), d(60.0), d(0.01), d(0.1));
        let (short, _) = as_quotes(d(100.0), d(-q), d(2.0), d(60.0), d(0.01), d(0.1));
        assert!(f(long) <= 100.0 && f(short) >= 100.0);
    }
}

#[test]
fn the_horizon_shrinks_with_agitation() {
    assert_eq!(f(horizon_for(VolRegime::Low, d(500.0))), 500.0);
    assert_eq!(f(horizon_for(VolRegime::Normal, d(500.0))), 500.0);
    assert_eq!(f(horizon_for(VolRegime::High, d(500.0))), 150.0);
    assert_eq!(f(horizon_for(VolRegime::Extreme, d(500.0))), 60.0);
    assert_eq!(f(horizon_for(VolRegime::Extreme, d(5.0))), 5.0);
}

#[test]
fn the_running_variance_goes_first() {
    let mut s = state();
    assert_eq!(f(variance_for(&s, 64)), 1e-18);
    s.price_history = deque(&[1.0, 3.0, 1.0, 3.0, 1.0]);
    assert_eq!(f(variance_for(&s, 64)), 4.0);
    s.ewma_variance = d(2.5);
    assert_eq!(f(variance_for(&s, 64)), 2.5);
}

#[test]
fn numbers_are_rounded_to_decimals() {
    assert_eq!(f(round_to_decimals(d(1.2345), 2)), 1.23);
    assert_eq!(f(round_to_decimals(d(2.5), 0)), 3.0);
    assert_eq!(f(round_to_decimals(d(-2.5), 0)), -3.0);
    assert_eq!(f(floor_to_decimals(d(1.2399), 2)), 1.23);
    assert_eq!(f(floor_to_decimals(d(-0.5), 0)), -1.0);
}

#[test]
fn sizes_are_scaled() {
    let c = config("XYZ100");
    let size = |mid: f64, scale: f64, vol: f64, ticks: i32, pnl: f64, r: VolRegime| {
        f(calc_size(d(mid), &c, d(scale), d(vol), ticks, d(pnl), r))
    };
    assert_eq!(size(24000.0, 1.0, 0.0, 4, 0.0, VolRegime::Normal), 0.0125);
    assert_eq!(size(24000.0, 1.0, 0.0, 8, 0.0, VolRegime::Low), 0.025);
    assert_eq!(size(24000.0, 1.0, 0.0, 100, 0.0, VolRegime::Low), 0.025);
    assert_eq!(size(24000.0, 1.0, 0.0, 0, 0.0, VolRegime::Low), 0.0075);
    assert_eq!(size(24000.0, 1.0, 0.0, 4, 0.03, VolRegime::Low), 0.015);
    assert_eq!(size(24000.0, 1.0, 0.0, 4, -0.02, VolRegime::Low), 0.0087);
    assert_eq!(size(24000.0, 1.0, 0.0, 4, 0.0, VolRegime::High), 0.0087);
    assert_eq!(size(24000.0, 1.0, 0.0, 4, 0.0, VolRegime::Extreme), 0.0063);
    assert_eq!(size(24000.0, 1.0, 10.0, 4, 0.0, VolRegime::Low), 0.005);
    assert_eq!(size(24000.0, 0.001, 0.0, 4, 0.0, VolRegime::Low), 0.0001);
    assert_eq!(size(0.0, 1.0, 0.0, 4, 0.0, VolRegime::Low), 0.0001);
}

#[test]
fn the_mean_of_profits_is_taken() {
    assert_eq!(f(recent_pnl(&deque(&[]))), 0.0);
    assert_eq!(f(recent_pnl(&deque(&[1.0, 2.0, 6.0]))), 3.0);
}

#[test]
fn a_grid_is_laid_around_the_reservation_price() {
    let c = config("XYZ100");
    let s = state();
    let (bids, asks, ticks) = calculate_levels(&s.bbo.unwrap(), d(0.0), &c, &s);
    assert_eq!(ticks, 6);
    assert_eq!(pairs(&bids), vec![(23997.0, 0.0188), (23995.0, 0.0047)]);
    assert_eq!(pairs(&asks), vec![(24003.0, 0.0188), (24005.0, 0.0047)]);
}

#[test]
fn the_spread_stays_in_its_bounds() {
    let c = config("XYZ100");
    let mut s = state();
    s.ewma_variance = d(1e9);
    let (_, _, wide) = calculate_levels(&s.bbo.unwrap(), d(0.0), &c, &s);
    assert_eq!(wide, 28);
    s.ewma_variance = d(1e-9);
    s.vol_regime = VolRegime::Extreme;
    let (_, _, floor) = calculate_levels(&s.bbo.unwrap(), d(0.0), &c, &s);
    assert_eq!(floor, 14);
    s.vol_regime = VolRegime::High;
    assert_eq!(calculate_levels(&s.bbo.unwrap(), d(0.0), &c, &s).2, 10);
    s.vol_regime = VolRegime::Low;
    s.ewma_variance = d(6.0);
    s.t_remaining_secs = d(600.0);
    let plain = calculate_levels(&s.bbo.unwrap(), d(0.0), &c, &s).2;
    s.markout_score = d(1.0);
    let marked = calculate_levels(&s.bbo.unwrap(), d(0.0), &c, &s).2;
    assert_eq!((plain, marked), (6, 15));
}

#[test]
fn levels_that_are_too_small_are_left_out() {
    let mut c = config("XYZ100");
    let s = state();
    c.token.order_size_usd = d(20.0);
    let (bids, asks, _) = calculate_levels(&s.bbo.unwrap(), d(0.0), &c, &s);
    assert_eq!((bids.len(), asks.len()), (1, 1));
    c.token.order_size_usd = d(1.0);
    let (bids, asks, _) = calculate_levels(&s.bbo.unwrap(), d(0.0), &c, &s);
    assert_eq!((bids.len(), asks.len()), (0, 0));
    c.token.order_size_usd = d(300.0);
    c.token.num_levels = 4;
    c.spread.level_tick_spacing = 0;
    let (bids, asks, _) = calculate_levels(&s.bbo.unwrap(), d(0.0), &c, &s);
    assert_eq!((bids.len(), asks.len()), (1, 1));
}

#[test]
fn distances_are_counted_in_ticks() {
    assert_eq!(tick_distance(d(24010.0), d(24000.0), d(1.0)), 10);
    assert_eq!(tick_distance(d(1.0), d(1.25), d(0.1)), 2);
    assert_eq!(tick_distance(d(f64::NAN), d(1.0), d(0.1)), 0);
    assert_eq!(drift_from(None, d(5.0), d(1.0)), 0);
    assert_eq!(drift_from(Some(d(1.0)), d(5.5), d(1.0)), 4);
    assert_eq!(market_width(&bbo(10.0, 13.0), d(0.5)), 6);
}

#[test]
fn risks_are_checked_in_order() {
    let c = config("XYZ100");
    let mut s = state();
    assert!(matches!(check_risks(&c, &s, d(100.0)), RiskAction::Continue));
    s.position = d(0.5);
    s.unrealized_pnl = d(-0.6);
    assert!(matches!(check_risks(&c, &s, d(100.0)), RiskAction::ExitPosition { sell: true }));
    s.position = d(-0.5);
    assert!(matches!(check_risks(&c, &s, d(100.0)), RiskAction::ExitPosition { sell: false }));
    s.position = d(0.001);
    assert!(matches!(check_risks(&c, &s, d(100.0)), RiskAction::Continue));
    s.position = d(0.5);
    s.last_ws_msg_ts = d(91.0);
    assert!(matches!(check_risks(&c, &s, d(99.0)), RiskAction::ExitPosition { .. }));
    assert!(matches!(check_risks(&c, &s, d(100.0)), RiskAction::FeedStale));
    s.stats.fills_count = 30;
    s.stats.session_pnl = d(-3.5);
    match check_risks(&c, &s, d(100.0)) {
        RiskAction::EmergencyStop(r) => assert_eq!(r, "PnL $-3.5000"),
        _ => panic!("no stop"),
    }
    s.stats.fills_count = 29;
    assert!(matches!(check_risks(&c, &s, d(100.0)), RiskAction::FeedStale));
    s.stats.total_volume = d(60000.0);
    match check_risks(&c, &s, d(100.0)) {
        RiskAction::EmergencyStop(r) => assert_eq!(r, "Cost/1M $58.3"),
        _ => panic!("no stop"),
    }
}

#[test]
fn reasons_to_refresh_come_in_order() {
    let c = config("XYZ100");
    let mut s = state();
    let go = RiskAction::Continue;
    let now = d(1000.0);
    assert_eq!(
        should_refresh(&c, &s, now, &RiskAction::ExitPosition { sell: true }),
        RefreshReason::StopExit { sell: true }
    );
    assert_eq!(should_refresh(&c, &s, now, &go), RefreshReason::Initial);
    s.buy_oids = vec![1];
    assert_eq!(should_refresh(&c, &s, now, &go), RefreshReason::Replenish);
    s.sell_oids = vec![2];
    s.anchor_price = Some(d(23985.0));
    assert_eq!(should_refresh(&c, &s, now, &go), RefreshReason::UrgentDrift(15));
    s.anchor_price = Some(d(24008.0));
    assert_eq!(should_refresh(&c, &s, now, &go), RefreshReason::NormalDrift(8));
    s.anchor_price = Some(d(24000.0));
    s.anchor_spread_ticks = Some(5);
    assert_eq!(should_refresh(&c, &s, now, &go), RefreshReason::SpreadChange { from: 5, to: 2 });
    s.anchor_spread_ticks = Some(i32::MIN);
    assert_eq!(
        should_refresh(&c, &s, now, &go),
        RefreshReason::SpreadChange { from: i32::MIN, to: 2 }
    );
    s.anchor_spread_ticks = Some(4);
    assert_eq!(should_refresh(&c, &s, now, &go), RefreshReason::QuoteTtl(d(999.0)));
    s.last_quote_ts = d(970.0);
    assert_eq!(should_refresh(&c, &s, now, &go), RefreshReason::QuoteTtl(d(30.0)));
    s.last_quote_ts = d(990.0);
    assert_eq!(should_refresh(&c, &s, now, &go), RefreshReason::Periodic);
    s.last_sync_time = d(990.0);
    assert_eq!(should_refresh(&c, &s, now, &go), RefreshReason::NoRefresh);
    s.fill_lock_until = d(1000.1);
    s.fill_lock_side = Some(Side::Sell);
    assert_eq!(should_refresh(&c, &s, now, &go), RefreshReason::SameSideLock(Side::Sell));
    s.bbo = None;
    assert_eq!(should_refresh(&c, &s, now, &go), RefreshReason::NoRefresh);
}

fn limit(s: &MmState, reason: RefreshReason) -> (Vec<(f64, f64)>, Vec<(f64, f64)>) {
    let c = config("XYZ100");
    let mut bids = levels(&[(23997.0, 0.02), (23995.0, 0.01), (23993.0, 0.0002), (23991.0, 1.0)]);
    let mut asks = levels(&[(24003.0, 0.02), (24005.0, 0.01), (24007.0, 0.0002), (24009.0, 1.0)]);
    apply_position_limits(&c, s, &mut bids, &mut asks, &reason, d(100.0));
    (pairs(&bids), pairs(&asks))
}

#[test]
fn the_position_cap_stops_building() {
    let mut s = state();
    s.position = d(0.013);
    let (b, a) = limit(&s, RefreshReason::Periodic);
    assert_eq!((b.len(), a.len()), (0, 4));
    s.position = d(-0.013);
    let (b, a) = limit(&s, RefreshReason::Periodic);
    assert_eq!((b.len(), a.len()), (4, 0));
    s.position = d(0.0125);
    let (b, a) = limit(&s, RefreshReason::Periodic);
    assert_eq!((b.len(), a.len()), (4, 4));
}

#[test]
fn toxic_flow_restricts_one_side() {
    let mut s = state();
    s.position = d(0.01);
    assert!(f(flow_toxicity(&s)).is_nan());
    for i in 0..12 {
        s.recent_fill_sides.push_back((if i < 4 { Side::Sell } else { Side::Buy }, d(0.0)));
    }
    // Eight purchases in ten: an imbalance of 0.6, half of which counts.
    assert!((f(flow_toxicity(&s)) - 0.3).abs() < 1e-12);
    assert_eq!(limit(&s, RefreshReason::Periodic).0.len(), 4);
    s.markout_score = d(0.3);
    let (b, a) = limit(&s, RefreshReason::Periodic);
    assert_eq!(b, vec![(23996.0, 0.01), (23994.0, 0.005), (23992.0, 0.0001), (23990.0, 0.5)]);
    assert_eq!(a.len(), 4);
    s.markout_score = d(0.8);
    let (b, _) = limit(&s, RefreshReason::Periodic);
    assert_eq!(b, vec![(23995.0, 0.005), (23993.0, 0.0025), (23989.0, 0.25)]);
    s.position = d(-0.01);
    let (b, a) = limit(&s, RefreshReason::Periodic);
    assert_eq!(b.len(), 4);
    assert_eq!(a, vec![(24005.0, 0.005), (24007.0, 0.0025), (24011.0, 0.25)]);
    for _ in 0..10 {
        s.recent_fill_sides.push_back((Side::Buy, d(0.0)));
    }
    s.markout_score = d(0.7);
    let (b, a) = limit(&s, RefreshReason::Periodic);
    assert_eq!((b.len(), a.len()), (4, 0));
    s.position = d(0.0);
    let (b, a) = limit(&s, RefreshReason::Periodic);
    assert_eq!((b.len(), a.len()), (4, 4));
}

#[test]
fn locks_and_reasons_cut_the_quotes() {
    let mut s = state();
    s.fill_lock_until = d(100.1);
    s.fill_lock_side = Some(Side::Buy);
    assert_eq!(limit(&s, RefreshReason::Periodic).0.len(), 0);
    s.fill_lock_side = Some(Side::Sell);
    assert_eq!(limit(&s, RefreshReason::Periodic).1.len(), 0);
    s.fill_lock_until = d(100.0);
    assert_eq!(limit(&s, RefreshReason::Periodic).1.len(), 4);
    let (b, a) = limit(&s, RefreshReason::StopExit { sell: true });
    assert_eq!((b.len(), a.len()), (0, 3));
    let (b, a) = limit(&s, RefreshReason::StopExit { sell: false });
    assert_eq!((b.len(), a.len()), (3, 0));
    let (b, a) = limit(&s, RefreshReason::UrgentDrift(20));
    assert_eq!((b.len(), a.len()), (4, 4));
    s.anchor_price = Some(d(23980.0));
    let (b, a) = limit(&s, RefreshReason::UrgentDrift(20));
    assert_eq!((b.len(), a.len()), (1, 4));
    s.anchor_price = Some(d(24020.0));
    let (b, a) = limit(&s, RefreshReason::UrgentDrift(20));
    assert_eq!((b.len(), a.len()), (4, 1));
}
