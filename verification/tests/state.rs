//! Tokens, configuration, statistics and the state.
use hft_mm::config::{
    available_tokens, base_name, default_arrival_argument, default_config, find_token,
    token_info_list, Config, LogTerms,
};
use hft_mm::double::Double;
use hft_mm::text::{
    contains, ends_with, push_i32, push_u64, replace, squeeze, starts_with, strip_front, take_front,
    trim,
};
use hft_mm::types::{
    millis, now_secs, now_ts_ms, reading_millis, reading_seconds, seconds, Bbo, EventLevel,
    MmState, SignalState, Stats,
};

fn d(x: f64) -> Double {
    Double::from_bits(x.to_bits())
}

fn f(x: Double) -> f64 {
    f64::from_bits(x.to_bits())
}

fn config(name: &str) -> Config {
    let token = find_token(&available_tokens(), name).unwrap();
    let logs = LogTerms {
        tick_log10: d(f(token.tick_size).log10()),
        min_size_log10: d(f(token.min_size).log10()),
        arrival_ln: d((1.0f64 + 0.001 / 1.5).ln()),
    };
    default_config(token, "key".to_string(), "\t0xAbC ", logs)
}

#[test]
fn texts_are_taken_apart() {
    assert!(starts_with("xyz:GOLD", "xyz:") && !starts_with("xy", "xyz:") && starts_with("a", ""));
    assert!(ends_with("xyz:GOLD", "GOLD") && !ends_with("GOLD", "xyz:GOLD") && ends_with("a", ""));
    assert!(contains("Open Long", "Long") && !contains("Open", "Long") && contains("", ""));
    assert_eq!(base_name("xyz:GOLD"), "GOLD");
    assert_eq!(base_name("a:b:c"), "c");
    assert_eq!(base_name("plain"), "plain");
    assert_eq!(base_name("x:"), "");
    assert_eq!(trim(" \t a b \n"), "a b");
    assert_eq!(trim("\u{3000}x\u{a0}"), "x");
    assert_eq!(strip_front("0x0x1", "0x"), "1");
    assert_eq!(take_front("añb", 2), "añ");
    assert_eq!(replace("aaa", "aa", "b"), "ba");
    assert_eq!(squeeze(" a  b ").iter().collect::<String>(), "a b");
    let mut s = String::from("n=");
    push_u64(&mut s, 18446744073709551615);
    push_i32(&mut s, -2147483648);
    push_i32(&mut s, 0);
    assert_eq!(s, "n=18446744073709551615-21474836480");
}

#[test]
fn tokens_are_listed() {
    let tokens = available_tokens();
    assert_eq!(tokens.len(), 14);
    let names: Vec<&str> = tokens.iter().map(|t| t.name.as_str()).collect();
    assert_eq!(
        names,
        vec![
            "US500", "USTECH", "USOIL", "GOLD", "BTC", "SILVER", "GOLD_XYZ", "XYZ100", "CL",
            "COPPER", "PLTR", "TSLA", "BRENTOIL", "SP500"
        ]
    );
    let t = find_token(&tokens, "XYZ100").unwrap();
    assert_eq!(t.symbol, "xyz:XYZ100");
    assert_eq!((f(t.tick_size), f(t.min_size)), (1.0, 0.0001));
    assert_eq!((f(t.order_size_usd), f(t.target_leverage), t.num_levels), (300.0, 30.0, 2));
    assert_eq!(t.level_multipliers.iter().map(|&m| f(m)).collect::<Vec<_>>(), vec![1.0, 0.25]);
    let t = find_token(&tokens, "BTC").unwrap();
    assert_eq!((t.symbol.as_str(), f(t.tick_size), f(t.min_size)), ("km:BTC", 0.01, 0.001));
    assert_eq!(
        t.level_multipliers.iter().map(|&m| f(m)).collect::<Vec<_>>(),
        vec![1.5, 1.0, 0.7, 0.3]
    );
    let t = find_token(&tokens, "COPPER").unwrap();
    assert_eq!((f(t.tick_size), f(t.min_size), t.num_levels), (0.0001, 0.1, 3));
    let t = find_token(&tokens, "SP500").unwrap();
    assert_eq!((f(t.tick_size), f(t.target_leverage)), (0.1, 50.0));
    assert!(find_token(&tokens, "DOGE").is_none());
    let info = token_info_list();
    assert_eq!(info.len(), 14);
    assert_eq!((info[5].name.as_str(), info[5].symbol.as_str()), ("SILVER", "xyz:SILVER"));
    assert_eq!((f(info[5].default_leverage), f(info[5].default_order_size_usd)), (20.0, 70.0));
}

#[test]
fn decimals_follow_the_steps() {
    for (name, price, size) in
        [("XYZ100", 0, 4), ("BTC", 2, 3), ("COPPER", 4, 1), ("SP500", 1, 2), ("SILVER", 3, 2)]
    {
        let c = config(name);
        assert_eq!((c.price_decimals(), c.size_decimals()), (price, size), "{name}");
    }
}

#[test]
fn the_default_configuration_is_complete() {
    let c = config("GOLD");
    assert_eq!((c.perp_dex(), c.base_coin().as_str()), ("km", "GOLD"));
    assert_eq!(config("XYZ100").perp_dex(), "xyz");
    assert_eq!(c.account_address, "0xabc");
    assert_eq!(c.agent_private_key, "key");
    assert_eq!(c.base_url, "https://api.hyperliquid.xyz");
    assert_eq!((f(c.risk.stop_loss_usd), f(c.risk.session_pnl_kill)), (0.5, -3.0));
    assert_eq!((c.risk.min_fills_kill, f(c.risk.cost_m_kill)), (30, 35.0));
    assert_eq!((f(c.risk.cost_m_min_vol), f(c.risk.hedge_loss_pct)), (60000.0, 0.05));
    assert_eq!((f(c.spread.min_spread_ticks), f(c.spread.max_spread_ticks)), (3.0, 14.0));
    assert_eq!((c.timing.drift_ticks, c.timing.urgent_drift_ticks, c.timing.vol_window), (8, 15, 64));
    assert_eq!((f(c.margin.reject_decay), f(c.margin.recovery_step)), (0.85, 0.015));
    assert_eq!((f(c.as_model.gamma), f(c.as_model.kappa), f(c.as_model.t_secs)), (0.001, 1.5, 600.0));
    assert!(!c.momentum.enabled && !c.signals.enabled);
    assert_eq!(f(default_arrival_argument()), 1.0 + 0.001 / 1.5);
}

#[test]
fn the_clock_reads_the_epoch() {
    assert_eq!(millis(3, 999_999_999), 3999);
    assert_eq!(millis(u64::MAX, 0), (u64::MAX as u128 * 1000) as u64);
    assert_eq!(f(seconds(10, 500_000_000)), 10.5);
    assert_eq!(reading_millis(Some((2, 1_500_000))), Some(2001));
    assert_eq!(reading_millis(None), None);
    assert_eq!(reading_seconds(Some((2, 250_000_000))).map(f), Some(2.25));
    assert_eq!(reading_seconds(None), None);
    let a = now_ts_ms().unwrap();
    let b = f(now_secs().unwrap());
    assert!(a > 1_600_000_000_000 && b > 1_600_000_000.0);
    assert!((b - a as f64 / 1000.0).abs() < 60.0);
}

#[test]
fn statistics_are_derived() {
    let mut s = Stats::new();
    assert_eq!(f(s.cost_per_million()), 0.0);
    assert_eq!(f(s.maker_ratio()), 0.0);
    assert_eq!(f(s.rt_ratio()), 0.0);
    assert_eq!((f(s.fill_ratio()), f(s.cancel_ratio()), f(s.avg_queue_time())), (0.0, 0.0, 0.0));
    s.total_volume = d(2_000_000.0);
    s.total_fees = d(50.0);
    s.session_pnl = d(-20.0);
    assert_eq!(f(s.cost_per_million()), 35.0);
    s.maker_fills = 3;
    s.taker_fills = 1;
    s.fills_count = 4;
    s.rt_count = 1;
    s.orders_posted = 8;
    s.cancel_requests = 2;
    assert_eq!((f(s.maker_ratio()), f(s.rt_ratio())), (0.75, 0.5));
    assert_eq!((f(s.fill_ratio()), f(s.cancel_ratio())), (0.5, 0.25));
    s.queue_time_sum = d(3.0);
    s.queue_time_count = 2;
    s.spread_capture_sum = d(1.0);
    s.spread_capture_count = 4;
    s.markout_1s_sum = d(-1.0);
    s.markout_1s_count = 2;
    s.markout_5s_sum = d(6.0);
    s.markout_5s_count = 3;
    s.markout_10s_sum = d(1.5);
    s.markout_10s_count = 1;
    assert_eq!((f(s.avg_queue_time()), f(s.avg_spread_capture())), (1.5, 0.25));
    assert_eq!(
        (f(s.avg_markout_1s()), f(s.avg_markout_5s()), f(s.avg_markout_10s())),
        (-0.5, 2.0, 1.5)
    );
    s.fills_count = 0;
    assert_eq!(f(s.rt_ratio()), 0.0);
}

#[test]
fn a_new_state_is_announced_and_sampled() {
    let s = MmState::new(5_000);
    assert!(s.running && s.trading_enabled && !s.manual_mode);
    assert_eq!(s.last_status, "Initializing...");
    assert_eq!(f(s.size_scale), 1.0);
    assert_eq!(s.current_spread_ticks, 30);
    assert_eq!(f(s.t_remaining_secs), 1800.0);
    assert_eq!((s.as_t0_ms, s.start_ts_ms), (5_000, 5_000));
    assert_eq!(s.recent_events.len(), 1);
    assert_eq!(s.recent_events[0].title, "Runtime");
    assert_eq!(s.recent_events[0].details, "Bot initialized and waiting for market data");
    assert_eq!(s.metrics_history.len(), 1);
    assert_eq!(f(SignalState::neutral().rsi), 50.0);
    assert_eq!(MmState::new(999).metrics_history.len(), 0);
}

#[test]
fn events_are_bounded_and_newest_first() {
    let mut s = MmState::new(0);
    for i in 0..200u64 {
        s.push_event(EventLevel::Info, "t".to_string(), format!("{i}"), i);
    }
    assert_eq!(s.recent_events.len(), 80);
    assert_eq!(s.recent_events[0].details, "199");
    assert_eq!(s.recent_events[79].details, "120");
}

#[test]
fn a_status_is_announced_once() {
    let mut s = MmState::new(0);
    s.set_status("ready".to_string(), 1);
    s.set_status("ready".to_string(), 2);
    assert_eq!(s.recent_events.len(), 2);
    assert_eq!((s.recent_events[0].title.as_str(), s.recent_events[0].ts_ms), ("Status", 1));
    s.set_status_with_level(EventLevel::Warn, "careful".to_string(), 3);
    assert!(matches!(s.recent_events[0].level, EventLevel::Warn));
    s.set_runtime_error("broken".to_string(), 4);
    assert!(!s.trading_enabled);
    assert_eq!(s.error_message.as_deref(), Some("broken"));
    assert_eq!(s.last_status, "broken");
    assert!(matches!(s.recent_events[0].level, EventLevel::Error));
    s.clear_runtime_error();
    assert!(s.error_message.is_none() && !s.trading_enabled);
}

#[test]
fn samples_lie_a_second_apart() {
    let mut s = MmState::new(10_000);
    s.bbo = Some(Bbo { best_bid: d(9.0), best_ask: d(11.0), mid: d(10.0) });
    s.position = d(-2.0);
    s.stats.best_pnl = d(3.0);
    s.stats.session_pnl = d(1.0);
    s.record_metrics_sample(10_999);
    assert_eq!(s.metrics_history.len(), 1);
    s.record_metrics_sample(11_000);
    assert_eq!(s.metrics_history.len(), 2);
    let p = s.metrics_history[1];
    assert_eq!((p.ts_ms, f(p.mid), f(p.inventory_notional), f(p.drawdown)), (11_000, 10.0, -20.0, 2.0));
    s.stats.session_pnl = d(7.0);
    for i in 0..1000u64 {
        s.record_metrics_sample(12_000 + 500 * i);
    }
    assert_eq!(s.metrics_history.len(), 360);
    for i in 1..360 {
        assert!(s.metrics_history[i].ts_ms >= s.metrics_history[i - 1].ts_ms + 1000);
    }
    assert_eq!(f(s.metrics_history[359].drawdown), 0.0);
    s.record_metrics_sample(0);
    assert_eq!(s.metrics_history.len(), 360);
}

#[test]
fn snapshots_show_the_state() {
    let mut s = MmState::new(10_000);
    s.buy_oids = vec![1, 2];
    s.sell_oids = vec![3];
    s.entry_price = Some(d(5.0));
    let snap = s.to_snapshot("GOLD", 17);
    assert_eq!((snap.token.as_str(), snap.uptime_secs, snap.start_ts_ms), ("GOLD", 17, 10_000));
    assert_eq!((snap.buy_orders, snap.sell_orders), (2, 1));
    assert!(snap.mid_price.is_none());
    assert_eq!(snap.entry_price.map(f), Some(5.0));
    assert_eq!(snap.recent_events.len(), 1);
    assert_eq!(snap.metrics_history.len(), 1);
    assert_eq!(snap.last_status, "Initializing...");
    s.bbo = Some(Bbo { best_bid: d(9.0), best_ask: d(11.0), mid: d(10.0) });
    assert_eq!(s.to_snapshot("GOLD", 0).mid_price.map(f), Some(10.0));
    assert_eq!(f(s.mid()), 10.0);
}
