//! Rounds of trading: what the exchange is asked for, and what the replies do.
use hft_mm::config::{available_tokens, default_config, find_token, Config, LogTerms};
use hft_mm::double::Double;
use hft_mm::exchange::OrderRequest;
use hft_mm::iteration::{open_round, reason_text, step, Reply, Stage, Task};
use hft_mm::json::parse_json;
use hft_mm::markout::update_markout_score;
use hft_mm::quoting::{desired_orders, diff_orders, existing_orders, Desired};
use hft_mm::risk::RefreshReason;
use hft_mm::types::{Bbo, EventLevel, FillRecord, MmState, OrderLevel, Side, TrackedOrder};

fn d(x: f64) -> Double {
    Double::from_bits(x.to_bits())
}

fn f(x: Double) -> f64 {
    f64::from_bits(x.to_bits())
}

fn config() -> Config {
    let token = find_token(&available_tokens(), "XYZ100").unwrap();
    let logs = LogTerms {
        tick_log10: d(f(token.tick_size).log10()),
        min_size_log10: d(f(token.min_size).log10()),
        arrival_ln: d((1.0f64 + 0.001 / 1.5).ln()),
    };
    default_config(token, "key".to_string(), "0xabc", logs)
}

const NOW: f64 = 1100.0;

fn quote(s: &mut MmState, mid: f64, now: f64) {
    s.bbo = Some(Bbo { best_bid: d(mid - 1.0), best_ask: d(mid + 1.0), mid: d(mid) });
    s.last_ws_msg_ts = d(now);
}

fn fresh() -> MmState {
    let mut s = MmState::new(1_000_000);
    quote(&mut s, 24000.0, NOW);
    s
}

fn go(c: &Config, s: &mut MmState, stage: Stage, reply: Reply, now: f64) -> Stage {
    step(c, s, stage, reply, d(now), (now * 1000.0) as u64)
}

fn begin(c: &Config, s: &mut MmState, now: f64) -> Stage {
    go(c, s, Stage::Begin, Reply::Begin, now)
}

fn answer(text: &str) -> Reply {
    Reply::Answer(parse_json(text).unwrap())
}

fn resting(oids: &[u64]) -> Reply {
    let all: Vec<String> = oids.iter().map(|o| format!("{{\"resting\":{{\"oid\":{o}}}}}")).collect();
    answer(&format!(
        "{{\"status\":\"ok\",\"response\":{{\"data\":{{\"statuses\":[{}]}}}}}}",
        all.join(",")
    ))
}

fn placed(stage: &Stage) -> Vec<(bool, f64, f64, bool, String)> {
    match stage.task() {
        Task::Place(v) => v
            .iter()
            .map(|o: &OrderRequest| {
                assert_eq!(o.coin, "xyz:XYZ100");
                (o.is_buy, f(o.limit_px), f(o.sz), o.reduce_only, o.tif.clone())
            })
            .collect(),
        other => panic!("{other:?}"),
    }
}

fn cancelled(stage: &Stage) -> Vec<u64> {
    match stage.task() {
        Task::Cancel(v) => v
            .iter()
            .map(|c| {
                assert_eq!(c.0, "xyz:XYZ100");
                c.1
            })
            .collect(),
        other => panic!("{other:?}"),
    }
}

fn modified(stage: &Stage) -> Vec<(u64, f64, f64, bool)> {
    match stage.task() {
        Task::Modify(v) => {
            v.iter().map(|m| (m.oid, f(m.new_price), f(m.new_size), m.is_buy)).collect()
        }
        other => panic!("{other:?}"),
    }
}

fn grid() -> Vec<(bool, f64, f64, bool, String)> {
    let alo = || "Alo".to_string();
    vec![
        (true, 23997.0, 0.0188, false, alo()),
        (true, 23995.0, 0.0047, false, alo()),
        (false, 24003.0, 0.0188, false, alo()),
        (false, 24005.0, 0.0047, false, alo()),
    ]
}

/// A state with the whole grid resting under the ids one to four.
fn settled(c: &Config) -> MmState {
    let mut s = fresh();
    let stage = begin(c, &mut s, NOW);
    assert_eq!(placed(&stage), grid());
    assert!(matches!(go(c, &mut s, stage, resting(&[1, 2, 3, 4]), NOW), Stage::Done));
    s
}

#[test]
fn the_first_round_places_the_grid() {
    let c = config();
    let s = settled(&c);
    assert_eq!((s.buy_oids.clone(), s.sell_oids.clone()), (vec![1, 2], vec![3, 4]));
    assert_eq!(s.last_status, "Initial -> 2B/2A @ $24000.00 S:6t (mod:0 add:4)");
    assert_eq!((s.anchor_price.map(f), s.anchor_spread_ticks), (Some(24000.0), Some(2)));
    assert_eq!((f(s.last_quote_ts), f(s.last_sync_time), f(s.size_scale)), (NOW, NOW, 1.0));
    assert_eq!(s.current_spread_ticks, 6);
    let o = s.order_details[&4];
    assert_eq!((f(o.price), f(o.size), o.is_buy, f(o.ts), o.drift_ticks), (24005.0, 0.0047, false, NOW, 0));
}

#[test]
fn orders_that_stand_well_are_left() {
    let c = config();
    let mut s = settled(&c);
    quote(&mut s, 24003.0, NOW + 1.0);
    assert!(matches!(begin(&c, &mut s, NOW + 1.0), Stage::Done));
    assert_eq!(s.last_status, "STABLE @ $24003.00 | 3t drift");
    s.fill_lock_side = Some(Side::Buy);
    s.fill_lock_until = d(NOW + 3.0);
    quote(&mut s, 24000.0, NOW + 2.0);
    assert!(matches!(begin(&c, &mut s, NOW + 2.0), Stage::Done));
    assert_eq!(s.last_status, "STABLE(keep) @ $24000.00 | 0t drift");
}

#[test]
fn without_a_quote_nothing_is_done() {
    let c = config();
    let mut s = MmState::new(1_000_000);
    assert!(matches!(begin(&c, &mut s, NOW), Stage::Done));
    assert_eq!(s.last_status, "Initializing...");
    assert!(matches!(begin(&c, &mut s, NOW).task(), Task::Nothing));
    assert!(matches!(go(&c, &mut s, Stage::Done, Reply::Begin, NOW), Stage::Done));
}

#[test]
fn a_drift_moves_the_orders() {
    let c = config();
    for fails in [false, true] {
        let mut s = settled(&c);
        quote(&mut s, 24008.0, NOW + 1.0);
        let stage = begin(&c, &mut s, NOW + 1.0);
        assert_eq!(
            modified(&stage),
            vec![(1, 24003.0, 0.0047, true), (2, 24005.0, 0.0187, true)]
        );
        let reply = if fails { Reply::Failed("no".to_string()) } else { answer("{}") };
        assert!(matches!(go(&c, &mut s, stage, reply, NOW + 1.0), Stage::Done));
        assert_eq!(s.last_status, "Drift -> 2B/2A mod:2 add:0 keep:0 cancel:0");
        assert_eq!(s.anchor_price.map(f), Some(24008.0));
        let price = if fails { 23997.0 } else { 24003.0 };
        assert_eq!(f(s.order_details[&1].price), price);
        assert_eq!(f(s.order_details[&1].ts), NOW);
        assert_eq!(s.buy_oids, vec![1, 2]);
    }
}

#[test]
fn an_urgent_drift_leaves_one_order() {
    let c = config();
    let mut s = settled(&c);
    quote(&mut s, 24020.0, NOW + 1.0);
    let stage = begin(&c, &mut s, NOW + 1.0);
    assert_eq!(cancelled(&stage), vec![2]);
    let stage = go(&c, &mut s, stage, answer("{}"), NOW + 1.0);
    assert_eq!(s.buy_oids, vec![1]);
    assert!(!s.order_details.contains_key(&2));
    assert_eq!(modified(&stage), vec![(1, 24017.0, 0.0187, true)]);
    assert!(matches!(go(&c, &mut s, stage, answer("{}"), NOW + 1.0), Stage::Done));
    assert_eq!(s.last_status, "DRIFT -> 1B/2A mod:1 add:0 keep:0 cancel:1");
    assert_eq!(s.stats.cancel_repost_count, 0);
}

#[test]
fn unknown_orders_are_cancelled() {
    let c = config();
    let mut s = settled(&c);
    s.position = d(0.01);
    s.unrealized_pnl = d(-0.6);
    s.sell_oids = vec![3, 4, 77];
    let stage = begin(&c, &mut s, NOW + 1.0);
    assert_eq!(cancelled(&stage), vec![77]);
    let long = "x".repeat(200);
    assert!(matches!(go(&c, &mut s, stage, Reply::Failed(long.clone()), NOW + 1.0), Stage::Done));
    assert_eq!(s.last_status, format!("Cancel error: {}", &long[..96]));
    assert_eq!(s.sell_oids, vec![3, 4, 77]);
    let stage = begin(&c, &mut s, NOW + 1.0);
    assert!(matches!(go(&c, &mut s, stage, answer("{}"), NOW + 1.0), Stage::Done));
    assert_eq!(s.last_status, "STOP SELL -> 2B/2A mod:0 add:0 keep:2 cancel:1");
    assert_eq!(s.sell_oids, vec![3, 4]);
}

#[test]
fn cancelled_orders_are_posted_anew() {
    let c = config();
    let mut s = settled(&c);
    s.position = d(0.01);
    s.unrealized_pnl = d(-0.6);
    s.sell_oids = vec![77];
    let stage = begin(&c, &mut s, NOW + 1.0);
    let stage = go(&c, &mut s, stage, answer("{}"), NOW + 1.0);
    assert_eq!(s.stats.cancel_repost_count, 1);
    assert_eq!(placed(&stage), grid()[2..].to_vec());
    assert!(matches!(go(&c, &mut s, stage, resting(&[8, 9]), NOW + 1.0), Stage::Done));
    assert_eq!(s.last_status, "STOP SELL -> 2B/2A @ $24000.00 S:6t (mod:0 add:2)");
    assert_eq!(s.sell_oids, vec![8, 9]);
}

#[test]
fn a_missing_side_is_replenished() {
    let c = config();
    let mut s = settled(&c);
    s.sell_oids.clear();
    let stage = begin(&c, &mut s, NOW + 1.0);
    assert_eq!(placed(&stage), grid()[2..].to_vec());
    assert!(matches!(go(&c, &mut s, stage, resting(&[3, 8]), NOW + 1.0), Stage::Done));
    assert_eq!(s.sell_oids, vec![3, 8]);
    assert_eq!(s.last_status, "Replenish -> 2B/2A @ $24000.00 S:6t (mod:0 add:2)");
}

#[test]
fn refused_orders_change_the_size() {
    let c = config();
    let mut s = fresh();
    let stage = begin(&c, &mut s, NOW);
    let reply = answer(
        r#"{"status":"ok","response":{"data":{"statuses":[{"error":"INSUFFICIENT Margin to place order"},{"resting":{"oid":5}},{"error":"Insufficient spot margin"},"success"]}}}"#,
    );
    assert!(matches!(go(&c, &mut s, stage, reply, NOW), Stage::Done));
    assert_eq!(s.last_status, "Margin reject x2 | scale=0.85");
    assert_eq!((f(s.size_scale), f(s.margin_pause_until)), (0.85, NOW + 6.0));
    assert_eq!((s.buy_oids.clone(), s.sell_oids.clone()), (vec![5], vec![]));
    assert_eq!(f(s.last_margin_reject_ts), NOW);
    quote(&mut s, 24000.0, NOW + 60.0);
    let _ = begin(&c, &mut s, NOW + 60.0);
    assert_eq!((f(s.size_scale), f(s.last_margin_reject_ts)), (0.85 + 0.1, NOW + 60.0));
    s.size_scale = d(0.2);
    s.buy_oids.clear();
    let stage = begin(&c, &mut s, NOW + 60.0);
    let reply = answer(
        r#"{"status":"ok","response":{"data":{"statuses":[{"error":"insufficient margin"}]}}}"#,
    );
    go(&c, &mut s, stage, reply, NOW + 60.0);
    assert_eq!(f(s.size_scale), 0.2);
}

#[test]
fn errors_are_told() {
    let c = config();
    let mut s = fresh();
    let stage = begin(&c, &mut s, NOW);
    let text = "e".repeat(100);
    let reply = answer(&format!(
        r#"{{"status":"ok","response":{{"data":{{"statuses":[{{"error":"{text}"}}]}}}}}}"#
    ));
    go(&c, &mut s, stage, reply, NOW);
    assert_eq!(s.last_status, format!("Initial -> 0B/0A | {}", &text[..72]));
    assert_eq!(f(s.size_scale), 1.0);
    let stage = begin(&c, &mut s, NOW);
    go(&c, &mut s, stage, answer(r#"{"status":"err","response":"no"}"#), NOW);
    assert_eq!(s.last_status, r#"Initial -> 0B/0A | {"response":"no","status":"err"}"#);
    let stage = begin(&c, &mut s, NOW);
    s.anchor_price = None;
    go(&c, &mut s, stage, Reply::Failed("y".repeat(97)), NOW);
    assert_eq!(s.last_status, format!("Order error: {}", "y".repeat(96)));
    assert_eq!(s.anchor_price.map(f), Some(24000.0));
}

#[test]
fn the_inventory_is_flattened_with_the_horizon() {
    let c = config();
    let mut s = fresh();
    s.position = d(0.01);
    quote(&mut s, 24000.0, 1700.0);
    let stage = begin(&c, &mut s, 1700.0);
    assert_eq!((s.as_t0_ms, f(s.t_remaining_secs)), (1_700_000, 600.0));
    assert_eq!(s.recent_events[0].title, "A-S Reset");
    assert_eq!(s.recent_events[0].details, "T-window reset | pos=0.0100 | t_secs=600");
    assert_eq!(placed(&stage), vec![(false, 24000.0 * 0.99, 0.01, true, "Ioc".to_string())]);
    let stage = go(&c, &mut s, stage, Reply::Failed("x".to_string()), 1700.0);
    assert_eq!(s.recent_events[0].title, "A-S Flatten");
    assert_eq!(s.recent_events[0].details, "Session end flatten: SELL 0.0100 units");
    assert!(matches!(s.recent_events[0].level, EventLevel::Warn));
    assert!(matches!(stage, Stage::PlaceOrders(_)));
    let mut s = fresh();
    s.position = d(0.0005);
    quote(&mut s, 24000.0, 1600.0);
    assert!(matches!(begin(&c, &mut s, 1600.0), Stage::PlaceOrders(_)));
    assert_eq!(s.as_t0_ms, 1_600_000);
}

#[test]
fn too_great_a_loss_stops_the_session() {
    let c = config();
    let mut s = settled(&c);
    s.stats.session_pnl = d(-5.0);
    assert!(matches!(begin(&c, &mut s, NOW + 1.0), Stage::Done));
    assert!(s.running);
    s.stats.session_pnl = d(-6.0);
    assert!(matches!(begin(&c, &mut s, NOW + 1.0), Stage::Done));
    assert!(!s.running);
    assert_eq!(s.last_status, "A-S STOP: max loss $5.00 reached (PnL $-6.0000)");
    assert!(matches!(s.recent_events[0].level, EventLevel::Error));
}

#[test]
fn a_losing_position_is_hedged() {
    let c = config();
    let mut s = settled(&c);
    s.position = d(-1.0);
    s.unrealized_pnl = d(-2000.0);
    let stage = begin(&c, &mut s, NOW + 1.0);
    assert_eq!(cancelled(&stage), vec![1, 2, 3, 4]);
    assert!(s.buy_oids.is_empty() && s.sell_oids.is_empty() && s.order_details.is_empty());
    let stage = go(&c, &mut s, stage, Reply::Failed("x".to_string()), NOW + 1.0);
    assert_eq!(placed(&stage), vec![(true, 24000.0 * 1.01, 1.0, true, "Ioc".to_string())]);
    let stage = go(&c, &mut s, stage, answer("{}"), NOW + 1.0);
    assert_eq!(s.last_status, "HEDGE BUY 1.0000 @ $24000.00");
    assert_eq!(
        s.recent_events[0].details,
        "Position hedged: BUY 1.0000 @ $24000.00 | upnl=-2000.0000"
    );
    // Short beyond the cap, only bids are quoted.
    let orders = placed(&stage);
    assert_eq!(orders, grid()[..2].to_vec());
}

#[test]
fn a_trend_pauses_the_quoting() {
    let mut c = config();
    c.momentum.enabled = true;
    c.momentum.lookback = 3;
    let mut s = settled(&c);
    s.position = d(-0.01);
    for p in [1.0, 24000.0, 24005.0, 24010.0] {
        s.price_history.push_back(d(p));
    }
    let stage = begin(&c, &mut s, NOW + 1.0);
    assert_eq!(cancelled(&stage), vec![1, 2, 3, 4]);
    assert_eq!(s.last_status, "TREND PAUSE 30s (10.0t)");
    assert_eq!(s.recent_events[0].details, "UP 10.0t move \u{2014} pausing 30s");
    assert_eq!((f(s.momentum_pause_until), s.anchor_price), (NOW + 31.0, None));
    let stage = go(&c, &mut s, stage, answer("{}"), NOW + 1.0);
    assert_eq!(placed(&stage), vec![(true, 24000.0 * 1.01, 0.01, true, "Ioc".to_string())]);
    assert!(matches!(go(&c, &mut s, stage, answer("{}"), NOW + 1.0), Stage::Done));
    assert_eq!(s.recent_events[0].details, "Closing SHORT 0.0100 against trend @ $24000.00");
    assert!(matches!(begin(&c, &mut s, NOW + 2.0), Stage::Done));
    assert_eq!(s.last_status, "TREND PAUSE 29s");
    // With the trend nothing is closed, and without orders nothing is cancelled.
    s.position = d(0.01);
    assert!(matches!(begin(&c, &mut s, NOW + 32.0), Stage::Done));
    assert_eq!(s.last_status, "TREND PAUSE 30s (10.0t)");
}

#[test]
fn stops_pull_the_orders() {
    let c = config();
    let mut s = settled(&c);
    s.stats.fills_count = 30;
    s.stats.session_pnl = d(-3.5);
    let stage = begin(&c, &mut s, NOW + 1.0);
    assert_eq!(cancelled(&stage), vec![1, 2, 3, 4]);
    assert!(!s.running && s.buy_oids.is_empty() && s.sell_oids.is_empty());
    assert_eq!(s.last_status, "EMERGENCY: PnL $-3.5000");
    assert!(matches!(go(&c, &mut s, stage, answer("{}"), NOW + 1.0), Stage::Done));
    let mut s = settled(&c);
    let stage = begin(&c, &mut s, NOW + 8.5);
    assert_eq!(cancelled(&stage), vec![1, 2, 3, 4]);
    assert!(s.running);
    assert_eq!(s.last_status, "Feed stale > 8s - pulled");
    assert!(matches!(begin(&c, &mut s, NOW + 9.0), Stage::Done));
}

#[test]
fn rounds_come_to_an_end() {
    let c = config();
    let mut s = settled(&c);
    s.position = d(-1.0);
    s.unrealized_pnl = d(-2000.0);
    quote(&mut s, 24000.0, 1700.0);
    let mut stage = begin(&c, &mut s, 1700.0);
    let mut asked = 0;
    while !matches!(stage, Stage::Done) {
        stage = go(&c, &mut s, stage, resting(&[11, 12]), 1700.0);
        asked += 1;
    }
    assert_eq!(asked, 4);
    assert_eq!(s.buy_oids, vec![11, 12]);
}

#[test]
fn reasons_have_words() {
    for (r, w) in [
        (RefreshReason::Initial, "Initial"),
        (RefreshReason::StopExit { sell: true }, "STOP SELL"),
        (RefreshReason::StopExit { sell: false }, "STOP BUY"),
        (RefreshReason::Replenish, "Replenish"),
        (RefreshReason::SameSideLock(Side::Buy), "LOCK BUY"),
        (RefreshReason::SameSideLock(Side::Sell), "LOCK SELL"),
        (RefreshReason::UrgentDrift(1), "DRIFT"),
        (RefreshReason::NormalDrift(1), "Drift"),
        (RefreshReason::SpreadChange { from: 1, to: 2 }, "SPREAD"),
        (RefreshReason::QuoteTtl(d(1.0)), "TTL"),
        (RefreshReason::Periodic, "Periodic"),
    ] {
        assert_eq!(reason_text(&r), w);
    }
}

fn order(px: f64, sz: f64, is_buy: bool) -> TrackedOrder {
    TrackedOrder {
        price: d(px),
        size: d(sz),
        is_buy,
        ts: d(0.0),
        target_price: d(px),
        drift_ticks: 0,
    }
}

#[test]
fn each_order_has_its_fate() {
    let c = config();
    let mut s = MmState::new(0);
    s.buy_oids = vec![1, 2, 3];
    s.sell_oids = vec![4, 5];
    s.order_details.insert(1, order(100.0, 1.0, true));
    s.order_details.insert(2, order(90.0, 1.0, true));
    s.order_details.insert(3, order(80.0, 1.0, true));
    s.order_details.insert(4, order(110.0, 1.0, false));
    let level = |p: f64, z: f64| OrderLevel { price: d(p), size: d(z) };
    let bids = vec![level(93.0, 1.0), level(99.0, 1.04)];
    let asks = vec![level(111.0, 2.0), level(120.0, 1.0)];
    let desired = desired_orders(&bids, &asks, true, true);
    assert_eq!(desired[3], Desired { is_buy: false, price: d(120.0), size: d(1.0) });
    let existing = existing_orders(&s, true, true);
    assert_eq!(existing, vec![1, 2, 3, 4, 5]);
    let diff = diff_orders(&c, &s, &existing, &desired);
    assert_eq!(diff.kept.len(), 1);
    assert_eq!((diff.kept[0].oid, f(diff.kept[0].price), diff.kept[0].drift_ticks), (1, 99.0, 1));
    let m: Vec<(u64, f64, f64)> =
        diff.modifies.iter().map(|m| (m.oid, f(m.new_price), f(m.new_size))).collect();
    assert_eq!(m, vec![(2, 93.0, 1.0), (4, 111.0, 2.0)]);
    assert_eq!(diff.cancels.iter().map(|c| c.1).collect::<Vec<_>>(), vec![3, 5]);
    assert_eq!(diff.adds.len(), 1);
    assert_eq!((f(diff.adds[0].limit_px), diff.adds[0].is_buy), (120.0, false));
    assert!(desired_orders(&bids, &asks, false, true).iter().all(|x| !x.is_buy));
    assert_eq!(existing_orders(&s, true, false), vec![1, 2, 3]);
    s.update_kept(&diff.kept);
    assert_eq!((f(s.order_details[&1].target_price), f(s.order_details[&1].size)), (99.0, 1.04));
    assert_eq!(f(s.order_details[&1].price), 100.0);
}

#[test]
fn a_round_opens_with_the_markouts() {
    let c = config();
    let filled = || {
        let mut s = fresh();
        s.fill_history.push_back(FillRecord {
            side: Side::Buy,
            fill_price: d(24010.0),
            time: d(NOW - 6.0),
            checked: false,
            checked_1s: false,
            checked_5s: false,
            checked_10s: false,
            markout_1s: None,
            markout_5s: None,
            markout_10s: None,
            order_ts: d(NOW - 7.0),
        });
        s
    };
    let weights = vec![d(0.75)];
    let mut whole = filled();
    let opened = open_round(&c, &mut whole, &weights, d(NOW), 1_100_000);
    let mut parts = filled();
    update_markout_score(&mut parts, d(NOW), &c, &weights);
    let begun = begin(&c, &mut parts, NOW);
    assert_eq!(placed(&opened), placed(&begun));
    assert_eq!((f(whole.markout_score), whole.adverse_fill_count), (1.0, 1));
    assert_eq!(f(whole.stats.markout_5s_sum), -10.0);
    assert_eq!(whole.current_spread_ticks, parts.current_spread_ticks);
    let mut unmarked = filled();
    let _ = begin(&c, &mut unmarked, NOW);
    assert_eq!(f(unmarked.markout_score), 0.0);
}
