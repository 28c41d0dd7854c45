//! Sessions, the web interface and the terminal.
use hft_mm::api::{check_auth, StartRequest};
use hft_mm::bot::{
    check_credentials, check_end, check_stop, exit_cancels, finish_session, keep_waiting,
    open_cancels, prepare_start, record_session, take_first_quote, BotError, FinishedSession,
    MAX_BATCH, QUOTE_WAIT_MS, TERMINAL_QUOTE_WAIT_MS,
};
use hft_mm::config::{available_tokens, default_config, find_token, Config, LogTerms};
use hft_mm::console::{menu_choice, menu_line, sorted_names, summary_lines, Choice};
use hft_mm::dashboard::{
    can_show, info_lines, is_quit_key, runtime_text, stats_row, title_line, Tint,
};
use hft_mm::double::Double;
use hft_mm::exchange::OpenOrder;
use hft_mm::types::{Bbo, EventLevel, MmState, Stats};
use hft_mm::websocket::WsEvent;

fn d(x: f64) -> Double {
    Double::from_bits(x.to_bits())
}

fn f(x: Double) -> f64 {
    f64::from_bits(x.to_bits())
}

fn config(key: &str, account: &str) -> Config {
    let token = find_token(&available_tokens(), "XYZ100").unwrap();
    let logs = LogTerms { tick_log10: d(0.0), min_size_log10: d(-4.0), arrival_ln: d(0.1) };
    default_config(token, key.to_string(), account, logs)
}

fn session(i: u64) -> FinishedSession {
    finish_session("GOLD", "km:GOLD", &Stats::new(), 0, i * 1000, format!("s{i}"))
}

#[test]
fn sessions_are_summed_up() {
    let mut st = Stats::new();
    st.session_pnl = d(5.0);
    st.total_fees = d(2.0);
    st.total_volume = d(1_000_000.0);
    st.fills_count = 4;
    st.rt_count = 1;
    st.queue_time_sum = d(6.0);
    st.queue_time_count = 4;
    st.cancel_repost_count = 9;
    let s = finish_session("GOLD_XYZ", "xyz:GOLD", &st, 10_000, 72_999, "why".to_string());
    assert_eq!((s.token.as_str(), s.exchange_name.as_str()), ("GOLD_XYZ", "TradeXYZ"));
    assert_eq!((s.start_ts_ms, s.end_ts_ms, s.duration_secs), (10_000, 72_999, 62));
    assert_eq!((f(s.gross_pnl), f(s.net_pnl), f(s.volume), f(s.fees)), (5.0, 3.0, 1e6, 2.0));
    assert_eq!((s.fills, s.rt_count, f(s.cost_per_million)), (4, 1, -3.0));
    assert_eq!((f(s.avg_queue_time), s.cancel_repost_count), (1.5, 9));
    assert_eq!(s.stop_reason, "why");
    assert_eq!(session(1).exchange_name, "KiloMarkets");
}

#[test]
fn sessions_are_kept_newest_first() {
    let mut v: Vec<FinishedSession> = Vec::new();
    for i in 0..105 {
        record_session(&mut v, session(i));
    }
    assert_eq!(v.len(), 100);
    assert_eq!(v[0].stop_reason, "s104");
    assert_eq!(v[99].stop_reason, "s5");
}

#[test]
fn starting_is_checked() {
    let t = prepare_start(false, "GOLD", None).unwrap();
    assert_eq!((t.symbol.as_str(), f(t.order_size_usd)), ("km:GOLD", 60.0));
    assert_eq!(f(prepare_start(false, "GOLD", Some(d(75.0))).unwrap().order_size_usd), 75.0);
    assert_eq!(f(prepare_start(false, "GOLD", Some(d(0.001))).unwrap().order_size_usd), 0.01);
    assert_eq!(prepare_start(true, "GOLD", None).unwrap_err().message(), "Bot already running");
    assert_eq!(prepare_start(false, "DOGE", None).unwrap_err().message(), "Unknown token: DOGE");
    assert!(check_credentials(&config("k", "a")).is_ok());
    for (k, a) in [("", "a"), ("k", ""), ("k", "  ")] {
        assert_eq!(
            check_credentials(&config(k, a)).unwrap_err().message(),
            "HL_AGENT_KEY and HL_ACCOUNT environment variables are required"
        );
    }
    assert!(check_stop(true).is_ok());
    assert_eq!(check_stop(false).unwrap_err().message(), "No active session");
    assert_eq!(BotError::NoMarketData.message(), "No market data received in 15s");
    assert_eq!(MAX_BATCH, 51);
}

#[test]
fn the_first_quote_is_taken() {
    let mut s = MmState::new(0);
    assert!(!take_first_quote(&mut s, &WsEvent::Disconnected, d(3.0)));
    assert!(s.bbo.is_none());
    let e = WsEvent::L2Update {
        best_bid: d(1.0),
        best_ask: d(3.0),
        mid: d(2.0),
        bid_depth_5: d(0.0),
        ask_depth_5: d(0.0),
    };
    assert!(take_first_quote(&mut s, &e, d(3.0)));
    assert_eq!((f(s.bbo.unwrap().mid), f(s.last_ws_msg_ts)), (2.0, 3.0));
}

#[test]
fn sessions_end_for_a_reason() {
    let mut s = MmState::new(0);
    assert_eq!(check_end(&mut s, false), None);
    assert_eq!(check_end(&mut s, true).as_deref(), Some("Stop requested"));
    assert!(!s.running && !s.trading_enabled);
    s.last_status = "A-S STOP".to_string();
    assert_eq!(check_end(&mut s, false).as_deref(), Some("A-S STOP"));
    let mut s = MmState::new(0);
    s.expire(7);
    assert!(!s.running && s.last_status == "Time limit reached");
    assert!(matches!(s.recent_events[0].level, EventLevel::Warn));
    let mut s = MmState::new(0);
    s.interrupt(7);
    assert!(!s.running && !s.trading_enabled);
    assert_eq!(s.recent_events.len(), 3);
    assert_eq!(s.recent_events[1].title, "Runtime");
    assert_eq!(s.last_status, "Shutdown requested via Ctrl+C");
    let mut s = MmState::new(0);
    s.halt();
    assert!(!s.running);
}

#[test]
fn leaving_cancels_the_orders() {
    let c = config("k", "a");
    let mut s = MmState::new(0);
    s.buy_oids = vec![1, 2];
    s.sell_oids = vec![3];
    let v = exit_cancels(&c, &s);
    assert_eq!(v.iter().map(|x| x.1).collect::<Vec<_>>(), vec![1, 2, 3]);
    assert!(v.iter().all(|x| x.0 == "xyz:XYZ100"));
    let open = vec![
        OpenOrder { coin: "BTC".to_string(), oid: 4 },
        OpenOrder { coin: "XYZ100".to_string(), oid: 5 },
        OpenOrder { coin: "xyz:XYZ100".to_string(), oid: 6 },
    ];
    let v = open_cancels(&c, &open);
    assert_eq!(v, vec![("XYZ100".to_string(), 5), ("xyz:XYZ100".to_string(), 6)]);
}

#[test]
fn requests_are_authorized() {
    assert!(check_auth(Some("Bearer secret"), "secret"));
    assert!(!check_auth(Some("Bearer secre"), "secret"));
    assert!(!check_auth(Some("Bearer secret "), "secret"));
    assert!(!check_auth(Some("bearer secret"), "secret"));
    assert!(!check_auth(Some("secret"), "secret"));
    assert!(check_auth(Some("Bearer "), ""));
    assert!(!check_auth(None, "secret"));
    let r = StartRequest {
        token: "GOLD".to_string(),
        order_size_usd: None,
        leverage: None,
        time_limit_secs: Some(5),
    };
    assert_eq!(r.time_limit_secs, Some(5));
}

#[test]
fn the_title_names_the_symbol() {
    let t = title_line(&config("k", "a"));
    assert_eq!(t.len(), 3);
    assert_eq!(t[0].text, " HFT MM v1.0 | xyz:XYZ100 ");
    assert!(t[0].bold && t[0].tint == Tint::Cyan && t[1].tint == Tint::Yellow);
    assert_eq!((t[1].text.as_str(), t[2].text.as_str()), (" [Rust] ", " Ctrl+C to stop "));
    assert!(!t[2].bold);
}

#[test]
fn the_statistics_are_shown() {
    let c = config("k", "a");
    let mut s = MmState::new(0);
    s.stats.total_volume = d(1_000_000.0);
    s.stats.total_fees = d(150.0);
    s.stats.session_pnl = d(-1.25);
    let r = stats_row(&c, &s);
    let texts: Vec<&str> = r.iter().map(|p| p.text.as_str()).collect();
    assert_eq!(texts, vec!["xyz:XYZ100", "$151.2", "$1000000.00", "$150.0000", "$-1.2500"]);
    let tints: Vec<Tint> = r.iter().map(|p| p.tint).collect();
    assert_eq!(
        tints,
        vec![Tint::White, Tint::Yellow, Tint::Green, Tint::Yellow, Tint::Red]
    );
    s.stats.session_pnl = d(100.0);
    let r = stats_row(&c, &s);
    assert_eq!((r[1].tint, r[4].tint), (Tint::Green, Tint::Green));
    assert_eq!(r[4].text, "$+100.0000");
    s.stats.session_pnl = d(-100.0);
    assert_eq!(stats_row(&c, &s)[1].tint, Tint::Red);
}

#[test]
fn the_details_are_shown() {
    let c = config("k", "a");
    let mut s = MmState::new(0);
    assert!(can_show(&s.stats));
    s.bbo = Some(Bbo { best_bid: d(23999.0), best_ask: d(24001.0), mid: d(24000.0) });
    s.position = d(-0.5);
    s.unrealized_pnl = d(1.0);
    s.buy_oids = vec![1, 2];
    s.stats.total_volume = d(500.0);
    s.stats.fills_count = 30;
    s.stats.maker_fills = 29;
    s.stats.taker_fills = 1;
    s.stats.rt_count = 4;
    s.stats.rt_profit = d(1.0);
    s.size_scale = d(0.85);
    s.volatility = d(0.0123);
    s.signals.bias = d(-0.2);
    let lines = info_lines(&c, "30", &s, 7265);
    let flat: Vec<String> =
        lines.iter().map(|l| l.iter().map(|p| p.text.as_str()).collect::<String>()).collect();
    assert_eq!(
        flat,
        vec![
            "  Mid Price  $24000.0000",
            "  Vol/Hour   $247.76",
            "  Runtime    2h1m5s",
            "  Pair       xyz:XYZ100 | Lev 30x",
            "  Position   -0.500000  uPnL $+1.0000",
            "  Orders     2B / 0A  | Spread 30t",
            "  Fills      30 (0.2/min) | Maker 97%",
            "  RT         4 (27%) | profit $1.0000 (avg $0.2500)",
            "  Scale      85%  | Vol 0.0123%",
            "  Signals    Bias -0.20 | EMA +0.0bps | MACD +0.0bps | RSI 50 | BB z +0.00 | VWAP +0.0bps",
            "  Status     Initializing...",
        ]
    );
    assert_eq!(lines[4][1].tint, Tint::Red);
    assert_eq!(lines[4][2].tint, Tint::Green);
    assert_eq!(lines[8][1].tint, Tint::Yellow);
    assert_eq!(lines[9][1].tint, Tint::Red);
    s.bbo = None;
    s.position = d(0.0005);
    s.signals.bias = d(0.0);
    s.size_scale = d(0.9);
    let lines = info_lines(&c, "30", &s, 0);
    assert_eq!(lines[0][1].text, "---");
    assert_eq!(lines[1][1].text, "$0.00");
    assert_eq!(lines[4][1].tint, Tint::DarkGray);
    assert_eq!(lines[8][1].tint, Tint::Green);
    assert_eq!(lines[9][1].tint, Tint::Yellow);
    assert_eq!(runtime_text(59), "0m59s");
    assert_eq!(runtime_text(3600), "1h0m0s");
    s.stats.maker_fills = u64::MAX;
    assert!(!can_show(&s.stats));
}

#[test]
fn keys_that_quit() {
    assert!(is_quit_key('q', false) && is_quit_key('q', true) && is_quit_key('c', true));
    assert!(!is_quit_key('c', false) && !is_quit_key('x', true));
}

#[test]
fn the_menu_is_sorted() {
    let names = sorted_names(&available_tokens());
    assert_eq!(
        names,
        vec![
            "BRENTOIL", "BTC", "CL", "COPPER", "GOLD", "GOLD_XYZ", "PLTR", "SILVER", "SP500",
            "TSLA", "US500", "USOIL", "USTECH", "XYZ100"
        ]
    );
    assert_eq!(
        menu_line(3, "xyz:CL", "20", "50"),
        format!("  [{:>2}] {:<15} Lev:{}x  Size:${}", 3, "xyz:CL", 20.0, 50.0)
    );
    assert_eq!(
        menu_line(123, "a-symbol-that-is-long", "2.5", "1"),
        format!("  [{:>2}] {:<15} Lev:{}x  Size:${}", 123, "a-symbol-that-is-long", 2.5, 1.0)
    );
}

#[test]
fn the_menu_takes_choices() {
    for (input, choice) in [
        ("\n", Choice::Default),
        ("  \t\n", Choice::Default),
        ("q\n", Choice::Quit),
        ("1\n", Choice::Token(0)),
        (" 14 \n", Choice::Token(13)),
        ("+2", Choice::Token(1)),
        ("007", Choice::Token(6)),
        ("0", Choice::Invalid),
        ("15", Choice::Invalid),
        ("-1", Choice::Invalid),
        ("+", Choice::Invalid),
        ("1 2", Choice::Invalid),
        ("x", Choice::Invalid),
        ("99999999999999999999999999999999999999999999", Choice::Invalid),
    ] {
        assert_eq!(menu_choice(input, 14), choice, "{input:?}");
    }
}

#[test]
fn the_summary_is_printed() {
    let c = config("k", "a");
    let mut s = MmState::new(0);
    s.stats.session_pnl = d(3.0);
    s.stats.total_volume = d(2000.0);
    s.stats.total_fees = d(0.5);
    s.stats.fills_count = 8;
    s.stats.maker_fills = 8;
    s.stats.rt_count = 2;
    s.stats.rt_profit = d(1.0);
    assert_eq!(
        summary_lines(&c, &s, "Shutdown", d(5400.0)),
        vec![
            "SESSION SUMMARY | xyz:XYZ100 | Shutdown",
            "Runtime     : 1.50h",
            "PnL         : $3.0000 ($2.0000/h)",
            "Round-trips : 2 (50%) | profit $1.0000 (avg $0.5000)",
            "Volume      : $2000.00 | Fees $0.5000",
            "Cost/1M     : $-1250.00",
            "Fills       : 8 | Maker 100%",
        ]
    );
    assert_eq!(summary_lines(&c, &s, "x", d(1.0))[2], "PnL         : $3.0000 ($300.0000/h)");
}

#[test]
fn the_first_quote_is_waited_for() {
    assert_eq!((QUOTE_WAIT_MS, TERMINAL_QUOTE_WAIT_MS), (15_000, 10_000));
    assert!(keep_waiting(false, 0, QUOTE_WAIT_MS));
    assert!(keep_waiting(false, 14_999, QUOTE_WAIT_MS));
    assert!(!keep_waiting(false, 15_000, QUOTE_WAIT_MS));
    assert!(!keep_waiting(true, 3, QUOTE_WAIT_MS));
}
