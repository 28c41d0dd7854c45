//! JSON and the market stream.
use hft_mm::double::Double;
use hft_mm::json::{parse_json, quote_text, Form, Json};
use hft_mm::websocket::{
    process_l2, process_message, process_text, process_user, subscriptions, ws_url, WsEvent,
    WsSharedState,
};

fn d(x: f64) -> Double {
    Double::from_bits(x.to_bits())
}

fn f(x: Double) -> f64 {
    f64::from_bits(x.to_bits())
}

fn json(text: &str) -> Json {
    parse_json(text).unwrap()
}

#[test]
fn json_is_parsed() {
    let j = json(r#" {"b":[1,-2,2.5,18446744073709551615],"a":"x\n","c":null,"d":true} "#);
    assert_eq!(j.written, r#"{"a":"x\n","b":[1,-2,2.5,18446744073709551615],"c":null,"d":true}"#);
    assert_eq!(j.get("a").unwrap().as_text(), Some("x\n"));
    let items = j.get("b").unwrap().as_items().unwrap();
    assert_eq!(items[0].as_unsigned(), Some(1));
    assert_eq!(items[1].as_unsigned(), None);
    assert_eq!(items[2].as_unsigned(), None);
    assert_eq!(items[2].written, "2.5");
    assert_eq!(items[3].as_unsigned(), Some(u64::MAX));
    assert!(matches!(j.get("c").unwrap().form, Form::Null));
    assert!(matches!(j.get("d").unwrap().form, Form::Bool(true)));
    assert!(j.get("e").is_none());
    assert!(items[0].get("a").is_none());
    assert!(j.as_items().is_none() && j.as_text().is_none() && j.as_unsigned().is_none());
    assert!(parse_json("{").is_none());
    assert!(parse_json("").is_none());
    assert!(parse_json("1 2").is_none());
}

#[test]
fn texts_of_parts_are_read() {
    let j = json(r#"{"px":"24000.5","n":3,"bad":"1,5"}"#);
    assert_eq!(j.double_at("px").map(f), Some(24000.5));
    assert_eq!(j.double_at("n").map(f), None);
    assert_eq!(j.double_at("bad").map(f), None);
    assert_eq!(j.double_at("none").map(f), None);
    assert_eq!(j.text_at("px"), "24000.5");
    assert_eq!(j.text_at("n"), "");
    assert_eq!(j.text_at("none"), "");
}

#[test]
fn stream_addresses_are_derived() {
    assert_eq!(ws_url("https://api.hyperliquid.xyz"), "wss://api.hyperliquid.xyz/ws");
    assert_eq!(ws_url("http://localhost:1"), "ws://localhost:1/ws");
    assert_eq!(ws_url("ftp://x"), "ftp://x/ws");
}

const BOOK: &str = r#"{"channel":"l2Book","data":{"coin":"xyz:XYZ100","levels":[
    [{"px":"23999","sz":"1"},{"px":"23998","sz":"2"},{"px":"23997","sz":"x"},{"px":"1","sz":"3"},{"px":"1","sz":"4"},{"px":"1","sz":"100"}],
    [{"px":"24001","sz":"0.5"},{"px":"24002"}]]}}"#;

#[test]
fn books_are_read() {
    match process_l2(&json(BOOK)).unwrap() {
        WsEvent::L2Update { best_bid, best_ask, mid, bid_depth_5, ask_depth_5 } => {
            assert_eq!((f(best_bid), f(best_ask), f(mid)), (23999.0, 24001.0, 24000.0));
            assert_eq!((f(bid_depth_5), f(ask_depth_5)), (10.0, 0.5));
        }
        _ => panic!("not a book"),
    }
    for t in [
        "{}",
        r#"{"levels":[[{"px":"1"}]]}"#,
        r#"{"levels":[[],[{"px":"1"}]]}"#,
        r#"{"levels":[[{"px":"1"}],[]]}"#,
        r#"{"levels":[[{"px":1}],[{"px":"2"}]]}"#,
        r#"{"levels":[[{"px":"1"}],[{"px":"a"}]]}"#,
        r#"{"levels":[1,2]}"#,
        r#"{"levels":"ab"}"#,
    ] {
        assert!(process_l2(&json(t)).is_none(), "{t}");
    }
    assert!(process_l2(&json(r#"{"levels":[[{"px":"1"}],[{"px":"2"}]]}"#)).is_some());
}

const USER: &str = r#"{"channel":"user","data":{
    "clearinghouseState":{"assetPositions":[{"position":{"coin":"XYZ100","szi":"0.5","unrealizedPnl":"-2","entryPx":"24000","marginUsed":"3"}}],
        "marginSummary":{"accountValue":"150.25"}},
    "fills":[
        {"coin":"BTC","px":"1","sz":"1"},
        {"coin":"xyz:XYZ100","px":"24001","sz":"0.01","fee":"-0.02","closedPnl":"0.3","oid":77,"dir":"Open Long","tid":123},
        {"coin":"XYZ100","px":"q","dir":"Sell","tid":"a\"b"},
        {"coin":"XYZ100","dir":"Buy"}]}}"#;

#[test]
fn account_messages_are_read() {
    let events = process_user(&json(USER), "xyz:XYZ100");
    assert_eq!(events.len(), 4);
    match &events[0] {
        WsEvent::PositionUpdate { position, unrealized_pnl, entry_price, margin_used, equity } => {
            assert_eq!((f(*position), f(*unrealized_pnl)), (0.5, -2.0));
            assert_eq!((entry_price.map(f), f(*margin_used), f(*equity)), (Some(24000.0), 3.0, 150.25));
        }
        _ => panic!("not a position"),
    }
    match &events[1] {
        WsEvent::Fill { tid, coin, price, size, fee, closed_pnl, oid, is_buy } => {
            assert_eq!((tid.as_str(), coin.as_str()), ("123", "xyz:XYZ100"));
            assert_eq!((f(*price), f(*size), f(*fee), f(*closed_pnl)), (24001.0, 0.01, -0.02, 0.3));
            assert_eq!((*oid, *is_buy), (77, true));
        }
        _ => panic!("not a fill"),
    }
    match &events[2] {
        WsEvent::Fill { tid, price, oid, is_buy, .. } => {
            assert_eq!(tid, r#""a\"b""#);
            assert_eq!((f(*price), *oid, *is_buy), (0.0, 0, false));
        }
        _ => panic!("not a fill"),
    }
    match &events[3] {
        WsEvent::Fill { tid, is_buy, .. } => assert_eq!((tid.as_str(), *is_buy), ("", true)),
        _ => panic!("not a fill"),
    }
    assert!(process_user(&json("{}"), "xyz:XYZ100").is_empty());
}

#[test]
fn messages_are_told_apart() {
    let count = |t: &str| {
        let mut shared = WsSharedState::new();
        process_message(&json(t), "xyz:XYZ100", &mut shared, d(5.0)).len()
    };
    assert_eq!(count(BOOK), 1);
    assert_eq!(count(USER), 4);
    assert_eq!(count(&BOOK.replace("l2Book", "other")), 1);
    assert_eq!(count(&USER.replace("\"user\"", "\"other\"")), 4);
    assert_eq!(count(r#"{"channel":"pong"}"#), 0);
    assert_eq!(count(r#"{"channel":"l2Book"}"#), 0);
    assert_eq!(count(r#"{"data":{"fills":[]}}"#), 0);
}

#[test]
fn the_shared_state_follows_the_stream() {
    let mut shared = WsSharedState::new();
    assert!(shared.bbo.is_none() && !shared.ready);
    assert_eq!(f(shared.last_msg_ts), 0.0);
    let events = process_text(BOOK, "xyz:XYZ100", &mut shared, d(12.5));
    assert_eq!(events.len(), 1);
    assert!(shared.ready);
    assert_eq!(f(shared.last_msg_ts), 12.5);
    assert_eq!(f(shared.bbo.unwrap().mid), 24000.0);
    assert!(process_text("not json", "xyz:XYZ100", &mut shared, d(13.0)).is_empty());
    process_text(USER, "xyz:XYZ100", &mut shared, d(14.0));
    assert_eq!(f(shared.last_msg_ts), 12.5);
    shared.note(&WsEvent::Disconnected, d(15.0));
    assert!(!shared.ready && shared.bbo.is_some());
}

#[test]
fn both_streams_are_subscribed_to() {
    let (book, user) = subscriptions("xyz:XYZ100", "0xab");
    assert_eq!(
        book,
        "{\"method\":\"subscribe\",\"subscription\":{\"coin\":\"xyz:XYZ100\",\"type\":\"l2Book\"}}"
    );
    assert_eq!(
        user,
        "{\"method\":\"subscribe\",\"subscription\":{\"type\":\"userEvents\",\"user\":\"0xab\"}}"
    );
    for text in [book, user, subscriptions("a\"b\n", "\u{1}").0] {
        let said: serde_json::Value = serde_json::from_str(&text).unwrap();
        assert_eq!(said.to_string(), text);
        assert_eq!(said["method"], "subscribe");
    }
}

#[test]
fn texts_are_quoted() {
    assert_eq!(quote_text(""), "\"\"");
    assert_eq!(quote_text("a\"b\\c/d"), "\"a\\\"b\\\\c/d\"");
    assert_eq!(
        quote_text("\u{8}\t\n\u{c}\r\u{1}\u{b}\u{1f}"),
        "\"\\b\\t\\n\\f\\r\\u0001\\u000b\\u001f\""
    );
    assert_eq!(quote_text("\u{7f}\u{e9}\u{1f600}"), "\"\u{7f}\u{e9}\u{1f600}\"");
}
