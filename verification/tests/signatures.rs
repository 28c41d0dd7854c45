//! Signing, hexadecimal text, and what is sent to the exchange.
use hft_mm::config::{available_tokens, default_config, find_token, Config, LogTerms};
use hft_mm::double::Double;
use hft_mm::exchange::{
    assets_request, bad_answer_text, compact_body, dexes_request, find_asset, find_dex_offset,
    float_to_wire, http_failure_text, is_countable, push_cancels, unknown_asset_text,
    unknown_dex_text, ExchangeAction, HyperLiquidExchange, ModifyRequest, OrderRequest,
};
use hft_mm::json::{parse_json, Json};
use hft_mm::signing::{
    action_connection_id, agent_struct_hash, decode_prefixed, digest_of, eip712_domain_hash,
    encode_u64_word, format_signature, frame_action, hash_string, left_pad_32, read_key,
    sign_action, HexError, KeyError, VaultError,
};

fn d(x: f64) -> Double {
    Double::from_bits(x.to_bits())
}

fn f(x: Double) -> f64 {
    f64::from_bits(x.to_bits())
}

fn hex_of(bytes: &[u8]) -> String {
    bytes.iter().map(|b| format!("{:02x}", b)).collect()
}

const KEY: &str = "0123456789012345678901234567890123456789012345678901234567890123";

fn config_with(key: &str) -> Config {
    let token = find_token(&available_tokens(), "XYZ100").unwrap();
    let logs = LogTerms {
        tick_log10: d(f(token.tick_size).log10()),
        min_size_log10: d(f(token.min_size).log10()),
        arrival_ln: d((1.0f64 + 0.001 / 1.5).ln()),
    };
    default_config(token, key.to_string(), "  0xABCdef \n", logs)
}

fn client() -> HyperLiquidExchange {
    HyperLiquidExchange::new(&config_with(KEY), 110_007).unwrap()
}

fn json(text: &str) -> Json {
    parse_json(text).unwrap()
}

fn order(is_buy: bool, sz: f64, px: f64) -> OrderRequest {
    OrderRequest {
        coin: "xyz:XYZ100".to_string(),
        is_buy,
        sz: d(sz),
        limit_px: d(px),
        reduce_only: false,
        tif: "Alo".to_string(),
    }
}

fn connection() -> [u8; 32] {
    let mut id = [0u8; 32];
    for i in 0..32 {
        id[i] = i as u8;
    }
    id
}

#[test]
fn hashes_are_keccak() {
    assert_eq!(
        hex_of(&hash_string("")),
        "c5d2460186f7233c927e7db2dcc703c0e500b653ca82273b7bfad8045d85a470"
    );
    assert_eq!(
        hex_of(&hash_string("hello")),
        "1c8aff950685c2ed4bc3174f3472287b56d9517b9c948127319a09a7a36deac8"
    );
}

#[test]
fn words_are_padded_on_the_left() {
    assert_eq!(left_pad_32(&[]), [0u8; 32]);
    let mut w = [0u8; 32];
    w[30] = 5;
    w[31] = 57;
    assert_eq!(encode_u64_word(1337), w);
    assert_eq!(left_pad_32(&[5, 57]), w);
    let full: Vec<u8> = (1..33).collect();
    assert_eq!(left_pad_32(&full).to_vec(), full);
    assert_eq!(encode_u64_word(u64::MAX)[23..], [0, 255, 255, 255, 255, 255, 255, 255, 255]);
}

#[test]
fn typed_data_is_hashed() {
    assert_eq!(
        hex_of(&eip712_domain_hash()),
        "d79297fcdf2ffcd4ae223d01edaa2ba214ff8f401d7c9300d995d17c82aa4040"
    );
    assert_eq!(
        hex_of(&agent_struct_hash(&connection(), true)),
        "52087e11c34fdae27e7a520f1d53955befdca38781d1f268b02df1cd93e6f84e"
    );
    assert_eq!(
        hex_of(&agent_struct_hash(&connection(), false)),
        "0b5c03d6b4344cfa825f2d3167ee042ddfbe70332b4c6f66125e1bdab60e84a2"
    );
    assert_eq!(
        hex_of(&digest_of(&connection(), true)),
        "b9e7c81cff512fa0969928e37d7c2475af657f1b314b7458c8dd7a023044cac0"
    );
}

#[test]
fn actions_are_signed() {
    let key = read_key(KEY).unwrap();
    let s = sign_action(&key, &connection(), true).unwrap();
    assert_eq!(s.r, "0xe25e80348c56df51a8d9778466a54b4d12df570e0b4a088346d5084ca89b43d4");
    assert_eq!(s.s, "0x5f66df0bc6bfd82ee661f72ee18092b9cd5e725f31d576fe92f4833ad68536fe");
    assert_eq!(s.v, 28);
    let s = sign_action(&key, &connection(), false).unwrap();
    assert_eq!(s.r, "0x93e902bdd27334d234bc0d993c9a667331a5aa67537f6038429e64127b449b0f");
    assert_eq!(s.s, "0x50d650fff4208a8606cd1d6cd86815b3c9e740e64acddcc2d009515c1513d787");
    assert_eq!(s.v, 28);
    let by_client = client().sign_l1_action(&connection()).unwrap();
    assert_eq!(by_client.r, "0xe25e80348c56df51a8d9778466a54b4d12df570e0b4a088346d5084ca89b43d4");
}

#[test]
fn signatures_are_written_in_two_halves() {
    let mut bytes = [0u8; 64];
    bytes[0] = 0xab;
    bytes[63] = 0x0c;
    let s = format_signature(&bytes, 3);
    assert_eq!(s.r, format!("0xab{}", "00".repeat(31)));
    assert_eq!(s.s, format!("0x{}0c", "00".repeat(31)));
    assert_eq!(s.v, 30);
}

#[test]
fn hexadecimal_text_is_read() {
    assert_eq!(decode_prefixed("0x00fFAb").unwrap(), vec![0, 255, 171]);
    assert_eq!(decode_prefixed("0x0x12").unwrap(), vec![18]);
    assert_eq!(decode_prefixed("").unwrap(), Vec::<u8>::new());
    assert_eq!(decode_prefixed("0xabc").unwrap_err(), HexError::OddLength);
    assert_eq!(decode_prefixed("12g4").unwrap_err(), HexError::BadCharacter { c: 'g', index: 2 });
    assert_eq!(decode_prefixed("0X12").unwrap_err(), HexError::BadCharacter { c: 'X', index: 1 });
    assert_eq!(decode_prefixed("é1").unwrap_err(), HexError::OddLength);
    assert_eq!(decode_prefixed("é").unwrap_err(), HexError::BadCharacter { c: 'Ã', index: 0 });
}

#[test]
fn hexadecimal_text_reads_back() {
    let mut bytes = [0u8; 64];
    for i in 0..64 {
        bytes[i] = (i * 37 + 11) as u8;
    }
    let s = format_signature(&bytes, 0);
    assert_eq!(decode_prefixed(&s.r).unwrap(), bytes[..32].to_vec());
    assert_eq!(decode_prefixed(&s.s).unwrap(), bytes[32..].to_vec());
}

#[test]
fn keys_are_checked() {
    assert_eq!(read_key(&format!("0x{}", KEY)).unwrap().len(), 32);
    assert_eq!(read_key("0x1").unwrap_err(), KeyError::Hex(HexError::OddLength));
    assert_eq!(read_key(&"00".repeat(32)).unwrap_err(), KeyError::Invalid);
    assert_eq!(read_key(&"01".repeat(33)).unwrap_err(), KeyError::Invalid);
    assert_eq!(read_key(&"01".repeat(23)).unwrap_err(), KeyError::Invalid);
    assert!(read_key(&"01".repeat(24)).is_ok());
    let order = "fffffffffffffffffffffffffffffffebaaedce6af48a03bbfd25e8cd0364141";
    assert_eq!(read_key(order).unwrap_err(), KeyError::Invalid);
    let below = "fffffffffffffffffffffffffffffffebaaedce6af48a03bbfd25e8cd0364140";
    assert!(read_key(below).is_ok());
    assert_eq!(
        HyperLiquidExchange::new(&config_with(""), 0).err().unwrap(),
        KeyError::Invalid
    );
}

#[test]
fn connection_ids_hash_the_frame() {
    let packed = [0x81, 0xa1, b'a', 1];
    let nonce = 1_700_000_000_000u64;
    assert_eq!(
        hex_of(&frame_action(&packed, nonce, None)),
        format!("81a16101{:016x}00", nonce)
    );
    assert_eq!(
        hex_of(&frame_action(&packed, 1, Some(&[7, 8]))),
        "81a161010000000000000001010708"
    );
    assert_eq!(
        hex_of(&action_connection_id(&packed, nonce, None).unwrap()),
        "4150e8914599da40da89ae931a2885ad7682ac90825487fb7c30a09de2d26e3b"
    );
    let vault = "0x000102030405060708090a0b0c0d0e0f10111213";
    assert_eq!(
        hex_of(&action_connection_id(&packed, nonce, Some(vault)).unwrap()),
        "5ff8841c3a9544929087f729aa7262e5f0afa6ba0c2272afe1cf6f7d5e3eb742"
    );
    assert_eq!(
        action_connection_id(&packed, nonce, Some("0x0102")).unwrap_err(),
        VaultError::Length
    );
    assert_eq!(
        action_connection_id(&packed, nonce, Some("0xzz")).unwrap_err(),
        VaultError::Hex(HexError::BadCharacter { c: 'z', index: 0 })
    );
}

#[test]
fn numbers_are_put_on_the_wire() {
    for (x, s) in [
        (1.0, "1"),
        (0.1, "0.1"),
        (100.0, "100"),
        (24123.5, "24123.5"),
        (0.0, "0"),
        (-0.0, "0"),
        (-0.000000001, "0"),
        (0.000000004, "0"),
        (0.00000001, "0.00000001"),
        (-1.25, "-1.25"),
        (1e9, "1000000000"),
        (0.12345678901, "0.12345679"),
    ] {
        assert_eq!(float_to_wire(d(x)), s);
    }
    assert_eq!(float_to_wire(d(f64::NAN)), "NaN");
    assert_eq!(float_to_wire(d(f64::INFINITY)), "inf");
}

#[test]
fn the_wire_drops_only_zeros() {
    for x in [3.14, 250.0, 0.5, 1234.00001, -7.25] {
        let full = format!("{:.8}", x);
        let wire = float_to_wire(d(x));
        let rest = full.strip_prefix(&wire).unwrap();
        assert!(rest.chars().all(|c| c == '0' || c == '.'));
    }
}

#[test]
fn answers_are_made_compact() {
    assert_eq!(compact_body("  a \n\t b  c "), "a b c");
    assert_eq!(compact_body(" \n "), "");
    assert_eq!(compact_body(&"x".repeat(240)), "x".repeat(240));
    assert_eq!(compact_body(&"y".repeat(241)), format!("{}...", "y".repeat(240)));
    assert_eq!(compact_body(&"é ".repeat(200)), format!("{}...", "é ".repeat(120)));
}

#[test]
fn the_client_knows_its_addresses() {
    let x = client();
    assert_eq!(x.info_url, "https://api.hyperliquid.xyz/info");
    assert_eq!(x.exchange_url, "https://api.hyperliquid.xyz/exchange");
    assert_eq!(x.account_address, "0xabcdef");
    assert_eq!(x.symbol(), "xyz:XYZ100");
    assert_eq!(x.base_coin(), "XYZ100");
    assert_eq!(x.perp_dex, "xyz");
    assert_eq!(x.asset_index, 110_007);
    assert!(x.is_mainnet);
    assert!(x.vault_address.is_none());
    let mut config = config_with(KEY);
    config.base_url = "https://api.hyperliquid-testnet.xyz".to_string();
    assert!(!HyperLiquidExchange::new(&config, 1).unwrap().is_mainnet);
}

#[test]
fn orders_become_actions() {
    let x = client();
    let close = HyperLiquidExchange::close_order("xyz:XYZ100", false, d(0.5), d(23760.0));
    match x.bulk_orders(&vec![order(true, 0.0125, 24000.0), close]) {
        ExchangeAction::Order { orders, grouping } => {
            assert_eq!(grouping, "na");
            assert_eq!(orders.len(), 2);
            assert_eq!(orders[0].asset, 110_007);
            assert!(orders[0].is_buy && !orders[0].reduce_only);
            assert_eq!((orders[0].sz.as_str(), orders[0].limit_px.as_str()), ("0.0125", "24000"));
            assert_eq!(orders[0].tif, "Alo");
            assert!(!orders[1].is_buy && orders[1].reduce_only);
            assert_eq!(orders[1].tif, "Ioc");
        }
        _ => panic!("not an order"),
    }
}

#[test]
fn cancels_and_modifies_become_actions() {
    let x = client();
    let mut cancels = vec![("a".to_string(), 3u64)];
    push_cancels(&mut cancels, "b", &vec![5, 4]);
    assert_eq!(
        cancels,
        vec![("a".to_string(), 3), ("b".to_string(), 5), ("b".to_string(), 4)]
    );
    match x.bulk_cancel(&cancels) {
        ExchangeAction::Cancel { cancels } => {
            let oids: Vec<u64> = cancels.iter().map(|c| c.oid).collect();
            assert_eq!(oids, vec![3, 5, 4]);
            assert!(cancels.iter().all(|c| c.asset == 110_007));
        }
        _ => panic!("not a cancel"),
    }
    let m = ModifyRequest {
        oid: 9,
        new_price: d(24001.0),
        new_size: d(0.01),
        is_buy: false,
        reduce_only: false,
    };
    match x.bulk_modify(&vec![m]) {
        ExchangeAction::BatchModify { modifies } => {
            assert_eq!(modifies[0].oid, 9);
            assert_eq!(modifies[0].order.limit_px, "24001");
            assert_eq!(modifies[0].order.sz, "0.01");
            assert_eq!(modifies[0].order.tif, "Alo");
            assert!(!modifies[0].order.is_buy);
        }
        _ => panic!("not a modify"),
    }
}

#[test]
fn positions_are_parsed() {
    let x = client();
    let state = json(
        r#"{"assetPositions":[
            {"position":{"coin":"BTC","szi":"9"}},
            {"position":{"coin":"XYZ100","szi":"-0.25","unrealizedPnl":"1.5","entryPx":"24000.5","marginUsed":"7"}},
            {"position":{"coin":"xyz:XYZ100","szi":"8"}}]}"#,
    );
    let (szi, pnl, entry, margin) = x.parse_position(&state);
    assert_eq!((f(szi), f(pnl), entry.map(f), f(margin)), (-0.25, 1.5, Some(24000.5), 7.0));
    let zero_entry = json(
        r#"{"assetPositions":[{"position":{"coin":"xyz:XYZ100","szi":"x","entryPx":"0"}}]}"#,
    );
    let (szi, pnl, entry, margin) = x.parse_position(&zero_entry);
    assert_eq!((f(szi), f(pnl), entry.map(f), f(margin)), (0.0, 0.0, None, 0.0));
    let (szi, _, entry, _) = x.parse_position(&json("{}"));
    assert_eq!((f(szi), entry.map(f)), (0.0, None));
    let suffix = json(r#"{"assetPositions":[{"position":{"coin":"100","szi":"4"}}]}"#);
    assert_eq!(f(x.parse_position(&suffix).0), 4.0);
}

#[test]
fn equity_is_parsed() {
    let e = |t: &str| f(HyperLiquidExchange::parse_equity(&json(t)));
    assert_eq!(e(r#"{"marginSummary":{"accountValue":"12.5"}}"#), 12.5);
    assert_eq!(
        e(r#"{"marginSummary":{"accountValue":"0"},"crossMarginSummary":{"accountValue":"3"}}"#),
        3.0
    );
    assert_eq!(e(r#"{"marginSummary":{"accountValue":7}}"#), 0.0);
    assert_eq!(e("[]"), 0.0);
}

#[test]
fn answers_to_orders_are_parsed() {
    let reqs = vec![order(true, 1.0, 2.0), order(false, 1.0, 3.0)];
    let parse = |t: &str| HyperLiquidExchange::parse_bulk_result(&json(t), &reqs);
    let statuses = |t: &str| {
        parse(&format!(
            r#"{{"status":"ok","response":{{"data":{{"statuses":[{}]}}}}}}"#,
            t
        ))
    };
    let b = statuses(r#"{"resting":{"oid":11}},{"resting":{"oid":12}},{"resting":{"oid":13}}"#);
    assert_eq!((b.buy_oids, b.sell_oids), (vec![11], vec![12, 13]));
    assert_eq!((b.margin_errs, b.first_error), (0, None));
    let b = statuses(
        r#"{"error":"INSUFFICIENT Margin now"},{"error":"Other"},{"error":"insufficient margin"}"#,
    );
    assert_eq!(b.margin_errs, 2);
    assert_eq!(b.first_error.as_deref(), Some("INSUFFICIENT Margin now"));
    let b = statuses(r#""success","waitingForFill""#);
    assert_eq!(b.first_error.as_deref(), Some("waitingForFill"));
    let b = statuses(r#"{"filled":{"oid":5, "totalSz": "1"}}"#);
    assert_eq!(b.first_error.as_deref(), Some(r#"{"filled":{"oid":5,"totalSz":"1"}}"#));
    let b = statuses(r#"{"resting":{"oid":"x"}}"#);
    assert_eq!((b.buy_oids.len(), b.first_error), (0, None));
    let b = parse(r#"{"status":"err","response":"bad"}"#);
    assert_eq!(b.first_error.as_deref(), Some(r#"{"response":"bad","status":"err"}"#));
    let b = parse(r#"{"status":"ok","response":{}}"#);
    assert_eq!(b.first_error.as_deref(), Some(r#"{"response":{},"status":"ok"}"#));
    assert!(is_countable(&json("{}")));
}

#[test]
fn assets_are_found() {
    let dexs = vec![None, Some("km".to_string()), None, Some("xyz".to_string())];
    assert_eq!(find_dex_offset(&dexs, "km"), Some(110_000));
    assert_eq!(find_dex_offset(&dexs, "xyz"), Some(130_000));
    assert_eq!(find_dex_offset(&dexs, ""), Some(0));
    assert_eq!(find_dex_offset(&dexs, "abc"), None);
    assert_eq!(find_dex_offset(&vec![], "km"), None);
    assert_eq!(find_dex_offset(&vec![Some("km".to_string())], "km"), None);
    let names: Vec<String> =
        ["xyz:A", "B", "km:GOLD", "xyz:XYZ100"].iter().map(|s| s.to_string()).collect();
    assert_eq!(find_asset(&names, 130_000, "xyz:XYZ100", "XYZ100"), Some(130_003));
    assert_eq!(find_asset(&names, 0, "xyz:GOLD", "GOLD"), Some(2));
    assert_eq!(find_asset(&names, 0, "xyz:B", "B"), Some(1));
    assert_eq!(find_asset(&names, 5, "xyz:C", "C"), None);
    assert_eq!(unknown_dex_text("abc"), "perp dex 'abc' not found in perpDexs");
    assert_eq!(
        unknown_asset_text("xyz:C", "xyz"),
        "asset xyz:C not found in meta universe for dex 'xyz'"
    );
    assert_eq!(
        unknown_asset_text("C", ""),
        "asset C not found in meta universe for dex '<default>'"
    );
}

#[test]
fn failed_answers_are_told() {
    assert_eq!(
        http_failure_text("502 Bad Gateway", "http://x", " a \n b "),
        "HTTP 502 Bad Gateway from http://x: a b"
    );
    assert_eq!(
        bad_answer_text("http://x", "EOF", "{ }"),
        "Invalid JSON from http://x: EOF | body: { }"
    );
}

fn members(v: Vec<(String, String)>) -> String {
    v.iter().map(|(k, x)| format!("{}={};", k, x)).collect()
}

#[test]
fn questions_name_the_dex_only_where_there_is_one() {
    let mut x = HyperLiquidExchange::new(&config_with(KEY), 0).unwrap();
    x.account_address = "0xab".to_string();
    x.symbol = "xyz:XYZ100".to_string();
    x.perp_dex = "xyz".to_string();
    assert_eq!(members(dexes_request()), "type=perpDexs;");
    assert_eq!(members(assets_request("xyz")), "type=meta;dex=xyz;");
    assert_eq!(members(assets_request("")), "type=meta;");
    assert_eq!(members(x.l2_snapshot()), "type=l2Book;coin=xyz:XYZ100;");
    assert_eq!(members(x.user_state()), "type=clearinghouseState;user=0xab;");
    assert_eq!(members(x.user_state_dex()), "type=clearinghouseState;user=0xab;dex=xyz;");
    assert_eq!(members(x.open_orders()), "type=openOrders;user=0xab;dex=xyz;");
    x.perp_dex = String::new();
    assert_eq!(members(x.user_state_dex()), members(x.user_state()));
    assert_eq!(members(x.open_orders()), "type=openOrders;user=0xab;");
}
