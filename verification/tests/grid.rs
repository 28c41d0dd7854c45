//! How the quotes are ordered, and what moves them.
use hft_mm::config::{available_tokens, default_config, find_token, Config, LogTerms};
use hft_mm::double::Double;
use hft_mm::exchange::{compact_body, float_to_wire};
use hft_mm::parse::read_double;
use hft_mm::risk::{apply_position_limits, RefreshReason};
use hft_mm::strategy::{as_quotes, calculate_levels, round_to_decimals};
use hft_mm::text::trim;
use hft_mm::types::{Bbo, MmState, OrderLevel, Side, VolRegime};

fn d(x: f64) -> Double {
    Double::from_bits(x.to_bits())
}

fn f(x: Double) -> f64 {
    f64::from_bits(x.to_bits())
}

fn config(name: &str) -> Config {
    let token = find_token(&available_tokens(), name).unwrap();
    let logs = LogTerms {
        tick_log10: d(f(token.tick_size).log10()),
        min_size_log10: d(f(token.min_size).log10()),
        arrival_ln: d((1.0f64 + 0.001 / 1.5).ln()),
    };
    default_config(token, "key".to_string(), "0xabc", logs)
}

fn book(mid: f64) -> Bbo {
    Bbo { best_bid: d(mid - 1.0), best_ask: d(mid + 1.0), mid: d(mid) }
}

fn state(mid: f64) -> MmState {
    let mut s = MmState::new(0);
    s.bbo = Some(book(mid));
    s.ewma_variance = d(0.5);
    s.t_remaining_secs = d(300.0);
    s
}

#[test]
fn bids_fall_and_asks_rise_on_either_side_of_the_market() {
    let c = config("XYZ100");
    let mut found = 0;
    for mid in [24000.0, 24000.37, 19999.995, 123456.78] {
        for q in [-0.4, 0.0, 0.3] {
            let s = state(mid);
            let (bids, asks, _) = calculate_levels(&book(mid), d(q), &c, &s);
            for w in bids.windows(2) {
                assert!(f(w[1].price) < f(w[0].price));
            }
            for w in asks.windows(2) {
                assert!(f(w[0].price) < f(w[1].price));
            }
            for b in &bids {
                for a in &asks {
                    assert!(f(b.price) < f(a.price));
                    found += 1;
                }
            }
        }
    }
    assert!(found > 0);
}

#[test]
fn more_inventory_never_raises_a_quote() {
    let c = config("XYZ100");
    let s = state(24000.0);
    let held = [-3.0, -0.5, 0.0, 0.001, 0.5, 2.0];
    for w in held.windows(2) {
        let (b1, a1, t1) = calculate_levels(&book(24000.0), d(w[0]), &c, &s);
        let (b2, a2, t2) = calculate_levels(&book(24000.0), d(w[1]), &c, &s);
        assert_eq!((b1.len(), a1.len(), t1), (b2.len(), a2.len(), t2));
        assert!(!b1.is_empty());
        for (x, y) in b1.iter().zip(&b2).chain(a1.iter().zip(&a2)) {
            assert_eq!(x.size, y.size);
            assert!(f(y.price) <= f(x.price));
        }
    }
    let far = |q: f64| f(calculate_levels(&book(24000.0), d(q), &c, &s).0[0].price);
    assert!(far(2.0) < far(-3.0));
}

#[test]
fn the_spread_stays_within_the_configured_bounds_in_every_regime() {
    let mut c = config("XYZ100");
    c.spread.min_spread_ticks = d(12.0);
    c.spread.max_spread_ticks = d(14.0);
    for regime in [VolRegime::Low, VolRegime::Normal, VolRegime::High, VolRegime::Extreme] {
        for v in [1e-12, 0.5, 1e6] {
            let mut s = state(24000.0);
            s.vol_regime = regime;
            s.ewma_variance = d(v);
            let (_, _, ticks) = calculate_levels(&book(24000.0), d(0.0), &c, &s);
            assert!((24..=28).contains(&ticks));
        }
    }
}

#[test]
fn time_and_rare_arrivals_widen_the_spread() {
    let delta = |t: f64, kappa: f64| {
        let ln = (1.0f64 + 0.01 / kappa).ln();
        f(as_quotes(d(100.0), d(1.0), d(2.0), d(t), d(0.01), d(ln)).1)
    };
    for w in [1.0, 1.5, 60.0, 599.0, 600.0].windows(2) {
        assert!(delta(w[0], 1.5) < delta(w[1], 1.5));
    }
    for w in [0.1, 0.5, 1.5, 20.0].windows(2) {
        assert!(delta(60.0, w[1]) < delta(60.0, w[0]));
    }
    let flat = as_quotes(d(100.0), d(0.0), d(2.0), d(60.0), d(0.01), d(0.1));
    assert_eq!(f(flat.0), 100.0);
    let other = as_quotes(d(55.0), d(-7.0), d(2.0), d(60.0), d(0.01), d(0.1));
    assert_eq!(flat.1, other.1);
}

fn grid(buy: bool) -> Vec<OrderLevel> {
    let step = if buy { -2.0 } else { 2.0 };
    (0..5)
        .map(|i| OrderLevel {
            price: d(24000.0 + step * (i as f64 + 1.0)),
            size: d(0.01 + 0.004 * i as f64),
        })
        .collect()
}

#[test]
fn limits_never_improve_a_quote() {
    let c = config("XYZ100");
    for position in [-0.01, 0.0, 0.01] {
        for score in [0.0, 0.35, 0.6, 1.0] {
            for buys in [5usize, 7, 9] {
                let mut s = state(24000.0);
                s.position = d(position);
                s.markout_score = d(score);
                for i in 0..10 {
                    let side = if i < buys { Side::Buy } else { Side::Sell };
                    s.recent_fill_sides.push_back((side, d(1.0)));
                }
                let (mut bids, mut asks) = (grid(true), grid(false));
                let reason = RefreshReason::Initial;
                apply_position_limits(&c, &s, &mut bids, &mut asks, &reason, d(9.0));
                let mut next = 0;
                for l in &bids {
                    let i = (next..5).find(|&i| f(l.size) <= f(grid(true)[i].size)).unwrap();
                    assert!(f(l.price) <= f(grid(true)[i].price));
                    next = i + 1;
                }
                next = 0;
                for l in &asks {
                    let i = (next..5).find(|&i| f(l.size) <= f(grid(false)[i].size)).unwrap();
                    assert!(f(l.price) >= f(grid(false)[i].price));
                    next = i + 1;
                }
                if position <= 0.0 {
                    assert_eq!(bids.len(), 5);
                    assert!(bids.iter().zip(grid(true)).all(|(a, b)| a.price == b.price));
                }
                if position >= 0.0 {
                    assert!(asks.iter().zip(grid(false)).all(|(a, b)| a.size == b.size));
                }
            }
        }
    }
}

#[test]
fn multiples_of_a_tick_come_out_exactly() {
    for n in [1u64, 3, 29, 2_400_037, 99_999_999, 562_949_953_421_311] {
        for places in [0u32, 1, 2, 5] {
            let tick = 1.0 / 10f64.powi(places as i32);
            let price = f(round_to_decimals(d(n as f64 * tick), places));
            assert_eq!(price, n as f64 / 10f64.powi(places as i32));
        }
    }
}

#[test]
fn what_is_sent_reads_back_within_half_a_decimal() {
    for x in [0.0, -0.0, 0.1, -2.5, 123456.789, 0.123456785, 1e-9, -4e-9, 6e-9, 24000.37] {
        let text = float_to_wire(d(x));
        let back = f(read_double(&text).unwrap());
        assert!((back - x).abs() <= 0.5e-8 + x.abs() * 1e-15);
        assert!(!text.ends_with('.') && text != "-0");
        assert!(!text.contains('.') || !text.ends_with('0'));
    }
    assert_eq!(float_to_wire(d(-4e-9)), "0");
    assert_eq!(float_to_wire(d(6e-9)), "0.00000001");
}

#[test]
fn white_space_is_that_of_the_standard() {
    let spaces = "\t\n\u{b}\u{c}\r \u{85}\u{a0}\u{1680}\u{2000}\u{200a}\u{2028}\u{2029}\u{202f}\u{205f}\u{3000}";
    assert_eq!(trim(&format!("{}x y{}", spaces, spaces)), "x y");
    assert_eq!(trim("\u{200b}x\u{feff}"), "\u{200b}x\u{feff}");
    assert_eq!(compact_body(&format!("a{}b\tc\r\n", spaces)), "a b c");
}

#[test]
fn levels_two_ticks_apart_are_all_quoted() {
    let mut c = config("XYZ100");
    c.token.tick_size = d(0.01);
    c.logs.tick_log10 = d(0.01f64.log10());
    c.token.num_levels = 6;
    c.token.level_multipliers = vec![d(1.0); 6];
    c.token.order_size_usd = d(5000.0);
    c.spread.min_spread_ticks = d(23.0);
    c.spread.max_spread_ticks = d(23.0);
    c.spread.level_tick_spacing = 2;
    for mid in [89.33, 4946.86, 18681.89, 4288.71] {
        let mut s = state(mid);
        s.ewma_variance = d(1e-18);
        let mut last = (f64::INFINITY, f64::INFINITY);
        for q in [-1.0, 0.0, 1.0] {
            let (bids, asks, ticks) = calculate_levels(&book(mid), d(q), &c, &s);
            assert_eq!((bids.len(), asks.len(), ticks), (6, 6, 46));
            let now = (f(bids[5].price), f(asks[5].price));
            assert!(now.0 <= last.0 && now.1 <= last.1);
            last = now;
        }
    }
    // At a spacing of one tick rounding can put two levels on the same one.
    c.spread.level_tick_spacing = 1;
    let mut s = state(89.33);
    s.ewma_variance = d(1e-18);
    assert!(calculate_levels(&book(89.33), d(0.0), &c, &s).0.len() < 6);
}

#[test]
fn quotes_are_close_to_exact_ones() {
    // All factors are small integers over powers of two, so that the model is exact.
    let (r, delta) = as_quotes(d(100.0), d(1.5), d(0.25), d(64.0), d(0.5), d(0.75));
    assert_eq!((f(r), f(delta)), (88.0, 5.5));
    let (r, _) = as_quotes(d(100.0), d(0.3), d(0.7), d(11.0), d(0.1), d(0.1));
    assert!((f(r) - (100.0 - 0.231)).abs() < 1e-13);
}
