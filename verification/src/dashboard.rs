//! What the terminal shows of a session: texts and their colours.
use vstd::prelude::*;

use crate::config::Config;
use crate::decimal::{fixed, push_fixed, push_signed_fixed, signed_fixed};
use crate::double::{of_int, quotient, zero, Double};
use crate::text::{digits, push_i32, push_u64, signed_digits};
use crate::types::{mean, share, MmModel, MmState, Stats};

verus! {

// ---- pieces of text ------------------------------------------------------------------------------

/// A colour of text.
#[derive(Clone, Copy, Debug, PartialEq, Eq, Structural)]
pub enum Tint {
    Cyan,
    Yellow,
    Green,
    Red,
    White,
    DarkGray,
}

/// A piece of coloured text.
#[derive(Debug)]
pub struct Piece {
    pub text: String,
    pub tint: Tint,
    pub bold: bool,
}

/// A piece of coloured text, as characters.
#[verifier::ext_equal]
pub struct PieceView {
    pub text: Seq<char>,
    pub tint: Tint,
    pub bold: bool,
}

impl View for Piece {
    type V = PieceView;

    open spec fn view(&self) -> PieceView {
        PieceView { text: self.text@, tint: self.tint, bold: self.bold }
    }
}

pub open spec fn piece_views(s: Seq<Piece>) -> Seq<PieceView> {
    s.map_values(|p: Piece| p@)
}

pub open spec fn line_views(s: Seq<Vec<Piece>>) -> Seq<Seq<PieceView>> {
    s.map_values(|l: Vec<Piece>| piece_views(l@))
}

pub open spec fn plain(text: Seq<char>, tint: Tint) -> PieceView {
    PieceView { text, tint, bold: false }
}

pub open spec fn bold(text: Seq<char>, tint: Tint) -> PieceView {
    PieceView { text, tint, bold: true }
}

fn push_piece(line: &mut Vec<Piece>, text: String, tint: Tint, bold: bool)
    ensures
        piece_views(final(line)@) == piece_views(old(line)@).push(
            PieceView { text: text@, tint, bold },
        ),
{
    let ghost before = line@;
    let p = Piece { text, tint, bold };
    let ghost v = p@;
    line.push(p);
    assert(piece_views(line@) =~= piece_views(before).push(v));
}

fn push_line(lines: &mut Vec<Vec<Piece>>, line: Vec<Piece>)
    ensures
        line_views(final(lines)@) == line_views(old(lines)@).push(piece_views(line@)),
{
    let ghost before = lines@;
    let ghost v = piece_views(line@);
    lines.push(line);
    assert(line_views(lines@) =~= line_views(before).push(v));
}

/// A line that starts with a label.
fn labelled_line(label: &str) -> (r: Vec<Piece>)
    ensures
        piece_views(r@) == seq![plain(label@, Tint::DarkGray)],
{
    let mut line: Vec<Piece> = Vec::new();
    push_piece(&mut line, label.to_owned(), Tint::DarkGray, false);
    assert(piece_views(line@) =~= seq![plain(label@, Tint::DarkGray)]);
    line
}

/// A number behind a dollar sign.
pub open spec fn dollars(x: Double, k: nat) -> Seq<char> {
    "$"@ + fixed(x, k)
}

fn dollar_text(x: Double, k: usize) -> (r: String)
    requires
        k <= 8,
    ensures
        r@ == dollars(x, k as nat),
{
    let mut s = "$".to_owned();
    push_fixed(&mut s, x, k);
    s
}

/// Green for what is not negative, red for the rest.
pub open spec fn gain_tint(x: Double) -> Tint {
    if zero().at_most(x) {
        Tint::Green
    } else {
        Tint::Red
    }
}

fn tint_of_gain(x: Double) -> (r: Tint)
    ensures
        r == gain_tint(x),
{
    if x.ge(Double::zero()) {
        Tint::Green
    } else {
        Tint::Red
    }
}

// ---- the title -------------------------------------------------------------------------------------

/// The title line.
pub open spec fn title_of(symbol: Seq<char>) -> Seq<PieceView> {
    seq![
        bold(" HFT MM v1.0 | "@ + symbol + " "@, Tint::Cyan),
        bold(" [Rust] "@, Tint::Yellow),
        plain(" Ctrl+C to stop "@, Tint::DarkGray),
    ]
}

/// The title line.
pub fn title_line(config: &Config) -> (r: Vec<Piece>)
    ensures
        piece_views(r@) == title_of(config.token.symbol@),
{
    let mut line: Vec<Piece> = Vec::new();
    let mut text = " HFT MM v1.0 | ".to_owned();
    text.push_str(config.token.symbol.as_str());
    text.push_str(" ");
    push_piece(&mut line, text, Tint::Cyan, true);
    push_piece(&mut line, " [Rust] ".to_owned(), Tint::Yellow, true);
    push_piece(&mut line, " Ctrl+C to stop ".to_owned(), Tint::DarkGray, false);
    assert(piece_views(line@) =~= title_of(config.token.symbol@));
    line
}

// ---- the statistics ----------------------------------------------------------------------------------

/// The colour of a cost per million.
pub open spec fn cost_tint(cost: Double) -> Tint {
    if cost.less(of_int(100)) {
        Tint::Green
    } else if cost.less(of_int(200)) {
        Tint::Yellow
    } else {
        Tint::Red
    }
}

/// The row of the statistics: symbol, cost per million, volume, fees, and profit.
pub open spec fn stats_of(symbol: Seq<char>, stats: Stats) -> Seq<PieceView> {
    let cost = stats.cost_per_million_spec();
    seq![
        plain(symbol, Tint::White),
        plain(dollars(cost, 1), cost_tint(cost)),
        plain(dollars(stats.total_volume, 2), Tint::Green),
        plain(dollars(stats.total_fees, 4), Tint::Yellow),
        plain("$"@ + signed_fixed(stats.session_pnl, 4), gain_tint(stats.session_pnl)),
    ]
}

/// The row of the statistics.
pub fn stats_row(config: &Config, state: &MmState) -> (r: Vec<Piece>)
    ensures
        piece_views(r@) == stats_of(config.token.symbol@, state.stats),
{
    let cost = state.stats.cost_per_million();
    let tint = if cost.lt(Double::from_u64(100)) {
        Tint::Green
    } else if cost.lt(Double::from_u64(200)) {
        Tint::Yellow
    } else {
        Tint::Red
    };
    let mut line: Vec<Piece> = Vec::new();
    push_piece(&mut line, config.token.symbol.clone(), Tint::White, false);
    push_piece(&mut line, dollar_text(cost, 1), tint, false);
    push_piece(&mut line, dollar_text(state.stats.total_volume, 2), Tint::Green, false);
    push_piece(&mut line, dollar_text(state.stats.total_fees, 4), Tint::Yellow, false);
    let mut pnl = "$".to_owned();
    push_signed_fixed(&mut pnl, state.stats.session_pnl, 4);
    push_piece(&mut line, pnl, tint_of_gain(state.stats.session_pnl), false);
    assert(piece_views(line@) =~= stats_of(config.token.symbol@, state.stats));
    line
}

// ---- the details -----------------------------------------------------------------------------------------

/// A time in hours, minutes and seconds; the hours only where there are any.
pub open spec fn runtime_of(elapsed: u64) -> Seq<char> {
    let tail = digits((elapsed % 3600 / 60) as nat) + "m"@ + digits((elapsed % 60) as nat) + "s"@;
    if elapsed / 3600 > 0 {
        digits((elapsed / 3600) as nat) + "h"@ + tail
    } else {
        tail
    }
}

/// A time in hours, minutes and seconds.
pub fn runtime_text(elapsed: u64) -> (r: String)
    ensures
        r@ == runtime_of(elapsed),
{
    let h: u64 = elapsed / 3600;
    let m: u64 = (elapsed % 3600) / 60;
    let s: u64 = elapsed % 60;
    let mut tail = String::new();
    push_u64(&mut tail, m);
    tail.push_str("m");
    push_u64(&mut tail, s);
    tail.push_str("s");
    assert(tail@ =~= digits(m as nat) + "m"@ + digits(s as nat) + "s"@);
    if h > 0 {
        let mut r = String::new();
        push_u64(&mut r, h);
        r.push_str("h");
        r.push_str(tail.as_str());
        assert(r@ =~= digits(h as nat) + "h"@ + tail@);
        r
    } else {
        tail
    }
}

/// A quantity per unit of time, of which the given number of seconds make one; zero at the
/// start.
pub open spec fn rate(x: Double, elapsed: u64, unit: int) -> Double {
    if elapsed > 0 {
        x.over(of_int(elapsed as int).over(of_int(unit)))
    } else {
        zero()
    }
}

fn rate_of(x: Double, elapsed: u64, unit: u64) -> (r: Double)
    ensures
        r == rate(x, elapsed, unit as int),
{
    if elapsed > 0 {
        x.div(Double::from_u64(elapsed).div(Double::from_u64(unit)))
    } else {
        Double::zero()
    }
}

/// The colour of a position.
pub open spec fn position_tint(position: Double) -> Tint {
    if position.magnitude().less(quotient(1, 1000)) {
        Tint::DarkGray
    } else if zero().less(position) {
        Tint::Green
    } else {
        Tint::Red
    }
}

/// The colour of a bias.
pub open spec fn bias_tint(bias: Double) -> Tint {
    if quotient(1, 10).less(bias) {
        Tint::Green
    } else if bias.less(quotient(1, 10).negated()) {
        Tint::Red
    } else {
        Tint::Yellow
    }
}

/// The counters from which ratios are shown do not overflow.
pub open spec fn showable(stats: Stats) -> bool {
    stats.maker_fills + stats.taker_fills <= u64::MAX && stats.rt_count * 2 <= u64::MAX
}

/// The line of the price.
pub open spec fn price_line(s: MmModel) -> Seq<PieceView> {
    seq![
        plain("  Mid Price  "@, Tint::DarkGray),
        bold(
            match s.bbo {
                Some(b) => dollars(b.mid, 4),
                None => "---"@,
            },
            Tint::White,
        ),
    ]
}

/// The line of the position.
pub open spec fn position_line(s: MmModel) -> Seq<PieceView> {
    seq![
        plain("  Position   "@, Tint::DarkGray),
        plain(signed_fixed(s.position, 6), position_tint(s.position)),
        plain("  uPnL $"@ + signed_fixed(s.unrealized_pnl, 4), gain_tint(s.unrealized_pnl)),
    ]
}

/// The line of the orders.
pub open spec fn orders_line(s: MmModel) -> Seq<PieceView> {
    seq![
        plain("  Orders     "@, Tint::DarkGray),
        plain(digits(s.buy_oids.len()) + "B"@, Tint::Green),
        plain(" / "@, Tint::DarkGray),
        plain(digits(s.sell_oids.len()) + "A"@, Tint::Red),
        plain(
            "  | Spread "@ + signed_digits(s.current_spread_ticks as int) + "t"@,
            Tint::DarkGray,
        ),
    ]
}

/// The line of the fills.
pub open spec fn fills_line(stats: Stats, elapsed: u64) -> Seq<PieceView> {
    let maker = share(stats.maker_fills, (stats.maker_fills + stats.taker_fills) as u64).times(
        of_int(100),
    );
    seq![
        plain("  Fills      "@, Tint::DarkGray),
        plain(
            digits(stats.fills_count as nat) + " ("@ + fixed(
                rate(of_int(stats.fills_count as int), elapsed, 60),
                1,
            ) + "/min) | Maker "@ + fixed(maker, 0) + "%"@,
            Tint::White,
        ),
    ]
}

/// The line of the round trips.
pub open spec fn rt_line(stats: Stats) -> Seq<PieceView> {
    seq![
        plain("  RT         "@, Tint::DarkGray),
        plain(rt_text(stats), Tint::White),
    ]
}

/// The round trips: how many, their share of the fills, and their profit.
pub open spec fn rt_text(stats: Stats) -> Seq<char> {
    digits(stats.rt_count as nat) + " ("@ + fixed(stats.rt_ratio_spec().times(of_int(100)), 0)
        + "%) | profit $"@ + fixed(stats.rt_profit, 4) + " (avg $"@ + fixed(
        mean(stats.rt_profit, stats.rt_count),
        4,
    ) + ")"@
}

/// The line of the scale.
pub open spec fn scale_line(s: MmModel) -> Seq<PieceView> {
    seq![
        plain("  Scale      "@, Tint::DarkGray),
        plain(
            fixed(s.size_scale.times(of_int(100)), 0) + "%"@,
            if quotient(9, 10).at_most(s.size_scale) {
                Tint::Green
            } else {
                Tint::Yellow
            },
        ),
        plain("  | Vol "@ + fixed(s.volatility, 4) + "%"@, Tint::DarkGray),
    ]
}

/// The line of the signals.
pub open spec fn signals_line(s: MmModel) -> Seq<PieceView> {
    seq![
        plain("  Signals    "@, Tint::DarkGray),
        plain(
            "Bias "@ + signed_fixed(s.signals.bias, 2) + " | EMA "@ + signed_fixed(
                s.signals.ema_gap_bps,
                1,
            ) + "bps | MACD "@ + signed_fixed(s.signals.macd_hist_bps, 1) + "bps | RSI "@ + fixed(
                s.signals.rsi,
                0,
            ) + " | BB z "@ + signed_fixed(s.signals.bollinger_z, 2) + " | VWAP "@ + signed_fixed(
                s.signals.quote_vwap_dev_bps,
                1,
            ) + "bps"@,
            bias_tint(s.signals.bias),
        ),
    ]
}

/// A line of a label and a text.
pub open spec fn simple_line(label: Seq<char>, text: Seq<char>, tint: Tint) -> Seq<PieceView> {
    seq![plain(label, Tint::DarkGray), plain(text, tint)]
}

/// The lines of the details, for a session that runs `elapsed` seconds.
pub open spec fn info_of(symbol: Seq<char>, leverage: Seq<char>, s: MmModel, elapsed: u64) -> Seq<
    Seq<PieceView>,
> {
    seq![
        price_line(s),
        simple_line(
            "  Vol/Hour   "@,
            dollars(rate(s.stats.total_volume, elapsed, 3600), 2),
            Tint::Cyan,
        ),
        simple_line("  Runtime    "@, runtime_of(elapsed), Tint::White),
        simple_line(
            "  Pair       "@,
            symbol + " | Lev "@ + leverage + "x"@,
            Tint::Cyan,
        ),
        position_line(s),
        orders_line(s),
        fills_line(s.stats, elapsed),
        rt_line(s.stats),
        scale_line(s),
        signals_line(s),
        simple_line("  Status     "@, s.last_status, Tint::Yellow),
    ]
}

fn make_price_line(state: &MmState) -> (r: Vec<Piece>)
    ensures
        piece_views(r@) == price_line(state@),
{
    let mut line = labelled_line("  Mid Price  ");
    let text = match state.bbo {
        Some(b) => dollar_text(b.mid, 4),
        None => "---".to_owned(),
    };
    push_piece(&mut line, text, Tint::White, true);
    assert(piece_views(line@) =~= price_line(state@));
    line
}

fn make_simple_line(label: &str, text: String, tint: Tint) -> (r: Vec<Piece>)
    ensures
        piece_views(r@) == simple_line(label@, text@, tint),
{
    let mut line = labelled_line(label);
    let ghost t = text@;
    push_piece(&mut line, text, tint, false);
    assert(piece_views(line@) =~= simple_line(label@, t, tint));
    line
}

fn make_position_line(state: &MmState) -> (r: Vec<Piece>)
    ensures
        piece_views(r@) == position_line(state@),
{
    let tint = if state.position.abs().lt(Double::ratio(1, 1000)) {
        Tint::DarkGray
    } else if state.position.gt(Double::zero()) {
        Tint::Green
    } else {
        Tint::Red
    };
    let mut line = labelled_line("  Position   ");
    let mut size = String::new();
    push_signed_fixed(&mut size, state.position, 6);
    assert(size@ =~= signed_fixed(state.position, 6));
    push_piece(&mut line, size, tint, false);
    let mut pnl = "  uPnL $".to_owned();
    push_signed_fixed(&mut pnl, state.unrealized_pnl, 4);
    push_piece(&mut line, pnl, tint_of_gain(state.unrealized_pnl), false);
    assert(piece_views(line@) =~= position_line(state@));
    line
}

fn make_orders_line(state: &MmState) -> (r: Vec<Piece>)
    ensures
        piece_views(r@) == orders_line(state@),
{
    let mut line = labelled_line("  Orders     ");
    let mut bids = String::new();
    push_u64(&mut bids, state.buy_oids.len() as u64);
    bids.push_str("B");
    assert(bids@ =~= digits(state@.buy_oids.len()) + "B"@);
    push_piece(&mut line, bids, Tint::Green, false);
    push_piece(&mut line, " / ".to_owned(), Tint::DarkGray, false);
    let mut asks = String::new();
    push_u64(&mut asks, state.sell_oids.len() as u64);
    asks.push_str("A");
    assert(asks@ =~= digits(state@.sell_oids.len()) + "A"@);
    push_piece(&mut line, asks, Tint::Red, false);
    let mut spread = "  | Spread ".to_owned();
    push_i32(&mut spread, state.current_spread_ticks);
    spread.push_str("t");
    push_piece(&mut line, spread, Tint::DarkGray, false);
    assert(piece_views(line@) =~= orders_line(state@));
    line
}

fn make_fills_line(stats: &Stats, elapsed: u64) -> (r: Vec<Piece>)
    requires
        showable(*stats),
    ensures
        piece_views(r@) == fills_line(*stats, elapsed),
{
    let fpm = rate_of(Double::from_u64(stats.fills_count), elapsed, 60);
    let maker = stats.maker_ratio().mul(Double::from_u64(100));
    let mut text = String::new();
    push_u64(&mut text, stats.fills_count);
    assert(text@ =~= digits(stats.fills_count as nat));
    text.push_str(" (");
    push_fixed(&mut text, fpm, 1);
    text.push_str("/min) | Maker ");
    push_fixed(&mut text, maker, 0);
    text.push_str("%");
    let mut line = labelled_line("  Fills      ");
    push_piece(&mut line, text, Tint::White, false);
    assert(piece_views(line@) =~= fills_line(*stats, elapsed));
    line
}

/// The round trips: how many, their share of the fills, and their profit.
pub fn rt_summary(stats: &Stats) -> (r: String)
    requires
        showable(*stats),
    ensures
        r@ == rt_text(*stats),
{
    let pct = stats.rt_ratio().mul(Double::from_u64(100));
    let avg = if stats.rt_count > 0 {
        stats.rt_profit.div(Double::from_u64(stats.rt_count))
    } else {
        Double::zero()
    };
    let mut text = String::new();
    push_u64(&mut text, stats.rt_count);
    assert(text@ =~= digits(stats.rt_count as nat));
    text.push_str(" (");
    push_fixed(&mut text, pct, 0);
    text.push_str("%) | profit $");
    push_fixed(&mut text, stats.rt_profit, 4);
    text.push_str(" (avg $");
    push_fixed(&mut text, avg, 4);
    text.push_str(")");
    text
}

fn make_rt_line(stats: &Stats) -> (r: Vec<Piece>)
    requires
        showable(*stats),
    ensures
        piece_views(r@) == rt_line(*stats),
{
    let mut line = labelled_line("  RT         ");
    push_piece(&mut line, rt_summary(stats), Tint::White, false);
    assert(piece_views(line@) =~= rt_line(*stats));
    line
}

fn make_scale_line(state: &MmState) -> (r: Vec<Piece>)
    ensures
        piece_views(r@) == scale_line(state@),
{
    let mut line = labelled_line("  Scale      ");
    let mut scale = String::new();
    push_fixed(&mut scale, state.size_scale.mul(Double::from_u64(100)), 0);
    assert(scale@ =~= fixed(state.size_scale.times(of_int(100)), 0));
    scale.push_str("%");
    let tint = if state.size_scale.ge(Double::ratio(9, 10)) {
        Tint::Green
    } else {
        Tint::Yellow
    };
    push_piece(&mut line, scale, tint, false);
    let mut vol = "  | Vol ".to_owned();
    push_fixed(&mut vol, state.volatility, 4);
    vol.push_str("%");
    push_piece(&mut line, vol, Tint::DarkGray, false);
    assert(piece_views(line@) =~= scale_line(state@));
    line
}

fn make_signals_line(state: &MmState) -> (r: Vec<Piece>)
    ensures
        piece_views(r@) == signals_line(state@),
{
    let sig = state.signals;
    let tint = if sig.bias.gt(Double::ratio(1, 10)) {
        Tint::Green
    } else if sig.bias.lt(Double::ratio(1, 10).negate()) {
        Tint::Red
    } else {
        Tint::Yellow
    };
    let mut text = "Bias ".to_owned();
    push_signed_fixed(&mut text, sig.bias, 2);
    text.push_str(" | EMA ");
    push_signed_fixed(&mut text, sig.ema_gap_bps, 1);
    text.push_str("bps | MACD ");
    push_signed_fixed(&mut text, sig.macd_hist_bps, 1);
    text.push_str("bps | RSI ");
    push_fixed(&mut text, sig.rsi, 0);
    text.push_str(" | BB z ");
    push_signed_fixed(&mut text, sig.bollinger_z, 2);
    text.push_str(" | VWAP ");
    push_signed_fixed(&mut text, sig.quote_vwap_dev_bps, 1);
    text.push_str("bps");
    let mut line = labelled_line("  Signals    ");
    push_piece(&mut line, text, tint, false);
    assert(piece_views(line@) =~= signals_line(state@));
    line
}

/// The lines of the details, for a session that runs `elapsed` seconds; the leverage is given
/// as it is written.
pub fn info_lines(config: &Config, leverage: &str, state: &MmState, elapsed: u64) -> (r: Vec<
    Vec<Piece>,
>)
    requires
        showable(state.stats),
    ensures
        line_views(r@) == info_of(config.token.symbol@, leverage@, state@, elapsed),
{
    let mut lines: Vec<Vec<Piece>> = Vec::new();
    push_line(&mut lines, make_price_line(state));
    let vph = rate_of(state.stats.total_volume, elapsed, 3600);
    push_line(
        &mut lines,
        make_simple_line("  Vol/Hour   ", dollar_text(vph, 2), Tint::Cyan),
    );
    push_line(
        &mut lines,
        make_simple_line("  Runtime    ", runtime_text(elapsed), Tint::White),
    );
    let mut pair = config.token.symbol.clone();
    pair.push_str(" | Lev ");
    pair.push_str(leverage);
    pair.push_str("x");
    push_line(&mut lines, make_simple_line("  Pair       ", pair, Tint::Cyan));
    push_line(&mut lines, make_position_line(state));
    push_line(&mut lines, make_orders_line(state));
    push_line(&mut lines, make_fills_line(&state.stats, elapsed));
    push_line(&mut lines, make_rt_line(&state.stats));
    push_line(&mut lines, make_scale_line(state));
    push_line(&mut lines, make_signals_line(state));
    push_line(
        &mut lines,
        make_simple_line("  Status     ", state.last_status.clone(), Tint::Yellow),
    );
    assert(line_views(lines@) =~= info_of(config.token.symbol@, leverage@, state@, elapsed));
    lines
}

/// Whether the ratios of some statistics can be shown.
pub fn can_show(stats: &Stats) -> (r: bool)
    ensures
        r == showable(*stats),
{
    stats.maker_fills <= 0xffff_ffff_ffff_ffff - stats.taker_fills && stats.rt_count
        <= 0x7fff_ffff_ffff_ffff
}

// ---- keys --------------------------------------------------------------------------------------------------

/// Whether a key ends the session: `q`, or `c` with the control key.
pub fn is_quit_key(key: char, control: bool) -> (r: bool)
    ensures
        r == (key == 'q' || (key == 'c' && control)),
{
    key == 'q' || (key == 'c' && control)
}

} // verus!
