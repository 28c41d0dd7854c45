//! What the bot is told: the tokens that can be traded and the parameters of the trading.
use vstd::prelude::*;

use crate::double::{of_int, quotient, zero, Double};
use crate::text::{
    chars_of, has_prefix, lower_text, lowercase, same_text, starts_with, string_of, trim, trimmed,
};

verus! {

// ---- the parameters -----------------------------------------------------------------

/// Token info for the web interface
#[derive(Clone, Debug)]
pub struct TokenInfo {
    pub name: String,
    pub symbol: String,
    pub default_leverage: Double,
    pub default_order_size_usd: Double,
}

/// Token-specific configuration
#[derive(Clone, Debug)]
pub struct TokenConfig {
    pub symbol: String,
    pub tick_size: Double,
    pub min_size: Double,
    pub order_size_usd: Double,
    pub target_leverage: Double,
    pub num_levels: usize,
    pub level_multipliers: Vec<Double>,
}

/// Risk parameters
#[derive(Clone, Copy, Debug, PartialEq, Eq, Structural)]
pub struct RiskConfig {
    pub stop_loss_usd: Double,
    pub session_pnl_kill: Double,
    pub min_fills_kill: u64,
    pub cost_m_kill: Double,
    pub cost_m_min_vol: Double,
    /// Close the position at the market if the unrealized loss exceeds this fraction of the
    /// notional.
    pub hedge_loss_pct: Double,
    /// Stop posting orders that build inventory if its notional exceeds this.
    pub position_cap_usd: Double,
    /// Seconds after a fill at which its markout is sampled.
    pub markout_sample_sec: Double,
    /// A fill is adverse if the price moved against it by more than this many ticks.
    pub markout_threshold_ticks: Double,
    /// Half-life of a fill's weight in the markout score, in seconds.
    pub markout_halflife_sec: Double,
}

/// Spread & grid parameters
#[derive(Clone, Copy, Debug, PartialEq, Eq, Structural)]
pub struct SpreadConfig {
    pub min_spread_ticks: Double,
    pub base_spread_ticks: Double,
    pub max_spread_ticks: Double,
    pub skew_factor: Double,
    pub level_tick_spacing: u32,
    /// Ticks by which a wholly one-sided book shifts the reservation price.
    pub imbalance_weight: Double,
}

/// Timing parameters (in seconds)
#[derive(Clone, Copy, Debug, PartialEq, Eq, Structural)]
pub struct TimingConfig {
    /// Microseconds.
    pub refresh_fast_us: u64,
    pub refresh_normal_us: u64,
    pub refresh_slow_us: u64,
    pub api_sync_sec: Double,
    pub drift_ticks: u32,
    pub urgent_drift_ticks: u32,
    pub periodic_sync_sec: Double,
    pub rt_wait_sec: Double,
    pub max_quote_ttl: Double,
    pub feed_stale_sec: Double,
    pub vol_window: usize,
}

/// Margin management
#[derive(Clone, Copy, Debug, PartialEq, Eq, Structural)]
pub struct MarginConfig {
    pub reject_cooldown: Double,
    pub reject_decay: Double,
    pub recovery_step: Double,
    pub min_size_scale: Double,
    pub close_cooldown: Double,
}

/// Adaptive spread by round trips
#[derive(Clone, Copy, Debug, PartialEq, Eq, Structural)]
pub struct RtAdaptConfig {
    pub min_fills_for_adapt: u64,
    pub widen_threshold_ratio: Double,
    pub widen_threshold_profit: Double,
}

/// Directional signal overlay for quote skewing
#[derive(Clone, Copy, Debug, PartialEq, Eq, Structural)]
pub struct SignalConfig {
    pub enabled: bool,
    pub min_history: usize,
    pub ema_fast: usize,
    pub ema_slow: usize,
    pub bollinger_window: usize,
    pub bollinger_stddev: Double,
    pub macd_fast: usize,
    pub macd_slow: usize,
    pub macd_signal: usize,
    pub rsi_period: usize,
    pub vwap_window: usize,
    pub max_fair_skew_ticks: Double,
    pub side_size_skew: Double,
    pub side_size_floor: Double,
}

/// Momentum filter: pauses quoting during strong directional moves
#[derive(Clone, Copy, Debug, PartialEq, Eq, Structural)]
pub struct MomentumConfig {
    pub enabled: bool,
    /// Number of recent price samples to look at
    pub lookback: usize,
    /// Directional move threshold in ticks to trigger a pause
    pub min_move_ticks: Double,
    /// How long to stay out of the market after a trend is detected (seconds)
    pub pause_sec: Double,
}

/// Avellaneda-Stoikov model parameters
#[derive(Clone, Copy, Debug, PartialEq, Eq, Structural)]
pub struct AsModelConfig {
    /// Risk aversion: scales both inventory skew and spread width.
    pub gamma: Double,
    /// Market order arrival intensity: the higher, the tighter the spread.
    pub kappa: Double,
    /// Session horizon in seconds; the time left counts down and starts anew.
    pub t_secs: Double,
    /// Rolling window for the price-change variance estimate.
    pub sigma_window: usize,
    /// Session stop-loss: end the session if the profit falls below minus this.
    pub max_loss_usd: Double,
    /// Flatten inventory at the market at the end of a horizon if its notional exceeds this.
    pub flatten_threshold_usd: Double,
    /// Notional of one unit of inventory risk; where it is not positive, inventory counts in
    /// units of the asset.
    pub risk_unit_usd: Double,
}

/// Logarithms of the parameters, which the caller computes.
#[derive(Clone, Copy, Debug, PartialEq, Eq, Structural)]
pub struct LogTerms {
    /// The decimal logarithm of the tick size.
    pub tick_log10: Double,
    /// The decimal logarithm of the smallest order size.
    pub min_size_log10: Double,
    /// The natural logarithm of `1 + gamma / kappa`.
    pub arrival_ln: Double,
}

/// Full bot configuration
#[derive(Clone, Debug)]
pub struct Config {
    pub agent_private_key: String,
    pub account_address: String,
    pub base_url: String,
    pub token: TokenConfig,
    pub risk: RiskConfig,
    pub spread: SpreadConfig,
    pub timing: TimingConfig,
    pub margin: MarginConfig,
    pub rt_adapt: RtAdaptConfig,
    pub signals: SignalConfig,
    pub as_model: AsModelConfig,
    pub momentum: MomentumConfig,
    pub logs: LogTerms,
}

// ---- derived parameters ---------------------------------------------------------------

/// The number of decimals of a step of the given size and decimal logarithm: none for steps
/// of one and more.
pub open spec fn decimals(step: Double, log10: Double) -> u32 {
    if of_int(1).at_most(step) {
        0
    } else {
        log10.floored().negated().saturated(0, u32::MAX as int) as u32
    }
}

fn decimals_of(step: Double, log10: Double) -> (r: u32)
    ensures
        r == decimals(step, log10),
{
    if step.ge(Double::from_u64(1)) {
        0
    } else {
        log10.floor().negate().to_u32()
    }
}

/// The place after the last `c`, or the start where there is none.
pub open spec fn after_last(s: Seq<char>, c: char) -> int
    decreases s.len(),
{
    if s.len() == 0 {
        0
    } else if s.last() == c {
        s.len() as int
    } else {
        after_last(s.drop_last(), c)
    }
}

/// The part of a symbol after the last colon: the whole of it where there is none.
pub open spec fn base_of(symbol: Seq<char>) -> Seq<char> {
    symbol.skip(after_last(symbol, ':'))
}

/// The part of a symbol after the last colon.
pub fn base_name(symbol: &str) -> (r: String)
    ensures
        r@ == base_of(symbol@),
{
    let v = chars_of(symbol);
    let mut i: usize = v.len();
    assert(v@.take(i as int) == v@);
    while i > 0 && v[i - 1] != ':'
        invariant
            i <= v@.len(),
            after_last(v@, ':') == after_last(v@.take(i as int), ':'),
        decreases i,
    {
        assert(v@.take(i as int).drop_last() == v@.take(i - 1));
        i = i - 1;
    }
    let mut r: Vec<char> = Vec::new();
    let start: usize = i;
    while i < v.len()
        invariant
            start <= i <= v@.len(),
            r@ == v@.subrange(start as int, i as int),
        decreases v@.len() - i,
    {
        r.push(v[i]);
        i = i + 1;
    }
    assert(v@.subrange(start as int, v@.len() as int) == v@.skip(start as int));
    string_of(&r)
}

/// The dex on which a symbol trades.
pub open spec fn dex_of(symbol: Seq<char>) -> Seq<char> {
    if has_prefix(symbol, "xyz:"@) {
        "xyz"@
    } else {
        "km"@
    }
}

impl Config {
    /// Derived: number of price decimals from the tick size
    pub fn price_decimals(&self) -> (r: u32)
        ensures
            r == decimals(self.token.tick_size, self.logs.tick_log10),
    {
        decimals_of(self.token.tick_size, self.logs.tick_log10)
    }

    /// Derived: number of size decimals from the smallest size
    pub fn size_decimals(&self) -> (r: u32)
        ensures
            r == decimals(self.token.min_size, self.logs.min_size_log10),
    {
        decimals_of(self.token.min_size, self.logs.min_size_log10)
    }

    /// Derived: perp dex identifier
    pub fn perp_dex(&self) -> (r: &'static str)
        ensures
            r@ == dex_of(self.token.symbol@),
    {
        if starts_with(self.token.symbol.as_str(), "xyz:") {
            "xyz"
        } else {
            "km"
        }
    }

    /// Derived: base coin name (after the colon)
    pub fn base_coin(&self) -> (r: String)
        ensures
            r@ == base_of(self.token.symbol@),
    {
        base_name(self.token.symbol.as_str())
    }
}

// ---- the tokens -------------------------------------------------------------------------

/// A token as mathematical values.
#[verifier::ext_equal]
pub struct TokenView {
    pub symbol: Seq<char>,
    pub tick_size: Double,
    pub min_size: Double,
    pub order_size_usd: Double,
    pub target_leverage: Double,
    pub num_levels: int,
    pub level_multipliers: Seq<Double>,
}

impl View for TokenConfig {
    type V = TokenView;

    open spec fn view(&self) -> TokenView {
        TokenView {
            symbol: self.symbol@,
            tick_size: self.tick_size,
            min_size: self.min_size,
            order_size_usd: self.order_size_usd,
            target_leverage: self.target_leverage,
            num_levels: self.num_levels as int,
            level_multipliers: self.level_multipliers@,
        }
    }
}

/// A name with the token that it stands for.
#[verifier::ext_equal]
pub struct EntryView {
    pub name: Seq<char>,
    pub token: TokenView,
}

/// A name with the token that it stands for.
#[derive(Clone, Debug)]
pub struct TokenEntry {
    pub name: String,
    pub token: TokenConfig,
}

impl View for TokenEntry {
    type V = EntryView;

    open spec fn view(&self) -> EntryView {
        EntryView { name: self.name@, token: self.token@ }
    }
}

pub open spec fn entry_views(s: Seq<TokenEntry>) -> Seq<EntryView> {
    s.map_values(|e: TokenEntry| e@)
}

pub open spec fn token_view(
    name: Seq<char>,
    symbol: Seq<char>,
    tick_size: Double,
    min_size: Double,
    order_size_usd: Double,
    target_leverage: Double,
    level_multipliers: Seq<Double>,
) -> EntryView {
    EntryView {
        name,
        token: TokenView {
            symbol,
            tick_size,
            min_size,
            order_size_usd,
            target_leverage,
            num_levels: level_multipliers.len() as int,
            level_multipliers,
        },
    }
}

/// The tokens that can be traded: name, symbol, tick size, smallest size, order size,
/// leverage, and the size multiplier of each level.
pub open spec fn token_table() -> Seq<EntryView> {
    seq![
        token_view(
            "US500"@,
            "km:US500"@,
            quotient(1, 100),
            quotient(1, 100),
            of_int(80),
            of_int(25),
            seq![quotient(15, 10), quotient(1, 1), quotient(7, 10), quotient(3, 10)],
        ),
        token_view(
            "USTECH"@,
            "km:USTECH"@,
            quotient(1, 100),
            quotient(1, 100),
            of_int(80),
            of_int(20),
            seq![quotient(15, 10), quotient(1, 1), quotient(7, 10), quotient(3, 10)],
        ),
        token_view(
            "USOIL"@,
            "km:USOIL"@,
            quotient(1, 100),
            quotient(1, 100),
            of_int(60),
            of_int(20),
            seq![quotient(15, 10), quotient(1, 1), quotient(5, 10)],
        ),
        token_view(
            "GOLD"@,
            "km:GOLD"@,
            quotient(1, 100),
            quotient(1, 100),
            of_int(60),
            of_int(22),
            seq![quotient(15, 10), quotient(1, 1), quotient(5, 10)],
        ),
        token_view(
            "BTC"@,
            "km:BTC"@,
            quotient(1, 100),
            quotient(1, 1000),
            of_int(80),
            of_int(25),
            seq![quotient(15, 10), quotient(1, 1), quotient(7, 10), quotient(3, 10)],
        ),
        token_view(
            "SILVER"@,
            "xyz:SILVER"@,
            quotient(1, 1000),
            quotient(1, 100),
            of_int(70),
            of_int(20),
            seq![quotient(1, 1), quotient(5, 10)],
        ),
        token_view(
            "GOLD_XYZ"@,
            "xyz:GOLD"@,
            quotient(1, 100),
            quotient(1, 100),
            of_int(70),
            of_int(20),
            seq![quotient(1, 1), quotient(5, 10)],
        ),
        token_view(
            "XYZ100"@,
            "xyz:XYZ100"@,
            quotient(1, 1),
            quotient(1, 10000),
            of_int(300),
            of_int(30),
            seq![quotient(1, 1), quotient(25, 100)],
        ),
        token_view(
            "CL"@,
            "xyz:CL"@,
            quotient(1, 100),
            quotient(1, 100),
            of_int(50),
            of_int(20),
            seq![quotient(1, 1), quotient(25, 100)],
        ),
        token_view(
            "COPPER"@,
            "xyz:COPPER"@,
            quotient(1, 10000),
            quotient(1, 10),
            of_int(60),
            of_int(20),
            seq![quotient(15, 10), quotient(1, 1), quotient(5, 10)],
        ),
        token_view(
            "PLTR"@,
            "xyz:PLTR"@,
            quotient(1, 100),
            quotient(1, 10),
            of_int(60),
            of_int(10),
            seq![quotient(15, 10), quotient(1, 1), quotient(5, 10)],
        ),
        token_view(
            "TSLA"@,
            "xyz:TSLA"@,
            quotient(1, 100),
            quotient(1, 100),
            of_int(80),
            of_int(10),
            seq![quotient(15, 10), quotient(1, 1), quotient(7, 10), quotient(3, 10)],
        ),
        token_view(
            "BRENTOIL"@,
            "xyz:BRENTOIL"@,
            quotient(1, 100),
            quotient(1, 100),
            of_int(60),
            of_int(20),
            seq![quotient(15, 10), quotient(1, 1), quotient(5, 10)],
        ),
        token_view(
            "SP500"@,
            "xyz:SP500"@,
            quotient(1, 10),
            quotient(1, 100),
            of_int(50),
            of_int(50),
            seq![quotient(15, 10), quotient(1, 1)],
        ),
    ]
}

fn push_token(
    m: &mut Vec<TokenEntry>,
    name: &str,
    symbol: &str,
    tick_size: Double,
    min_size: Double,
    order_size_usd: u64,
    target_leverage: u64,
    level_multipliers: Vec<Double>,
)
    ensures
        entry_views(final(m)@) == entry_views(old(m)@).push(
            token_view(
                name@,
                symbol@,
                tick_size,
                min_size,
                of_int(order_size_usd as int),
                of_int(target_leverage as int),
                level_multipliers@,
            ),
        ),
{
    let num_levels: usize = level_multipliers.len();
    let ghost before = m@;
    let e = TokenEntry {
        name: name.to_owned(),
        token: TokenConfig {
            symbol: symbol.to_owned(),
            tick_size,
            min_size,
            order_size_usd: Double::from_u64(order_size_usd),
            target_leverage: Double::from_u64(target_leverage),
            num_levels,
            level_multipliers,
        },
    };
    let ghost v = e@;
    m.push(e);
    assert(entry_views(m@) == entry_views(before).push(v));
}

/// The tokens that can be traded.
pub fn available_tokens() -> (m: Vec<TokenEntry>)
    ensures
        entry_views(m@) == token_table(),
{
    let mut m: Vec<TokenEntry> = Vec::new();
    assert(entry_views(m@) == Seq::<EntryView>::empty());
    push_token(
        &mut m,
        "US500",
        "km:US500",
        Double::ratio(1, 100),
        Double::ratio(1, 100),
        80,
        25,
        vec![Double::ratio(15, 10), Double::ratio(1, 1), Double::ratio(7, 10), Double::ratio(3, 10)],
    );
    push_token(
        &mut m,
        "USTECH",
        "km:USTECH",
        Double::ratio(1, 100),
        Double::ratio(1, 100),
        80,
        20,
        vec![Double::ratio(15, 10), Double::ratio(1, 1), Double::ratio(7, 10), Double::ratio(3, 10)],
    );
    push_token(
        &mut m,
        "USOIL",
        "km:USOIL",
        Double::ratio(1, 100),
        Double::ratio(1, 100),
        60,
        20,
        vec![Double::ratio(15, 10), Double::ratio(1, 1), Double::ratio(5, 10)],
    );
    push_token(
        &mut m,
        "GOLD",
        "km:GOLD",
        Double::ratio(1, 100),
        Double::ratio(1, 100),
        60,
        22,
        vec![Double::ratio(15, 10), Double::ratio(1, 1), Double::ratio(5, 10)],
    );
    push_token(
        &mut m,
        "BTC",
        "km:BTC",
        Double::ratio(1, 100),
        Double::ratio(1, 1000),
        80,
        25,
        vec![Double::ratio(15, 10), Double::ratio(1, 1), Double::ratio(7, 10), Double::ratio(3, 10)],
    );
    push_token(
        &mut m,
        "SILVER",
        "xyz:SILVER",
        Double::ratio(1, 1000),
        Double::ratio(1, 100),
        70,
        20,
        vec![Double::ratio(1, 1), Double::ratio(5, 10)],
    );
    push_token(
        &mut m,
        "GOLD_XYZ",
        "xyz:GOLD",
        Double::ratio(1, 100),
        Double::ratio(1, 100),
        70,
        20,
        vec![Double::ratio(1, 1), Double::ratio(5, 10)],
    );
    push_token(
        &mut m,
        "XYZ100",
        "xyz:XYZ100",
        Double::ratio(1, 1),
        Double::ratio(1, 10000),
        300,
        30,
        vec![Double::ratio(1, 1), Double::ratio(25, 100)],
    );
    push_token(
        &mut m,
        "CL",
        "xyz:CL",
        Double::ratio(1, 100),
        Double::ratio(1, 100),
        50,
        20,
        vec![Double::ratio(1, 1), Double::ratio(25, 100)],
    );
    push_token(
        &mut m,
        "COPPER",
        "xyz:COPPER",
        Double::ratio(1, 10000),
        Double::ratio(1, 10),
        60,
        20,
        vec![Double::ratio(15, 10), Double::ratio(1, 1), Double::ratio(5, 10)],
    );
    push_token(
        &mut m,
        "PLTR",
        "xyz:PLTR",
        Double::ratio(1, 100),
        Double::ratio(1, 10),
        60,
        10,
        vec![Double::ratio(15, 10), Double::ratio(1, 1), Double::ratio(5, 10)],
    );
    push_token(
        &mut m,
        "TSLA",
        "xyz:TSLA",
        Double::ratio(1, 100),
        Double::ratio(1, 100),
        80,
        10,
        vec![Double::ratio(15, 10), Double::ratio(1, 1), Double::ratio(7, 10), Double::ratio(3, 10)],
    );
    push_token(
        &mut m,
        "BRENTOIL",
        "xyz:BRENTOIL",
        Double::ratio(1, 100),
        Double::ratio(1, 100),
        60,
        20,
        vec![Double::ratio(15, 10), Double::ratio(1, 1), Double::ratio(5, 10)],
    );
    push_token(
        &mut m,
        "SP500",
        "xyz:SP500",
        Double::ratio(1, 10),
        Double::ratio(1, 100),
        50,
        50,
        vec![Double::ratio(15, 10), Double::ratio(1, 1)],
    );
    m
}

impl TokenConfig {
    /// A copy of the token.
    pub fn duplicate(&self) -> (r: TokenConfig)
        ensures
            r@ == self@,
    {
        TokenConfig {
            symbol: self.symbol.clone(),
            tick_size: self.tick_size,
            min_size: self.min_size,
            order_size_usd: self.order_size_usd,
            target_leverage: self.target_leverage,
            num_levels: self.num_levels,
            level_multipliers: copy_doubles(&self.level_multipliers),
        }
    }
}

fn copy_doubles(v: &Vec<Double>) -> (r: Vec<Double>)
    ensures
        r@ == v@,
{
    let mut r: Vec<Double> = Vec::new();
    for i in 0..v.len()
        invariant
            r@ == v@.take(i as int),
    {
        r.push(v[i]);
        assert(v@.take(i + 1) == v@.take(i as int).push(v@[i as int]));
    }
    assert(v@.take(v@.len() as int) == v@);
    r
}

/// The token of the first entry with the given name.
pub open spec fn lookup(s: Seq<EntryView>, name: Seq<char>) -> Option<TokenView>
    decreases s.len(),
{
    if s.len() == 0 {
        None
    } else if s[0].name == name {
        Some(s[0].token)
    } else {
        lookup(s.skip(1), name)
    }
}

/// The token with the given name.
pub fn find_token(tokens: &Vec<TokenEntry>, name: &str) -> (r: Option<TokenConfig>)
    ensures
        r is Some <==> lookup(entry_views(tokens@), name@) is Some,
        r matches Some(t) ==> t@ == lookup(entry_views(tokens@), name@)->0,
{
    let ghost all = entry_views(tokens@);
    assert(all.skip(0) == all);
    let mut i: usize = 0;
    while i < tokens.len()
        invariant
            all == entry_views(tokens@),
            i <= tokens@.len(),
            lookup(all, name@) == lookup(all.skip(i as int), name@),
        decreases tokens@.len() - i,
    {
        assert(all.skip(i as int)[0] == tokens@[i as int]@);
        assert(all.skip(i as int).skip(1) == all.skip(i + 1));
        if same_text(tokens[i].name.as_str(), name) {
            return Some(tokens[i].token.duplicate());
        }
        i = i + 1;
    }
    None
}

/// Token info as mathematical values.
#[verifier::ext_equal]
pub struct InfoView {
    pub name: Seq<char>,
    pub symbol: Seq<char>,
    pub default_leverage: Double,
    pub default_order_size_usd: Double,
}

impl View for TokenInfo {
    type V = InfoView;

    open spec fn view(&self) -> InfoView {
        InfoView {
            name: self.name@,
            symbol: self.symbol@,
            default_leverage: self.default_leverage,
            default_order_size_usd: self.default_order_size_usd,
        }
    }
}

pub open spec fn info_of(e: EntryView) -> InfoView {
    InfoView {
        name: e.name,
        symbol: e.token.symbol,
        default_leverage: e.token.target_leverage,
        default_order_size_usd: e.token.order_size_usd,
    }
}

/// What the web interface shows of the tokens, in the order of the table.
pub fn token_info_list() -> (r: Vec<TokenInfo>)
    ensures
        r@.map_values(|t: TokenInfo| t@) == token_table().map_values(|e: EntryView| info_of(e)),
{
    let tokens = available_tokens();
    let ghost all = token_table();
    let mut r: Vec<TokenInfo> = Vec::new();
    for i in 0..tokens.len()
        invariant
            entry_views(tokens@) == all,
            r@.len() == i,
            forall|j: int| 0 <= j < i ==> (#[trigger] r@[j])@ == info_of(all[j]),
    {
        let t = &tokens[i].token;
        assert(all[i as int] == tokens@[i as int]@);
        r.push(
            TokenInfo {
                name: tokens[i].name.clone(),
                symbol: t.symbol.clone(),
                default_leverage: t.target_leverage,
                default_order_size_usd: t.order_size_usd,
            },
        );
    }
    assert(r@.map_values(|t: TokenInfo| t@) =~= all.map_values(|e: EntryView| info_of(e)));
    r
}

// ---- the default configuration ------------------------------------------------------------

pub open spec fn default_risk() -> RiskConfig {
    RiskConfig {
        stop_loss_usd: quotient(1, 2),
        session_pnl_kill: of_int(-3),
        min_fills_kill: 30,
        cost_m_kill: of_int(35),
        cost_m_min_vol: of_int(60_000),
        hedge_loss_pct: quotient(5, 100),
        position_cap_usd: of_int(300),
        markout_sample_sec: of_int(2),
        markout_threshold_ticks: of_int(3),
        markout_halflife_sec: of_int(180),
    }
}

pub open spec fn default_spread() -> SpreadConfig {
    SpreadConfig {
        min_spread_ticks: of_int(3),
        base_spread_ticks: of_int(3),
        max_spread_ticks: of_int(14),
        skew_factor: of_int(8),
        level_tick_spacing: 2,
        imbalance_weight: zero(),
    }
}

pub open spec fn default_timing() -> TimingConfig {
    TimingConfig {
        refresh_fast_us: 60,
        refresh_normal_us: 120,
        refresh_slow_us: 250,
        api_sync_sec: of_int(3),
        drift_ticks: 8,
        urgent_drift_ticks: 15,
        periodic_sync_sec: of_int(30),
        rt_wait_sec: quotient(35, 10),
        max_quote_ttl: of_int(30),
        feed_stale_sec: of_int(8),
        vol_window: 64,
    }
}

pub open spec fn default_margin() -> MarginConfig {
    MarginConfig {
        reject_cooldown: of_int(6),
        reject_decay: quotient(85, 100),
        recovery_step: quotient(15, 1000),
        min_size_scale: quotient(2, 10),
        close_cooldown: of_int(3),
    }
}

pub open spec fn default_rt_adapt() -> RtAdaptConfig {
    RtAdaptConfig {
        min_fills_for_adapt: 3,
        widen_threshold_ratio: quotient(65, 100),
        widen_threshold_profit: quotient(2, 100),
    }
}

pub open spec fn default_signals() -> SignalConfig {
    SignalConfig {
        enabled: false,
        min_history: 20,
        ema_fast: 5,
        ema_slow: 15,
        bollinger_window: 14,
        bollinger_stddev: quotient(12, 10),
        macd_fast: 6,
        macd_slow: 14,
        macd_signal: 5,
        rsi_period: 8,
        vwap_window: 16,
        max_fair_skew_ticks: zero(),
        side_size_skew: zero(),
        side_size_floor: of_int(1),
    }
}

pub open spec fn default_momentum() -> MomentumConfig {
    MomentumConfig {
        enabled: false,
        lookback: 20,
        min_move_ticks: of_int(8),
        pause_sec: of_int(30),
    }
}

pub open spec fn default_as_model() -> AsModelConfig {
    AsModelConfig {
        gamma: quotient(1, 1000),
        kappa: quotient(15, 10),
        t_secs: of_int(600),
        sigma_window: 64,
        max_loss_usd: of_int(5),
        flatten_threshold_usd: of_int(20),
        risk_unit_usd: zero(),
    }
}

/// The default configuration of a token, for the given key and account as the environment
/// holds them: the account is trimmed and put in lower case. The logarithms are those of the
/// token and of `default_arrival_argument`.
pub fn default_config(
    token: TokenConfig,
    agent_private_key: String,
    account: &str,
    logs: LogTerms,
) -> (r: Config)
    ensures
        r.agent_private_key@ == agent_private_key@,
        r.account_address@ == lowercase(trimmed(account@)),
        r.base_url@ == "https://api.hyperliquid.xyz"@,
        r.token == token,
        r.risk == default_risk(),
        r.spread == default_spread(),
        r.timing == default_timing(),
        r.margin == default_margin(),
        r.rt_adapt == default_rt_adapt(),
        r.signals == default_signals(),
        r.as_model == default_as_model(),
        r.momentum == default_momentum(),
        r.logs == logs,
{
    let cut = trim(account);
    Config {
        agent_private_key,
        account_address: lower_text(cut.as_str()),
        base_url: "https://api.hyperliquid.xyz".to_owned(),
        token,
        risk: RiskConfig {
            stop_loss_usd: Double::ratio(1, 2),
            session_pnl_kill: Double::from_i32(-3),
            min_fills_kill: 30,
            cost_m_kill: Double::from_u64(35),
            cost_m_min_vol: Double::from_u64(60_000),
            hedge_loss_pct: Double::ratio(5, 100),
            position_cap_usd: Double::from_u64(300),
            markout_sample_sec: Double::from_u64(2),
            markout_threshold_ticks: Double::from_u64(3),
            markout_halflife_sec: Double::from_u64(180),
        },
        spread: SpreadConfig {
            min_spread_ticks: Double::from_u64(3),
            base_spread_ticks: Double::from_u64(3),
            max_spread_ticks: Double::from_u64(14),
            skew_factor: Double::from_u64(8),
            level_tick_spacing: 2,
            imbalance_weight: Double::zero(),
        },
        timing: TimingConfig {
            refresh_fast_us: 60,
            refresh_normal_us: 120,
            refresh_slow_us: 250,
            api_sync_sec: Double::from_u64(3),
            drift_ticks: 8,
            urgent_drift_ticks: 15,
            periodic_sync_sec: Double::from_u64(30),
            rt_wait_sec: Double::ratio(35, 10),
            max_quote_ttl: Double::from_u64(30),
            feed_stale_sec: Double::from_u64(8),
            vol_window: 64,
        },
        margin: MarginConfig {
            reject_cooldown: Double::from_u64(6),
            reject_decay: Double::ratio(85, 100),
            recovery_step: Double::ratio(15, 1000),
            min_size_scale: Double::ratio(2, 10),
            close_cooldown: Double::from_u64(3),
        },
        rt_adapt: RtAdaptConfig {
            min_fills_for_adapt: 3,
            widen_threshold_ratio: Double::ratio(65, 100),
            widen_threshold_profit: Double::ratio(2, 100),
        },
        signals: SignalConfig {
            enabled: false,
            min_history: 20,
            ema_fast: 5,
            ema_slow: 15,
            bollinger_window: 14,
            bollinger_stddev: Double::ratio(12, 10),
            macd_fast: 6,
            macd_slow: 14,
            macd_signal: 5,
            rsi_period: 8,
            vwap_window: 16,
            max_fair_skew_ticks: Double::zero(),
            side_size_skew: Double::zero(),
            side_size_floor: Double::from_u64(1),
        },
        as_model: AsModelConfig {
            gamma: Double::ratio(1, 1000),
            kappa: Double::ratio(15, 10),
            t_secs: Double::from_u64(600),
            sigma_window: 64,
            max_loss_usd: Double::from_u64(5),
            flatten_threshold_usd: Double::from_u64(20),
            risk_unit_usd: Double::zero(),
        },
        momentum: MomentumConfig {
            enabled: false,
            lookback: 20,
            min_move_ticks: Double::from_u64(8),
            pause_sec: Double::from_u64(30),
        },
        logs,
    }
}

/// `1 + gamma / kappa`, whose logarithm sets the part of the spread that does not depend on
/// the variance.
pub open spec fn arrival_argument(gamma: Double, kappa: Double) -> Double {
    of_int(1).plus(gamma.over(kappa))
}

/// The argument of the logarithm that `default_config` asks for.
pub fn default_arrival_argument() -> (r: Double)
    ensures
        r == arrival_argument(default_as_model().gamma, default_as_model().kappa),
{
    Double::from_u64(1).add(Double::ratio(1, 1000).div(Double::ratio(15, 10)))
}

} // verus!
