pub mod answer_laws;
pub mod api;
pub mod bot;
pub mod bounds;
pub mod config;
pub mod console;
pub mod dashboard;
pub mod decimal;
pub mod double;
pub mod exchange;
pub mod fill_laws;
pub mod fills;
pub mod flow_laws;
pub mod grid_laws;
pub mod guard_laws;
pub mod iteration;
pub mod json;
pub mod laws;
pub mod market;
pub mod market_laws;
pub mod markout;
pub mod markout_laws;
pub mod matching_laws;
pub mod message_laws;
pub mod model_laws;
pub mod order;
pub mod parse;
pub mod quoting;
pub mod record_laws;
pub mod risk;
pub mod risk_laws;
pub mod round_laws;
pub mod shown_laws;
pub mod signing;
pub mod size_laws;
pub mod spacing_laws;
pub mod strategy;
pub mod strategy_laws;
pub mod text;
pub mod ticks;
pub mod trading;
pub mod types;
pub mod websocket;
pub mod wire_laws;
