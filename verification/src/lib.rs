//! Deterministic market microstructure simulation: LOBSTER replay and
//! validation, a price-time priority matching engine, a seeded co-location
//! latency race and strategy experiments, with their laws.
pub mod market_events;
pub mod text;
pub mod fields;
pub mod ladder;
pub mod sides;
pub mod orderbook;
pub mod matching_engine;
pub mod replay_engine;
pub mod lobster_parser;
pub mod validator;
pub mod latency_sim;
pub mod analytics;
pub mod strategies;
pub mod lab;
pub mod matching_laws;
pub mod book_laws;
pub mod quantity_laws;
pub mod row_laws;
