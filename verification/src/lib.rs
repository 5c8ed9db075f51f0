//! Candlestick ingestion for an exchange feed: a per-symbol candle store with
//! an append-or-update merge rule, a backward-paginating history cursor, a
//! sharder that splits the symbol universe over connections and subscribe
//! frames, and the dispatcher that routes live messages into the store.

pub mod decimal;
pub mod mexc_structs;
pub mod kline;
pub mod series;
pub mod store;
pub mod sharder;
pub mod backfill;
pub mod dispatcher;
pub mod query;
