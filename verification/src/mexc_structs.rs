//! The shapes of the exchange's wire messages, as plain data.

use vstd::prelude::*;

verus! {

/// A request to subscribe one connection to a batch of channels.
pub struct MexcSubscribeMessage {
    pub method: String,
    pub params: Vec<String>,
}

/// The exchange's answer to a subscribe request.
pub struct MexcSubscribeResponseMessage {
    pub id: i64,
    pub code: i64,
    pub msg: String,
}

/// One bar as the live feed carries it: bucket start `t`, prices and volumes as
/// decimal text, bucket end `t_0` and the interval tag `i`.
pub struct MexcKlineData {
    pub t: i64,
    pub o: String,
    pub c: String,
    pub h: String,
    pub l: String,
    pub v: String,
    pub a: String,
    pub t_0: i64,
    pub i: String,
}

pub struct MexcKlineDataRoot {
    pub e: String,
    pub k: MexcKlineData,
}

/// A live kline update: channel `c`, event time `t`, symbol `s` and the bar.
pub struct MexcKlineMessage {
    pub d: MexcKlineDataRoot,
    pub c: String,
    pub t: i64,
    pub s: String,
}

pub struct MexcExchangeInfoElem {
    pub symbol: String,
    pub status: String,
    pub base_asset: String,
    pub base_asset_precision: i64,
    pub quote_asset: String,
    pub quote_precision: i64,
    pub quote_asset_precision: i64,
    pub base_commission_precision: i64,
    pub quote_commission_precision: i64,
    pub order_types: Vec<String>,
    pub is_spot_trading_allowed: bool,
    pub is_margin_trading_allowed: bool,
    pub quote_amount_precision: String,
    pub base_size_precision: String,
    pub permissions: Vec<String>,
    pub max_quote_amount: String,
    pub maker_commission: String,
    pub taker_commission: String,
    pub quote_amount_precision_market: String,
    pub max_quote_amount_market: String,
    pub full_name: String,
}

pub struct MexcExchangeInfo {
    pub timezone: String,
    pub server_time: i64,
    pub symbols: Vec<MexcExchangeInfoElem>,
}

/// One historical bar as a history page carries it: open time, open, high,
/// low, close and volume as decimal text, close time, quote volume.
pub type MexcKlineBar = (u64, String, String, String, String, String, u64, String);

/// One page of history, oldest bar first.
pub type MexcKlineResponse = Vec<MexcKlineBar>;

} // verus!
