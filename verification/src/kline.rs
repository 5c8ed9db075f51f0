//! The candle: one bar of a symbol's series.

use vstd::prelude::*;
use crate::decimal::{Decimal, parse_or_zero_spec};
use crate::mexc_structs::{MexcKlineMessage, MexcKlineBar};

verus! {

/// One OHLCV sample for the time bucket that starts at `time`. The time is
/// held wide enough for every bucket start of both wire shapes, the signed one
/// of live updates and the unsigned one of history bars.
#[derive(Clone, Copy, Debug, PartialEq, Eq, Structural)]
pub struct Kline {
    pub time: i128,
    pub open: Decimal,
    pub high: Decimal,
    pub low: Decimal,
    pub close: Decimal,
    pub volume: Decimal,
}

impl Kline {
    /// The candle that a live update carries.
    pub open spec fn of_message(data: &MexcKlineMessage) -> Kline {
        Kline {
            time: data.d.k.t as i128,
            open: parse_or_zero_spec(data.d.k.o@),
            high: parse_or_zero_spec(data.d.k.h@),
            low: parse_or_zero_spec(data.d.k.l@),
            close: parse_or_zero_spec(data.d.k.c@),
            volume: parse_or_zero_spec(data.d.k.v@),
        }
    }

    /// The candle that one bar of a history page carries.
    pub open spec fn of_bar(bar: &MexcKlineBar) -> Kline {
        Kline {
            time: bar.0 as i128,
            open: parse_or_zero_spec(bar.1@),
            high: parse_or_zero_spec(bar.2@),
            low: parse_or_zero_spec(bar.3@),
            close: parse_or_zero_spec(bar.4@),
            volume: parse_or_zero_spec(bar.5@),
        }
    }

    /// Derives the candle from a live update, whatever its bucket start: each
    /// price and the volume is read as an exact decimal, and as zero where
    /// its text denotes none.
    pub fn new(data: &MexcKlineMessage) -> (r: Kline)
        ensures
            r == Kline::of_message(data),
    {
        Kline {
            time: data.d.k.t as i128,
            open: Decimal::parse_or_zero(data.d.k.o.as_str()),
            high: Decimal::parse_or_zero(data.d.k.h.as_str()),
            low: Decimal::parse_or_zero(data.d.k.l.as_str()),
            close: Decimal::parse_or_zero(data.d.k.c.as_str()),
            volume: Decimal::parse_or_zero(data.d.k.v.as_str()),
        }
    }

    /// Derives the candle from one bar of a history page: each price and the
    /// volume is read as an exact decimal, and as zero where its text denotes
    /// none.
    pub fn from_bar(bar: &MexcKlineBar) -> (r: Kline)
        ensures
            r == Kline::of_bar(bar),
    {
        Kline {
            time: bar.0 as i128,
            open: Decimal::parse_or_zero(bar.1.as_str()),
            high: Decimal::parse_or_zero(bar.2.as_str()),
            low: Decimal::parse_or_zero(bar.3.as_str()),
            close: Decimal::parse_or_zero(bar.4.as_str()),
            volume: Decimal::parse_or_zero(bar.5.as_str()),
        }
    }
}

} // verus!
