//! One symbol's series of candles and the rule by which an update joins it.

use vstd::prelude::*;
use crate::kline::Kline;
use crate::mexc_structs::MexcKlineMessage;

verus! {

/// Strictly ascending by time: no two candles share a bucket.
pub open spec fn ascending(s: Seq<Kline>) -> bool {
    forall|i: int, j: int| 0 <= i < j < s.len() ==> s[i].time < s[j].time
}

/// What became of an update.
#[derive(Clone, Copy, Debug, PartialEq, Eq, Structural)]
pub enum MergeOutcome {
    /// The series was empty and now holds the update alone.
    Created,
    /// The update revised the open bar, in place.
    Replaced,
    /// The update opened a new bar behind the last one.
    Appended,
    /// The update is older than the last bar and was left out.
    OutOfOrder,
}

/// The outcome that the merge rule assigns to `candle` on series `s`.
pub open spec fn outcome_of(s: Seq<Kline>, candle: Kline) -> MergeOutcome {
    if s.len() == 0 {
        MergeOutcome::Created
    } else if candle.time == s.last().time {
        MergeOutcome::Replaced
    } else if candle.time > s.last().time {
        MergeOutcome::Appended
    } else {
        MergeOutcome::OutOfOrder
    }
}

/// The merge rule: series `s` after `candle` has been offered to it.
pub open spec fn merged(s: Seq<Kline>, candle: Kline) -> Seq<Kline> {
    match outcome_of(s, candle) {
        MergeOutcome::Created => seq![candle],
        MergeOutcome::Replaced => s.drop_last().push(candle),
        MergeOutcome::Appended => s.push(candle),
        MergeOutcome::OutOfOrder => s,
    }
}

/// The series after each of `updates` has been offered to it in turn.
pub open spec fn merged_all(s: Seq<Kline>, updates: Seq<Kline>) -> Seq<Kline>
    decreases updates.len(),
{
    if updates.len() == 0 {
        s
    } else {
        merged(merged_all(s, updates.drop_last()), updates.last())
    }
}

/// Offering the same update twice in a row leaves the series as offering it once.
pub proof fn lemma_merge_idempotent(s: Seq<Kline>, candle: Kline)
    ensures
        merged(merged(s, candle), candle) == merged(s, candle),
{
    let once = merged(s, candle);
    if outcome_of(s, candle) != MergeOutcome::OutOfOrder {
        assert(once.last() == candle);
        assert(once.drop_last().push(candle) =~= once);
    }
}

/// An ascending series stays ascending whatever update is offered to it.
pub proof fn lemma_merge_keeps_ascending(s: Seq<Kline>, candle: Kline)
    requires
        ascending(s),
    ensures
        ascending(merged(s, candle)),
{
}

/// An ascending series stays ascending under any sequence of updates.
pub proof fn lemma_merges_keep_ascending(s: Seq<Kline>, updates: Seq<Kline>)
    requires
        ascending(s),
    ensures
        ascending(merged_all(s, updates)),
    decreases updates.len(),
{
    if updates.len() > 0 {
        lemma_merges_keep_ascending(s, updates.drop_last());
        lemma_merge_keeps_ascending(merged_all(s, updates.drop_last()), updates.last());
    }
}

/// An update older than the last bar leaves the series as it was.
pub proof fn lemma_out_of_order_is_ignored(s: Seq<Kline>, candle: Kline)
    requires
        s.len() > 0,
        candle.time < s.last().time,
    ensures
        merged(s, candle) == s,
{
}

/// An update for the open bar keeps the length and becomes the last element;
/// a later one adds an element behind all that were there.
pub proof fn lemma_replace_or_append(s: Seq<Kline>, candle: Kline)
    requires
        s.len() > 0,
        candle.time >= s.last().time,
    ensures
        merged(s, candle).last() == candle,
        candle.time == s.last().time ==> merged(s, candle).len() == s.len() && merged(
            s,
            candle,
        ).drop_last() == s.drop_last(),
        candle.time > s.last().time ==> merged(s, candle).len() == s.len() + 1 && merged(
            s,
            candle,
        ).drop_last() == s,
{
    if candle.time == s.last().time {
        assert(merged(s, candle).drop_last() =~= s.drop_last());
    } else {
        assert(merged(s, candle).drop_last() =~= s);
    }
}

/// Offers `candle` to the series: it starts an empty series, revises the last
/// bar when it has the same time, opens a new bar when it is later, and is
/// left out when it is earlier.
pub fn merge_candle(series: &mut Vec<Kline>, candle: Kline) -> (r: MergeOutcome)
    ensures
        final(series)@ == merged(old(series)@, candle),
        r == outcome_of(old(series)@, candle),
{
    let n = series.len();
    if n == 0 {
        series.push(candle);
        assert(series@ =~= seq![candle]);
        return MergeOutcome::Created;
    }
    let last_time = series[n - 1].time;
    if candle.time == last_time {
        series.set(n - 1, candle);
        assert(series@ =~= old(series)@.drop_last().push(candle));
        MergeOutcome::Replaced
    } else if candle.time > last_time {
        series.push(candle);
        MergeOutcome::Appended
    } else {
        MergeOutcome::OutOfOrder
    }
}

/// Offers the candle of a live update to the series, by the merge rule.
pub fn insert_kline_in_pool(klines: &mut Vec<Kline>, data: &MexcKlineMessage)
    ensures
        final(klines)@ == merged(old(klines)@, Kline::of_message(data)),
{
    let candle = Kline::new(data);
    let _ = merge_candle(klines, candle);
}

/// Whether the candles are strictly ascending by time.
pub fn is_ascending(candles: &Vec<Kline>) -> (r: bool)
    ensures
        r == ascending(candles@),
{
    let n = candles.len();
    let mut i: usize = 1;
    while i < n
        invariant
            n == candles.len(),
            1 <= i,
            forall|a: int, b: int| 0 <= a < b < i && b < n ==> candles[a].time < candles[b].time,
        decreases n - i,
    {
        if candles[i - 1].time >= candles[i].time {
            return false;
        }
        proof {
            assert forall|a: int, b: int| 0 <= a < b < i + 1 && b < n implies candles[a].time
                < candles[b].time by {
                if b == i && a < i - 1 {
                    assert(candles[a].time < candles[i - 1].time);
                }
            }
        }
        i += 1;
    }
    true
}

} // verus!
