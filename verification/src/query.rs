//! The query of a history page request.

use vstd::prelude::*;
use vstd::string::*;
use crate::backfill::PageRequest;
use crate::decimal::{decimal_digits, number_text};

verus! {

/// A signed number written in decimal digits, with `-` in front of a
/// negative one.
pub open spec fn signed_digits(n: int) -> Seq<char> {
    if n < 0 {
        seq!['-'] + decimal_digits((-n) as nat)
    } else {
        decimal_digits(n as nat)
    }
}

/// The text of a query: for each pair in order its key, `=`, its value, `&`.
pub open spec fn query_text(pairs: Seq<(Seq<char>, Seq<char>)>) -> Seq<char>
    decreases pairs.len(),
{
    if pairs.len() == 0 {
        Seq::empty()
    } else {
        query_text(pairs.drop_last()) + pairs.last().0 + seq!['='] + pairs.last().1 + seq!['&']
    }
}

/// The pairs as texts.
pub open spec fn pair_views(pairs: Seq<(String, String)>) -> Seq<(Seq<char>, Seq<char>)> {
    Seq::new(pairs.len(), |i: int| (pairs[i].0@, pairs[i].1@))
}

/// The pairs of a history request: symbol, interval and limit, and behind
/// them each bound of the window that the request names, the start before
/// the end.
pub open spec fn history_pairs(symbol: Seq<char>, interval: Seq<char>, request: PageRequest) -> Seq<
    (Seq<char>, Seq<char>),
> {
    let head = seq![
        ("symbol"@, symbol),
        ("interval"@, interval),
        ("limit"@, decimal_digits(request.limit as nat)),
    ];
    let from = match request.start_time {
        Some(start) => head.push(("startTime"@, signed_digits(start as int))),
        None => head,
    };
    match request.end_time {
        Some(end) => from.push(("endTime"@, signed_digits(end as int))),
        None => from,
    }
}

/// `querystring::stringify`: folds the pairs, in order, into one text, adding
/// for each its key, `=`, its value and `&`. The text ends in `&` unless
/// there is no pair.
#[verifier::external_body]
fn stringify(pairs: &Vec<(String, String)>) -> (r: String)
    ensures
        r@ == query_text(pair_views(pairs@)),
{
    let borrowed: Vec<(&str, &str)> = pairs.iter().map(|p| (p.0.as_str(), p.1.as_str())).collect();
    querystring::stringify(borrowed)
}

/// Writes a signed number in decimal digits, with its sign where it is
/// negative.
pub fn signed_text(n: i128) -> (r: String)
    ensures
        r@ == signed_digits(n as int),
{
    if n < 0 {
        let magnitude: u128 = (-(n + 1)) as u128 + 1;
        let mut text = String::from_str("-");
        text.append(number_text(magnitude).as_str());
        proof {
            reveal_strlit("-");
            assert(text@ =~= signed_digits(n as int));
        }
        text
    } else {
        number_text(n as u128)
    }
}

fn pair(key: &str, value: String) -> (r: (String, String))
    ensures
        r.0@ == key@,
        r.1@ == value@,
{
    (String::from_str(key), value)
}

/// The query of the request for one page of the history of `symbol` at
/// `interval`.
pub fn history_query(symbol: &str, interval: &str, request: &PageRequest) -> (r: String)
    ensures
        r@ == query_text(history_pairs(symbol@, interval@, *request)),
{
    let mut pairs: Vec<(String, String)> = Vec::new();
    pairs.push(pair("symbol", String::from_str(symbol)));
    pairs.push(pair("interval", String::from_str(interval)));
    pairs.push(pair("limit", number_text(request.limit as u128)));
    match request.start_time {
        Some(start) => {
            pairs.push(pair("startTime", signed_text(start)));
        },
        None => {},
    }
    match request.end_time {
        Some(end) => {
            pairs.push(pair("endTime", signed_text(end)));
        },
        None => {},
    }
    assert(pair_views(pairs@) =~= history_pairs(symbol@, interval@, *request));
    stringify(&pairs)
}

} // verus!
