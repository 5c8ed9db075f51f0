use mexc_klines::decimal::Decimal;
use mexc_klines::kline::Kline;
use mexc_klines::mexc_structs::{MexcKlineData, MexcKlineDataRoot, MexcKlineMessage};
use mexc_klines::series::{insert_kline_in_pool, is_ascending, merge_candle, MergeOutcome};
use mexc_klines::store::{BulkLoadError, CandleStore};

fn dec(mantissa: u128, scale: usize) -> Decimal {
    Decimal { mantissa, scale }
}

fn candle(time: i128, close: u128) -> Kline {
    Kline {
        time,
        open: dec(1, 0),
        high: dec(2, 0),
        low: dec(3, 0),
        close: dec(close, 0),
        volume: dec(4, 0),
    }
}

fn message(symbol: &str, time: i64, close: &str) -> MexcKlineMessage {
    MexcKlineMessage {
        d: MexcKlineDataRoot {
            e: String::from("spot@public.kline.v3.api"),
            k: MexcKlineData {
                t: time,
                o: String::from("1.5"),
                c: String::from(close),
                h: String::from("2.25"),
                l: String::from("0.75"),
                v: String::from("1000"),
                a: String::from("1500.5"),
                t_0: time.wrapping_add(60),
                i: String::from("Min1"),
            },
        },
        c: String::from("spot@public.kline.v3.api@BTCUSDT@Min1"),
        t: time.wrapping_add(1),
        s: String::from(symbol),
    }
}

#[test]
fn parse_reads_whole_numbers() {
    assert_eq!(Decimal::parse("100"), Some(dec(100, 0)));
    assert_eq!(Decimal::parse("0"), Some(dec(0, 0)));
    assert_eq!(Decimal::parse("007"), Some(dec(7, 0)));
}

#[test]
fn parse_keeps_the_fraction() {
    assert_eq!(Decimal::parse("12.5"), Some(dec(125, 1)));
    assert_eq!(Decimal::parse("0.00001234"), Some(dec(1234, 8)));
    assert_eq!(Decimal::parse("27000.10"), Some(dec(2700010, 2)));
}

#[test]
fn parse_refuses_what_is_no_decimal() {
    assert_eq!(Decimal::parse(""), None);
    assert_eq!(Decimal::parse("."), None);
    assert_eq!(Decimal::parse("1."), None);
    assert_eq!(Decimal::parse(".5"), None);
    assert_eq!(Decimal::parse("1.2.3"), None);
    assert_eq!(Decimal::parse("abc"), None);
    assert_eq!(Decimal::parse("-1"), None);
    assert_eq!(Decimal::parse("1e5"), None);
    assert_eq!(Decimal::parse(" 1"), None);
    assert_eq!(Decimal::parse("1\u{663}"), None);
}

#[test]
fn parse_holds_the_largest_mantissa_and_refuses_the_next() {
    assert_eq!(
        Decimal::parse("340282366920938463463374607431768211455"),
        Some(dec(u128::MAX, 0))
    );
    assert_eq!(Decimal::parse("340282366920938463463374607431768211456"), None);
    assert_eq!(
        Decimal::parse("3402823669209384634633746074317682.11455"),
        Some(dec(u128::MAX, 5))
    );
    assert_eq!(Decimal::parse("9999999999999999999999999999999999999999"), None);
}

#[test]
fn parse_or_zero_falls_back_to_zero() {
    assert_eq!(Decimal::parse_or_zero("x"), dec(0, 0));
    assert_eq!(Decimal::parse_or_zero("3.14"), dec(314, 2));
}

#[test]
fn kline_new_reads_the_bar_of_a_message() {
    let k = Kline::new(&message("BTCUSDT", 1700000000, "105.75"));
    assert_eq!(k.time, 1700000000);
    assert_eq!(k.open, dec(15, 1));
    assert_eq!(k.high, dec(225, 2));
    assert_eq!(k.low, dec(75, 2));
    assert_eq!(k.close, dec(10575, 2));
    assert_eq!(k.volume, dec(1000, 0));
}

#[test]
fn kline_new_keeps_every_bucket_start() {
    assert_eq!(Kline::new(&message("BTCUSDT", -1, "1")).time, -1);
    assert_eq!(Kline::new(&message("BTCUSDT", i64::MIN, "1")).time, -9223372036854775808);
    assert_eq!(Kline::new(&message("BTCUSDT", 0, "1")).time, 0);
    assert_eq!(Kline::new(&message("BTCUSDT", i64::MAX, "1")).time, 9223372036854775807);
    assert_eq!(Kline::new(&message("BTCUSDT", -1, "7.5")).close, dec(75, 1));
}

#[test]
fn kline_from_bar_keeps_the_largest_open_time() {
    let bar = (
        u64::MAX,
        String::from("1"),
        String::from("1"),
        String::from("1"),
        String::from("1"),
        String::from("1"),
        u64::MAX,
        String::from("1"),
    );
    assert_eq!(Kline::from_bar(&bar).time, 18446744073709551615);
}

#[test]
fn to_text_writes_every_place() {
    assert_eq!(dec(0, 0).to_text(), "0");
    assert_eq!(dec(100, 0).to_text(), "100");
    assert_eq!(dec(125, 1).to_text(), "12.5");
    assert_eq!(dec(2700010, 2).to_text(), "27000.10");
    assert_eq!(dec(1234, 8).to_text(), "0.00001234");
    assert_eq!(dec(5, 1).to_text(), "0.5");
    assert_eq!(dec(0, 3).to_text(), "0.000");
    assert_eq!(dec(123, 3).to_text(), "0.123");
    assert_eq!(dec(u128::MAX, 5).to_text(), "3402823669209384634633746074317682.11455");
}

#[test]
fn to_text_reads_back_as_the_same_decimal() {
    for d in [dec(0, 0), dec(7, 0), dec(7, 1), dec(7, 5), dec(1200, 2), dec(u128::MAX, 39)] {
        assert_eq!(Decimal::parse(&d.to_text()), Some(d));
    }
}

#[test]
fn kline_from_bar_reads_a_history_bar() {
    let bar = (
        1700000000u64,
        String::from("1.5"),
        String::from("2.5"),
        String::from("0.5"),
        String::from("2"),
        String::from("300.125"),
        1700000900u64,
        String::from("600.25"),
    );
    let k = Kline::from_bar(&bar);
    assert_eq!(k.time, 1700000000);
    assert_eq!(k.open, dec(15, 1));
    assert_eq!(k.high, dec(25, 1));
    assert_eq!(k.low, dec(5, 1));
    assert_eq!(k.close, dec(2, 0));
    assert_eq!(k.volume, dec(300125, 3));
}

#[test]
fn merge_starts_an_empty_series() {
    let mut series: Vec<Kline> = Vec::new();
    assert_eq!(merge_candle(&mut series, candle(10, 100)), MergeOutcome::Created);
    assert_eq!(series, vec![candle(10, 100)]);
}

#[test]
fn merge_is_idempotent() {
    let mut once = vec![candle(10, 100), candle(20, 100)];
    let mut twice = once.clone();
    merge_candle(&mut once, candle(30, 7));
    merge_candle(&mut twice, candle(30, 7));
    merge_candle(&mut twice, candle(30, 7));
    assert_eq!(once, twice);
    assert_eq!(once.len(), 3);
}

#[test]
fn open_bar_is_replaced_and_later_bar_appended() {
    let mut series = vec![candle(10, 90), candle(20, 100)];
    assert_eq!(merge_candle(&mut series, candle(20, 105)), MergeOutcome::Replaced);
    assert_eq!(series.len(), 2);
    assert_eq!(series[1].close, dec(105, 0));
    assert_eq!(series[0], candle(10, 90));
    assert_eq!(merge_candle(&mut series, candle(21, 106)), MergeOutcome::Appended);
    assert_eq!(series.len(), 3);
    assert_eq!(series[2], candle(21, 106));
}

#[test]
fn out_of_order_update_is_left_out() {
    let mut series = vec![candle(10, 90), candle(20, 100)];
    let before = series.clone();
    assert_eq!(merge_candle(&mut series, candle(19, 1)), MergeOutcome::OutOfOrder);
    assert_eq!(series, before);
}

#[test]
fn insert_kline_in_pool_follows_the_merge_rule() {
    let mut pool: Vec<Kline> = Vec::new();
    insert_kline_in_pool(&mut pool, &message("BTCUSDT", 60, "100"));
    assert_eq!(pool.len(), 1);
    insert_kline_in_pool(&mut pool, &message("BTCUSDT", 60, "105"));
    assert_eq!(pool.len(), 1);
    assert_eq!(pool[0].close, dec(105, 0));
    insert_kline_in_pool(&mut pool, &message("BTCUSDT", 120, "106"));
    assert_eq!(pool.len(), 2);
    insert_kline_in_pool(&mut pool, &message("BTCUSDT", 60, "1"));
    assert_eq!(pool.len(), 2);
    assert_eq!(pool[0].close, dec(105, 0));
    assert_eq!(pool[1].close, dec(106, 0));
}

#[test]
fn is_ascending_tells_strict_order() {
    assert!(is_ascending(&vec![]));
    assert!(is_ascending(&vec![candle(1, 1)]));
    assert!(is_ascending(&vec![candle(1, 1), candle(2, 1), candle(5, 1)]));
    assert!(!is_ascending(&vec![candle(1, 1), candle(1, 2)]));
    assert!(!is_ascending(&vec![candle(1, 1), candle(3, 1), candle(2, 1)]));
}

#[test]
fn store_creates_series_on_first_update() {
    let mut store = CandleStore::new();
    assert_eq!(store.symbol_count(), 0);
    assert!(!store.contains("BTCUSDT"));
    assert_eq!(store.read_series("BTCUSDT"), vec![]);
    assert_eq!(store.upsert("BTCUSDT", candle(10, 100)), MergeOutcome::Created);
    assert!(store.contains("BTCUSDT"));
    assert_eq!(store.symbol_count(), 1);
    assert_eq!(store.read_series("BTCUSDT"), vec![candle(10, 100)]);
}

#[test]
fn store_keeps_symbols_apart() {
    let mut store = CandleStore::new();
    store.upsert("BTCUSDT", candle(10, 100));
    store.upsert("ETHUSDT", candle(10, 50));
    store.upsert("BTCUSDT", candle(11, 101));
    assert_eq!(store.symbol_count(), 2);
    assert_eq!(store.read_series("BTCUSDT"), vec![candle(10, 100), candle(11, 101)]);
    assert_eq!(store.read_series("ETHUSDT"), vec![candle(10, 50)]);
}

#[test]
fn store_upsert_twice_is_as_once() {
    let mut once = CandleStore::new();
    let mut twice = CandleStore::new();
    for store in [&mut once, &mut twice] {
        store.bulk_load("BTCUSDT", vec![candle(10, 1), candle(20, 2)]).unwrap();
    }
    once.upsert("BTCUSDT", candle(20, 9));
    twice.upsert("BTCUSDT", candle(20, 9));
    twice.upsert("BTCUSDT", candle(20, 9));
    assert_eq!(once.read_series("BTCUSDT"), twice.read_series("BTCUSDT"));
}

#[test]
fn store_stays_ascending_after_load_and_updates() {
    let mut store = CandleStore::new();
    store.bulk_load("BTCUSDT", vec![candle(10, 1), candle(20, 2), candle(30, 3)]).unwrap();
    for time in [30i128, 25, 40, 40, 10, 41, 39, 50] {
        store.upsert("BTCUSDT", candle(time, time as u128));
    }
    let series = store.read_series("BTCUSDT");
    assert!(is_ascending(&series));
    let times: Vec<i128> = series.iter().map(|k| k.time).collect();
    assert_eq!(times, vec![10, 20, 30, 40, 41, 50]);
}

#[test]
fn store_rejects_out_of_order_update() {
    let mut store = CandleStore::new();
    store.bulk_load("BTCUSDT", vec![candle(10, 1), candle(20, 2)]).unwrap();
    assert_eq!(store.upsert("BTCUSDT", candle(19, 7)), MergeOutcome::OutOfOrder);
    assert_eq!(store.read_series("BTCUSDT"), vec![candle(10, 1), candle(20, 2)]);
}

#[test]
fn bulk_load_refuses_unsorted_candles() {
    let mut store = CandleStore::new();
    store.bulk_load("BTCUSDT", vec![candle(10, 1)]).unwrap();
    assert_eq!(
        store.bulk_load("BTCUSDT", vec![candle(20, 1), candle(10, 2)]),
        Err(BulkLoadError::NotAscending)
    );
    assert_eq!(
        store.bulk_load("ETHUSDT", vec![candle(20, 1), candle(20, 2)]),
        Err(BulkLoadError::NotAscending)
    );
    assert_eq!(store.read_series("BTCUSDT"), vec![candle(10, 1)]);
    assert!(!store.contains("ETHUSDT"));
}

#[test]
fn bulk_load_refuses_a_second_load() {
    let mut store = CandleStore::new();
    assert_eq!(store.bulk_load("BTCUSDT", vec![candle(10, 1)]), Ok(()));
    store.upsert("BTCUSDT", candle(20, 2));
    assert_eq!(
        store.bulk_load("BTCUSDT", vec![candle(5, 5)]),
        Err(BulkLoadError::AlreadyLoaded)
    );
    assert_eq!(store.read_series("BTCUSDT"), vec![candle(10, 1), candle(20, 2)]);
    store.upsert("ETHUSDT", candle(1, 1));
    assert_eq!(store.bulk_load("ETHUSDT", vec![]), Err(BulkLoadError::AlreadyLoaded));
    assert_eq!(store.read_series("ETHUSDT"), vec![candle(1, 1)]);
}

#[test]
fn negative_bucket_start_is_merged_like_any_other() {
    let mut pool: Vec<Kline> = Vec::new();
    insert_kline_in_pool(&mut pool, &message("BTCUSDT", -5, "100"));
    assert_eq!(pool.len(), 1);
    assert_eq!(pool[0].time, -5);
    assert_eq!(pool[0].close, dec(100, 0));
    insert_kline_in_pool(&mut pool, &message("BTCUSDT", -5, "101"));
    assert_eq!(pool.len(), 1);
    assert_eq!(pool[0].close, dec(101, 0));
    insert_kline_in_pool(&mut pool, &message("BTCUSDT", 60, "102"));
    assert_eq!(pool.len(), 2);
    insert_kline_in_pool(&mut pool, &message("BTCUSDT", -1, "7"));
    assert_eq!(pool.len(), 2);
    assert_eq!(pool[0].time, -5);
    assert_eq!(pool[1].time, 60);
}

#[test]
fn bulk_load_of_no_history_gives_an_empty_series() {
    let mut store = CandleStore::new();
    assert_eq!(store.bulk_load("NEWUSDT", vec![]), Ok(()));
    assert!(store.contains("NEWUSDT"));
    assert_eq!(store.read_series("NEWUSDT"), vec![]);
    assert_eq!(store.upsert("NEWUSDT", candle(5, 5)), MergeOutcome::Created);
    assert_eq!(store.read_series("NEWUSDT"), vec![candle(5, 5)]);
}

#[test]
fn read_series_is_a_snapshot() {
    let mut store = CandleStore::new();
    store.upsert("BTCUSDT", candle(10, 100));
    let mut snapshot = store.read_series("BTCUSDT");
    store.upsert("BTCUSDT", candle(11, 101));
    assert_eq!(snapshot, vec![candle(10, 100)]);
    snapshot.clear();
    assert_eq!(store.read_series("BTCUSDT").len(), 2);
}
