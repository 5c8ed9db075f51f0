//! The candle store: every symbol's series, under one owner.

use vstd::prelude::*;
use vstd::string::*;
use crate::kline::Kline;
use crate::series::{
    ascending, is_ascending, lemma_merge_idempotent, lemma_merge_keeps_ascending, merge_candle,
    merged, outcome_of, MergeOutcome,
};

verus! {

/// One symbol with its series.
pub struct SymbolSeries {
    pub symbol: String,
    pub candles: Vec<Kline>,
}

/// The mapping from symbol to series. Entries come into being on the first
/// load or update for a symbol and are never removed.
pub struct CandleStore {
    entries: Vec<SymbolSeries>,
}

/// Why a bulk load was refused.
#[derive(Clone, Copy, Debug, PartialEq, Eq, Structural)]
pub enum BulkLoadError {
    /// The candles were not strictly ascending by time.
    NotAscending,
    /// The store holds a series for the symbol already.
    AlreadyLoaded,
}

/// What a bulk load answers: the candles must be ascending, and the symbol
/// must have no series yet.
pub open spec fn load_result(
    m: Map<Seq<char>, Seq<Kline>>,
    symbol: Seq<char>,
    candles: Seq<Kline>,
) -> Result<(), BulkLoadError> {
    if !ascending(candles) {
        Err(BulkLoadError::NotAscending)
    } else if m.contains_key(symbol) {
        Err(BulkLoadError::AlreadyLoaded)
    } else {
        Ok(())
    }
}

/// The mapping after a bulk load: with the series added where the load is
/// accepted, as it was where it is refused.
pub open spec fn loaded(
    m: Map<Seq<char>, Seq<Kline>>,
    symbol: Seq<char>,
    candles: Seq<Kline>,
) -> Map<Seq<char>, Seq<Kline>> {
    if load_result(m, symbol, candles).is_ok() {
        m.insert(symbol, candles)
    } else {
        m
    }
}

/// The mapping that a list of entries stands for; a later entry wins.
pub open spec fn map_of(entries: Seq<SymbolSeries>) -> Map<Seq<char>, Seq<Kline>>
    decreases entries.len(),
{
    if entries.len() == 0 {
        Map::empty()
    } else {
        map_of(entries.drop_last()).insert(entries.last().symbol@, entries.last().candles@)
    }
}

/// No symbol stands twice in the list.
pub open spec fn distinct_symbols(entries: Seq<SymbolSeries>) -> bool {
    forall|i: int, j: int| 0 <= i < j < entries.len() ==> entries[i].symbol@ != entries[j].symbol@
}

/// The series that `m` holds for `symbol`: empty where it holds none.
pub open spec fn series_of(m: Map<Seq<char>, Seq<Kline>>, symbol: Seq<char>) -> Seq<Kline> {
    if m.contains_key(symbol) {
        m[symbol]
    } else {
        Seq::empty()
    }
}

/// The mapping after `candle` has been offered to the series of `symbol`.
pub open spec fn upserted(m: Map<Seq<char>, Seq<Kline>>, symbol: Seq<char>, candle: Kline) -> Map<
    Seq<char>,
    Seq<Kline>,
> {
    m.insert(symbol, merged(series_of(m, symbol), candle))
}

/// Every series of the mapping is strictly ascending by time.
pub open spec fn all_ascending(m: Map<Seq<char>, Seq<Kline>>) -> bool {
    forall|k: Seq<char>| m.contains_key(k) ==> ascending(#[trigger] m[k])
}

proof fn lemma_map_of_absent(entries: Seq<SymbolSeries>, symbol: Seq<char>)
    requires
        forall|i: int| 0 <= i < entries.len() ==> entries[i].symbol@ != symbol,
    ensures
        !map_of(entries).contains_key(symbol),
    decreases entries.len(),
{
    if entries.len() > 0 {
        lemma_map_of_absent(entries.drop_last(), symbol);
    }
}

proof fn lemma_map_of_present(entries: Seq<SymbolSeries>, i: int)
    requires
        distinct_symbols(entries),
        0 <= i < entries.len(),
    ensures
        map_of(entries).contains_key(entries[i].symbol@),
        map_of(entries)[entries[i].symbol@] == entries[i].candles@,
    decreases entries.len(),
{
    if i < entries.len() - 1 {
        lemma_map_of_present(entries.drop_last(), i);
    }
}

proof fn lemma_map_of_update(entries: Seq<SymbolSeries>, i: int, entry: SymbolSeries)
    requires
        distinct_symbols(entries),
        0 <= i < entries.len(),
        entry.symbol@ == entries[i].symbol@,
    ensures
        distinct_symbols(entries.update(i, entry)),
        map_of(entries.update(i, entry)) == map_of(entries).insert(entry.symbol@, entry.candles@),
    decreases entries.len(),
{
    let after = entries.update(i, entry);
    if i == entries.len() - 1 {
        assert(after.drop_last() =~= entries.drop_last());
        assert(map_of(after) =~= map_of(entries).insert(entry.symbol@, entry.candles@));
    } else {
        lemma_map_of_update(entries.drop_last(), i, entry);
        assert(after.drop_last() =~= entries.drop_last().update(i, entry));
        assert(after.last() == entries.last());
        assert(entries.last().symbol@ != entry.symbol@);
        assert(map_of(after) =~= map_of(entries).insert(entry.symbol@, entry.candles@));
    }
}

proof fn lemma_map_of_domain(entries: Seq<SymbolSeries>, symbol: Seq<char>)
    requires
        map_of(entries).contains_key(symbol),
    ensures
        exists|i: int| 0 <= i < entries.len() && entries[i].symbol@ == symbol && map_of(
            entries,
        )[symbol] == #[trigger] entries[i].candles@,
    decreases entries.len(),
{
    if entries.len() > 0 {
        if entries.last().symbol@ == symbol {
            assert(map_of(entries)[symbol] == entries[entries.len() - 1].candles@);
        } else {
            lemma_map_of_domain(entries.drop_last(), symbol);
            let i = choose|i: int|
                0 <= i < entries.drop_last().len() && entries.drop_last()[i].symbol@ == symbol
                    && map_of(entries.drop_last())[symbol]
                    == #[trigger] entries.drop_last()[i].candles@;
            assert(entries[i].candles@ == entries.drop_last()[i].candles@);
        }
    }
}

impl CandleStore {
    /// The store's validity: no symbol stands twice, and every series is
    /// strictly ascending by time.
    pub closed spec fn wf(&self) -> bool {
        &&& distinct_symbols(self.entries@)
        &&& forall|i: int|
            0 <= i < self.entries.len() ==> ascending(#[trigger] self.entries[i].candles@)
    }

    /// The store as a mapping from symbol to series.
    pub closed spec fn view(&self) -> Map<Seq<char>, Seq<Kline>> {
        map_of(self.entries@)
    }

    /// In a valid store every series is strictly ascending by time.
    pub proof fn lemma_series_ascending(&self)
        requires
            self.wf(),
        ensures
            all_ascending(self@),
    {
        assert forall|k: Seq<char>| self@.contains_key(k) implies ascending(#[trigger] self@[k]) by {
            lemma_map_of_domain(self.entries@, k);
        }
    }

    /// The empty store.
    pub fn new() -> (r: CandleStore)
        ensures
            r.wf(),
            r@ == Map::<Seq<char>, Seq<Kline>>::empty(),
    {
        CandleStore { entries: Vec::new() }
    }

    fn position(&self, symbol: &String) -> (r: Option<usize>)
        ensures
            match r {
                Some(i) => i < self.entries.len() && self.entries[i as int].symbol@ == symbol@,
                None => forall|i: int|
                    0 <= i < self.entries.len() ==> self.entries[i].symbol@ != symbol@,
            },
    {
        let n = self.entries.len();
        let mut i: usize = 0;
        while i < n
            invariant
                n == self.entries.len(),
                i <= n,
                forall|j: int| 0 <= j < i ==> self.entries[j].symbol@ != symbol@,
            decreases n - i,
        {
            if self.entries[i].symbol == *symbol {
                return Some(i);
            }
            i += 1;
        }
        None
    }

    /// How many symbols the store holds.
    pub fn symbol_count(&self) -> (r: usize)
        requires
            self.wf(),
        ensures
            r == self@.dom().len(),
            self@.dom().finite(),
    {
        proof {
            lemma_domain_size(self.entries@);
        }
        self.entries.len()
    }

    /// Whether the store holds a series for `symbol`.
    pub fn contains(&self, symbol: &str) -> (r: bool)
        ensures
            r == self@.contains_key(symbol@),
    {
        let key = String::from_str(symbol);
        match self.position(&key) {
            Some(i) => {
                proof {
                    lemma_present_any(self.entries@, i as int);
                }
                true
            },
            None => {
                proof {
                    lemma_map_of_absent(self.entries@, symbol@);
                }
                false
            },
        }
    }

    /// Offers `candle` to the series of `symbol` by the merge rule, starting
    /// the series where the symbol has none. Says what became of the update;
    /// one older than the last bar leaves the store as it was.
    pub fn upsert(&mut self, symbol: &str, candle: Kline) -> (r: MergeOutcome)
        requires
            old(self).wf(),
        ensures
            final(self).wf(),
            final(self)@ == upserted(old(self)@, symbol@, candle),
            r == outcome_of(series_of(old(self)@, symbol@), candle),
    {
        let key = String::from_str(symbol);
        match self.position(&key) {
            Some(i) => {
                proof {
                    lemma_map_of_present(self.entries@, i as int);
                }
                let series = &mut self.entries[i].candles;
                let r = merge_candle(series, candle);
                proof {
                    lemma_map_of_update(old(self).entries@, i as int, self.entries[i as int]);
                    assert(self.entries@ =~= old(self).entries@.update(
                        i as int,
                        self.entries[i as int],
                    ));
                }
                r
            },
            None => {
                proof {
                    lemma_map_of_absent(self.entries@, symbol@);
                }
                let mut candles: Vec<Kline> = Vec::new();
                candles.push(candle);
                self.entries.push(SymbolSeries { symbol: key, candles });
                proof {
                    assert(self.entries@.drop_last() =~= old(self).entries@);
                    assert(candles@ =~= seq![candle]);
                }
                MergeOutcome::Created
            },
        }
    }

    /// Loads the history of `symbol`, whole or not at all, once: the series of
    /// a symbol that has none becomes `candles`. Candles that do not come
    /// strictly ascending by time are refused, and so is a load for a symbol
    /// that has a series already; the store then stays as it was.
    pub fn bulk_load(&mut self, symbol: &str, candles: Vec<Kline>) -> (r: Result<
        (),
        BulkLoadError,
    >)
        requires
            old(self).wf(),
        ensures
            final(self).wf(),
            r == load_result(old(self)@, symbol@, candles@),
            final(self)@ == loaded(old(self)@, symbol@, candles@),
    {
        if !is_ascending(&candles) {
            return Err(BulkLoadError::NotAscending);
        }
        let key = String::from_str(symbol);
        match self.position(&key) {
            Some(i) => {
                proof {
                    lemma_present_any(self.entries@, i as int);
                }
                Err(BulkLoadError::AlreadyLoaded)
            },
            None => {
                proof {
                    lemma_map_of_absent(self.entries@, symbol@);
                }
                self.entries.push(SymbolSeries { symbol: key, candles });
                proof {
                    assert(self.entries@.drop_last() =~= old(self).entries@);
                }
                Ok(())
            },
        }
    }

    /// A snapshot of the series of `symbol`, empty where the store holds none.
    /// The snapshot is the caller's own: later updates do not reach it.
    pub fn read_series(&self, symbol: &str) -> (r: Vec<Kline>)
        ensures
            r@ == series_of(self@, symbol@),
    {
        let key = String::from_str(symbol);
        let mut out: Vec<Kline> = Vec::new();
        match self.position(&key) {
            Some(i) => {
                proof {
                    lemma_present_any(self.entries@, i as int);
                }
                let j = self.last_position(&key, i);
                let src = &self.entries[j].candles;
                let n = src.len();
                let mut k: usize = 0;
                while k < n
                    invariant
                        n == src.len(),
                        k <= n,
                        out@ == src@.take(k as int),
                    decreases n - k,
                {
                    out.push(src[k]);
                    assert(src@.take(k + 1) =~= src@.take(k as int).push(src[k as int]));
                    k += 1;
                }
                assert(src@.take(n as int) =~= src@);
            },
            None => {
                proof {
                    lemma_map_of_absent(self.entries@, symbol@);
                }
            },
        }
        out
    }

    fn last_position(&self, symbol: &String, first: usize) -> (r: usize)
        requires
            first < self.entries.len(),
            self.entries[first as int].symbol@ == symbol@,
        ensures
            r < self.entries.len(),
            self.entries[r as int].symbol@ == symbol@,
            map_of(self.entries@)[symbol@] == self.entries[r as int].candles@,
    {
        let n = self.entries.len();
        let mut best = first;
        let mut i: usize = first + 1;
        proof {
            lemma_map_of_last(self.entries@.take(i as int), symbol@);
            assert(self.entries@.take(i as int).drop_last() =~= self.entries@.take(first as int));
        }
        while i < n
            invariant
                n == self.entries.len(),
                first < i <= n,
                best < i,
                self.entries[best as int].symbol@ == symbol@,
                map_of(self.entries@.take(i as int))[symbol@] == self.entries[best as int].candles@,
            decreases n - i,
        {
            proof {
                assert(self.entries@.take(i + 1).drop_last() =~= self.entries@.take(i as int));
            }
            if self.entries[i].symbol == *symbol {
                best = i;
            }
            i += 1;
        }
        assert(self.entries@.take(n as int) =~= self.entries@);
        best
    }
}

/// Offering the same update twice in a row leaves the store as offering it
/// once.
pub proof fn lemma_upsert_idempotent(m: Map<Seq<char>, Seq<Kline>>, symbol: Seq<char>, candle: Kline)
    ensures
        upserted(upserted(m, symbol, candle), symbol, candle) == upserted(m, symbol, candle),
{
    lemma_merge_idempotent(series_of(m, symbol), candle);
    assert(upserted(upserted(m, symbol, candle), symbol, candle) =~= upserted(m, symbol, candle));
}

/// A store whose series are all ascending stays so under any update, and an
/// update touches no series but that of its own symbol.
pub proof fn lemma_upsert_keeps_ascending(
    m: Map<Seq<char>, Seq<Kline>>,
    symbol: Seq<char>,
    candle: Kline,
)
    requires
        all_ascending(m),
    ensures
        all_ascending(upserted(m, symbol, candle)),
        forall|k: Seq<char>|
            k != symbol ==> upserted(m, symbol, candle).contains_key(k) == m.contains_key(k) && (
            m.contains_key(k) ==> #[trigger] upserted(m, symbol, candle)[k] == m[k]),
{
    lemma_merge_keeps_ascending(series_of(m, symbol), candle);
    if m.contains_key(symbol) {
        assert(ascending(m[symbol]));
    }
    assert forall|k: Seq<char>| upserted(m, symbol, candle).contains_key(k) implies ascending(
        #[trigger] upserted(m, symbol, candle)[k],
    ) by {
        if k != symbol {
            assert(ascending(m[k]));
        }
    }
}

/// The mapping after each of `updates`, a symbol with a candle, has been
/// offered to it in turn.
pub open spec fn upserted_all(
    m: Map<Seq<char>, Seq<Kline>>,
    updates: Seq<(Seq<char>, Kline)>,
) -> Map<Seq<char>, Seq<Kline>>
    decreases updates.len(),
{
    if updates.len() == 0 {
        m
    } else {
        upserted(upserted_all(m, updates.drop_last()), updates.last().0, updates.last().1)
    }
}

/// Any load, accepted or refused, and then any sequence of updates for any
/// symbols, leave every series of the store strictly ascending.
pub proof fn lemma_load_then_updates_ascending(
    m: Map<Seq<char>, Seq<Kline>>,
    symbol: Seq<char>,
    candles: Seq<Kline>,
    updates: Seq<(Seq<char>, Kline)>,
)
    requires
        all_ascending(m),
    ensures
        all_ascending(loaded(m, symbol, candles)),
        all_ascending(upserted_all(loaded(m, symbol, candles), updates)),
    decreases updates.len(),
{
    let after = loaded(m, symbol, candles);
    assert forall|k: Seq<char>| after.contains_key(k) implies ascending(#[trigger] after[k]) by {
        if k != symbol || after == m {
            assert(ascending(m[k]));
        }
    }
    if updates.len() > 0 {
        lemma_load_then_updates_ascending(m, symbol, candles, updates.drop_last());
        lemma_upsert_keeps_ascending(
            upserted_all(after, updates.drop_last()),
            updates.last().0,
            updates.last().1,
        );
    }
}

/// An update older than the last bar of its symbol's series leaves the store
/// as it was.
pub proof fn lemma_upsert_out_of_order(
    m: Map<Seq<char>, Seq<Kline>>,
    symbol: Seq<char>,
    candle: Kline,
)
    requires
        m.contains_key(symbol),
        m[symbol].len() > 0,
        candle.time < m[symbol].last().time,
    ensures
        upserted(m, symbol, candle) == m,
{
    assert(upserted(m, symbol, candle) =~= m);
}

proof fn lemma_map_of_last(entries: Seq<SymbolSeries>, symbol: Seq<char>)
    requires
        entries.len() > 0,
        entries.last().symbol@ == symbol,
    ensures
        map_of(entries)[symbol] == entries.last().candles@,
{
}

proof fn lemma_present_any(entries: Seq<SymbolSeries>, i: int)
    requires
        0 <= i < entries.len(),
    ensures
        map_of(entries).contains_key(entries[i].symbol@),
    decreases entries.len(),
{
    if i < entries.len() - 1 {
        lemma_present_any(entries.drop_last(), i);
    }
}

proof fn lemma_domain_size(entries: Seq<SymbolSeries>)
    requires
        distinct_symbols(entries),
    ensures
        map_of(entries).dom().finite(),
        map_of(entries).dom().len() == entries.len(),
    decreases entries.len(),
{
    if entries.len() > 0 {
        let init = entries.drop_last();
        lemma_domain_size(init);
        assert forall|i: int| 0 <= i < init.len() implies init[i].symbol@
            != entries.last().symbol@ by {
            assert(init[i] == entries[i]);
        }
        lemma_map_of_absent(init, entries.last().symbol@);
        assert(map_of(entries).dom() =~= map_of(init).dom().insert(entries.last().symbol@));
    } else {
        assert(map_of(entries).dom() =~= Set::<Seq<char>>::empty());
    }
}

} // verus!
