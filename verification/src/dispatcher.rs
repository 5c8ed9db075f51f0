//! The live dispatcher: the connections' states and the routing of what they
//! read into the candle store.
//!
//! The dispatcher decides; its caller reads the connections and hands over
//! what each read produced.

use vstd::prelude::*;
use vstd::string::*;
use crate::decimal::Decimal;
use crate::kline::Kline;
use crate::mexc_structs::{MexcKlineMessage, MexcSubscribeResponseMessage};
use crate::series::{outcome_of, MergeOutcome};
use crate::store::{
    all_ascending, load_result, loaded, series_of, upserted, BulkLoadError, CandleStore,
};

verus! {

/// Where a connection stands in its life.
#[derive(Clone, Copy, Debug, PartialEq, Eq, Structural)]
pub enum ConnectionState {
    /// Opened; its subscribe frames are not all sent yet.
    Connecting,
    /// All subscribe frames are sent; live updates are not applied yet.
    Subscribed,
    /// The steady state: live updates are applied to the store.
    Streaming,
    /// The peer closed the connection.
    Closed,
    /// A read or a send failed.
    Errored,
}

/// What one attempt to read a connection produced.
pub enum Inbound {
    /// A kline update.
    Kline(MexcKlineMessage),
    /// The acknowledgment of a subscribe frame.
    Ack(MexcSubscribeResponseMessage),
    /// A message of no known shape.
    Unrecognized,
    /// The connection was closed by the peer.
    Closed,
    /// The transport failed.
    TransportError,
}

/// What the caller is to do after a dispatch.
pub enum Action {
    /// Nothing.
    Nothing,
    /// Announce the update of `symbol` with its closing price; `outcome` says
    /// what became of it, `OutOfOrder` that it was left out.
    Announce { symbol: String, close: Decimal, outcome: MergeOutcome },
    /// Open the connection again and subscribe it again, after a pause.
    Reconnect,
}

/// One connection: its state and the symbols of its shard.
pub struct Connection {
    pub state: ConnectionState,
    pub symbols: Vec<String>,
}

/// The connections and the store that their updates go to.
pub struct Dispatcher {
    store: CandleStore,
    connections: Vec<Connection>,
}

/// Whether the store holds a series, possibly empty, for every symbol of the
/// shard: the history of each has been loaded.
pub open spec fn history_loaded(store: Map<Seq<char>, Seq<Kline>>, shard: Seq<String>) -> bool {
    forall|i: int| 0 <= i < shard.len() ==> store.contains_key(#[trigger] shard[i]@)
}

/// The state that follows `state` when a read produced `inbound`.
pub open spec fn state_after(state: ConnectionState, inbound: &Inbound) -> ConnectionState {
    match inbound {
        Inbound::Closed => ConnectionState::Closed,
        Inbound::TransportError => ConnectionState::Errored,
        _ => state,
    }
}

/// The store after `inbound` was read on a connection in `state`.
pub open spec fn store_after(
    store: Map<Seq<char>, Seq<Kline>>,
    state: ConnectionState,
    inbound: &Inbound,
) -> Map<Seq<char>, Seq<Kline>> {
    match inbound {
        Inbound::Kline(message) if state == ConnectionState::Streaming => upserted(
            store,
            message.s@,
            Kline::of_message(message),
        ),
        _ => store,
    }
}

/// Whether `action` is what the caller is owed after `inbound` was read on a
/// connection in `state`.
pub open spec fn is_action_for(
    action: &Action,
    store: Map<Seq<char>, Seq<Kline>>,
    state: ConnectionState,
    inbound: &Inbound,
) -> bool {
    match inbound {
        Inbound::Kline(message) => if state == ConnectionState::Streaming {
            match action {
                Action::Announce { symbol, close, outcome } => {
                    &&& symbol@ == message.s@
                    &&& *close == Kline::of_message(message).close
                    &&& *outcome == outcome_of(
                        series_of(store, message.s@),
                        Kline::of_message(message),
                    )
                },
                _ => false,
            }
        } else {
            action is Nothing
        },
        Inbound::TransportError => action is Reconnect,
        Inbound::Closed => action is Reconnect,
        _ => action is Nothing,
    }
}

impl Dispatcher {
    /// The state of every connection, in the order in which they were opened.
    pub closed spec fn states(&self) -> Seq<ConnectionState> {
        Seq::new(self.connections@.len(), |i: int| self.connections@[i].state)
    }

    /// The shard of every connection, in the same order.
    pub closed spec fn shards(&self) -> Seq<Seq<String>> {
        Seq::new(self.connections@.len(), |i: int| self.connections@[i].symbols@)
    }

    /// The store as a mapping from symbol to series.
    pub closed spec fn candles(&self) -> Map<Seq<char>, Seq<Kline>> {
        self.store@
    }

    /// The dispatcher's validity: that of its store.
    pub closed spec fn wf(&self) -> bool {
        self.store.wf()
    }

    /// In a valid dispatcher every series is strictly ascending by time.
    pub proof fn lemma_series_ascending(&self)
        requires
            self.wf(),
        ensures
            all_ascending(self.candles()),
    {
        self.store.lemma_series_ascending();
    }

    /// A dispatcher over `store`, with no connection yet.
    pub fn new(store: CandleStore) -> (r: Dispatcher)
        requires
            store.wf(),
        ensures
            r.wf(),
            r.candles() == store@,
            r.states() == Seq::<ConnectionState>::empty(),
            r.shards() == Seq::<Seq<String>>::empty(),
    {
        let r = Dispatcher { store, connections: Vec::new() };
        assert(r.states() =~= Seq::<ConnectionState>::empty());
        assert(r.shards() =~= Seq::<Seq<String>>::empty());
        r
    }

    /// The store, for reading.
    pub fn store(&self) -> (r: &CandleStore)
        ensures
            r@ == self.candles(),
            self.wf() ==> r.wf(),
    {
        &self.store
    }

    /// How many connections there are.
    pub fn connection_count(&self) -> (r: usize)
        ensures
            r == self.states().len(),
    {
        self.connections.len()
    }

    /// The state of connection `id`, where there is one.
    pub fn state(&self, id: usize) -> (r: Option<ConnectionState>)
        ensures
            r == if id < self.states().len() {
                Some(self.states()[id as int])
            } else {
                None
            },
    {
        if id < self.connections.len() {
            Some(self.connections[id].state)
        } else {
            None
        }
    }

    /// Adds a connection for the shard `symbols`, in state `Connecting`, and
    /// gives its number.
    pub fn open_connection(&mut self, symbols: Vec<String>) -> (id: usize)
        ensures
            id == old(self).states().len(),
            final(self).states() == old(self).states().push(ConnectionState::Connecting),
            final(self).shards() == old(self).shards().push(symbols@),
            final(self).candles() == old(self).candles(),
            final(self).wf() == old(self).wf(),
    {
        let id = self.connections.len();
        self.connections.push(Connection { state: ConnectionState::Connecting, symbols });
        assert(self.states() =~= old(self).states().push(ConnectionState::Connecting));
        assert(self.shards() =~= old(self).shards().push(symbols@));
        id
    }

    fn set_state(&mut self, id: usize, to: ConnectionState)
        requires
            id < old(self).states().len(),
        ensures
            final(self).states() == old(self).states().update(id as int, to),
            final(self).shards() == old(self).shards(),
            final(self).store == old(self).store,
    {
        self.connections[id].state = to;
        assert(self.states() =~= old(self).states().update(id as int, to));
        assert(self.shards() =~= old(self).shards());
    }

    fn advance(&mut self, id: usize, from: ConnectionState, to: ConnectionState) -> (r: bool)
        ensures
            r == (id < old(self).states().len() && old(self).states()[id as int] == from),
            r ==> final(self).states() == old(self).states().update(id as int, to),
            !r ==> final(self).states() == old(self).states(),
            final(self).shards() == old(self).shards(),
            final(self).candles() == old(self).candles(),
            final(self).wf() == old(self).wf(),
    {
        if id < self.connections.len() && self.connections[id].state == from {
            self.set_state(id, to);
            true
        } else {
            false
        }
    }

    fn shard_loaded(&self, id: usize) -> (r: bool)
        requires
            id < self.states().len(),
        ensures
            r == history_loaded(self.candles(), self.shards()[id as int]),
    {
        let shard = &self.connections[id].symbols;
        assert(self.shards().len() == self.states().len());
        assert(self.shards()[id as int] == shard@);
        let n = shard.len();
        let mut i: usize = 0;
        while i < n
            invariant
                n == shard.len(),
                i <= n,
                self.shards()[id as int] == shard@,
                forall|j: int| 0 <= j < i ==> self.store@.contains_key(#[trigger] shard[j]@),
            decreases n - i,
        {
            if !self.store.contains(shard[i].as_str()) {
                assert(!self.store@.contains_key(shard[i as int]@));
                return false;
            }
            i += 1;
        }
        true
    }

    /// Records that every subscribe frame of connection `id` has been sent:
    /// a connection in `Connecting` becomes `Subscribed`. Says whether it did;
    /// nothing changes otherwise.
    pub fn frames_sent(&mut self, id: usize) -> (r: bool)
        ensures
            r == (id < old(self).states().len() && old(self).states()[id as int]
                == ConnectionState::Connecting),
            r ==> final(self).states() == old(self).states().update(
                id as int,
                ConnectionState::Subscribed,
            ),
            !r ==> final(self).states() == old(self).states(),
            final(self).shards() == old(self).shards(),
            final(self).candles() == old(self).candles(),
            final(self).wf() == old(self).wf(),
    {
        self.advance(id, ConnectionState::Connecting, ConnectionState::Subscribed)
    }

    /// Lets connection `id` stream: a connection in `Subscribed` becomes
    /// `Streaming`, but only once the history of every symbol of its shard is
    /// loaded, so that no live update comes before its symbol's history. Says
    /// whether it did; nothing changes otherwise.
    pub fn begin_streaming(&mut self, id: usize) -> (r: bool)
        ensures
            r == (id < old(self).states().len() && old(self).states()[id as int]
                == ConnectionState::Subscribed && history_loaded(
                old(self).candles(),
                old(self).shards()[id as int],
            )),
            r ==> final(self).states() == old(self).states().update(
                id as int,
                ConnectionState::Streaming,
            ),
            !r ==> final(self).states() == old(self).states(),
            final(self).shards() == old(self).shards(),
            final(self).candles() == old(self).candles(),
            final(self).wf() == old(self).wf(),
    {
        if id < self.connections.len() && self.shard_loaded(id) {
            self.advance(id, ConnectionState::Subscribed, ConnectionState::Streaming)
        } else {
            false
        }
    }

    /// Records that connection `id` was opened again: a connection in
    /// `Errored` or `Closed` becomes `Connecting`. Says whether it did;
    /// nothing changes otherwise.
    pub fn reconnected(&mut self, id: usize) -> (r: bool)
        ensures
            r == (id < old(self).states().len() && (old(self).states()[id as int]
                == ConnectionState::Errored || old(self).states()[id as int]
                == ConnectionState::Closed)),
            r ==> final(self).states() == old(self).states().update(
                id as int,
                ConnectionState::Connecting,
            ),
            !r ==> final(self).states() == old(self).states(),
            final(self).shards() == old(self).shards(),
            final(self).candles() == old(self).candles(),
            final(self).wf() == old(self).wf(),
    {
        if self.advance(id, ConnectionState::Errored, ConnectionState::Connecting) {
            true
        } else {
            self.advance(id, ConnectionState::Closed, ConnectionState::Connecting)
        }
    }

    /// Loads the history of `symbol` into the store, whole or not at all, and
    /// once: a load for a symbol that has a series already is refused, so that
    /// no history replaces what live updates have built.
    pub fn load_history(&mut self, symbol: &str, candles: Vec<Kline>) -> (r: Result<
        (),
        BulkLoadError,
    >)
        requires
            old(self).wf(),
        ensures
            final(self).wf(),
            final(self).states() == old(self).states(),
            final(self).shards() == old(self).shards(),
            r == load_result(old(self).candles(), symbol@, candles@),
            final(self).candles() == loaded(old(self).candles(), symbol@, candles@),
    {
        self.store.bulk_load(symbol, candles)
    }

    /// Routes what a read of connection `id` produced. Every kline update read
    /// on a streaming connection is offered to the store and announced; a
    /// failed read marks this connection `Errored`, a close marks it `Closed`,
    /// and both ask for a reconnect; anything else changes nothing. No other connection
    /// is touched, and a number that names no connection changes nothing.
    pub fn dispatch(&mut self, id: usize, inbound: &Inbound) -> (r: Action)
        requires
            old(self).wf(),
        ensures
            final(self).wf(),
            final(self).shards() == old(self).shards(),
            id >= old(self).states().len() ==> {
                &&& r is Nothing
                &&& final(self).states() == old(self).states()
                &&& final(self).candles() == old(self).candles()
            },
            id < old(self).states().len() ==> {
                &&& final(self).states() == old(self).states().update(
                    id as int,
                    state_after(old(self).states()[id as int], inbound),
                )
                &&& final(self).candles() == store_after(
                    old(self).candles(),
                    old(self).states()[id as int],
                    inbound,
                )
                &&& is_action_for(
                    &r,
                    old(self).candles(),
                    old(self).states()[id as int],
                    inbound,
                )
            },
    {
        if id >= self.connections.len() {
            return Action::Nothing;
        }
        let state = self.connections[id].state;
        match inbound {
            Inbound::Kline(message) => {
                assert(self.states() =~= old(self).states().update(id as int, state));
                if state == ConnectionState::Streaming {
                    let candle = Kline::new(message);
                    let outcome = self.store.upsert(message.s.as_str(), candle);
                    Action::Announce { symbol: message.s.clone(), close: candle.close, outcome }
                } else {
                    Action::Nothing
                }
            },
            Inbound::Closed => {
                self.set_state(id, ConnectionState::Closed);
                Action::Reconnect
            },
            Inbound::TransportError => {
                self.set_state(id, ConnectionState::Errored);
                Action::Reconnect
            },
            _ => {
                assert(self.states() =~= old(self).states().update(id as int, state));
                Action::Nothing
            },
        }
    }
}

/// A failed or closed read on one connection leaves the store as it was and
/// every other connection in its state; and what a kline update does to the
/// store depends on the state of its own connection alone.
pub proof fn lemma_connection_isolation(
    store: Map<Seq<char>, Seq<Kline>>,
    states: Seq<ConnectionState>,
    failed: int,
    other: int,
    inbound: &Inbound,
)
    requires
        0 <= failed < states.len(),
        0 <= other < states.len(),
        other != failed,
    ensures
        store_after(store, states[failed], &Inbound::TransportError) == store,
        store_after(store, states[failed], &Inbound::Closed) == store,
        states.update(failed, state_after(states[failed], &Inbound::TransportError))[other]
            == states[other],
        states.update(failed, state_after(states[failed], &Inbound::Closed))[other]
            == states[other],
        store_after(
            store,
            states.update(failed, ConnectionState::Errored)[other],
            inbound,
        ) == store_after(store, states[other], inbound),
{
}

} // verus!
