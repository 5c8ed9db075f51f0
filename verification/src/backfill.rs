//! The backward-paginating history cursor of one symbol.
//!
//! The cursor decides what to ask for and what to do with each page; the
//! caller performs the requests and hands the pages back.

use vstd::prelude::*;
use crate::kline::Kline;
use crate::mexc_structs::MexcKlineBar;

verus! {

/// The most bars that one page may hold.
pub const PAGE_LIMIT: usize = 1000;

/// The width of the look-back window of every page but the first.
pub const WINDOW: u64 = 900000000;

/// The bounds of one page request. The first request names no bounds and is
/// answered with the most recent page. The start of a window is signed: it
/// lies a window's width before its end, also where that is before time zero.
#[derive(Clone, Copy, Debug, PartialEq, Eq, Structural)]
pub struct PageRequest {
    pub start_time: Option<i128>,
    pub end_time: Option<i128>,
    pub limit: usize,
}

/// What the cursor asks of its caller next.
#[derive(Clone, Copy, Debug, PartialEq, Eq, Structural)]
pub enum BackfillStep {
    /// Fetch this page and hand it back.
    Fetch(PageRequest),
    /// History is exhausted: the candles are complete.
    Finished,
}

/// Why the candles of a cursor cannot be had.
#[derive(Clone, Copy, Debug, PartialEq, Eq, Structural)]
pub enum BackfillError {
    /// The last page absorbed was a full one: history is not exhausted.
    Incomplete,
}

/// The history of one symbol as gathered so far.
pub struct Backfill {
    candles: Vec<Kline>,
    cursor: Option<u64>,
    done: bool,
}

/// The request that a cursor position calls for: the window reaches back
/// `WINDOW` from the cursor.
pub open spec fn request_for(cursor: Option<i128>) -> PageRequest {
    match cursor {
        None => PageRequest { start_time: None, end_time: None, limit: PAGE_LIMIT },
        Some(end) => PageRequest {
            start_time: Some((end - WINDOW) as i128),
            end_time: Some(end),
            limit: PAGE_LIMIT,
        },
    }
}

/// The candles of a page, bar by bar.
pub open spec fn candles_of(page: Seq<MexcKlineBar>) -> Seq<Kline> {
    Seq::new(page.len(), |i: int| Kline::of_bar(&page[i]))
}

/// The candles of a page without the first, where there is one.
pub open spec fn later_part(page: Seq<MexcKlineBar>) -> Seq<Kline> {
    if page.len() > 0 {
        candles_of(page).drop_first()
    } else {
        candles_of(page)
    }
}

/// The part of a page that is new: on every page but the first, the first bar
/// repeats the earliest one already held and is left out.
pub open spec fn fresh_part(page: Seq<MexcKlineBar>, cursor: Option<i128>) -> Seq<Kline> {
    if cursor.is_some() {
        later_part(page)
    } else {
        candles_of(page)
    }
}

/// Whether a page of this length is the last one.
pub open spec fn is_last_page(len: nat) -> bool {
    len < PAGE_LIMIT
}

/// What a cursor holds: the candles gathered so far, oldest first; the end of
/// the next window, unset before the first page; and whether history is
/// exhausted.
pub struct BackfillState {
    pub candles: Seq<Kline>,
    pub cursor: Option<i128>,
    pub finished: bool,
}

/// The state of a cursor that has asked for nothing yet.
pub open spec fn initial_state() -> BackfillState {
    BackfillState { candles: Seq::empty(), cursor: None, finished: false }
}

/// What a cursor in state `s` asks next.
pub open spec fn step_of(s: BackfillState) -> BackfillStep {
    if s.finished {
        BackfillStep::Finished
    } else {
        BackfillStep::Fetch(request_for(s.cursor))
    }
}

/// The state after `page` answered the request of state `s`. The new part of
/// the page goes in front of the candles held; a short page ends the history,
/// a full one moves the cursor to the earliest candle now held. A finished
/// cursor takes in nothing.
pub open spec fn absorbed(s: BackfillState, page: Seq<MexcKlineBar>) -> BackfillState {
    if s.finished {
        s
    } else {
        let candles = fresh_part(page, s.cursor) + s.candles;
        if is_last_page(page.len()) {
            BackfillState { candles, cursor: s.cursor, finished: true }
        } else {
            BackfillState { candles, cursor: Some(candles[0].time), finished: false }
        }
    }
}

/// The state after each of `pages` answered a request in turn.
pub open spec fn absorbed_all(s: BackfillState, pages: Seq<Seq<MexcKlineBar>>) -> BackfillState
    decreases pages.len(),
{
    if pages.len() == 0 {
        s
    } else {
        absorbed(absorbed_all(s, pages.drop_last()), pages.last())
    }
}

/// The history that pages fetched in turn hold together: the first page
/// whole, and in front of it each later page without its first bar.
pub open spec fn history_of(pages: Seq<Seq<MexcKlineBar>>) -> Seq<Kline>
    decreases pages.len(),
{
    if pages.len() == 0 {
        Seq::empty()
    } else if pages.len() == 1 {
        candles_of(pages[0])
    } else {
        later_part(pages.last()) + history_of(pages.drop_last())
    }
}

/// Over any number of pages of which all but the last are full: a page is
/// asked for before each of them, the candles held after the last are the
/// history of the pages, the cursor has finished exactly if the last page is
/// short, and otherwise stands at the earliest candle held.
pub proof fn lemma_history_over_pages(pages: Seq<Seq<MexcKlineBar>>)
    requires
        pages.len() >= 1,
        forall|i: int| 0 <= i < pages.len() - 1 ==> (#[trigger] pages[i]).len() >= PAGE_LIMIT,
    ensures
        forall|k: int|
            0 <= k < pages.len() ==> !(#[trigger] absorbed_all(
                initial_state(),
                pages.take(k),
            )).finished,
        absorbed_all(initial_state(), pages).candles == history_of(pages),
        absorbed_all(initial_state(), pages).finished == is_last_page(pages.last().len()),
        !is_last_page(pages.last().len()) ==> history_of(pages).len() > 0 && absorbed_all(
            initial_state(),
            pages,
        ).cursor == Some(history_of(pages)[0].time),
    decreases pages.len(),
{
    let earlier = pages.drop_last();
    let before = absorbed_all(initial_state(), earlier);
    let after = absorbed_all(initial_state(), pages);
    if pages.len() == 1 {
        assert(after.candles =~= candles_of(pages[0]));
        assert(pages.take(0) =~= earlier);
    } else {
        assert(earlier.last() == pages[pages.len() - 2]);
        assert forall|i: int| 0 <= i < earlier.len() - 1 implies (#[trigger] earlier[i]).len()
            >= PAGE_LIMIT by {
            assert(earlier[i] == pages[i]);
        }
        lemma_history_over_pages(earlier);
        assert(after.candles =~= history_of(pages));
        assert forall|k: int| 0 <= k < pages.len() implies !(#[trigger] absorbed_all(
            initial_state(),
            pages.take(k),
        )).finished by {
            if k < pages.len() - 1 {
                assert(pages.take(k) =~= earlier.take(k));
            } else {
                assert(pages.take(k) =~= earlier);
            }
        }
    }
}

/// A full page followed by a short one ends the history after exactly two
/// requests: the first names no bounds, the second the window that ends at
/// the first page's earliest bar, and no third is asked for. The history is
/// the second page without its first bar, which repeats that earliest bar,
/// followed by the first page.
pub proof fn lemma_full_page_then_short_page(first: Seq<MexcKlineBar>, second: Seq<MexcKlineBar>)
    requires
        first.len() >= PAGE_LIMIT,
        second.len() < PAGE_LIMIT,
    ensures
        step_of(initial_state()) == BackfillStep::Fetch(request_for(None)),
        step_of(absorbed(initial_state(), first)) == BackfillStep::Fetch(
            request_for(Some(Kline::of_bar(&first[0]).time)),
        ),
        step_of(absorbed(absorbed(initial_state(), first), second)) == BackfillStep::Finished,
        absorbed(absorbed(initial_state(), first), second).candles == if second.len() > 0 {
            candles_of(second).drop_first() + candles_of(first)
        } else {
            candles_of(first)
        },
{
    let one = absorbed(initial_state(), first);
    assert(one.candles =~= candles_of(first));
    let two = absorbed(one, second);
    assert(two.candles =~= fresh_part(second, one.cursor) + candles_of(first));
    if second.len() == 0 {
        assert(two.candles =~= candles_of(first));
    }
}

/// A first page that is short, an empty one too, ends the history after one
/// request, with the candles of that page.
pub proof fn lemma_short_first_page(page: Seq<MexcKlineBar>)
    requires
        page.len() < PAGE_LIMIT,
    ensures
        step_of(absorbed(initial_state(), page)) == BackfillStep::Finished,
        absorbed(initial_state(), page).candles == candles_of(page),
{
    assert(absorbed(initial_state(), page).candles =~= candles_of(page));
}

impl Backfill {
    /// The candles gathered so far, oldest first.
    pub closed spec fn candles(&self) -> Seq<Kline> {
        self.candles@
    }

    /// The end of the next window; unset before the first page.
    pub closed spec fn cursor(&self) -> Option<i128> {
        match self.cursor {
            Some(end) => Some(end as i128),
            None => None,
        }
    }

    /// Whether history is exhausted.
    pub closed spec fn finished(&self) -> bool {
        self.done
    }

    /// The cursor's state.
    pub open spec fn view(&self) -> BackfillState {
        BackfillState {
            candles: self.candles(),
            cursor: self.cursor(),
            finished: self.finished(),
        }
    }

    /// A cursor that has asked for nothing yet.
    pub fn new() -> (r: Backfill)
        ensures
            r@ == initial_state(),
    {
        Backfill { candles: Vec::new(), cursor: None, done: false }
    }

    /// What to do next: fetch the page that the cursor position calls for, or
    /// stop.
    pub fn next_step(&self) -> (r: BackfillStep)
        ensures
            r == step_of(self@),
    {
        if self.done {
            return BackfillStep::Finished;
        }
        let request = match self.cursor {
            None => PageRequest { start_time: None, end_time: None, limit: PAGE_LIMIT },
            Some(end) => {
                let start: i128 = end as i128 - WINDOW as i128;
                PageRequest {
                    start_time: Some(start),
                    end_time: Some(end as i128),
                    limit: PAGE_LIMIT,
                }
            },
        };
        BackfillStep::Fetch(request)
    }

    /// Takes in the page that answered the last request, and says what to do
    /// next. Its new part goes in front of the candles held. A page shorter
    /// than `PAGE_LIMIT` ends the history; a full one moves the cursor to the
    /// earliest candle now held. A finished cursor takes in nothing.
    pub fn absorb_page(&mut self, page: &Vec<MexcKlineBar>) -> (r: BackfillStep)
        ensures
            final(self)@ == absorbed(old(self)@, page@),
            r == step_of(final(self)@),
    {
        if self.done {
            return BackfillStep::Finished;
        }
        let n = page.len();
        let first: usize = if self.cursor.is_some() && n > 0 {
            1
        } else {
            0
        };
        let ghost fresh = fresh_part(page@, self.cursor());
        let mut joined: Vec<Kline> = Vec::new();
        let mut i: usize = first;
        while i < n
            invariant
                n == page.len(),
                first <= i <= n,
                first <= 1,
                fresh == candles_of(page@).subrange(first as int, n as int),
                joined@ == fresh.take(i - first),
            decreases n - i,
        {
            joined.push(Kline::from_bar(&page[i]));
            assert(fresh.take(i + 1 - first) =~= fresh.take(i - first).push(
                Kline::of_bar(&page[i as int]),
            ));
            i += 1;
        }
        assert(fresh.take(n - first) =~= fresh);
        let held = self.candles.len();
        let mut j: usize = 0;
        while j < held
            invariant
                held == self.candles.len(),
                j <= held,
                self.candles == old(self).candles,
                joined@ == fresh + self.candles@.take(j as int),
            decreases held - j,
        {
            joined.push(self.candles[j]);
            assert(self.candles@.take(j + 1) =~= self.candles@.take(j as int).push(
                self.candles[j as int],
            ));
            j += 1;
        }
        assert(self.candles@.take(held as int) =~= self.candles@);
        self.candles = joined;
        if n < PAGE_LIMIT {
            self.done = true;
            BackfillStep::Finished
        } else {
            let earliest = self.candles[0].time;
            assert(earliest == Kline::of_bar(&page[first as int]).time) by {
                assert(fresh[0] == candles_of(page@)[first as int]);
                assert(self.candles@[0] == fresh[0]);
            }
            self.cursor = Some(earliest as u64);
            self.next_step()
        }
    }

    /// Whether history is exhausted.
    pub fn is_finished(&self) -> (r: bool)
        ensures
            r == self.finished(),
    {
        self.done
    }

    /// Hands out the complete history, oldest first. A cursor that has not
    /// reached the end of history hands out nothing: a partial history is
    /// never passed on as if it were whole.
    pub fn finish(self) -> (r: Result<Vec<Kline>, BackfillError>)
        ensures
            self.finished() ==> r.is_ok() && r.unwrap()@ == self.candles(),
            !self.finished() ==> r == Err::<Vec<Kline>, BackfillError>(BackfillError::Incomplete),
    {
        if self.done {
            Ok(self.candles)
        } else {
            Err(BackfillError::Incomplete)
        }
    }
}

} // verus!
