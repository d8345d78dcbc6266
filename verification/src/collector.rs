//! The collector of one range of match sequence numbers. It takes the pages
//! that the upstream service returns, one at a time, keeps the masks of the
//! matches that fall into its range, and says after each page what the
//! scheduler is to do.

use crate::client::RequestError;
use crate::dota2::full;
use crate::dota2::MatchMask;
use crate::text::{decimal, decimal_text};
use std::ops::Range;
use vstd::prelude::*;
use vstd::string::StringExecFns;

verus! {

/// What a collector asks of the scheduler after a step.
#[derive(Debug)]
pub enum CollectResult {
    /// Go on with this collector.
    Normal,
    /// The live tail is reached: turn to the next collector.
    Yield,
    /// The service refused the request: slow down, then go on.
    Decel,
    /// Persist these masks, which cover this range, and go on.
    Save(Range<u64>, Vec<MatchMask>),
    /// Persist these masks, which cover this range; the collector's range is
    /// exhausted.
    Completed(Range<u64>, Vec<MatchMask>),
}

impl Clone for CollectResult {
    fn clone(&self) -> (copy: CollectResult)
        ensures
            match (*self, copy) {
                (CollectResult::Normal, CollectResult::Normal) => true,
                (CollectResult::Yield, CollectResult::Yield) => true,
                (CollectResult::Decel, CollectResult::Decel) => true,
                (CollectResult::Save(range, masks), CollectResult::Save(same, copied)) => same
                    == range && copied@ == masks@,
                (
                    CollectResult::Completed(range, masks),
                    CollectResult::Completed(same, copied),
                ) => same == range && copied@ == masks@,
                _ => false,
            },
    {
        match self {
            CollectResult::Normal => CollectResult::Normal,
            CollectResult::Yield => CollectResult::Yield,
            CollectResult::Decel => CollectResult::Decel,
            CollectResult::Save(range, masks) => {
                let copied = masks.clone();
                assert(copied@ =~= masks@);
                CollectResult::Save(range.start..range.end, copied)
            },
            CollectResult::Completed(range, masks) => {
                let copied = masks.clone();
                assert(copied@ =~= masks@);
                CollectResult::Completed(range.start..range.end, copied)
            },
        }
    }
}

/// A response that could not be decoded, to be written to `file` for
/// inspection before the program gives up.
#[derive(Debug, Clone)]
pub struct DecodeFailure {
    /// Name of the file that takes the body.
    pub file: String,
    /// The body as it came.
    pub content: String,
    /// The decoder's message.
    pub message: String,
}

/// The collector of one range: what is still to be fetched of it, the masks
/// that are buffered, and the part of the range that they cover.
pub struct Collector {
    // what is still to be fetched
    cur: Range<u64>,
    // what the masks in `cache` cover
    cached: Range<u64>,
    cache: Vec<MatchMask>,
    batch: usize,
}

/// The state of a collector.
pub struct CollectorView {
    /// The part of the range that is still to be fetched.
    pub cur: Range<u64>,
    /// The part of the range whose masks are buffered.
    pub cached: Range<u64>,
    /// The buffered masks.
    pub buffer: Seq<MatchMask>,
    /// Number of buffered masks from which they are handed out.
    pub batch: usize,
}

impl CollectorView {
    /// What is buffered ends where what is to be fetched begins.
    pub open spec fn wf(self) -> bool {
        self.cached.start <= self.cached.end == self.cur.start
    }

    /// The state of a collector that has all of `range` to fetch and nothing
    /// buffered.
    pub open spec fn fresh(range: Range<u64>, batch: usize) -> CollectorView {
        CollectorView {
            cur: range,
            cached: Range { start: range.start, end: range.start },
            buffer: Seq::empty(),
            batch,
        }
    }
}

impl View for Collector {
    type V = CollectorView;

    closed spec fn view(&self) -> CollectorView {
        CollectorView { cur: self.cur, cached: self.cached, buffer: self.cache@, batch: self.batch }
    }
}

/// Whether a match has its sequence number in `range`.
pub open spec fn within(range: Range<u64>) -> spec_fn(full::Match) -> bool {
    |game: full::Match| range.start <= game.match_seq_num < range.end
}

/// Where the next page starts after a page that started at `start`: behind
/// the highest sequence number of the page, and at least one step on.
pub open spec fn next_start(start: u64, matches: Seq<full::Match>) -> int
    decreases matches.len(),
{
    if matches.len() == 0 {
        start + 1
    } else {
        let rest = next_start(start, matches.drop_last());
        if matches.last().match_seq_num + 1 > rest {
            matches.last().match_seq_num + 1
        } else {
            rest
        }
    }
}

/// `after` is `before` with the masks of `games` behind it, in their order.
pub open spec fn grown(before: Seq<MatchMask>, after: Seq<MatchMask>, games: Seq<full::Match>) -> bool {
    &&& after.len() == before.len() + games.len()
    &&& forall|i: int| 0 <= i < before.len() ==> after[i] == before[i]
    &&& forall|i: int| 0 <= i < games.len() ==> (#[trigger] after[before.len() + i]).is_mask_of(games[i])
}

/// The step that a page of `matches` makes of `before`: the masks of the
/// matches within the range to fetch are buffered, the range to fetch starts
/// anew behind the page, and the buffer is handed out with the range it
/// covers when the range is exhausted or the batch is full.
pub open spec fn processed(
    before: CollectorView,
    matches: Seq<full::Match>,
    result: CollectResult,
    after: CollectorView,
) -> bool {
    let next = next_start(before.cur.start, matches) as u64;
    let kept = matches.filter(within(before.cur));
    let covered = Range { start: before.cached.start, end: next };
    let nothing = Range { start: next, end: next };
    &&& after.batch == before.batch
    &&& after.cur == Range { start: next, end: before.cur.end }
    &&& match result {
        CollectResult::Yield => {
            &&& matches.len() < 100
            &&& after.cached == covered
            &&& grown(before.buffer, after.buffer, kept)
        },
        CollectResult::Completed(range, masks) => {
            &&& matches.len() >= 100
            &&& next >= before.cur.end
            &&& range == covered
            &&& grown(before.buffer, masks@, kept)
            &&& after.cached == nothing
            &&& after.buffer.len() == 0
        },
        CollectResult::Save(range, masks) => {
            &&& matches.len() >= 100
            &&& next < before.cur.end
            &&& masks@.len() >= before.batch
            &&& range == covered
            &&& grown(before.buffer, masks@, kept)
            &&& after.cached == nothing
            &&& after.buffer.len() == 0
        },
        CollectResult::Normal => {
            &&& matches.len() >= 100
            &&& next < before.cur.end
            &&& after.buffer.len() < before.batch
            &&& after.cached == covered
            &&& grown(before.buffer, after.buffer, kept)
        },
        CollectResult::Decel => false,
    }
}

impl Collector {
    /// A collector for `range` that hands its masks out once it holds
    /// `batch` of them. Nothing is buffered yet.
    pub fn new(range: Range<u64>, batch: usize) -> (collector: Collector)
        ensures
            collector@ == CollectorView::fresh(range, batch),
            collector@.wf(),
    {
        let cached = range.start..range.start;
        let collector = Collector { cur: range, cached, cache: Vec::new(), batch };
        assert(collector@.buffer =~= Seq::empty());
        collector
    }

    /// The part of the range that is still to be fetched.
    pub fn current_range(&self) -> (range: Range<u64>)
        ensures
            range == self@.cur,
    {
        self.cur.start..self.cur.end
    }

    /// The part of the range whose masks are buffered.
    pub fn cached_range(&self) -> (range: Range<u64>)
        ensures
            range == self@.cached,
    {
        self.cached.start..self.cached.end
    }

    /// Number of buffered masks.
    pub fn buffered(&self) -> (count: usize)
        ensures
            count == self@.buffer.len(),
    {
        self.cache.len()
    }

    /// Takes a page that was fetched from the start of the range to fetch.
    pub fn process(&mut self, matches: &[full::Match]) -> (result: CollectResult)
        requires
            old(self)@.cur.start < u64::MAX,
            forall|i: int| 0 <= i < matches@.len() ==> matches@[i].match_seq_num < u64::MAX,
        ensures
            processed(old(self)@, matches@, result, final(self)@),
            final(self)@.cur.start > old(self)@.cur.start,
            (forall|i: int| 0 <= i < matches@.len() ==> matches@[i].match_seq_num <= old(
                self,
            )@.cur.start) ==> final(self)@.cur.start == old(self)@.cur.start + 1,
            final(self)@.cached.end == final(self)@.cur.start,
            old(self)@.wf() ==> final(self)@.wf(),
    {
        let ghost before = self@;
        let start = self.cur.start;
        let mut next: u64 = start + 1;
        let mut i: usize = 0;
        while i < matches.len()
            invariant
                i <= matches.len(),
                forall|i: int| 0 <= i < matches@.len() ==> matches@[i].match_seq_num < u64::MAX,
                self.cur == before.cur,
                self.cached == before.cached,
                self.batch == before.batch,
                start == before.cur.start,
                next == next_start(start, matches@.take(i as int)),
                grown(before.buffer, self.cache@, matches@.take(i as int).filter(within(before.cur))),
            decreases matches.len() - i,
        {
            let game = &matches[i];
            proof {
                reveal(Seq::filter);
                assert(matches@.take(i + 1).drop_last() == matches@.take(i as int));
            }
            if self.cur.start <= game.match_seq_num && game.match_seq_num < self.cur.end {
                let mask = MatchMask::encode(game);
                self.cache.push(mask);
            }
            if game.match_seq_num + 1 > next {
                next = game.match_seq_num + 1;
            }
            i += 1;
        }
        assert(matches@.take(i as int) == matches@);
        proof {
            lemma_next_start(start, matches@);
        }
        self.cur.start = next;
        self.cached.end = next;

        if matches.len() < 100 {
            return CollectResult::Yield;
        }
        if self.cur.start >= self.cur.end {
            let range = self.cached.start..self.cached.end;
            self.cached = self.cur.start..self.cur.start;
            let mut masks: Vec<MatchMask> = Vec::new();
            std::mem::swap(&mut self.cache, &mut masks);
            return CollectResult::Completed(range, masks);
        }
        if self.cache.len() >= self.batch {
            let range = self.cached.start..self.cached.end;
            self.cached = self.cur.start..self.cur.start;
            let mut masks: Vec<MatchMask> = Vec::new();
            std::mem::swap(&mut self.cache, &mut masks);
            return CollectResult::Save(range, masks);
        }
        CollectResult::Normal
    }

    /// Takes the outcome of the request for the page at the start of the
    /// range to fetch. A page is processed. A body that could not be decoded
    /// is fatal: it comes back with the name of the file that is to take it.
    /// A transport failure changes nothing and lets the scheduler go on; any
    /// other refusal asks it to slow down.
    pub fn step(&mut self, response: Result<full::MatchHistory, RequestError>) -> (result: Result<
        CollectResult,
        DecodeFailure,
    >)
        requires
            response is Ok ==> old(self)@.cur.start < u64::MAX,
            response matches Ok(history) ==> forall|i: int|
                0 <= i < history.matches@.len() ==> history.matches@[i].match_seq_num < u64::MAX,
        ensures
            stepped(old(self)@, response, result, final(self)@),
            response is Ok ==> final(self)@.cur.start > old(self)@.cur.start,
            old(self)@.wf() ==> final(self)@.wf(),
    {
        match response {
            Ok(history) => Ok(self.process(history.matches.as_slice())),
            Err(RequestError::DecodeError(message, content)) => {
                let file = decimal_text(self.cur.start).concat("-error.json");
                Err(DecodeFailure { file, content, message })
            },
            Err(RequestError::ConnectionError(_)) => Ok(CollectResult::Normal),
            Err(_) => Ok(CollectResult::Decel),
        }
    }
}

/// The step that the outcome of a request makes of `before`. A page is
/// processed. A body that could not be decoded comes back with the name of
/// the file that takes it, a transport failure is answered with `Normal`, and
/// any other refusal with `Decel`; none of the three changes the collector.
pub open spec fn stepped(
    before: CollectorView,
    response: Result<full::MatchHistory, RequestError>,
    result: Result<CollectResult, DecodeFailure>,
    after: CollectorView,
) -> bool {
    match response {
        Ok(history) => {
            &&& result matches Ok(outcome)
            &&& processed(before, history.matches@, outcome, after)
        },
        Err(RequestError::DecodeError(message, content)) => {
            &&& result matches Err(failure)
            &&& failure.file@ == error_file(before.cur.start)
            &&& failure.content == content
            &&& failure.message == message
            &&& after == before
        },
        Err(RequestError::ConnectionError(_)) => {
            &&& result matches Ok(CollectResult::Normal)
            &&& after == before
        },
        Err(_) => {
            &&& result matches Ok(CollectResult::Decel)
            &&& after == before
        },
    }
}

/// After a step, whatever the request came to, what is buffered ends where
/// what is to be fetched begins, if it did so before. Masks that are handed
/// out cover what was buffered, and nothing is buffered behind them.
pub proof fn lemma_buffer_accounting(
    before: CollectorView,
    response: Result<full::MatchHistory, RequestError>,
    result: Result<CollectResult, DecodeFailure>,
    after: CollectorView,
)
    requires
        stepped(before, response, result, after),
        before.cached.end == before.cur.start,
    ensures
        after.cached.end == after.cur.start,
        result matches Ok(CollectResult::Save(range, _)) ==> range == (Range {
            start: before.cached.start,
            end: after.cur.start,
        }) && after.cached == (Range { start: after.cur.start, end: after.cur.start }),
        result matches Ok(CollectResult::Completed(range, _)) ==> range == (Range {
            start: before.cached.start,
            end: after.cur.start,
        }) && after.cached == (Range { start: after.cur.start, end: after.cur.start }),
{
}

/// A step keeps what is buffered in order, start before end, whatever the
/// request came to. For a page this holds where the next start can be told
/// in 64 bits.
pub proof fn lemma_step_keeps_wf(
    before: CollectorView,
    response: Result<full::MatchHistory, RequestError>,
    result: Result<CollectResult, DecodeFailure>,
    after: CollectorView,
)
    requires
        stepped(before, response, result, after),
        before.wf(),
        response matches Ok(history) ==> next_start(before.cur.start, history.matches@)
            <= u64::MAX,
    ensures
        after.wf(),
{
    if response is Ok {
        lemma_next_start(before.cur.start, response->Ok_0.matches@);
    }
}

/// A request that the service refused leaves the collector as it was, so
/// that the page that comes for the same start later is processed as it
/// would have been at once: no mask is lost and none comes twice.
pub proof fn lemma_refusal_changes_nothing(
    before: CollectorView,
    response: Result<full::MatchHistory, RequestError>,
    result: Result<CollectResult, DecodeFailure>,
    after: CollectorView,
)
    requires
        stepped(before, response, result, after),
        response matches Err(RequestError::TooManyRequests) || response matches Err(
            RequestError::OtherResponse(_),
        ),
    ensures
        result matches Ok(CollectResult::Decel),
        after == before,
{
}

/// Name of the file that takes the body which could not be decoded when the
/// page at `start` was asked for.
pub open spec fn error_file(start: u64) -> Seq<char> {
    decimal(start as nat) + "-error.json"@
}

/// A page that holds no match from the end of the range on leaves the
/// collector within its range: what is buffered ends at or before the end of
/// the range. A page with a match behind the end takes the start past it.
pub proof fn lemma_stays_within(
    before: CollectorView,
    matches: Seq<full::Match>,
    result: CollectResult,
    after: CollectorView,
)
    requires
        processed(before, matches, result, after),
        before.cur.start < before.cur.end,
        forall|i: int| 0 <= i < matches.len() ==> matches[i].match_seq_num < before.cur.end,
    ensures
        after.cur.start <= after.cur.end,
        after.cached.end <= after.cur.end,
{
    lemma_next_start(before.cur.start, matches);
}

/// The next start lies behind the start and behind every match of the page.
pub proof fn lemma_next_start(start: u64, matches: Seq<full::Match>)
    ensures
        next_start(start, matches) > start,
        (forall|i: int| 0 <= i < matches.len() ==> matches[i].match_seq_num <= start)
            ==> next_start(start, matches) == start + 1,
        forall|i: int| 0 <= i < matches.len() ==> next_start(start, matches) > matches[i].match_seq_num,
        next_start(start, matches) == start + 1 || exists|i: int|
            0 <= i < matches.len() && next_start(start, matches) == matches[i].match_seq_num + 1,
    decreases matches.len(),
{
    if matches.len() > 0 {
        let rest = matches.drop_last();
        lemma_next_start(start, rest);
        if next_start(start, matches) == next_start(start, rest) && next_start(start, rest) != start + 1 {
            let i = choose|i: int|
                0 <= i < rest.len() && next_start(start, rest) == rest[i].match_seq_num + 1;
            assert(next_start(start, matches) == matches[i].match_seq_num + 1);
        } else if next_start(start, matches) != start + 1 {
            let i = matches.len() - 1;
            assert(next_start(start, matches) == matches[i].match_seq_num + 1);
        }
        assert forall|i: int| 0 <= i < matches.len() implies next_start(start, matches)
            > matches[i].match_seq_num by {
            if i < rest.len() {
                assert(rest[i] == matches[i]);
            }
        }
    }
}

} // verus!
