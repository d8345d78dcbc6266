//! The checkpoint of collected ranges and the scheduler that turns between
//! the collectors.

use crate::client::RequestError;
use crate::collector::{
    error_file, lemma_next_start, next_start, processed, CollectResult, Collector, CollectorView,
    DecodeFailure,
};
use crate::dota2::full;
use crate::dota2::MatchMask;
use crate::ranges::{
    ascending, covers, lemma_covers_push, lemma_normalized, lemma_record_onward,
    lemma_record_past, merge_ranges, normalized, proper, separated, sort_ranges,
};
use crate::rate::{decelerated, RateControl, RateView, LAST_INSTANT};
use std::collections::VecDeque;
use std::ops::Range;
use vstd::prelude::*;

verus! {

/// Length of the chunks in which the past is collected.
pub const PAST_CHUNK: u64 = 100000;

/// The ranges of sequence numbers that are collected and persisted.
#[derive(Clone, Debug)]
pub struct CollectorState {
    collected: Vec<(u64, u64)>,
}

impl View for CollectorState {
    type V = Seq<(u64, u64)>;

    closed spec fn view(&self) -> Seq<(u64, u64)> {
        self.collected@
    }
}

impl Default for CollectorState {
    fn default() -> (state: CollectorState)
        ensures
            state@.len() == 0,
    {
        CollectorState { collected: Vec::new() }
    }
}

/// The chunk of the past that ends at `idx`: it starts at the highest
/// multiple of the chunk length below `idx`. There is none before 0.
pub open spec fn chunk_before(idx: u64) -> Option<Range<u64>> {
    if idx == 0 {
        None
    } else {
        Some(Range { start: ((idx - 1) / 100000 * 100000) as u64, end: idx })
    }
}

/// The range to collect behind what is collected: from the end of the last
/// collected range onwards.
pub open spec fn onward_of(collected: Seq<(u64, u64)>) -> Range<u64> {
    Range { start: collected.last().1, end: u64::MAX }
}

/// The range of the past to collect next: the gap before the last collected
/// range, or the chunk before it where it is the only one.
pub open spec fn past_of(collected: Seq<(u64, u64)>) -> Option<Range<u64>> {
    if collected.len() >= 2 {
        Some(Range { start: collected[collected.len() - 2].1, end: collected.last().0 })
    } else {
        chunk_before(collected.last().0)
    }
}

impl CollectorState {
    /// The checkpoint that holds `collected`, as it was read back.
    pub fn new(collected: Vec<(u64, u64)>) -> (state: CollectorState)
        ensures
            state@ == collected@,
    {
        CollectorState { collected }
    }

    /// The collected ranges, as they are written down.
    pub fn collected(&self) -> (ranges: &Vec<(u64, u64)>)
        ensures
            ranges@ == self@,
    {
        &self.collected
    }

    /// Whether nothing is collected yet, so that a start has to be found.
    pub fn is_empty(&self) -> (empty: bool)
        ensures
            empty == (self@.len() == 0),
    {
        self.collected.len() == 0
    }

    /// Starts an empty checkpoint at a recent sequence number: nothing is
    /// collected, and collecting goes on and back from `start`. A checkpoint
    /// that holds ranges stays as it is.
    pub fn seed(&mut self, start: u64)
        ensures
            old(self)@.len() == 0 ==> final(self)@ == seq![(start, start)],
            old(self)@.len() > 0 ==> final(self)@ == old(self)@,
    {
        if self.collected.len() == 0 {
            self.collected.push((start, start));
            assert(self.collected@ =~= seq![(start, start)]);
        }
    }

    /// The chunk of the past that ends at `idx`.
    pub fn prev_range(idx: u64) -> (range: Option<Range<u64>>)
        ensures
            range == chunk_before(idx),
    {
        if idx == 0 {
            None
        } else {
            let start = (idx - 1) / PAST_CHUNK * PAST_CHUNK;
            Some(start..idx)
        }
    }

    /// The range to collect behind what is collected.
    pub fn onward_range(&self) -> (range: Range<u64>)
        requires
            self@.len() > 0,
        ensures
            range == onward_of(self@),
    {
        let end = self.collected[self.collected.len() - 1].1;
        end..u64::MAX
    }

    /// The range of the past to collect next, if there is any.
    pub fn past_range(&self) -> (range: Option<Range<u64>>)
        requires
            self@.len() > 0,
        ensures
            range == past_of(self@),
    {
        let n = self.collected.len();
        if n >= 2 {
            Some(self.collected[n - 2].1..self.collected[n - 1].0)
        } else {
            Self::prev_range(self.collected[0].0)
        }
    }

    /// Records that `range` is collected: the range joins the list, the list
    /// is put in order, and ranges that touch or overlap become one.
    pub fn complete(&mut self, range: Range<u64>)
        ensures
            final(self)@ == normalized(old(self)@.push((range.start, range.end))),
            separated(final(self)@),
            ascending(final(self)@),
            forall|x: u64|
                covers(final(self)@, x) <==> covers(old(self)@, x) || range.start <= x < range.end,
            final(self)@.len() > 0,
    {
        let ghost before = self.collected@;
        let ghost added = before.push((range.start, range.end));
        self.collected.push((range.start, range.end));
        let sorted = sort_ranges(&self.collected);
        self.collected = merge_ranges(&sorted);
        proof {
            lemma_normalized(added);
            lemma_covers_push(before, (range.start, range.end));
            assert forall|x: u64|
                covers(self.collected@, x) <==> covers(before, x) || range.start <= x
                    < range.end by {
                assert(covers(normalized(added), x) <==> covers(added, x));
            }
        }
    }
}

/// Steps that the onward collector makes before the next one has its turn.
pub const ONWARD_QUOTA: usize = 16;

/// Steps that a collector of the past makes before the next one has its turn.
pub const PAST_QUOTA: usize = 4;

/// A collector of the past hands out batches this many times as large as the
/// onward collector does.
pub const PAST_BATCH_FACTOR: usize = 10;

/// Time by which a refused request puts off the next one: two seconds.
pub const DECEL_PAUSE: u128 = 2000000000;

/// What the scheduler asks of its driver.
#[derive(Debug)]
pub enum Action {
    /// Wait this long, then ask again.
    Wait(u128),
    /// Fetch the page that starts at this sequence number, and hand what
    /// came of it to `step`.
    Fetch(u64),
    /// No collector is left.
    Idle,
}

/// What the scheduler asks of its driver after a step.
#[derive(Debug)]
pub enum Directive {
    /// Nothing: ask for the next action.
    Continue,
    /// Persist these masks, which cover this range, then call `persisted`.
    Persist(Range<u64>, Vec<MatchMask>),
}

/// A range that was handed out to be persisted and is not yet in the
/// checkpoint.
pub struct Pending {
    /// The range that the masks cover.
    pub range: Range<u64>,
    /// The quota for the collector that takes the place of the one that
    /// handed the range out, where that one is done.
    pub successor: Option<usize>,
}

struct Turn {
    quota: usize,
    steps: usize,
    collector: Collector,
}

/// The collector whose turn it is.
pub struct TurnView {
    /// Steps it may make in a row.
    pub quota: usize,
    /// Steps it has made in this turn.
    pub steps: usize,
    /// The state of the collector.
    pub collector: CollectorView,
}

/// The scheduler: the checkpoint, the pacing that all collectors share, the
/// queue of the collectors with their quotas, and the collector in turn. It
/// decides; the caller keeps the time, sends the requests and persists.
pub struct Scheduler {
    batch: usize,
    rate: RateControl,
    state: CollectorState,
    queue: VecDeque<(usize, Collector)>,
    turn: Option<Turn>,
    fetching: bool,
    awaiting: Option<Pending>,
}

/// The state of the scheduler.
pub struct SchedulerView {
    /// Batch size of the onward collector.
    pub batch: usize,
    /// The pacing that all collectors share.
    pub rate: RateView,
    /// The checkpoint.
    pub state: Seq<(u64, u64)>,
    /// The collectors that wait for their turn, each with its quota.
    pub queue: Seq<(usize, CollectorView)>,
    /// The collector whose turn it is, if any.
    pub turn: Option<TurnView>,
    /// Whether a page was asked for and has not come back.
    pub fetching: bool,
    /// The range that is being persisted, if any.
    pub awaiting: Option<Pending>,
}

impl SchedulerView {
    /// What holds of the state between any two calls: the pacing is within
    /// its limits, the checkpoint has a range, every quota is at least one
    /// step, and the collector in turn has steps left. While a page is asked
    /// for a collector is in turn and nothing waits to be persisted.
    pub open spec fn wf(self) -> bool {
        &&& self.rate.wf()
        &&& self.state.len() > 0
        &&& self.batch * 10 <= usize::MAX
        &&& forall|i: int| 0 <= i < self.queue.len() ==> (#[trigger] self.queue[i]).0 > 0
        &&& self.turn matches Some(turn) ==> turn.steps < turn.quota
        &&& self.awaiting matches Some(pending) ==> (pending.successor matches Some(quota) ==> quota
            > 0)
        &&& self.fetching ==> {
            &&& self.turn is Some
            &&& self.awaiting is None
            &&& self.rate.last_timestamp + DECEL_PAUSE <= LAST_INSTANT
        }
    }

    /// The state with the collector at the head of the queue in its turn,
    /// where no collector had the turn and one was waiting.
    pub open spec fn seated(self) -> SchedulerView {
        if self.turn is None && self.queue.len() > 0 {
            SchedulerView {
                turn: Some(
                    TurnView { quota: self.queue[0].0, steps: 0, collector: self.queue[0].1 },
                ),
                queue: self.queue.skip(1),
                ..self
            }
        } else {
            self
        }
    }

    /// What `next` makes of the state at the instant `now`, and what it
    /// answers.
    pub open spec fn nexted(self, now: u128) -> (SchedulerView, Action) {
        let seated = self.seated();
        match seated.turn {
            None => (self, Action::Idle),
            Some(turn) => {
                let (rate, pause) = seated.rate.waited(now);
                match pause {
                    Some(pause) => (seated, Action::Wait(pause)),
                    None => (
                        SchedulerView { rate, fetching: true, ..seated },
                        Action::Fetch(turn.collector.cur.start),
                    ),
                }
            },
        }
    }

    /// The state after the collector in turn has gone back to the end of
    /// the queue as `collector`.
    pub open spec fn rotated(self, collector: CollectorView) -> SchedulerView {
        SchedulerView {
            turn: None,
            queue: self.queue.push((self.turn->0.quota, collector)),
            fetching: false,
            ..self
        }
    }

    /// The state after the collector in turn has made a step that left it as
    /// `collector`: it keeps the turn until its quota is used up.
    pub open spec fn advanced(self, collector: CollectorView) -> SchedulerView {
        let turn = self.turn->0;
        if turn.steps + 1 >= turn.quota {
            self.rotated(collector)
        } else {
            SchedulerView {
                turn: Some(TurnView { steps: (turn.steps + 1) as usize, collector, ..turn }),
                fetching: false,
                ..self
            }
        }
    }

    /// The state after a request was refused: the interval is stretched and
    /// the next request is put off.
    pub open spec fn slowed(self) -> SchedulerView {
        SchedulerView {
            rate: RateView {
                interval: decelerated(self.rate.interval, self.rate.max_interval) as u128,
                last_timestamp: (self.rate.last_timestamp + DECEL_PAUSE) as u128,
                ..self.rate
            },
            ..self
        }
    }

    /// Whether a step on `response` can lead from `self` to `after` with the
    /// answer `result`.
    pub open spec fn stepped(
        self,
        response: Result<full::MatchHistory, RequestError>,
        result: Result<Directive, DecodeFailure>,
        after: SchedulerView,
    ) -> bool {
        let turn = self.turn->0;
        match response {
            Err(RequestError::DecodeError(message, content)) => {
                &&& result matches Err(failure)
                &&& failure.file@ == error_file(turn.collector.cur.start)
                &&& failure.content == content
                &&& failure.message == message
                &&& after == SchedulerView { fetching: false, ..self }
            },
            Err(RequestError::ConnectionError(_)) => {
                &&& result matches Ok(Directive::Continue)
                &&& after == self.advanced(turn.collector)
            },
            Err(_) => {
                &&& result matches Ok(Directive::Continue)
                &&& after == self.slowed().advanced(turn.collector)
            },
            Ok(history) => exists|outcome: CollectResult, collector: CollectorView|
                {
                    &&& #[trigger] processed(turn.collector, history.matches@, outcome, collector)
                    &&& match outcome {
                        CollectResult::Normal => {
                            &&& result matches Ok(Directive::Continue)
                            &&& after == self.advanced(collector)
                        },
                        CollectResult::Yield => {
                            &&& result matches Ok(Directive::Continue)
                            &&& after == self.rotated(collector)
                        },
                        CollectResult::Save(range, masks) => {
                            &&& result == Ok::<Directive, DecodeFailure>(
                                Directive::Persist(range, masks),
                            )
                            &&& after == SchedulerView {
                                awaiting: Some(Pending { range, successor: None }),
                                ..self.advanced(collector)
                            }
                        },
                        CollectResult::Completed(range, masks) => {
                            &&& result == Ok::<Directive, DecodeFailure>(
                                Directive::Persist(range, masks),
                            )
                            &&& after == SchedulerView {
                                turn: None,
                                fetching: false,
                                awaiting: Some(Pending { range, successor: Some(turn.quota) }),
                                ..self
                            }
                        },
                        CollectResult::Decel => false,
                    }
                },
        }
    }

    /// What `persisted` makes of the state: the range that was persisted is
    /// in the checkpoint, and where its collector is done and there is still
    /// a past to collect, a collector for it waits at the end of the queue.
    pub open spec fn recorded(self) -> SchedulerView {
        let pending = self.awaiting->0;
        let state = normalized(self.state.push((pending.range.start, pending.range.end)));
        let queue = match (pending.successor, past_of(state)) {
            (Some(quota), Some(range)) => self.queue.push(
                (quota, CollectorView::fresh(range, (self.batch * 10) as usize)),
            ),
            _ => self.queue,
        };
        SchedulerView { state, queue, awaiting: None, ..self }
    }
}

/// The checkpoint changes only when a range is recorded as persisted:
/// neither asking for the next action nor a step touches it. A run that
/// ends between the persisting of a batch and the recording of its range
/// leaves the checkpoint without the range, and the next run collects the
/// range again.
pub proof fn lemma_checkpoint_kept(
    before: SchedulerView,
    now: u128,
    response: Result<full::MatchHistory, RequestError>,
    result: Result<Directive, DecodeFailure>,
    after: SchedulerView,
)
    requires
        before.turn is Some,
    ensures
        before.nexted(now).0.state == before.state,
        before.stepped(response, result, after) ==> after.state == before.state,
{
}

/// A request that the service refused puts the next request off by two
/// seconds and stretches the interval. It counts as one step of the turn:
/// the collector stays in turn while its quota lasts, unchanged, so that the
/// next request asks for the same start once the new deadline is reached.
pub proof fn lemma_refusal_keeps_turn(
    before: SchedulerView,
    response: Result<full::MatchHistory, RequestError>,
    result: Result<Directive, DecodeFailure>,
    after: SchedulerView,
    now: u128,
)
    requires
        before.turn is Some,
        response matches Err(RequestError::TooManyRequests) || response matches Err(
            RequestError::OtherResponse(_),
        ),
        before.stepped(response, result, after),
        before.rate.last_timestamp + DECEL_PAUSE <= u128::MAX,
        before.rate.interval * 4 <= u128::MAX,
    ensures
        result matches Ok(Directive::Continue),
        after.state == before.state,
        after.awaiting == before.awaiting,
        after.rate.last_timestamp == before.rate.last_timestamp + DECEL_PAUSE,
        after.rate.interval == decelerated(before.rate.interval, before.rate.max_interval),
        before.turn->0.steps + 1 < before.turn->0.quota ==> {
            &&& after.queue == before.queue
            &&& after.turn == Some(
                TurnView { steps: (before.turn->0.steps + 1) as usize, ..before.turn->0 },
            )
            &&& now < after.rate.deadline() ==> after.nexted(now).1 == Action::Wait(
                (after.rate.deadline() - now) as u128,
            )
            &&& now >= after.rate.deadline() ==> after.nexted(now).1 == Action::Fetch(
                before.turn->0.collector.cur.start,
            )
        },
        before.turn->0.steps + 1 >= before.turn->0.quota ==> {
            &&& after.turn is None
            &&& after.queue == before.queue.push(
                (before.turn->0.quota, before.turn->0.collector),
            )
        },
{
}

/// Whether a collector works on the onward front of the checkpoint: what
/// it buffers and has still to fetch begins where the last recorded range
/// ends, and has no end.
pub open spec fn tied_onward(collector: CollectorView, state: Seq<(u64, u64)>) -> bool {
    collector.cached.start == onward_of(state).start && collector.cur.end == u64::MAX
}

/// Whether a collector works on the past of the checkpoint: what it buffers
/// and has still to fetch is the range of the past that the checkpoint names.
pub open spec fn tied_past(collector: CollectorView, state: Seq<(u64, u64)>) -> bool {
    past_of(state) == Some(Range { start: collector.cached.start, end: collector.cur.end })
}

/// Whether a collector works on a range that a scheduler started afresh on
/// `state` would hand out.
pub open spec fn tied(collector: CollectorView, state: Seq<(u64, u64)>) -> bool {
    tied_onward(collector, state) || tied_past(collector, state)
}

/// Whether the collectors of `collectors` are anchored in the checkpoint:
/// the checkpoint is proper, each collector is in order and tied to it, and
/// no two of them work on the same front.
pub open spec fn anchored_to(state: Seq<(u64, u64)>, collectors: Seq<CollectorView>) -> bool {
    &&& proper(state)
    &&& state.len() > 0
    &&& forall|i: int|
        0 <= i < collectors.len() ==> (#[trigger] collectors[i]).wf() && tied(collectors[i], state)
    &&& forall|i: int, j: int|
        0 <= i < j < collectors.len() ==> !(tied_onward(#[trigger] collectors[i], state)
            && tied_onward(#[trigger] collectors[j], state)) && !(tied_past(collectors[i], state)
            && tied_past(collectors[j], state))
}

impl SchedulerView {
    /// The collectors of the scheduler: those that wait, in their order, and
    /// behind them the one in turn.
    pub open spec fn collectors(self) -> Seq<CollectorView> {
        let waiting = Seq::new(self.queue.len(), |i: int| self.queue[i].1);
        match self.turn {
            Some(turn) => waiting.push(turn.collector),
            None => waiting,
        }
    }

    /// Whether the scheduler is anchored in its checkpoint: a scheduler
    /// started afresh on the checkpoint would hand out the ranges that its
    /// collectors work on.
    pub open spec fn anchored(self) -> bool {
        anchored_to(self.state, self.collectors())
    }
}

/// In a proper checkpoint no collector is tied to both fronts.
proof fn lemma_one_front(collector: CollectorView, state: Seq<(u64, u64)>)
    requires
        proper(state),
        state.len() > 0,
    ensures
        !(tied_onward(collector, state) && tied_past(collector, state)),
{
    let k = state.len() as int;
    assert(state[k - 1].0 <= state[k - 1].1);
    if k >= 2 {
        assert(state[k - 2].1 < state[k - 1].0);
    }
}

/// A scheduler that starts on a proper checkpoint is anchored in it.
pub proof fn lemma_anchored_at_start(state: Seq<(u64, u64)>, batch: usize, rate: RateView)
    requires
        proper(state),
        state.len() > 0,
    ensures
        (SchedulerView {
            batch,
            rate,
            state,
            queue: match past_of(state) {
                Some(range) => seq![
                    (ONWARD_QUOTA, CollectorView::fresh(onward_of(state), batch)),
                    (PAST_QUOTA, CollectorView::fresh(range, (batch * 10) as usize)),
                ],
                None => seq![(ONWARD_QUOTA, CollectorView::fresh(onward_of(state), batch))],
            },
            turn: None,
            fetching: false,
            awaiting: None,
        }).anchored(),
{
    let onward = CollectorView::fresh(onward_of(state), batch);
    lemma_one_front(onward, state);
    if past_of(state) is Some {
        let past = CollectorView::fresh(past_of(state)->0, (batch * 10) as usize);
        lemma_one_front(past, state);
        let k = state.len() as int;
        assert(state[k - 1].0 <= state[k - 1].1);
        if k >= 2 {
            assert(state[k - 2].1 < state[k - 1].0);
        }
    }
}

/// Asking for the next action leaves an anchored scheduler anchored.
pub proof fn lemma_anchored_next(before: SchedulerView, now: u128)
    requires
        before.anchored(),
    ensures
        before.nexted(now).0.anchored(),
{
    let seated = before.seated();
    if before.turn is None && before.queue.len() > 0 {
        let old = before.collectors();
        let new = seated.collectors();
        let n = old.len() as int;
        assert(new.len() == n);
        assert forall|i: int| 0 <= i < n implies #[trigger] new[i] == old[if i == n - 1 {
            0
        } else {
            i + 1
        }] by {}
        assert forall|i: int| 0 <= i < new.len() implies (#[trigger] new[i]).wf() && tied(
            new[i],
            seated.state,
        ) by {
            let at = if i == n - 1 {
                0
            } else {
                i + 1
            };
            assert(old[at].wf() && tied(old[at], before.state));
        }
        assert forall|i: int, j: int| 0 <= i < j < new.len() implies !(tied_onward(
            #[trigger] new[i],
            seated.state,
        ) && tied_onward(#[trigger] new[j], seated.state)) && !(tied_past(new[i], seated.state)
            && tied_past(new[j], seated.state)) by {
            let at = i + 1;
            let to = if j == n - 1 {
                0
            } else {
                j + 1
            };
            if to == 0 {
                assert(!(tied_onward(old[0], before.state) && tied_onward(old[at], before.state)));
                assert(!(tied_past(old[0], before.state) && tied_past(old[at], before.state)));
            } else {
                assert(!(tied_onward(old[at], before.state) && tied_onward(old[to], before.state)));
                assert(!(tied_past(old[at], before.state) && tied_past(old[to], before.state)));
            }
        }
    }
}

/// The collector that took the step stands last among the collectors, in
/// turn or at the end of the queue; the others are as they were.
proof fn lemma_advanced_collectors(before: SchedulerView, collector: CollectorView)
    requires
        before.turn is Some,
    ensures
        before.advanced(collector).collectors() == before.collectors().drop_last().push(collector),
        before.rotated(collector).collectors() == before.collectors().drop_last().push(collector),
        before.slowed().collectors() == before.collectors(),
{
    assert(before.advanced(collector).collectors() =~= before.collectors().drop_last().push(
        collector,
    ));
    assert(before.rotated(collector).collectors() =~= before.collectors().drop_last().push(
        collector,
    ));
    assert(before.slowed().collectors() =~= before.collectors());
}

/// Collectors stay anchored when the last of them is replaced by one that
/// buffers from the same start and has the same end to reach.
proof fn lemma_anchored_same_range(
    state: Seq<(u64, u64)>,
    collectors: Seq<CollectorView>,
    collector: CollectorView,
)
    requires
        anchored_to(state, collectors),
        collectors.len() > 0,
        collector.wf(),
        collector.cached.start == collectors.last().cached.start,
        collector.cur.end == collectors.last().cur.end,
    ensures
        anchored_to(state, collectors.drop_last().push(collector)),
{
    let new = collectors.drop_last().push(collector);
    let n = collectors.len() as int;
    assert forall|i: int| 0 <= i < new.len() implies (#[trigger] new[i]).wf() && tied(
        new[i],
        state,
    ) by {
        assert(collectors[i].wf() && tied(collectors[i], state));
    }
    assert forall|i: int, j: int| 0 <= i < j < new.len() implies !(tied_onward(
        #[trigger] new[i],
        state,
    ) && tied_onward(#[trigger] new[j], state)) && !(tied_past(new[i], state) && tied_past(
        new[j],
        state,
    )) by {
        assert(!(tied_onward(collectors[i], state) && tied_onward(collectors[j], state)));
        assert(!(tied_past(collectors[i], state) && tied_past(collectors[j], state)));
    }
}

/// A step that hands nothing out leaves an anchored scheduler anchored. For
/// a page this holds where the next start can be told in 64 bits.
pub proof fn lemma_anchored_step(
    before: SchedulerView,
    response: Result<full::MatchHistory, RequestError>,
    result: Result<Directive, DecodeFailure>,
    after: SchedulerView,
)
    requires
        before.anchored(),
        before.turn is Some,
        before.stepped(response, result, after),
        !(result matches Ok(Directive::Persist(_, _))),
        response matches Ok(history) ==> next_start(
            before.turn->0.collector.cur.start,
            history.matches@,
        ) <= u64::MAX,
    ensures
        after.anchored(),
{
    let turn = before.turn->0;
    let all = before.collectors();
    assert(all.last() == turn.collector);
    assert(all[all.len() - 1].wf());
    match response {
        Err(RequestError::DecodeError(_, _)) => {
            assert(after.collectors() =~= all);
        },
        Err(_) => {
            lemma_advanced_collectors(before, turn.collector);
            lemma_advanced_collectors(before.slowed(), turn.collector);
            assert(all.drop_last().push(turn.collector) =~= all);
        },
        Ok(history) => {
            let (outcome, collector) = choose|outcome: CollectResult, collector: CollectorView|
                #[trigger] processed(turn.collector, history.matches@, outcome, collector) && (
                match outcome {
                    CollectResult::Normal => after == before.advanced(collector),
                    CollectResult::Yield => after == before.rotated(collector),
                    _ => false,
                });
            lemma_next_start(turn.collector.cur.start, history.matches@);
            lemma_advanced_collectors(before, collector);
            lemma_anchored_same_range(before.state, all, collector);
        },
    }
}

/// A range that is handed out to be persisted begins where a range begins
/// that a scheduler started afresh on the checkpoint hands out. The
/// checkpoint is as it was, and covers nothing of the range, as far as the
/// range lies within that of its collector. So a run that ends before the
/// range is recorded is followed by a run that collects from the start of
/// the range again.
pub proof fn lemma_handed_out_again(
    before: SchedulerView,
    response: Result<full::MatchHistory, RequestError>,
    result: Result<Directive, DecodeFailure>,
    after: SchedulerView,
)
    requires
        before.anchored(),
        before.turn is Some,
        before.stepped(response, result, after),
        result matches Ok(Directive::Persist(_, _)),
    ensures
        after.state == before.state,
        after.awaiting matches Some(pending) && result matches Ok(
            Directive::Persist(range, _),
        ) && pending.range == range && ({
            ||| range.start == onward_of(after.state).start
            ||| past_of(after.state) matches Some(past) && past.start == range.start
        }),
        forall|x: u64|
            after.awaiting->0.range.start <= x < after.awaiting->0.range.end && x
                < before.turn->0.collector.cur.end ==> !covers(after.state, x),
{
    let all = before.collectors();
    let collector = before.turn->0.collector;
    let state = before.state;
    let k = state.len() as int;
    assert(all.last() == collector);
    assert(tied(all[all.len() - 1], state));
    assert forall|x: u64|
        after.awaiting->0.range.start <= x < after.awaiting->0.range.end && x
            < collector.cur.end implies !covers(state, x) by {
        if covers(state, x) {
            let i = choose|i: int| 0 <= i < state.len() && (#[trigger] state[i]).0 <= x < state[i].1;
            assert(state[k - 1].0 <= state[k - 1].1);
            if i < k - 1 {
                assert(state[i].1 < state[k - 1].0);
            }
            if k >= 2 {
                assert(state[k - 2].0 <= state[k - 2].1);
                if i < k - 2 {
                    assert(state[i].1 < state[k - 2].0);
                }
            }
        }
    }
}

/// Recording a range that was persisted leaves the scheduler anchored: the
/// collector that handed the range out goes on behind it, the collector
/// of the other front is where it was, and a collector that takes the
/// place of one that is done starts on the range of the past that the
/// checkpoint then names. This holds where the page held no match from the
/// end of the collector's range on and the next start can be told in 64
/// bits, and where it is not the onward collector that is done.
pub proof fn lemma_anchored_recorded(
    before: SchedulerView,
    response: Result<full::MatchHistory, RequestError>,
    result: Result<Directive, DecodeFailure>,
    after: SchedulerView,
)
    requires
        before.anchored(),
        before.turn is Some,
        before.awaiting is None,
        before.stepped(response, result, after),
        result matches Ok(Directive::Persist(range, _)) && range.end
            <= before.turn->0.collector.cur.end,
        response matches Ok(history) ==> next_start(
            before.turn->0.collector.cur.start,
            history.matches@,
        ) <= u64::MAX,
        !(after.awaiting->0.successor is Some && tied_onward(
            before.turn->0.collector,
            before.state,
        )),
    ensures
        after.recorded().anchored(),
{
    let turn = before.turn->0;
    let state = before.state;
    let all = before.collectors();
    let others = all.drop_last();
    let k = state.len() as int;
    assert(all.last() == turn.collector);
    assert(all[all.len() - 1].wf() && tied(all[all.len() - 1], state));
    lemma_one_front(turn.collector, state);
    let history = response->Ok_0;
    let (outcome, collector) = choose|outcome: CollectResult, collector: CollectorView|
        #[trigger] processed(turn.collector, history.matches@, outcome, collector) && (
        match outcome {
            CollectResult::Save(range, masks) => after == SchedulerView {
                awaiting: Some(Pending { range, successor: None }),
                ..before.advanced(collector)
            },
            CollectResult::Completed(range, masks) => after == SchedulerView {
                turn: None,
                fetching: false,
                awaiting: Some(Pending { range, successor: Some(turn.quota) }),
                ..before
            },
            _ => false,
        });
    lemma_next_start(turn.collector.cur.start, history.matches@);
    let range = after.awaiting->0.range;
    let next = after.recorded().state;
    assert(state[k - 1].0 <= state[k - 1].1);
    if tied_onward(turn.collector, state) {
        lemma_record_onward(state, range.start, range.end);
        assert(past_of(next) == past_of(state));
    } else {
        if k >= 2 {
            assert(state[k - 2].1 < state[k - 1].0);
        }
        lemma_record_past(state, range.start, range.end);
        assert(onward_of(next) == onward_of(state));
    }
    assert forall|i: int| 0 <= i < others.len() implies (#[trigger] others[i]).wf() && tied(
        others[i],
        next,
    ) && (tied_onward(others[i], next) <==> !tied_onward(turn.collector, state)) by {
        assert(all[i].wf() && tied(all[i], state));
        assert(!(tied_onward(all[i], state) && tied_onward(all[all.len() - 1], state)));
        assert(!(tied_past(all[i], state) && tied_past(all[all.len() - 1], state)));
        lemma_one_front(others[i], state);
        lemma_one_front(others[i], next);
    }
    let last = match outcome {
        CollectResult::Save(_, _) => Some(collector),
        _ => match past_of(next) {
            Some(past) => Some(CollectorView::fresh(past, (before.batch * 10) as usize)),
            None => None,
        },
    };
    let expected = match last {
        Some(collector) => others.push(collector),
        None => others,
    };
    assert(after.recorded().collectors() =~= expected) by {
        lemma_advanced_collectors(before, collector);
    }
    if last is Some {
        lemma_one_front(last->0, next);
        assert(last->0.wf() && tied(last->0, next));
        assert(tied_onward(last->0, next) <==> tied_onward(turn.collector, state));
    }
    assert forall|i: int, j: int| 0 <= i < j < expected.len() implies !(tied_onward(
        #[trigger] expected[i],
        next,
    ) && tied_onward(#[trigger] expected[j], next)) && !(tied_past(expected[i], next)
        && tied_past(expected[j], next)) by {
        lemma_one_front(expected[i], next);
        lemma_one_front(expected[j], next);
        if j < others.len() {
            assert(!(tied_onward(all[i], state) && tied_onward(all[j], state)));
            assert(!(tied_past(all[i], state) && tied_past(all[j], state)));
            assert(others[i] == all[i] && others[j] == all[j]);
            lemma_one_front(all[i], state);
            lemma_one_front(all[j], state);
        }
    }
}

impl View for Scheduler {
    type V = SchedulerView;

    closed spec fn view(&self) -> SchedulerView {
        SchedulerView {
            batch: self.batch,
            rate: self.rate@,
            state: self.state@,
            queue: Seq::new(self.queue@.len(), |i: int| (self.queue@[i].0, self.queue@[i].1@)),
            turn: match self.turn {
                Some(turn) => Some(
                    TurnView { quota: turn.quota, steps: turn.steps, collector: turn.collector@ },
                ),
                None => None,
            },
            fetching: self.fetching,
            awaiting: self.awaiting,
        }
    }
}

impl Scheduler {
    /// A scheduler on the checkpoint `state`: the onward collector waits
    /// first, and behind it a collector of the past where there is a past to
    /// collect.
    pub fn new(state: CollectorState, batch: usize, rate: RateControl) -> (scheduler: Scheduler)
        requires
            state@.len() > 0,
            batch * 10 <= usize::MAX,
            rate@.wf(),
        ensures
            scheduler@ == (SchedulerView {
                batch,
                rate: rate@,
                state: state@,
                queue: match past_of(state@) {
                    Some(range) => seq![
                        (ONWARD_QUOTA, CollectorView::fresh(onward_of(state@), batch)),
                        (PAST_QUOTA, CollectorView::fresh(range, (batch * 10) as usize)),
                    ],
                    None => seq![(ONWARD_QUOTA, CollectorView::fresh(onward_of(state@), batch))],
                },
                turn: None,
                fetching: false,
                awaiting: None,
            }),
            scheduler@.wf(),
    {
        let mut queue: VecDeque<(usize, Collector)> = VecDeque::new();
        queue.push_back((ONWARD_QUOTA, Collector::new(state.onward_range(), batch)));
        let mut scheduler = Scheduler {
            batch,
            rate,
            state,
            queue,
            turn: None,
            fetching: false,
            awaiting: None,
        };
        match scheduler.new_past_collector() {
            Some(collector) => {
                scheduler.queue.push_back((PAST_QUOTA, collector));
            },
            None => {},
        }
        proof {
            let expected: Seq<(usize, CollectorView)> = match past_of(state@) {
                Some(range) => seq![
                    (ONWARD_QUOTA, CollectorView::fresh(onward_of(state@), batch)),
                    (PAST_QUOTA, CollectorView::fresh(range, (batch * 10) as usize)),
                ],
                None => seq![(ONWARD_QUOTA, CollectorView::fresh(onward_of(state@), batch))],
            };
            assert(scheduler@.queue =~= expected);
        }
        scheduler
    }

    /// A collector for the range of the past that the checkpoint names, if
    /// it names one. It hands out batches ten times as large as the onward
    /// collector does.
    pub fn new_past_collector(&self) -> (collector: Option<Collector>)
        requires
            self@.state.len() > 0,
            self@.batch * 10 <= usize::MAX,
        ensures
            match past_of(self@.state) {
                Some(range) => collector matches Some(collector) && collector@
                    == CollectorView::fresh(range, (self@.batch * 10) as usize),
                None => collector is None,
            },
    {
        match self.state.past_range() {
            Some(range) => Some(Collector::new(range, self.batch * PAST_BATCH_FACTOR)),
            None => None,
        }
    }

    /// The checkpoint, to be written down after each range that was
    /// persisted.
    pub fn state(&self) -> (state: &CollectorState)
        ensures
            state@ == self@.state,
    {
        &self.state
    }

    /// The pacing.
    pub fn rate(&self) -> (rate: &RateControl)
        ensures
            rate@ == self@.rate,
    {
        &self.rate
    }

    /// Number of collectors that wait for their turn.
    pub fn waiting(&self) -> (count: usize)
        ensures
            count == self@.queue.len(),
    {
        self.queue.len()
    }

    /// Whether a page was asked for and has not come back.
    pub fn is_fetching(&self) -> (fetching: bool)
        ensures
            fetching == self@.fetching,
    {
        self.fetching
    }

    /// Whether a range is being persisted.
    pub fn is_awaiting(&self) -> (awaiting: bool)
        ensures
            awaiting == self@.awaiting is Some,
    {
        self.awaiting.is_some()
    }

    /// What to do at the instant `now`. The collector at the head of the
    /// queue gets the turn where none has it. Before the deadline of the
    /// pacing the answer is to wait; from the deadline on it is to fetch the
    /// page at the start of what the collector in turn has still to fetch.
    pub fn next(&mut self, now: u128) -> (action: Action)
        requires
            old(self)@.wf(),
            !old(self)@.fetching,
            old(self)@.awaiting is None,
            now + DECEL_PAUSE <= LAST_INSTANT,
        ensures
            (final(self)@, action) == old(self)@.nexted(now),
            final(self)@.wf(),
    {
        if self.turn.is_none() {
            match self.queue.pop_front() {
                Some((quota, collector)) => {
                    self.turn = Some(Turn { quota, steps: 0, collector });
                },
                None => {
                    return Action::Idle;
                },
            }
        }
        assert(self@.queue =~= old(self)@.seated().queue);
        assert(self@ == old(self)@.seated());
        match self.rate.wait(now) {
            Some(pause) => Action::Wait(pause),
            None => {
                self.fetching = true;
                match &self.turn {
                    Some(turn) => Action::Fetch(turn.collector.current_range().start),
                    None => Action::Idle,
                }
            },
        }
    }

    /// Puts `collector` back after a step of its turn: in turn with one more
    /// step made, or at the end of the queue where that used up its quota.
    fn advance(&mut self, quota: usize, steps: usize, collector: Collector)
        requires
            old(self).turn is None,
            steps < quota,
        ensures
            final(self)@ == if steps + 1 >= quota {
                SchedulerView { queue: old(self)@.queue.push((quota, collector@)), ..old(self)@ }
            } else {
                SchedulerView {
                    turn: Some(TurnView { quota, steps: (steps + 1) as usize, collector: collector@ }),
                    ..old(self)@
                }
            },
    {
        if steps + 1 >= quota {
            self.queue.push_back((quota, collector));
            assert(self@.queue =~= old(self)@.queue.push((quota, collector@)));
        } else {
            self.turn = Some(Turn { quota, steps: steps + 1, collector });
            assert(self@.queue =~= old(self)@.queue);
        }
    }

    /// Takes what came of the request that `next` asked for, and hands it to
    /// the collector in turn. A page, or a failure of the transport, counts
    /// as one step of the turn. A refusal counts as one step too, stretches
    /// the interval of the pacing and puts the next request off. A collector
    /// that reached the live tail goes to the end of the queue at once. Masks
    /// that a collector hands out are to be persisted before anything else
    /// is asked for; a collector that is done leaves the queue, and the
    /// quota of its turn is kept for the collector that takes its place. A
    /// body that could not be decoded is fatal, and nothing changes but that
    /// the request is over.
    pub fn step(&mut self, response: Result<full::MatchHistory, RequestError>) -> (result: Result<
        Directive,
        DecodeFailure,
    >)
        requires
            old(self)@.wf(),
            old(self)@.fetching,
            response is Ok ==> old(self)@.turn->0.collector.cur.start < u64::MAX,
            response matches Ok(history) ==> forall|i: int|
                0 <= i < history.matches@.len() ==> history.matches@[i].match_seq_num < u64::MAX,
        ensures
            old(self)@.stepped(response, result, final(self)@),
            final(self)@.wf(),
    {
        let ghost before = self@;
        self.fetching = false;
        match self.turn.take() {
            None => Ok(Directive::Continue),
            Some(turn) => {
                let Turn { quota, steps, collector } = turn;
                let mut collector = collector;
                let ghost seat = collector@;
                assert(self@.queue =~= before.queue);
                match collector.step(response) {
                    Err(failure) => {
                        self.turn = Some(Turn { quota, steps, collector });
                        assert(self@.queue =~= before.queue);
                        Err(failure)
                    },
                    Ok(CollectResult::Normal) => {
                        proof {
                            if response is Ok {
                                assert(processed(
                                    seat,
                                    response->Ok_0.matches@,
                                    CollectResult::Normal,
                                    collector@,
                                ));
                            }
                        }
                        self.advance(quota, steps, collector);
                        Ok(Directive::Continue)
                    },
                    Ok(CollectResult::Yield) => {
                        proof {
                            assert(processed(
                                seat,
                                response->Ok_0.matches@,
                                CollectResult::Yield,
                                collector@,
                            ));
                        }
                        self.queue.push_back((quota, collector));
                        assert(self@.queue =~= before.queue.push((quota, collector@)));
                        Ok(Directive::Continue)
                    },
                    Ok(CollectResult::Decel) => {
                        self.rate.decelerate();
                        self.rate.postpone(DECEL_PAUSE);
                        self.advance(quota, steps, collector);
                        Ok(Directive::Continue)
                    },
                    Ok(CollectResult::Save(range, masks)) => {
                        proof {
                            assert(processed(
                                seat,
                                response->Ok_0.matches@,
                                CollectResult::Save(range, masks),
                                collector@,
                            ));
                        }
                        self.awaiting =
                        Some(Pending { range: range.start..range.end, successor: None });
                        self.advance(quota, steps, collector);
                        Ok(Directive::Persist(range, masks))
                    },
                    Ok(CollectResult::Completed(range, masks)) => {
                        proof {
                            assert(processed(
                                seat,
                                response->Ok_0.matches@,
                                CollectResult::Completed(range, masks),
                                collector@,
                            ));
                        }
                        self.awaiting =
                        Some(Pending { range: range.start..range.end, successor: Some(quota) });
                        assert(self@.queue =~= before.queue);
                        Ok(Directive::Persist(range, masks))
                    },
                }
            },
        }
    }

    /// Records that the masks of the range that was handed out are
    /// persisted: the range is completed in the checkpoint. Where the
    /// collector of the range is done, a collector for the range of the past
    /// that the checkpoint now names goes to the end of the queue, with the
    /// quota of the one that is done; where no past is left, nothing does.
    pub fn persisted(&mut self)
        requires
            old(self)@.wf(),
            old(self)@.awaiting is Some,
        ensures
            final(self)@ == old(self)@.recorded(),
            final(self)@.wf(),
    {
        let ghost before = self@;
        match self.awaiting.take() {
            None => {},
            Some(pending) => {
                let Pending { range, successor } = pending;
                self.state.complete(range);
                match successor {
                    Some(quota) => {
                        match self.new_past_collector() {
                            Some(collector) => {
                                self.queue.push_back((quota, collector));
                            },
                            None => {},
                        }
                    },
                    None => {},
                }
                assert(self@.queue =~= before.recorded().queue);
            },
        }
    }
}

} // verus!
