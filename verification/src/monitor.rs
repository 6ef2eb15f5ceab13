//! What a background task that summarises the sensor's frames does with them and with queries.

use crate::aqi::{slots_for, takes_sums, AqiModel, AqiSample, AqiState};
use crate::clock::{is_reading, unix_seconds, ClockError};
use crate::duration::{Duration, NANOS_PER_SEC};
use crate::frame::Frame;
use crate::history::{
    law_new_frame_is_reported_first, law_slots_span_the_retention, lemma_report_of, replay,
    report_of, Receipt,
};
use crate::pms5003::Error;
use vstd::prelude::*;

verus! {

/// The answer to a query.
#[derive(Debug)]
pub enum Reply {
    /// The recent intervals
    Samples(Vec<AqiSample>),
    /// Why the frames have stopped
    Failure(Error),
}

/// Whether a reply is the last. A failure is the last thing that the task tells; and when there is
/// no one to take its reply, no one needs it.
pub open spec fn is_last(reply: Reply, delivered: bool) -> bool {
    reply is Failure || !delivered
}

impl Reply {
    /// Whether the task ends once this reply was sent.
    pub fn ends(&self, delivered: bool) -> (over: bool)
        ensures
            over == is_last(*self, delivered),
    {
        match self {
            Reply::Samples(_) => !delivered,
            Reply::Failure(_) => true,
        }
    }
}

/// The state of the task: the statistics, and a failure that no query has been told of yet.
pub struct MonitorState {
    state: AqiState,
    failure: Option<Error>,
}

/// The model of a [`MonitorState`].
#[verifier::ext_equal]
pub struct MonitorModel {
    pub state: AqiModel,
    pub failure: Option<Error>,
}

impl View for MonitorState {
    type V = MonitorModel;

    closed spec fn view(&self) -> MonitorModel {
        MonitorModel { state: self.state@, failure: self.failure }
    }
}

impl MonitorModel {
    /// The state after a value of the stream of frames, received at time `now`: a frame counts
    /// towards the statistics, an error is kept for the next query.
    pub open spec fn receive(self, received: Result<Frame, Error>, now: nat) -> MonitorModel {
        match received {
            Ok(frame) => MonitorModel { state: self.state.add_frame(frame, now), ..self },
            Err(e) => MonitorModel { failure: Some(e), ..self },
        }
    }

    /// The state after a query: a failure is told once.
    pub open spec fn queried(self) -> MonitorModel {
        MonitorModel { failure: None, ..self }
    }

    /// Whether a query at the time `reading`, if the clock gave one, for the last `n` intervals
    /// is answered with `reply`.
    pub open spec fn answers<F: Fn(u32, u32) -> Option<u32>, G: Fn(u32, u32) -> Option<u32>>(
        self,
        n: nat,
        reading: Option<u64>,
        reply: Result<Reply, ClockError>,
        pm10: F,
        pm25: G,
    ) -> bool {
        match self.failure {
            Some(e) => reply == Ok::<Reply, ClockError>(Reply::Failure(e)),
            None => match reading {
                None => reply == Err::<Reply, ClockError>(ClockError::BeforeEpoch),
                Some(now) => reply matches Ok(Reply::Samples(samples)) && self.state.reports(
                    now as nat,
                    n,
                    samples@,
                    pm10,
                    pm25,
                ),
            },
        }
    }
}

impl MonitorState {
    /// A task that has received nothing, see [`AqiState::new`].
    pub fn new(granularity: Duration, retention: Duration) -> (monitor: MonitorState)
        requires
            granularity@ >= NANOS_PER_SEC,
            slots_for(granularity@, retention@) * crate::aqi::SLOT_BYTES <= isize::MAX,
        ensures
            monitor@.state.wf(),
            monitor@.state == AqiModel::empty(
                slots_for(granularity@, retention@),
                granularity@ / NANOS_PER_SEC as nat,
            ),
            monitor@.failure is None,
    {
        MonitorState { state: AqiState::new(granularity, retention), failure: None }
    }

    /// The statistics.
    pub fn state(&self) -> (state: &AqiState)
        ensures
            state@ == self@.state,
    {
        &self.state
    }

    /// Whether there is a failure that no query has been told of yet.
    pub fn has_failed(&self) -> (failed: bool)
        ensures
            failed == (self@.failure is Some),
    {
        self.failure.is_some()
    }

    /// Takes in a value of the stream of frames that was received at time `now`, in seconds since
    /// the Unix epoch.
    pub fn on_frame_at(&mut self, received: Result<Frame, Error>, now: u64)
        requires
            old(self)@.state.wf(),
            received matches Ok(frame) ==> old(self)@.state.usable()
                && old(self)@.state.slot_plus(frame, now as nat).fits(),
        ensures
            final(self)@.state.wf(),
            final(self)@ == old(self)@.receive(received, now as nat),
    {
        match received {
            Ok(frame) => {
                self.state.add_frame_at(&frame, now);
            },
            Err(e) => {
                self.failure = Some(e);
            },
        }
    }

    /// Takes in a value of the stream of frames that was received at the time that the clock gave,
    /// if it gave one. If the value is a frame, the result is that time, and without one the frame
    /// is not taken in; an error is taken in whatever the clock says.
    pub fn on_frame_for(
        &mut self,
        received: Result<Frame, Error>,
        reading: Option<u64>,
    ) -> (now: Result<Option<u64>, ClockError>)
        requires
            old(self)@.state.wf(),
            received matches Ok(frame) ==> old(self)@.state.usable() && (reading matches Some(t)
                ==> old(self)@.state.slot_plus(frame, t as nat).fits()),
        ensures
            final(self)@.state.wf(),
            match received {
                Ok(_) => match reading {
                    Some(t) => now == Ok::<Option<u64>, ClockError>(Some(t)) && final(self)@
                        == old(self)@.receive(received, t as nat),
                    None => now == Err::<Option<u64>, ClockError>(ClockError::BeforeEpoch)
                        && final(self)@ == old(self)@,
                },
                Err(_) => now == Ok::<Option<u64>, ClockError>(None) && final(self)@ == old(
                    self,
                )@.receive(received, 0),
            },
    {
        match received {
            Ok(frame) => match self.state.add_frame_for(&frame, reading) {
                Ok(now) => Ok(Some(now)),
                Err(e) => Err(e),
            },
            Err(e) => {
                self.failure = Some(e);
                Ok(None)
            },
        }
    }

    /// Takes in a value of the stream of frames that was received just now, see
    /// [`MonitorState::on_frame_for`].
    pub fn on_frame(&mut self, received: Result<Frame, Error>) -> (now: Result<
        Option<u64>,
        ClockError,
    >)
        requires
            old(self)@.state.wf(),
            received matches Ok(frame) ==> old(self)@.state.usable() && old(self)@.state.accepts(
                frame,
            ),
        ensures
            final(self)@.state.wf(),
            match now {
                Ok(Some(t)) => received is Ok && is_reading(Some(t)) && final(self)@ == old(
                    self,
                )@.receive(received, t as nat),
                Ok(None) => received is Err && final(self)@ == old(self)@.receive(received, 0),
                Err(e) => received is Ok && is_reading(None) && e is BeforeEpoch && final(self)@
                    == old(self)@,
            },
    {
        match received {
            Ok(frame) => match self.state.add_frame(&frame) {
                Ok(now) => Ok(Some(now)),
                Err(e) => Err(e),
            },
            Err(e) => {
                self.failure = Some(e);
                Ok(None)
            },
        }
    }

    /// Answers a query for the last `n_samples` intervals at the time that the clock gave, if it
    /// gave one. A failure is told before anything else.
    pub fn on_query_for<F: Fn(u32, u32) -> Option<u32>, G: Fn(u32, u32) -> Option<u32>>(
        &mut self,
        n_samples: usize,
        reading: Option<u64>,
        pm10: F,
        pm25: G,
    ) -> (reply: Result<Reply, ClockError>)
        requires
            old(self)@.state.wf(),
            old(self)@.failure is None ==> old(self)@.state.usable() && n_samples <= old(
                self,
            )@.state.slots.len() + 1,
            takes_sums(pm10),
            takes_sums(pm25),
        ensures
            final(self)@ == old(self)@.queried(),
            old(self)@.answers(n_samples as nat, reading, reply, pm10, pm25),
    {
        match self.failure.take() {
            Some(e) => Ok(Reply::Failure(e)),
            None => match self.state.recent_for(n_samples, reading, pm10, pm25) {
                Ok(samples) => Ok(Reply::Samples(samples)),
                Err(e) => Err(e),
            },
        }
    }

    /// Answers a query for the last `n_samples` intervals as of now.
    pub fn on_query<F: Fn(u32, u32) -> Option<u32>, G: Fn(u32, u32) -> Option<u32>>(
        &mut self,
        n_samples: usize,
        pm10: F,
        pm25: G,
    ) -> (reply: Result<Reply, ClockError>)
        requires
            old(self)@.state.wf(),
            old(self)@.failure is None ==> old(self)@.state.usable() && n_samples <= old(
                self,
            )@.state.slots.len() + 1,
            takes_sums(pm10),
            takes_sums(pm25),
        ensures
            final(self)@ == old(self)@.queried(),
            exists|reading: Option<u64>| #[trigger]
                is_reading(reading) && old(self)@.answers(
                    n_samples as nat,
                    reading,
                    reply,
                    pm10,
                    pm25,
                ),
    {
        self.on_query_for(n_samples, unix_seconds(), pm10, pm25)
    }
}

/// A value of the stream of frames and when it was received, in seconds since the Unix epoch.
pub struct Arrival {
    pub now: nat,
    pub received: Result<Frame, Error>,
}

/// The state after some values of the stream of frames.
pub open spec fn after(start: MonitorModel, arrivals: Seq<Arrival>) -> MonitorModel
    decreases arrivals.len(),
{
    if arrivals.len() == 0 {
        start
    } else {
        after(start, arrivals.drop_last()).receive(arrivals.last().received, arrivals.last().now)
    }
}

/// The frames among some values of the stream of frames.
pub open spec fn receipts(arrivals: Seq<Arrival>) -> Seq<Receipt>
    decreases arrivals.len(),
{
    if arrivals.len() == 0 {
        Seq::empty()
    } else {
        let earlier = receipts(arrivals.drop_last());
        match arrivals.last().received {
            Ok(frame) => earlier.push(Receipt { now: arrivals.last().now, frame }),
            Err(_) => earlier,
        }
    }
}

/// Every frame counts towards the statistics, and errors do not change them; without an error
/// there is nothing but statistics to tell.
pub proof fn law_every_frame_counts(start: MonitorModel, arrivals: Seq<Arrival>)
    ensures
        after(start, arrivals).state == replay(start.state, receipts(arrivals)),
        start.failure is None && (forall|i: int|
            0 <= i < arrivals.len() ==> (#[trigger] arrivals[i]).received is Ok) ==> after(
            start,
            arrivals,
        ).failure is None,
    decreases arrivals.len(),
{
    if arrivals.len() > 0 {
        let earlier = arrivals.drop_last();
        law_every_frame_counts(start, earlier);
        if let Ok(frame) = arrivals.last().received {
            let receipt = Receipt { now: arrivals.last().now, frame };
            assert(receipts(earlier).push(receipt).drop_last() =~= receipts(earlier));
        }
        if forall|i: int| 0 <= i < arrivals.len() ==> (#[trigger] arrivals[i]).received is Ok {
            assert forall|i: int| 0 <= i < earlier.len() implies (
            #[trigger] earlier[i]).received is Ok by {
                assert(arrivals[i].received is Ok);
            }
            assert(arrivals[arrivals.len() - 1].received is Ok);
        }
    }
}

/// The latest error is kept for the next query, whatever frames come after it, and the query is
/// answered with it whatever the clock says; the error is then told, and it is the last reply.
pub proof fn law_failure_answers_the_next_query<
    F: Fn(u32, u32) -> Option<u32>,
    G: Fn(u32, u32) -> Option<u32>,
>(
    start: MonitorModel,
    before: Seq<Arrival>,
    error: Error,
    now: nat,
    later: Seq<Arrival>,
    n: nat,
    reading: Option<u64>,
    reply: Result<Reply, ClockError>,
    pm10: F,
    pm25: G,
)
    requires
        forall|i: int| 0 <= i < later.len() ==> (#[trigger] later[i]).received is Ok,
    ensures
        ({
            let state = after(
                start,
                before.push(Arrival { now, received: Err(error) }) + later,
            );
            &&& state.answers(n, reading, reply, pm10, pm25) <==> reply == Ok::<Reply, ClockError>(
                Reply::Failure(error),
            )
            &&& state.queried().failure is None
            &&& forall|delivered: bool| is_last(Reply::Failure(error), delivered)
        }),
{
    lemma_failure_is_kept(start, before, error, now, later);
}

proof fn lemma_failure_is_kept(
    start: MonitorModel,
    before: Seq<Arrival>,
    error: Error,
    now: nat,
    later: Seq<Arrival>,
)
    requires
        forall|i: int| 0 <= i < later.len() ==> (#[trigger] later[i]).received is Ok,
    ensures
        after(start, before.push(Arrival { now, received: Err(error) }) + later).failure == Some(
            error,
        ),
    decreases later.len(),
{
    let failing = before.push(Arrival { now, received: Err(error) });
    let arrivals = failing + later;
    if later.len() == 0 {
        assert(arrivals =~= failing);
        assert(failing.drop_last() =~= before);
    } else {
        assert(arrivals.drop_last() =~= failing + later.drop_last());
        assert(arrivals.last() == later.last());
        assert(later[later.len() - 1].received is Ok);
        lemma_failure_is_kept(start, before, error, now, later.drop_last());
    }
}

/// Samples that were delivered never end the task, few or many or none; a failure always does, and
/// so does any reply that was not delivered.
pub proof fn law_samples_do_not_end_the_task(reply: Reply, delivered: bool, over: bool)
    requires
        call_ensures(Reply::ends, (&reply, delivered), over),
    ensures
        over == is_last(reply, delivered),
        reply is Samples && delivered ==> !over,
        reply is Failure ==> over,
        !delivered ==> over,
{
}

/// A query changes nothing but that a failure is told, and it is answered with one if and only if
/// there is one to tell. Otherwise the clock decides between an error and samples.
pub proof fn law_query_tells_a_failure_once<
    F: Fn(u32, u32) -> Option<u32>,
    G: Fn(u32, u32) -> Option<u32>,
>(
    monitor: MonitorModel,
    n: nat,
    reading: Option<u64>,
    reply: Result<Reply, ClockError>,
    pm10: F,
    pm25: G,
)
    requires
        monitor.answers(n, reading, reply, pm10, pm25),
    ensures
        monitor.queried().state == monitor.state,
        monitor.queried().failure is None,
        match reply {
            Ok(Reply::Failure(e)) => monitor.failure == Some(e),
            Ok(Reply::Samples(_)) => monitor.failure is None && reading is Some,
            Err(e) => monitor.failure is None && reading is None && e is BeforeEpoch,
        },
{
}

/// A frame that the task took in is told of at once: a query in the same interval is answered with
/// a sample of that interval first, and the frame is in it.
pub proof fn law_new_frame_is_told<F: Fn(u32, u32) -> Option<u32>, G: Fn(u32, u32) -> Option<u32>>(
    monitor: MonitorModel,
    frame: Frame,
    received: nat,
    now: u64,
    start: nat,
    n: nat,
    reply: Result<Reply, ClockError>,
    pm10: F,
    pm25: G,
)
    requires
        monitor.failure is None,
        monitor.state.usable(),
        start % monitor.state.granularity == 0,
        start <= received < start + monitor.state.granularity,
        start <= now < start + monitor.state.granularity,
        n > 0,
        monitor.receive(Ok(frame), received).answers(n, Some(now), reply, pm10, pm25),
    ensures
        reply matches Ok(Reply::Samples(samples)) && samples@.len() > 0 && samples@[0].interval == 0
            && samples@[0].start == start && samples@[0].samples >= 1 && samples@[0].pm10_sum
            >= frame.pm10_standard && samples@[0].pm25_sum >= frame.pm25_standard,
{
    law_new_frame_is_reported_first(
        monitor.state,
        frame,
        received,
        now as nat,
        start,
        n,
        reply->Ok_0->Samples_0@,
        pm10,
        pm25,
    );
}

proof fn lemma_receipts_of_frames(arrivals: Seq<Arrival>)
    requires
        forall|i: int| 0 <= i < arrivals.len() ==> (#[trigger] arrivals[i]).received is Ok,
    ensures
        receipts(arrivals).len() == arrivals.len(),
        forall|i: int|
            0 <= i < arrivals.len() ==> (#[trigger] receipts(arrivals)[i]).now == arrivals[i].now
                && arrivals[i].received == Ok::<Frame, Error>(receipts(arrivals)[i].frame),
    decreases arrivals.len(),
{
    if arrivals.len() > 0 {
        let earlier = arrivals.drop_last();
        assert forall|i: int| 0 <= i < earlier.len() implies (
        #[trigger] earlier[i]).received is Ok by {
            assert(arrivals[i].received is Ok);
        }
        assert(arrivals[arrivals.len() - 1].received is Ok);
        lemma_receipts_of_frames(earlier);
        assert forall|i: int| 0 <= i < arrivals.len() implies (
        #[trigger] receipts(arrivals)[i]).now == arrivals[i].now && arrivals[i].received == Ok::<
            Frame,
            Error,
        >(receipts(arrivals)[i].frame) by {
            if i < earlier.len() {
                assert(receipts(arrivals)[i] == receipts(earlier)[i]);
                assert(arrivals[i] == earlier[i]);
            }
        }
    }
}

/// A new task has no frames and no failure to tell of, and its statistics have the given intervals
/// and as many slots as the retention has whole intervals, in whole seconds.
pub proof fn law_new_task_has_no_frames(
    granularity: Duration,
    retention: Duration,
    monitor: MonitorState,
)
    requires
        granularity@ >= 1_000_000_000,
        call_ensures(MonitorState::new, (granularity, retention), monitor),
    ensures
        ({
            let g = granularity@ / 1_000_000_000;
            let n_slots = monitor@.state.slots.len();
            &&& n_slots * g <= retention@ / 1_000_000_000 < (n_slots + 1) * g
            &&& monitor@.state == AqiModel::empty(n_slots, g)
            &&& monitor@.failure is None
            &&& n_slots > 0 ==> monitor@.state.usable()
        }),
{
    law_slots_span_the_retention(granularity@, retention@);
}

/// A value of the stream of frames that was taken in at some time is the last to have arrived.
pub proof fn law_value_is_taken_in(
    monitor: &mut MonitorState,
    start: MonitorModel,
    arrivals: Seq<Arrival>,
    received: Result<Frame, Error>,
    now: u64,
)
    requires
        old(monitor)@ == after(start, arrivals),
        call_ensures(MonitorState::on_frame_at, (monitor, received, now), ()),
    ensures
        final(monitor)@ == after(start, arrivals.push(Arrival { now: now as nat, received })),
{
    assert(arrivals.push(Arrival { now: now as nat, received }).drop_last() =~= arrivals);
}

/// A frame is taken in at the time that the clock gave, which is told, and not without one; an
/// error is taken in at any time.
pub proof fn law_value_is_taken_in_for(
    monitor: &mut MonitorState,
    start: MonitorModel,
    arrivals: Seq<Arrival>,
    received: Result<Frame, Error>,
    reading: Option<u64>,
    any: nat,
    now: Result<Option<u64>, ClockError>,
)
    requires
        old(monitor)@ == after(start, arrivals),
        call_ensures(MonitorState::on_frame_for, (monitor, received, reading), now),
    ensures
        received is Err ==> now == Ok::<Option<u64>, ClockError>(None) && final(monitor)@ == after(
            start,
            arrivals.push(Arrival { now: any, received }),
        ),
        received is Ok ==> match reading {
            Some(t) => now == Ok::<Option<u64>, ClockError>(Some(t)) && final(monitor)@ == after(
                start,
                arrivals.push(Arrival { now: t as nat, received }),
            ),
            None => now is Err && final(monitor)@ == after(start, arrivals),
        },
{
    assert(arrivals.push(Arrival { now: any, received }).drop_last() =~= arrivals);
    if let Some(t) = reading {
        assert(arrivals.push(Arrival { now: t as nat, received }).drop_last() =~= arrivals);
    }
}

/// A frame that is received now is taken in at the time that the clock reads, which is told; if the
/// clock cannot be read, the frame is not taken in. An error is taken in at any time.
pub proof fn law_value_is_taken_in_now(
    monitor: &mut MonitorState,
    start: MonitorModel,
    arrivals: Seq<Arrival>,
    received: Result<Frame, Error>,
    any: nat,
    now: Result<Option<u64>, ClockError>,
)
    requires
        old(monitor)@ == after(start, arrivals),
        call_ensures(MonitorState::on_frame, (monitor, received), now),
    ensures
        received is Err ==> now == Ok::<Option<u64>, ClockError>(None) && final(monitor)@ == after(
            start,
            arrivals.push(Arrival { now: any, received }),
        ),
        received is Ok ==> match now {
            Ok(Some(t)) => is_reading(Some(t)) && final(monitor)@ == after(
                start,
                arrivals.push(Arrival { now: t as nat, received }),
            ),
            Ok(None) => false,
            Err(_) => is_reading(None) && final(monitor)@ == after(start, arrivals),
        },
{
    assert(arrivals.push(Arrival { now: any, received }).drop_last() =~= arrivals);
    if let Ok(Some(t)) = now {
        assert(arrivals.push(Arrival { now: t as nat, received }).drop_last() =~= arrivals);
    }
}

/// Whether a reply is the right one after some values of the stream of frames, from a task that
/// began without frames and has told of no failure: the latest error among the values, if there is
/// one, and else a right report of all the frames, as of the time that the clock read.
pub open spec fn right_reply<F: Fn(u32, u32) -> Option<u32>, G: Fn(u32, u32) -> Option<u32>>(
    n_slots: nat,
    granularity: nat,
    arrivals: Seq<Arrival>,
    n: nat,
    reading: Option<u64>,
    reply: Result<Reply, ClockError>,
    pm10: F,
    pm25: G,
) -> bool {
    let errors = arrivals.filter(|a: Arrival| a.received is Err);
    let history = arrivals.map_values(
        |a: Arrival| Receipt { now: a.now, frame: a.received->Ok_0 },
    );
    if errors.len() > 0 {
        reply == Ok::<Reply, ClockError>(Reply::Failure(errors.last().received->Err_0))
    } else {
        match reading {
            None => reply is Err,
            Some(now) => reply matches Ok(Reply::Samples(samples)) && report_of(
                n_slots,
                granularity,
                history,
                now as nat,
                n,
                samples@,
                pm10,
                pm25,
            ),
        }
    }
}

proof fn lemma_latest_error(start: MonitorModel, arrivals: Seq<Arrival>)
    requires
        start.failure is None,
    ensures
        ({
            let errors = arrivals.filter(|a: Arrival| a.received is Err);
            &&& after(start, arrivals).failure == (if errors.len() > 0 {
                Some(errors.last().received->Err_0)
            } else {
                None
            })
            &&& errors.len() == 0 <==> forall|i: int|
                0 <= i < arrivals.len() ==> (#[trigger] arrivals[i]).received is Ok
        }),
    decreases arrivals.len(),
{
    reveal(Seq::filter);
    if arrivals.len() > 0 {
        let earlier = arrivals.drop_last();
        lemma_latest_error(start, earlier);
        let errors = arrivals.filter(|a: Arrival| a.received is Err);
        if errors.len() == 0 {
            assert forall|i: int| 0 <= i < arrivals.len() implies (
            #[trigger] arrivals[i]).received is Ok by {
                if i < earlier.len() {
                    assert(earlier[i].received is Ok);
                }
            }
        }
        if forall|i: int| 0 <= i < arrivals.len() ==> (#[trigger] arrivals[i]).received is Ok {
            assert(arrivals[arrivals.len() - 1].received is Ok);
            assert forall|i: int| 0 <= i < earlier.len() implies (
            #[trigger] earlier[i]).received is Ok by {
                assert(arrivals[i].received is Ok);
            }
        }
    }
}

proof fn lemma_right_reply<F: Fn(u32, u32) -> Option<u32>, G: Fn(u32, u32) -> Option<u32>>(
    n_slots: nat,
    granularity: nat,
    start: MonitorModel,
    arrivals: Seq<Arrival>,
    n: nat,
    reading: Option<u64>,
    reply: Result<Reply, ClockError>,
    pm10: F,
    pm25: G,
)
    requires
        n_slots > 0,
        granularity > 0,
        start.state == AqiModel::empty(n_slots, granularity),
        start.failure is None,
        after(start, arrivals).answers(n, reading, reply, pm10, pm25),
    ensures
        right_reply(n_slots, granularity, arrivals, n, reading, reply, pm10, pm25),
{
    let errors = arrivals.filter(|a: Arrival| a.received is Err);
    lemma_latest_error(start, arrivals);
    if errors.len() == 0 {
        law_every_frame_counts(start, arrivals);
        lemma_receipts_of_frames(arrivals);
        let history = arrivals.map_values(
            |a: Arrival| Receipt { now: a.now, frame: a.received->Ok_0 },
        );
        assert(receipts(arrivals) =~= history);
        if let Some(now) = reading {
            lemma_report_of(
                n_slots,
                granularity,
                history,
                now as nat,
                n,
                reply->Ok_0->Samples_0@,
                pm10,
                pm25,
            );
        }
    }
}

/// A query at the time that the clock gave is answered with the right reply. It does not change the
/// statistics, and leaves no failure to tell of.
pub proof fn law_query_for_a_reading_is_answered<
    F: Fn(u32, u32) -> Option<u32>,
    G: Fn(u32, u32) -> Option<u32>,
>(
    monitor: &mut MonitorState,
    n_slots: nat,
    granularity: nat,
    start: MonitorModel,
    arrivals: Seq<Arrival>,
    n: usize,
    reading: Option<u64>,
    pm10: F,
    pm25: G,
    reply: Result<Reply, ClockError>,
)
    requires
        n_slots > 0,
        granularity > 0,
        start.state == AqiModel::empty(n_slots, granularity),
        start.failure is None,
        old(monitor)@ == after(start, arrivals),
        call_ensures(
            MonitorState::on_query_for::<F, G>,
            (monitor, n, reading, pm10, pm25),
            reply,
        ),
    ensures
        right_reply(n_slots, granularity, arrivals, n as nat, reading, reply, pm10, pm25),
        final(monitor)@.state == old(monitor)@.state,
        final(monitor)@.failure is None,
{
    lemma_right_reply(
        n_slots,
        granularity,
        start,
        arrivals,
        n as nat,
        reading,
        reply,
        pm10,
        pm25,
    );
}

/// A query as of now is answered with the right reply for the time that the clock reads. It does
/// not change the statistics, and leaves no failure to tell of.
pub proof fn law_query_is_answered<F: Fn(u32, u32) -> Option<u32>, G: Fn(u32, u32) -> Option<u32>>(
    monitor: &mut MonitorState,
    n_slots: nat,
    granularity: nat,
    start: MonitorModel,
    arrivals: Seq<Arrival>,
    n: usize,
    pm10: F,
    pm25: G,
    reply: Result<Reply, ClockError>,
)
    requires
        n_slots > 0,
        granularity > 0,
        start.state == AqiModel::empty(n_slots, granularity),
        start.failure is None,
        old(monitor)@ == after(start, arrivals),
        call_ensures(MonitorState::on_query::<F, G>, (monitor, n, pm10, pm25), reply),
    ensures
        exists|reading: Option<u64>| #[trigger]
            is_reading(reading) && right_reply(
                n_slots,
                granularity,
                arrivals,
                n as nat,
                reading,
                reply,
                pm10,
                pm25,
            ),
        final(monitor)@.state == old(monitor)@.state,
        final(monitor)@.failure is None,
{
    let reading = choose|reading: Option<u64>| #[trigger]
        is_reading(reading) && old(monitor)@.answers(n as nat, reading, reply, pm10, pm25);
    lemma_right_reply(
        n_slots,
        granularity,
        start,
        arrivals,
        n as nat,
        reading,
        reply,
        pm10,
        pm25,
    );
}

/// A task that has told of no failure says that it has failed if and only if an error is among what
/// arrived, and its statistics are those of the frames that arrived.
pub proof fn law_task_says_if_it_has_failed(
    monitor: MonitorState,
    start: MonitorModel,
    arrivals: Seq<Arrival>,
    failed: bool,
    state: &AqiState,
)
    requires
        start.failure is None,
        monitor@ == after(start, arrivals),
        call_ensures(MonitorState::has_failed, (&monitor,), failed),
        call_ensures(MonitorState::state, (&monitor,), state),
    ensures
        failed <==> exists|i: int|
            0 <= i < arrivals.len() && (#[trigger] arrivals[i]).received is Err,
        state@ == replay(start.state, receipts(arrivals)),
{
    law_every_frame_counts(start, arrivals);
    lemma_latest_error(start, arrivals);
}

} // verus!
