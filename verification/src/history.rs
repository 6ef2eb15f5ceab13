//! What a rolling set of statistics says about the frames that it was given.

use crate::aqi::{slots_for, AqiModel, AqiSample, AqiState, FrameStats, StatsModel};
use crate::clock::{is_reading, ClockError};
use crate::duration::Duration;
use crate::frame::Frame;
use vstd::arithmetic::div_mod::{
    lemma_div_is_ordered, lemma_div_plus_one, lemma_fundamental_div_mod,
    lemma_fundamental_div_mod_converse, lemma_mod_add_multiples_vanish, lemma_mod_bound,
    lemma_mod_multiples_basic, lemma_small_mod,
};
use vstd::arithmetic::mul::lemma_mul_is_distributive_sub;
use vstd::prelude::*;

verus! {

/// A frame and when it was received, in seconds since the Unix epoch.
pub struct Receipt {
    pub now: nat,
    pub frame: Frame,
}

/// The state after some frames, in the order in which they came.
pub open spec fn replay(start: AqiModel, history: Seq<Receipt>) -> AqiModel
    decreases history.len(),
{
    if history.len() == 0 {
        start
    } else {
        replay(start, history.drop_last()).add_frame(history.last().frame, history.last().now)
    }
}

/// Whether the clock never went back.
pub open spec fn in_order(history: Seq<Receipt>) -> bool {
    forall|i: int, j: int|
        0 <= i <= j < history.len() ==> (#[trigger] history[i]).now <= (#[trigger] history[j]).now
}

/// The frames that were received in interval number `period`.
pub open spec fn frames_in(history: Seq<Receipt>, granularity: nat, period: nat) -> Seq<Frame>
    decreases history.len(),
{
    if history.len() == 0 {
        Seq::empty()
    } else {
        let earlier = frames_in(history.drop_last(), granularity, period);
        if history.last().now / granularity == period {
            earlier.push(history.last().frame)
        } else {
            earlier
        }
    }
}

/// The sum of some numbers.
pub open spec fn total(values: Seq<nat>) -> nat
    decreases values.len(),
{
    if values.len() == 0 {
        0
    } else {
        total(values.drop_last()) + values.last()
    }
}

/// The number of some frames and the sums of their concentrations.
pub open spec fn stats_of(frames: Seq<Frame>) -> StatsModel {
    StatsModel {
        samples: frames.len(),
        pm10_sum: total(frames.map_values(|f: Frame| f.pm10_standard as nat)),
        pm25_sum: total(frames.map_values(|f: Frame| f.pm25_standard as nat)),
    }
}

/// Whether a receipt is of interval number `period`.
pub open spec fn of_interval(receipt: Receipt, granularity: nat, period: nat) -> bool {
    receipt.now / granularity == period
}

/// Whether the frames of interval number `period` came one after the other, and after them none
/// of another interval that takes turns with it in its slot.
pub open spec fn uninterrupted(
    history: Seq<Receipt>,
    n_slots: nat,
    granularity: nat,
    period: nat,
) -> bool {
    forall|i: int, j: int|
        #![trigger history[i], history[j]]
        0 <= i < j < history.len() && of_interval(history[i], granularity, period) && !of_interval(
            history[j],
            granularity,
            period,
        ) ==> {
            &&& history[j].now / granularity % n_slots != period % n_slots
            &&& forall|k: int|
                j < k < history.len() ==> !of_interval(#[trigger] history[k], granularity, period)
        }
}

proof fn lemma_total_push(values: Seq<nat>, value: nat)
    ensures
        total(values.push(value)) == total(values) + value,
{
    assert(values.push(value).drop_last() =~= values);
}

proof fn lemma_stats_push(frames: Seq<Frame>, frame: Frame)
    ensures
        stats_of(frames.push(frame)) == stats_of(frames).plus(frame),
{
    let pm10 = |f: Frame| f.pm10_standard as nat;
    let pm25 = |f: Frame| f.pm25_standard as nat;
    lemma_total_push(frames.map_values(pm10), frame.pm10_standard as nat);
    lemma_total_push(frames.map_values(pm25), frame.pm25_standard as nat);
    assert(frames.push(frame).map_values(pm10) =~= frames.map_values(pm10).push(
        frame.pm10_standard as nat,
    ));
    assert(frames.push(frame).map_values(pm25) =~= frames.map_values(pm25).push(
        frame.pm25_standard as nat,
    ));
}

proof fn lemma_stats_of_one(frame: Frame)
    ensures
        stats_of(seq![frame]) == StatsModel::of(frame),
{
    lemma_stats_push(Seq::empty(), frame);
    assert(Seq::<Frame>::empty().push(frame) =~= seq![frame]);
}

/// A frame of an interval is among those that were received.
proof fn lemma_frames_in_witness(history: Seq<Receipt>, granularity: nat, period: nat) -> (i: int)
    requires
        frames_in(history, granularity, period).len() > 0,
    ensures
        0 <= i < history.len(),
        history[i].now / granularity == period,
    decreases history.len(),
{
    if history.last().now / granularity == period {
        history.len() - 1
    } else {
        lemma_frames_in_witness(history.drop_last(), granularity, period)
    }
}

/// Two intervals that share a slot are at least a turn of the slots apart.
proof fn lemma_same_slot_apart(p: nat, t: nat, n: nat)
    requires
        n > 0,
        p > t,
        p % n == t % n,
    ensures
        p >= t + n,
{
    lemma_fundamental_div_mod(p as int, n as int);
    lemma_fundamental_div_mod(t as int, n as int);
    let d = p as int / n as int - t as int / n as int;
    assert(p - t == n * d) by {
        lemma_mul_is_distributive_sub(n as int, p as int / n as int, t as int / n as int);
    }
    assert(d >= 1) by (nonlinear_arith)
        requires
            n * d > 0,
            n > 0,
    ;
    assert(n * d >= n) by (nonlinear_arith)
        requires
            d >= 1,
            n > 0,
    ;
}

/// A replayed state keeps its slots and its intervals, and knows the slot of the last frame.
proof fn lemma_replay_shape(n_slots: nat, granularity: nat, history: Seq<Receipt>)
    requires
        n_slots > 0,
    ensures
        replay(AqiModel::empty(n_slots, granularity), history).slots.len() == n_slots,
        replay(AqiModel::empty(n_slots, granularity), history).granularity == granularity,
        replay(AqiModel::empty(n_slots, granularity), history).last_slot == (if history.len()
            == 0 {
            None
        } else {
            Some(history.last().now / granularity % n_slots)
        }),
    decreases history.len(),
{
    if history.len() > 0 {
        lemma_replay_shape(n_slots, granularity, history.drop_last());
        lemma_mod_bound((history.last().now / granularity) as int, n_slots as int);
    }
}

/// What a slot holds for an interval is of frames of that interval: of the last of them, at least
/// one.
proof fn lemma_held_is_suffix(n_slots: nat, granularity: nat, history: Seq<Receipt>, period: nat)
    requires
        n_slots > 0,
        granularity > 0,
    ensures
        replay(AqiModel::empty(n_slots, granularity), history).held(period) matches Some(stats)
            ==> exists|m: int|
            0 <= m < frames_in(history, granularity, period).len() && stats == stats_of(
                #[trigger] frames_in(history, granularity, period).skip(m),
            ),
    decreases history.len(),
{
    lemma_mod_bound(period as int, n_slots as int);
    if history.len() > 0 {
        let earlier = history.drop_last();
        let last = history.last();
        let before = replay(AqiModel::empty(n_slots, granularity), earlier);
        let state = replay(AqiModel::empty(n_slots, granularity), history);
        let frames = frames_in(earlier, granularity, period);
        lemma_replay_shape(n_slots, granularity, earlier);
        lemma_held_is_suffix(n_slots, granularity, earlier, period);
        lemma_mod_bound((last.now / granularity) as int, n_slots as int);
        if of_interval(last, granularity, period) {
            let all = frames.push(last.frame);
            let stats = before.slot_plus(last.frame, last.now);
            assert(frames_in(history, granularity, period) == all);
            assert(state.held(period) == Some(stats));
            if before.held(period) is Some && before.last_slot == Some(before.slot_of(last.now)) {
                let m = choose|m: int|
                    0 <= m < frames.len() && before.held(period)->0 == stats_of(
                        #[trigger] frames.skip(m),
                    );
                lemma_stats_push(frames.skip(m), last.frame);
                assert(all.skip(m) =~= frames.skip(m).push(last.frame));
                assert(stats == stats_of(all.skip(m)));
            } else {
                lemma_stats_of_one(last.frame);
                let m = frames.len() as int;
                assert(all.skip(m) =~= seq![last.frame]);
                assert(stats == stats_of(all.skip(m)));
            }
        } else {
            assert(frames_in(history, granularity, period) == frames);
            assert(state.held(period) is Some ==> state.held(period) == before.held(period));
        }
    } else {
        assert(AqiModel::empty(n_slots, granularity).held(period) is None);
    }
}

/// The beginning of an uninterrupted history is uninterrupted.
proof fn lemma_uninterrupted_before(
    history: Seq<Receipt>,
    n_slots: nat,
    granularity: nat,
    period: nat,
)
    requires
        history.len() > 0,
        uninterrupted(history, n_slots, granularity, period),
    ensures
        uninterrupted(history.drop_last(), n_slots, granularity, period),
{
    let earlier = history.drop_last();
    assert forall|i: int, j: int|
        #![trigger earlier[i], earlier[j]]
        0 <= i < j < earlier.len() && of_interval(earlier[i], granularity, period) && !of_interval(
            earlier[j],
            granularity,
            period,
        ) implies {
        &&& earlier[j].now / granularity % n_slots != period % n_slots
        &&& forall|k: int|
            j < k < earlier.len() ==> !of_interval(#[trigger] earlier[k], granularity, period)
    } by {
        assert(history[i] == earlier[i] && history[j] == earlier[j]);
        assert forall|k: int| j < k < earlier.len() implies !of_interval(
            #[trigger] earlier[k],
            granularity,
            period,
        ) by {
            assert(history[k] == earlier[k]);
        }
    }
}

proof fn lemma_held_content(n_slots: nat, granularity: nat, history: Seq<Receipt>, period: nat)
    requires
        n_slots > 0,
        granularity > 0,
        uninterrupted(history, n_slots, granularity, period),
    ensures
        replay(AqiModel::empty(n_slots, granularity), history).held(period) == (if frames_in(
            history,
            granularity,
            period,
        ).len() == 0 {
            None
        } else {
            Some(stats_of(frames_in(history, granularity, period)))
        }),
    decreases history.len(),
{
    lemma_mod_bound(period as int, n_slots as int);
    if history.len() > 0 {
        let earlier = history.drop_last();
        let last = history.last();
        let end = history.len() - 1;
        let before = replay(AqiModel::empty(n_slots, granularity), earlier);
        let frames = frames_in(earlier, granularity, period);
        lemma_replay_shape(n_slots, granularity, earlier);
        lemma_uninterrupted_before(history, n_slots, granularity, period);
        lemma_held_content(n_slots, granularity, earlier, period);
        lemma_mod_bound((last.now / granularity) as int, n_slots as int);
        assert(history[end] == last);
        if of_interval(last, granularity, period) {
            lemma_stats_push(frames, last.frame);
            if frames.len() > 0 {
                let i = lemma_frames_in_witness(earlier, granularity, period);
                assert(history[i] == earlier[i]);
                assert(history[end - 1] == earlier.last());
                if !of_interval(history[end - 1], granularity, period) {
                    assert(i < end - 1);
                    assert(!of_interval(history[end], granularity, period));
                }
                assert(before.last_slot == Some(before.slot_of(last.now)));
            } else {
                lemma_stats_of_one(last.frame);
                assert(frames.push(last.frame) =~= seq![last.frame]);
            }
        } else if frames.len() > 0 {
            let i = lemma_frames_in_witness(earlier, granularity, period);
            assert(history[i] == earlier[i]);
            assert(last.now / granularity % n_slots != period % n_slots);
        }
    } else {
        assert(AqiModel::empty(n_slots, granularity).held(period) is None);
    }
}

/// Whatever the clock did, a sample is only of frames that were received in its interval: of the
/// last of them, at least one.
pub proof fn law_report_is_of_its_interval(
    n_slots: nat,
    granularity: nat,
    history: Seq<Receipt>,
    now: nat,
    k: nat,
)
    requires
        n_slots > 0,
        granularity > 0,
    ensures
        ({
            let state = replay(AqiModel::empty(n_slots, granularity), history);
            let frames = frames_in(history, granularity, (now / granularity - k) as nat);
            state.slot_back(now, k) matches Some(stats) ==> k <= now / granularity && exists|m: int|
                0 <= m < frames.len() && stats == stats_of(#[trigger] frames.skip(m))
        }),
{
    lemma_replay_shape(n_slots, granularity, history);
    if k <= now / granularity {
        lemma_held_is_suffix(n_slots, granularity, history, (now / granularity - k) as nat);
    }
}

/// What is reported of an interval is the number of the frames that were received in it and the
/// sums of their concentrations, and nothing of an interval without frames, as long as its frames
/// came uninterrupted.
pub proof fn law_report_sums_an_uninterrupted_interval(
    n_slots: nat,
    granularity: nat,
    history: Seq<Receipt>,
    now: nat,
    k: nat,
)
    requires
        n_slots > 0,
        granularity > 0,
        k <= now / granularity,
        uninterrupted(history, n_slots, granularity, (now / granularity - k) as nat),
    ensures
        ({
            let state = replay(AqiModel::empty(n_slots, granularity), history);
            let frames = frames_in(history, granularity, (now / granularity - k) as nat);
            state.slot_back(now, k) == (if frames.len() == 0 {
                None
            } else {
                Some(stats_of(frames))
            })
        }),
{
    lemma_replay_shape(n_slots, granularity, history);
    lemma_held_content(n_slots, granularity, history, (now / granularity - k) as nat);
}

/// As long as the clock does not go back, what is reported of each of the last intervals, as many
/// as there are slots, is the number of the frames that were received in it and the sums of their
/// concentrations; nothing is reported of an interval without frames.
pub proof fn law_report_sums_the_interval(
    n_slots: nat,
    granularity: nat,
    history: Seq<Receipt>,
    now: nat,
    k: nat,
)
    requires
        n_slots > 0,
        granularity > 0,
        in_order(history),
        forall|i: int| 0 <= i < history.len() ==> (#[trigger] history[i]).now <= now,
        k < n_slots,
        k <= now / granularity,
    ensures
        ({
            let state = replay(AqiModel::empty(n_slots, granularity), history);
            let frames = frames_in(history, granularity, (now / granularity - k) as nat);
            state.slot_back(now, k) == (if frames.len() == 0 {
                None
            } else {
                Some(stats_of(frames))
            })
        }),
{
    let period = (now / granularity - k) as nat;
    assert forall|i: int, j: int|
        #![trigger history[i], history[j]]
        0 <= i < j < history.len() && of_interval(history[i], granularity, period) && !of_interval(
            history[j],
            granularity,
            period,
        ) implies {
        &&& history[j].now / granularity % n_slots != period % n_slots
        &&& forall|m: int|
            j < m < history.len() ==> !of_interval(#[trigger] history[m], granularity, period)
    } by {
        lemma_div_is_ordered(history[i].now as int, history[j].now as int, granularity as int);
        lemma_div_is_ordered(history[j].now as int, now as int, granularity as int);
        if history[j].now / granularity % n_slots == period % n_slots {
            lemma_same_slot_apart(history[j].now / granularity, period, n_slots);
        }
        assert forall|m: int| j < m < history.len() implies !of_interval(
            #[trigger] history[m],
            granularity,
            period,
        ) by {
            lemma_div_is_ordered(history[j].now as int, history[m].now as int, granularity as int);
        }
    }
    law_report_sums_an_uninterrupted_interval(n_slots, granularity, history, now, k);
}

/// A frame changes the slot of its interval and no other, and neither the number of the slots nor
/// the length of an interval.
pub proof fn law_frame_changes_one_slot(state: AqiModel, frame: Frame, now: nat)
    requires
        state.usable(),
    ensures
        state.add_frame(frame, now).slots.len() == state.slots.len(),
        state.add_frame(frame, now).granularity == state.granularity,
        forall|i: int|
            0 <= i < state.slots.len() && i != state.slot_of(now) ==> #[trigger] state.add_frame(
                frame,
                now,
            ).slots[i] == state.slots[i],
        state.add_frame(frame, now).held(state.period(now)) == Some(state.slot_plus(frame, now)),
{
    lemma_mod_bound(state.period(now) as int, state.slots.len() as int);
}

/// A report goes back in time without repeating an interval, and leaves out exactly the intervals
/// without statistics.
pub proof fn law_report_goes_back_in_time(state: AqiModel, now: nat, n: nat)
    ensures
        forall|i: int, j: int|
            0 <= i < j < state.populated(now, n).len() ==> state.populated(now, n)[i]
                < state.populated(now, n)[j],
        forall|k: nat| #[trigger]
            state.populated(now, n).contains(k) <==> k < n && state.slot_back(now, k) is Some,
    decreases n,
{
    let intervals = state.populated(now, n);
    if n > 0 {
        let k = (n - 1) as nat;
        law_report_goes_back_in_time(state, now, k);
        let earlier = state.populated(now, k);
        assert forall|i: int| 0 <= i < earlier.len() implies earlier[i] < k by {
            assert(earlier.contains(earlier[i]));
        }
        assert forall|m: nat| #[trigger]
            intervals.contains(m) <==> m < n && state.slot_back(now, m) is Some by {
            if earlier.contains(m) {
                let i = choose|i: int| 0 <= i < earlier.len() && earlier[i] == m;
                assert(intervals[i] == m);
            }
            if m == k && state.slot_back(now, k) is Some {
                assert(intervals[intervals.len() - 1] == m);
            }
            if intervals.contains(m) {
                let i = choose|i: int| 0 <= i < intervals.len() && intervals[i] == m;
                if i < earlier.len() {
                    assert(earlier[i] == m);
                    assert(earlier.contains(m));
                }
            }
            if m < k && state.slot_back(now, m) is Some {
                assert(earlier.contains(m));
            }
        }
    }
}

/// Whether a function has one value for each sum and number.
pub open spec fn single_valued<F: Fn(u32, u32) -> Option<u32>>(f: F) -> bool {
    forall|sum: u32, samples: u32, x: Option<u32>, y: Option<u32>|
        #![trigger call_ensures(f, (sum, samples), x), call_ensures(f, (sum, samples), y)]
        call_ensures(f, (sum, samples), x) && call_ensures(f, (sum, samples), y) ==> x == y
}

/// In one interval, fewer intervals back are the first of more intervals back.
proof fn lemma_populated_prefix(state: AqiModel, now: nat, later: nat, a: nat, b: nat)
    requires
        state.period(now) == state.period(later),
        a <= b,
    ensures
        state.populated(now, a).len() <= state.populated(later, b).len(),
        state.populated(now, a) == state.populated(later, b).take(
            state.populated(now, a).len() as int,
        ),
        forall|i: int|
            state.populated(now, a).len() <= i < state.populated(later, b).len() ==> (
            #[trigger] state.populated(later, b)[i]) >= a,
    decreases b,
{
    if b > 0 {
        let k = (b - 1) as nat;
        assert(state.slot_back(now, k) == state.slot_back(later, k));
        if a < b {
            lemma_populated_prefix(state, now, later, a, k);
            assert(state.populated(now, a) =~= state.populated(later, b).take(
                state.populated(now, a).len() as int,
            ));
        } else {
            lemma_populated_prefix(state, now, later, k, k);
            lemma_populated_prefix(state, later, now, k, k);
            assert(state.populated(now, k) =~= state.populated(later, k));
            assert(state.populated(now, a) =~= state.populated(later, b).take(
                state.populated(now, a).len() as int,
            ));
        }
    } else {
        assert(state.populated(now, a) =~= state.populated(later, b).take(0));
    }
}

/// Of two reports in the same interval, the one that goes back less far is the beginning of the
/// other: its samples whose interval is among those asked for. Two reports that go back equally
/// far agree.
pub proof fn law_shorter_report_is_a_prefix<
    F: Fn(u32, u32) -> Option<u32>,
    G: Fn(u32, u32) -> Option<u32>,
>(
    state: AqiModel,
    now: nat,
    later: nat,
    a: nat,
    b: nat,
    shorter: Seq<AqiSample>,
    longer: Seq<AqiSample>,
    pm10: F,
    pm25: G,
)
    requires
        state.period(now) == state.period(later),
        a <= b,
        state.reports(now, a, shorter, pm10, pm25),
        state.reports(later, b, longer, pm10, pm25),
        single_valued(pm10),
        single_valued(pm25),
    ensures
        shorter.len() <= longer.len(),
        shorter == longer.take(shorter.len() as int),
        forall|i: int|
            0 <= i < longer.len() ==> ((#[trigger] longer[i]).interval < a <==> i < shorter.len()),
{
    let near = state.populated(now, a);
    let far = state.populated(later, b);
    lemma_populated_prefix(state, now, later, a, b);
    law_report_goes_back_in_time(state, now, a);
    assert forall|i: int| 0 <= i < shorter.len() implies shorter[i] == longer[i] by {
        assert(near[i] == far[i]);
        assert(state.describes(now, near[i], shorter[i]));
        assert(state.describes(later, far[i], longer[i]));
    }
    assert(shorter =~= longer.take(shorter.len() as int));
    assert forall|i: int| 0 <= i < longer.len() implies ((#[trigger] longer[i]).interval < a <==> i
        < shorter.len()) by {
        assert(state.describes(later, far[i], longer[i]));
        if i < shorter.len() {
            assert(near[i] == far[i]);
            assert(near.contains(near[i]));
        }
    }
}

/// Whether a sample is another, one interval later.
pub open spec fn aged(sample: AqiSample, older: AqiSample) -> bool {
    &&& older.interval == sample.interval + 1
    &&& older.start == sample.start
    &&& older.samples == sample.samples
    &&& older.pm10_sum == sample.pm10_sum
    &&& older.pm25_sum == sample.pm25_sum
    &&& older.pm10_aqi == sample.pm10_aqi
    &&& older.pm25_aqi == sample.pm25_aqi
}

/// Whether a report has a sample one interval later.
pub open spec fn has_aged(sample: AqiSample, later: Seq<AqiSample>) -> bool {
    exists|j: int| 0 <= j < later.len() && aged(sample, #[trigger] later[j])
}

/// As time passes without frames, a sample ages: an interval later a report that goes back one
/// interval further has it one interval further back, with the same start and data.
pub proof fn law_samples_age<F: Fn(u32, u32) -> Option<u32>, G: Fn(u32, u32) -> Option<u32>>(
    state: AqiModel,
    now: nat,
    n: nat,
    samples: Seq<AqiSample>,
    later: Seq<AqiSample>,
    pm10: F,
    pm25: G,
)
    requires
        state.granularity > 0,
        state.reports(now, n, samples, pm10, pm25),
        state.reports(now + state.granularity, n + 1, later, pm10, pm25),
        single_valued(pm10),
        single_valued(pm25),
    ensures
        forall|i: int| 0 <= i < samples.len() ==> has_aged(#[trigger] samples[i], later),
{
    let then = now + state.granularity;
    let before = state.populated(now, n);
    let after = state.populated(then, n + 1);
    lemma_div_plus_one(now as int, state.granularity as int);
    law_report_goes_back_in_time(state, now, n);
    law_report_goes_back_in_time(state, then, n + 1);
    assert forall|i: int| 0 <= i < samples.len() implies has_aged(
        #[trigger] samples[i],
        later,
    ) by {
        let k = before[i];
        assert(state.describes(now, k, samples[i]));
        assert(before.contains(k));
        assert(state.slot_back(then, k + 1) == state.slot_back(now, k));
        assert(after.contains(k + 1));
        let j = choose|j: int| 0 <= j < after.len() && after[j] == k + 1;
        assert(state.describes(then, k + 1, later[j]));
        assert(aged(samples[i], later[j]));
    }
}

/// The frames that were received from one time until just before another.
pub open spec fn frames_between(history: Seq<Receipt>, from: int, to: int) -> Seq<Frame> {
    history.filter(|r: Receipt| from <= r.now < to).map_values(|r: Receipt| r.frame)
}

/// The frames of the interval from `start` that came one after the other at the end, if no frame
/// came after them whose interval takes turns with it in its slot: `turn` seconds away, or a
/// multiple of that.
pub open spec fn last_run(history: Seq<Receipt>, granularity: nat, turn: nat, start: nat) -> Seq<
    Frame,
>
    decreases history.len(),
{
    if history.len() == 0 {
        Seq::empty()
    } else {
        let earlier = history.drop_last();
        let last = history.last();
        if start <= last.now < start + granularity {
            if earlier.len() > 0 && start <= earlier.last().now < start + granularity {
                last_run(earlier, granularity, turn, start).push(last.frame)
            } else {
                seq![last.frame]
            }
        } else if (last.now - last.now % granularity) as nat % turn == start % turn {
            Seq::empty()
        } else {
            last_run(earlier, granularity, turn, start)
        }
    }
}

/// Whether a sample says of some frames how many there are and what their concentrations add up
/// to, with air quality indices that the given functions gave for these sums and this number.
pub open spec fn sums_up<F: Fn(u32, u32) -> Option<u32>, G: Fn(u32, u32) -> Option<u32>>(
    sample: AqiSample,
    frames: Seq<Frame>,
    pm10: F,
    pm25: G,
) -> bool {
    let pm10_sum = frames.fold_left(0int, |sum: int, f: Frame| sum + f.pm10_standard);
    let pm25_sum = frames.fold_left(0int, |sum: int, f: Frame| sum + f.pm25_standard);
    &&& frames.len() >= 1
    &&& sample.samples == frames.len()
    &&& sample.pm10_sum == pm10_sum
    &&& sample.pm25_sum == pm25_sum
    &&& call_ensures(pm10, (pm10_sum as u32, frames.len() as u32), sample.pm10_aqi)
    &&& call_ensures(pm25, (pm25_sum as u32, frames.len() as u32), sample.pm25_aqi)
}

/// Whether a sample lies as many intervals back from the time `now` as it says, with intervals
/// counted from the Unix epoch.
pub open spec fn placed(sample: AqiSample, granularity: nat, now: nat) -> bool {
    &&& sample.start as nat % granularity == 0
    &&& sample.start + sample.interval * granularity <= now
    &&& now < sample.start + (sample.interval + 1) * granularity
}

/// An interval is the seconds from its start until just before the next one's.
proof fn lemma_interval_bounds(now: nat, granularity: nat, period: nat)
    requires
        granularity > 0,
    ensures
        now / granularity == period <==> period * granularity <= now < period * granularity
            + granularity,
{
    let g = granularity as int;
    lemma_fundamental_div_mod(now as int, g);
    let q = now as int / g;
    let p = period as int;
    assert(g * q == q * g) by (nonlinear_arith);
    if period * granularity <= now < period * granularity + granularity {
        lemma_fundamental_div_mod_converse(now as int, g, p, now - p * g);
    }
}

proof fn lemma_totals_are_sums(frames: Seq<Frame>)
    ensures
        stats_of(frames).pm10_sum == frames.fold_left(
            0int,
            |sum: int, f: Frame| sum + f.pm10_standard,
        ),
        stats_of(frames).pm25_sum == frames.fold_left(
            0int,
            |sum: int, f: Frame| sum + f.pm25_standard,
        ),
    decreases frames.len(),
{
    reveal_with_fuel(Seq::fold_left, 2);
    if frames.len() > 0 {
        let earlier = frames.drop_last();
        lemma_totals_are_sums(earlier);
        lemma_stats_push(earlier, frames.last());
        assert(earlier.push(frames.last()) =~= frames);
    }
}

proof fn lemma_frames_between(history: Seq<Receipt>, granularity: nat, period: nat)
    requires
        granularity > 0,
    ensures
        frames_in(history, granularity, period) == frames_between(
            history,
            (period * granularity) as int,
            (period * granularity + granularity) as int,
        ),
    decreases history.len(),
{
    let from = (period * granularity) as int;
    let to = from + granularity;
    let inside = |r: Receipt| from <= r.now < to;
    reveal(Seq::filter);
    if history.len() > 0 {
        let earlier = history.drop_last();
        lemma_frames_between(earlier, granularity, period);
        lemma_interval_bounds(history.last().now, granularity, period);
        assert(earlier.filter(inside).push(history.last()).map_values(|r: Receipt| r.frame)
            =~= earlier.filter(inside).map_values(|r: Receipt| r.frame).push(history.last().frame));
    } else {
        assert(frames_between(history, from, to) =~= Seq::<Frame>::empty());
    }
}

/// Two intervals share a slot if and only if their starts are some turns of the slots apart.
proof fn lemma_turns(p: nat, t: nat, n_slots: nat, granularity: nat)
    requires
        n_slots > 0,
        granularity > 0,
    ensures
        (p * granularity) as nat % ((n_slots * granularity) as nat) == (t * granularity) as nat % (
        (n_slots * granularity) as nat) <==> p % n_slots == t % n_slots,
{
    lemma_scaled_mod(p, n_slots, granularity);
    lemma_scaled_mod(t, n_slots, granularity);
    let a = p % n_slots;
    let b = t % n_slots;
    assert(a * granularity == b * granularity <==> a == b) by (nonlinear_arith)
        requires
            granularity > 0,
    ;
}

proof fn lemma_scaled_mod(p: nat, n: nat, g: nat)
    requires
        n > 0,
        g > 0,
    ensures
        (p * g) as nat % ((n * g) as nat) == (p % n) * g,
{
    let q = p as int / n as int;
    let r = p as int % n as int;
    lemma_fundamental_div_mod(p as int, n as int);
    assert(p * g == q * (n * g) + r * g) by (nonlinear_arith)
        requires
            p == n * q + r,
    ;
    assert(0 <= r * g < n * g) by (nonlinear_arith)
        requires
            0 <= r < n,
            g > 0,
    ;
    lemma_fundamental_div_mod_converse((p * g) as int, (n * g) as int, q, r * g);
}

/// What a state holds for an interval are the statistics of its last run of frames.
proof fn lemma_held_is_last_run(n_slots: nat, granularity: nat, history: Seq<Receipt>, period: nat)
    requires
        n_slots > 0,
        granularity > 0,
    ensures
        ({
            let run = last_run(
                history,
                granularity,
                n_slots * granularity,
                period * granularity,
            );
            replay(AqiModel::empty(n_slots, granularity), history).held(period) == (if run.len()
                == 0 {
                None
            } else {
                Some(stats_of(run))
            })
        }),
    decreases history.len(),
{
    let turn = n_slots * granularity;
    let start = period * granularity;
    lemma_mod_bound(period as int, n_slots as int);
    if history.len() > 0 {
        let earlier = history.drop_last();
        let last = history.last();
        let p = last.now / granularity;
        let before = replay(AqiModel::empty(n_slots, granularity), earlier);
        let run = last_run(earlier, granularity, turn, start);
        lemma_replay_shape(n_slots, granularity, earlier);
        lemma_held_is_last_run(n_slots, granularity, earlier, period);
        lemma_mod_bound(p as int, n_slots as int);
        lemma_interval_bounds(last.now, granularity, period);
        lemma_fundamental_div_mod(last.now as int, granularity as int);
        assert(p * granularity == granularity * p) by (nonlinear_arith);
        assert(last.now - last.now % granularity == p * granularity);
        lemma_turns(p, period, n_slots, granularity);
        if p == period {
            if earlier.len() > 0 {
                lemma_interval_bounds(earlier.last().now, granularity, period);
            }
            if earlier.len() > 0 && earlier.last().now / granularity == period {
                assert(run.len() > 0);
                lemma_stats_push(run, last.frame);
            } else {
                lemma_stats_of_one(last.frame);
                assert(before.slot_plus(last.frame, last.now) == StatsModel::of(last.frame)) by {
                    if earlier.len() > 0 {
                        let q = earlier.last().now / granularity;
                        lemma_fundamental_div_mod(earlier.last().now as int, granularity as int);
                        assert(q * granularity == granularity * q) by (nonlinear_arith);
                        lemma_turns(q, period, n_slots, granularity);
                    }
                }
            }
        }
    } else {
        assert(AqiModel::empty(n_slots, granularity).held(period) is None);
    }
}

/// Whether a report at time `now` of the last `n` intervals is one of the last runs: every sample
/// is in its place and sums up the last run of frames of its interval, the samples go back in time,
/// and every interval asked for that has such a run has its sample.
pub open spec fn last_runs_report<F: Fn(u32, u32) -> Option<u32>, G: Fn(u32, u32) -> Option<u32>>(
    history: Seq<Receipt>,
    granularity: nat,
    turn: nat,
    now: nat,
    n: nat,
    samples: Seq<AqiSample>,
    pm10: F,
    pm25: G,
) -> bool {
    &&& forall|i: int|
        #![trigger samples[i]]
        0 <= i < samples.len() ==> samples[i].interval < n && placed(samples[i], granularity, now)
            && sums_up(
            samples[i],
            last_run(history, granularity, turn, samples[i].start as nat),
            pm10,
            pm25,
        )
    &&& forall|i: int, j: int|
        #![trigger samples[i], samples[j]]
        0 <= i < j < samples.len() ==> samples[i].interval < samples[j].interval
    &&& forall|start: nat|
        start % granularity == 0 && start <= now < start + n * granularity && (
        #[trigger] last_run(history, granularity, turn, start)).len() > 0 ==> has_start(
            samples,
            start,
        )
}

/// Whatever the clock did, a report is one of the last runs.
pub proof fn law_report_sums_up_the_last_runs<
    F: Fn(u32, u32) -> Option<u32>,
    G: Fn(u32, u32) -> Option<u32>,
>(
    n_slots: nat,
    granularity: nat,
    history: Seq<Receipt>,
    now: nat,
    n: nat,
    samples: Seq<AqiSample>,
    pm10: F,
    pm25: G,
)
    requires
        n_slots > 0,
        granularity > 0,
        replay(AqiModel::empty(n_slots, granularity), history).reports(
            now,
            n,
            samples,
            pm10,
            pm25,
        ),
    ensures
        last_runs_report(
            history,
            granularity,
            n_slots * granularity,
            now,
            n,
            samples,
            pm10,
            pm25,
        ),
{
    let state = replay(AqiModel::empty(n_slots, granularity), history);
    let intervals = state.populated(now, n);
    let g = granularity as int;
    lemma_replay_shape(n_slots, granularity, history);
    law_report_goes_back_in_time(state, now, n);
    assert forall|i: int| #![trigger samples[i]] 0 <= i < samples.len() implies samples[i].interval
        < n && placed(samples[i], granularity, now) && sums_up(
        samples[i],
        last_run(history, granularity, n_slots * granularity, samples[i].start as nat),
        pm10,
        pm25,
    ) by {
        let k = intervals[i];
        assert(state.describes(now, k, samples[i]));
        assert(intervals.contains(k));
        let t = (now / granularity - k) as nat;
        lemma_held_is_last_run(n_slots, granularity, history, t);
        assert(samples[i].start == t * granularity);
        lemma_mod_multiples_basic(t as int, g);
        lemma_interval_bounds(now, granularity, now / granularity);
        assert((t + k) * g == t * g + k * g) by (nonlinear_arith);
        assert((k + 1) * g == k * g + g) by (nonlinear_arith);
        let run = last_run(history, granularity, n_slots * granularity, t * granularity);
        lemma_totals_are_sums(run);
        assert(stats_of(run) == state.held(t)->0);
        assert(stats_of(run).pm10_sum == samples[i].pm10_sum);
        assert(stats_of(run).pm25_sum == samples[i].pm25_sum);
    }
    assert forall|i: int, j: int|
        #![trigger samples[i], samples[j]]
        0 <= i < j < samples.len() implies samples[i].interval < samples[j].interval by {
        assert(state.describes(now, intervals[i], samples[i]));
        assert(state.describes(now, intervals[j], samples[j]));
    }
    assert forall|start: nat|
        start % granularity == 0 && start <= now < start + n * granularity && (
        #[trigger] last_run(history, granularity, n_slots * granularity, start)).len()
            > 0 implies has_start(samples, start) by {
        let t = start / granularity;
        lemma_fundamental_div_mod(start as int, g);
        assert(t * g == g * t) by (nonlinear_arith);
        lemma_held_is_last_run(n_slots, granularity, history, t);
        lemma_div_is_ordered(start as int, now as int, g);
        let k = (now / granularity - t) as nat;
        assert(k < n) by {
            lemma_interval_bounds(now, granularity, now / granularity);
            assert(k * g == (now / granularity) * g - t * g) by (nonlinear_arith)
                requires
                    k == now / granularity - t,
            ;
            assert(k * g < n * g ==> k < n) by (nonlinear_arith)
                requires
                    g > 0,
            ;
        }
        assert(state.slot_back(now, k) is Some);
        assert(intervals.contains(k));
        let j = choose|j: int| 0 <= j < intervals.len() && intervals[j] == k;
        assert(state.describes(now, k, samples[j]));
        assert(samples[j].start == start);
    }
}

/// Whether a report has a sample of the interval from `start`.
pub open spec fn has_start(samples: Seq<AqiSample>, start: nat) -> bool {
    exists|j: int| 0 <= j < samples.len() && (#[trigger] samples[j]).start == start
}

/// Whether a report has a sample of the interval that a time lies in.
pub open spec fn has_time(samples: Seq<AqiSample>, granularity: nat, time: nat) -> bool {
    exists|j: int|
        0 <= j < samples.len() && (#[trigger] samples[j]).start <= time < samples[j].start
            + granularity
}

/// Whether a report at time `now` of the last `n` intervals is right: every sample is in its
/// place and sums up exactly the frames that were received in its interval, the samples go back in
/// time, and every frame that was received in the last `n` intervals is in a sample.
pub open spec fn right_report<F: Fn(u32, u32) -> Option<u32>, G: Fn(u32, u32) -> Option<u32>>(
    history: Seq<Receipt>,
    granularity: nat,
    now: nat,
    n: nat,
    samples: Seq<AqiSample>,
    pm10: F,
    pm25: G,
) -> bool {
    &&& forall|i: int|
        #![trigger samples[i]]
        0 <= i < samples.len() ==> samples[i].interval < n && placed(samples[i], granularity, now)
            && sums_up(
            samples[i],
            frames_between(
                history,
                samples[i].start as int,
                samples[i].start + granularity,
            ),
            pm10,
            pm25,
        )
    &&& forall|i: int, j: int|
        #![trigger samples[i], samples[j]]
        0 <= i < j < samples.len() ==> samples[i].interval < samples[j].interval
    &&& forall|i: int|
        0 <= i < history.len() && (#[trigger] history[i]).now + n * granularity >= now - now
            % granularity + granularity ==> has_time(samples, granularity, history[i].now)
}

/// As long as the clock does not go back, a report of no more intervals than there are slots is
/// right: it counts every frame of these intervals, each in its own, and no other frame.
pub proof fn law_report_is_right<F: Fn(u32, u32) -> Option<u32>, G: Fn(u32, u32) -> Option<u32>>(
    n_slots: nat,
    granularity: nat,
    history: Seq<Receipt>,
    now: nat,
    n: nat,
    samples: Seq<AqiSample>,
    pm10: F,
    pm25: G,
)
    requires
        n_slots > 0,
        granularity > 0,
        in_order(history),
        forall|i: int| 0 <= i < history.len() ==> (#[trigger] history[i]).now <= now,
        n <= n_slots,
        replay(AqiModel::empty(n_slots, granularity), history).reports(
            now,
            n,
            samples,
            pm10,
            pm25,
        ),
    ensures
        right_report(history, granularity, now, n, samples, pm10, pm25),
{
    let state = replay(AqiModel::empty(n_slots, granularity), history);
    let intervals = state.populated(now, n);
    let g = granularity as int;
    lemma_replay_shape(n_slots, granularity, history);
    law_report_goes_back_in_time(state, now, n);
    law_report_sums_up_the_last_runs(
        n_slots,
        granularity,
        history,
        now,
        n,
        samples,
        pm10,
        pm25,
    );
    assert forall|i: int| #![trigger samples[i]] 0 <= i < samples.len() implies sums_up(
        samples[i],
        frames_between(history, samples[i].start as int, samples[i].start + granularity),
        pm10,
        pm25,
    ) by {
        let k = intervals[i];
        assert(state.describes(now, k, samples[i]));
        assert(intervals.contains(k));
        let t = (now / granularity - k) as nat;
        law_report_sums_the_interval(n_slots, granularity, history, now, k);
        lemma_frames_between(history, granularity, t);
        let frames = frames_in(history, granularity, t);
        lemma_totals_are_sums(frames);
        assert(stats_of(frames) == state.slot_back(now, k)->0);
        assert(stats_of(frames).pm10_sum == samples[i].pm10_sum);
        assert(stats_of(frames).pm25_sum == samples[i].pm25_sum);
    }
    assert forall|i: int|
        0 <= i < history.len() && (#[trigger] history[i]).now + n * granularity >= now - now
            % granularity + granularity implies has_time(
        samples,
        granularity,
        history[i].now,
    ) by {
        let time = history[i].now;
        let t = time / granularity;
        let q = now / granularity;
        lemma_div_is_ordered(time as int, now as int, g);
        lemma_interval_bounds(time, granularity, t);
        lemma_fundamental_div_mod(now as int, g);
        assert(q * g == g * q) by (nonlinear_arith);
        let k = (q - t) as nat;
        assert(k < n) by (nonlinear_arith)
            requires
                time < t * g + g,
                time + n * g >= q * g + g,
                k == q - t,
                g > 0,
        ;
        law_report_sums_the_interval(n_slots, granularity, history, now, k);
        lemma_frames_in_nonempty(history, granularity, t, i);
        assert(state.slot_back(now, k) is Some);
        assert(intervals.contains(k));
        let j = choose|j: int| 0 <= j < intervals.len() && intervals[j] == k;
        assert(state.describes(now, k, samples[j]));
        assert(samples[j].start <= time < samples[j].start + granularity);
    }
}

proof fn lemma_frames_in_nonempty(history: Seq<Receipt>, granularity: nat, period: nat, i: int)
    requires
        0 <= i < history.len(),
        history[i].now / granularity == period,
    ensures
        frames_in(history, granularity, period).len() > 0,
    decreases history.len(),
{
    if i < history.len() - 1 {
        lemma_frames_in_nonempty(history.drop_last(), granularity, period, i);
    }
}

/// The intervals take turns in the slots: the first ones have the slots in order, intervals less
/// than a turn apart have different slots, and an interval has the slot of the one a turn before.
pub proof fn law_slots_take_turns(state: AqiModel, now: nat, later: nat)
    requires
        state.usable(),
    ensures
        state.slot_of(now) < state.slots.len(),
        now < state.granularity * state.slots.len() ==> state.slot_of(now) * state.granularity
            <= now < (state.slot_of(now) + 1) * state.granularity,
        state.slot_of(now + state.granularity * state.slots.len()) == state.slot_of(now),
        state.period(now) < state.period(later) < state.period(now) + state.slots.len()
            ==> state.slot_of(now) != state.slot_of(later),
        state.period(now) * state.granularity <= now < (state.period(now) + 1)
            * state.granularity,
{
    let g = state.granularity;
    let n = state.slots.len();
    let p = state.period(now);
    lemma_mod_bound(p as int, n as int);
    lemma_interval_bounds(now, g, p);
    assert((p + 1) * g == p * g + g) by (nonlinear_arith);
    if now < g * n {
        assert(p < n) by (nonlinear_arith)
            requires
                p * g <= now < g * n,
                g > 0,
        ;
        lemma_small_mod(p, n);
    }
    assert((p + n) * g == p * g + g * n) by (nonlinear_arith);
    lemma_interval_bounds(now + g * n, g, p + n);
    lemma_mod_add_multiples_vanish(p as int, n as int);
    if p < state.period(later) && state.slot_of(now) == state.slot_of(later) {
        lemma_same_slot_apart(state.period(later), p, n);
    }
}

/// A state keeps as many intervals as fit into the retention, in whole seconds; if that is one or
/// more, it can be used. It begins without frames.
pub proof fn law_slots_span_the_retention(granularity: nat, retention: nat)
    requires
        granularity >= 1_000_000_000,
    ensures
        ({
            let g = granularity / 1_000_000_000;
            let slots = slots_for(granularity, retention);
            let state = AqiModel::empty(slots, g);
            &&& slots * g <= retention / 1_000_000_000 < (slots + 1) * g
            &&& state.slots.len() == slots
            &&& state.granularity == g
            &&& forall|period: nat| slots > 0 ==> #[trigger] state.held(period) is None
            &&& slots > 0 ==> state.usable()
        }),
{
    let g = granularity / 1_000_000_000;
    let r = retention / 1_000_000_000;
    let slots = slots_for(granularity, retention);
    lemma_interval_bounds(r, g, slots);
    assert((slots + 1) * g == slots * g + g) by (nonlinear_arith);
    assert forall|period: nat| slots > 0 implies #[trigger] AqiModel::empty(slots, g).held(
        period,
    ) is None by {
        lemma_mod_bound(period as int, slots as int);
    }
}

/// The counters are those of 32 bits, and any frames that they can count are plausible.
pub proof fn law_counters_hold_32_bits(stats: StatsModel, frames: Seq<Frame>)
    ensures
        stats.fits() <==> (stats.samples <= 0xffff_ffff && stats.pm10_sum <= 0xffff_ffff
            && stats.pm25_sum <= 0xffff_ffff),
        frames.len() > 0 ==> stats_of(frames).plausible(),
    decreases frames.len(),
{
    if frames.len() > 0 {
        let earlier = frames.drop_last();
        law_counters_hold_32_bits(stats, earlier);
        lemma_stats_push(earlier, frames.last());
        assert(earlier.push(frames.last()) =~= frames);
        if earlier.len() == 0 {
            assert(frames =~= seq![frames.last()]);
            lemma_stats_of_one(frames.last());
        }
    }
}

/// There is room for a frame unless a counter of the run that it would be the last of would exceed
/// 32 bits. To know that at any time, only the last frame's run matters.
pub proof fn law_room_for_a_frame(
    n_slots: nat,
    granularity: nat,
    history: Seq<Receipt>,
    frame: Frame,
    now: nat,
)
    requires
        n_slots > 0,
        granularity > 0,
    ensures
        ({
            let state = replay(AqiModel::empty(n_slots, granularity), history);
            let start = (now - now % granularity) as nat;
            let run = last_run(
                history.push(Receipt { now, frame }),
                granularity,
                n_slots * granularity,
                start,
            );
            &&& state.slot_plus(frame, now).fits() <==> (run.len() <= 0xffff_ffff && stats_of(
                run,
            ).pm10_sum <= 0xffff_ffff && stats_of(run).pm25_sum <= 0xffff_ffff)
            &&& history.len() == 0 ==> state.accepts(frame)
            &&& history.len() > 0 && start <= history.last().now < start + granularity ==> (
            state.accepts(frame) <==> state.slot_plus(frame, now).fits())
        }),
{
    let state = replay(AqiModel::empty(n_slots, granularity), history);
    let longer = history.push(Receipt { now, frame });
    let period = now / granularity;
    assert(longer.drop_last() =~= history);
    lemma_replay_shape(n_slots, granularity, history);
    law_frame_changes_one_slot(state, frame, now);
    lemma_held_is_last_run(n_slots, granularity, longer, period);
    lemma_fundamental_div_mod(now as int, granularity as int);
    assert(period * granularity == granularity * period) by (nonlinear_arith);
    if history.len() > 0 {
        lemma_interval_bounds(history.last().now, granularity, period);
        lemma_held_is_last_run(n_slots, granularity, history, period);
    }
}

/// A report right after a frame, in the same interval, begins with a sample of that interval, and
/// the frame is in it.
pub proof fn law_new_frame_is_reported_first<
    F: Fn(u32, u32) -> Option<u32>,
    G: Fn(u32, u32) -> Option<u32>,
>(
    state: AqiModel,
    frame: Frame,
    received: nat,
    now: nat,
    start: nat,
    n: nat,
    samples: Seq<AqiSample>,
    pm10: F,
    pm25: G,
)
    requires
        state.usable(),
        start % state.granularity == 0,
        start <= received < start + state.granularity,
        start <= now < start + state.granularity,
        n > 0,
        state.add_frame(frame, received).reports(now, n, samples, pm10, pm25),
    ensures
        samples.len() > 0,
        samples[0].interval == 0,
        samples[0].start == start,
        samples[0].samples >= 1,
        samples[0].pm10_sum >= frame.pm10_standard,
        samples[0].pm25_sum >= frame.pm25_standard,
{
    let g = state.granularity;
    let after = state.add_frame(frame, received);
    let period = start / g;
    lemma_fundamental_div_mod(start as int, g as int);
    assert(g * period == period * g) by (nonlinear_arith);
    lemma_interval_bounds(received, g, period);
    lemma_interval_bounds(now, g, period);
    law_frame_changes_one_slot(state, frame, received);
    law_report_goes_back_in_time(after, now, n);
    let intervals = after.populated(now, n);
    assert(after.slot_back(now, 0) is Some);
    assert(intervals.contains(0));
    let i = choose|i: int| 0 <= i < intervals.len() && intervals[i] == 0;
    assert(i == 0);
    assert(after.describes(now, intervals[0], samples[0]));
}

/// A new state has intervals of the given length, as many slots as the retention has whole
/// intervals, in whole seconds, and no frames. With a slot it can be used.
pub proof fn law_new_state_has_no_frames(
    granularity: Duration,
    retention: Duration,
    state: AqiState,
    count: usize,
    secs: u64,
)
    requires
        granularity@ >= 1_000_000_000,
        call_ensures(AqiState::new, (granularity, retention), state),
        call_ensures(AqiState::slot_count, (&state,), count),
        call_ensures(AqiState::granularity, (&state,), secs),
    ensures
        ({
            let g = granularity@ / 1_000_000_000;
            let n_slots = count as nat;
            &&& secs == g
            &&& n_slots * g <= retention@ / 1_000_000_000 < (n_slots + 1) * g
            &&& state@ == replay(AqiModel::empty(n_slots, g), Seq::empty())
            &&& n_slots > 0 ==> state@.usable() && forall|period: nat| #[trigger]
                state@.held(period) is None
        }),
{
    law_slots_span_the_retention(granularity@, retention@);
}

/// A frame that was taken in at some time is the last of the history.
pub proof fn law_frame_is_taken_in(
    state: &mut AqiState,
    start: AqiModel,
    history: Seq<Receipt>,
    frame: Frame,
    now: u64,
)
    requires
        old(state)@ == replay(start, history),
        call_ensures(AqiState::add_frame_at, (state, &frame, now), ()),
    ensures
        final(state)@ == replay(start, history.push(Receipt { now: now as nat, frame })),
{
    assert(history.push(Receipt { now: now as nat, frame }).drop_last() =~= history);
}

/// A frame is taken in at the time that the clock gave, and not without one.
pub proof fn law_frame_is_taken_in_for(
    state: &mut AqiState,
    start: AqiModel,
    history: Seq<Receipt>,
    frame: Frame,
    reading: Option<u64>,
    now: Result<u64, ClockError>,
)
    requires
        old(state)@ == replay(start, history),
        call_ensures(AqiState::add_frame_for, (state, &frame, reading), now),
    ensures
        match reading {
            Some(t) => now == Ok::<u64, ClockError>(t) && final(state)@ == replay(
                start,
                history.push(Receipt { now: t as nat, frame }),
            ),
            None => now is Err && final(state)@ == replay(start, history),
        },
{
    if let Some(t) = reading {
        assert(history.push(Receipt { now: t as nat, frame }).drop_last() =~= history);
    }
}

/// A frame that is received now is taken in at the time that the clock reads, which is told; if the
/// clock cannot be read, the frame is not taken in.
pub proof fn law_frame_is_taken_in_now(
    state: &mut AqiState,
    start: AqiModel,
    history: Seq<Receipt>,
    frame: Frame,
    now: Result<u64, ClockError>,
)
    requires
        old(state)@ == replay(start, history),
        call_ensures(AqiState::add_frame, (state, &frame), now),
    ensures
        match now {
            Ok(t) => is_reading(Some(t)) && final(state)@ == replay(
                start,
                history.push(Receipt { now: t as nat, frame }),
            ),
            Err(_) => is_reading(None) && final(state)@ == replay(start, history),
        },
{
    if let Ok(t) = now {
        assert(history.push(Receipt { now: t as nat, frame }).drop_last() =~= history);
    }
}

/// Whether a report is right for a history: one of the last runs in any case, and if the clock did
/// not go back and no more intervals are asked for than there are slots, one that counts every
/// frame of these intervals.
pub open spec fn report_of<F: Fn(u32, u32) -> Option<u32>, G: Fn(u32, u32) -> Option<u32>>(
    n_slots: nat,
    granularity: nat,
    history: Seq<Receipt>,
    now: nat,
    n: nat,
    samples: Seq<AqiSample>,
    pm10: F,
    pm25: G,
) -> bool {
    &&& last_runs_report(
        history,
        granularity,
        n_slots * granularity,
        now,
        n,
        samples,
        pm10,
        pm25,
    )
    &&& n <= n_slots && in_order(history) && (history.len() > 0 ==> history.last().now <= now)
        ==> right_report(history, granularity, now, n, samples, pm10, pm25)
}

/// What a replayed state reports is right for its history.
pub proof fn lemma_report_of<F: Fn(u32, u32) -> Option<u32>, G: Fn(u32, u32) -> Option<u32>>(
    n_slots: nat,
    granularity: nat,
    history: Seq<Receipt>,
    now: nat,
    n: nat,
    samples: Seq<AqiSample>,
    pm10: F,
    pm25: G,
)
    requires
        n_slots > 0,
        granularity > 0,
        replay(AqiModel::empty(n_slots, granularity), history).reports(
            now,
            n,
            samples,
            pm10,
            pm25,
        ),
    ensures
        report_of(n_slots, granularity, history, now, n, samples, pm10, pm25),
{
    law_report_sums_up_the_last_runs(n_slots, granularity, history, now, n, samples, pm10, pm25);
    if n <= n_slots && in_order(history) && (history.len() > 0 ==> history.last().now <= now) {
        assert forall|i: int| 0 <= i < history.len() implies (#[trigger] history[i]).now
            <= now by {
            assert(history[i].now <= history[history.len() - 1].now);
        }
        law_report_is_right(n_slots, granularity, history, now, n, samples, pm10, pm25);
    }
}

/// What is reported at a time, and at the time that a clock gave, is right for the frames that were
/// taken in.
pub proof fn law_recent_at_is_right<
    F: Fn(u32, u32) -> Option<u32>,
    G: Fn(u32, u32) -> Option<u32>,
>(
    state: AqiState,
    n_slots: nat,
    granularity: nat,
    history: Seq<Receipt>,
    n: usize,
    now: u64,
    pm10: F,
    pm25: G,
    samples: Vec<AqiSample>,
    reading: Option<u64>,
    result: Result<Vec<AqiSample>, ClockError>,
)
    requires
        n_slots > 0,
        granularity > 0,
        state@ == replay(AqiModel::empty(n_slots, granularity), history),
        call_ensures(AqiState::recent_at::<F, G>, (&state, n, now, pm10, pm25), samples),
        call_ensures(AqiState::recent_for::<F, G>, (&state, n, reading, pm10, pm25), result),
    ensures
        report_of(
            n_slots,
            granularity,
            history,
            now as nat,
            n as nat,
            samples@,
            pm10,
            pm25,
        ),
        match reading {
            Some(t) => result matches Ok(v) && report_of(
                n_slots,
                granularity,
                history,
                t as nat,
                n as nat,
                v@,
                pm10,
                pm25,
            ),
            None => result is Err,
        },
{
    lemma_report_of(
        n_slots,
        granularity,
        history,
        now as nat,
        n as nat,
        samples@,
        pm10,
        pm25,
    );
    if let Some(t) = reading {
        lemma_report_of(
            n_slots,
            granularity,
            history,
            t as nat,
            n as nat,
            result->Ok_0@,
            pm10,
            pm25,
        );
    }
}

/// What is reported as of now is right, for the frames that were taken in, at the time that the
/// clock reads.
pub proof fn law_recent_is_right<F: Fn(u32, u32) -> Option<u32>, G: Fn(u32, u32) -> Option<u32>>(
    state: AqiState,
    n_slots: nat,
    granularity: nat,
    history: Seq<Receipt>,
    n: usize,
    pm10: F,
    pm25: G,
    result: Result<Vec<AqiSample>, ClockError>,
)
    requires
        n_slots > 0,
        granularity > 0,
        state@ == replay(AqiModel::empty(n_slots, granularity), history),
        call_ensures(AqiState::recent::<F, G>, (&state, n, pm10, pm25), result),
    ensures
        match result {
            Ok(v) => exists|now: u64| #[trigger]
                is_reading(Some(now)) && report_of(
                    n_slots,
                    granularity,
                    history,
                    now as nat,
                    n as nat,
                    v@,
                    pm10,
                    pm25,
                ),
            Err(_) => is_reading(None),
        },
{
    if let Ok(v) = result {
        let now = choose|now: u64| #[trigger]
            is_reading(Some(now)) && state@.reports(now as nat, n as nat, v@, pm10, pm25);
        lemma_report_of(n_slots, granularity, history, now as nat, n as nat, v@, pm10, pm25);
    }
}

/// A state says that it has room for a frame if and only if no counter of the run that the frame
/// would be the last of would exceed 32 bits.
pub proof fn law_room_is_told(
    state: AqiState,
    n_slots: nat,
    granularity: nat,
    history: Seq<Receipt>,
    frame: Frame,
    now: u64,
    room_now: bool,
    room: bool,
)
    requires
        n_slots > 0,
        granularity > 0,
        state@ == replay(AqiModel::empty(n_slots, granularity), history),
        call_ensures(AqiState::accepts_at, (&state, &frame, now), room_now),
        call_ensures(AqiState::accepts, (&state, &frame), room),
    ensures
        ({
            let start = (now - now as nat % granularity) as nat;
            let run = last_run(
                history.push(Receipt { now: now as nat, frame }),
                granularity,
                n_slots * granularity,
                start,
            );
            &&& room_now <==> (run.len() <= 0xffff_ffff && stats_of(run).pm10_sum <= 0xffff_ffff
                && stats_of(run).pm25_sum <= 0xffff_ffff)
            &&& history.len() == 0 ==> room
            &&& history.len() > 0 && start <= history.last().now < start + granularity ==> (room
                <==> room_now)
        }),
{
    law_room_for_a_frame(n_slots, granularity, history, frame, now as nat);
}

/// The current interval begins at a multiple of its length and holds the current time; its slot is
/// the one whose turn it is.
pub proof fn law_current_slot_is_in_turn(state: AqiState, now: u64, slot: (usize, u64))
    requires
        state@.usable(),
        call_ensures(AqiState::cur_slot, (&state, now), slot),
    ensures
        slot.1 as nat % state@.granularity == 0,
        slot.1 <= now < slot.1 + state@.granularity,
        slot.0 == slot.1 as nat / state@.granularity % state@.slots.len(),
{
    let g = state@.granularity;
    let period = now as nat / g;
    lemma_interval_bounds(now as nat, g, period);
    lemma_mod_multiples_basic(period as int, g as int);
    lemma_interval_bounds(slot.1 as nat, g, period);
}

/// A frame adds one to the number of frames and its concentrations to their sums, where the
/// counters of 32 bits have room for that; the first frame is counted from zero.
pub proof fn law_stats_count_a_frame(
    stats: FrameStats,
    frame: Frame,
    room: bool,
    more: FrameStats,
    first: FrameStats,
)
    requires
        call_ensures(FrameStats::accepts, (&stats, &frame), room),
        call_ensures(FrameStats::add_frame, (stats, &frame), more),
        call_ensures(<FrameStats as From<&Frame>>::from, (&frame,), first),
    ensures
        room <==> (stats.samples + 1 <= 0xffff_ffff && stats.pm10_standard_sum
            + frame.pm10_standard <= 0xffff_ffff && stats.pm25_standard_sum + frame.pm25_standard
            <= 0xffff_ffff),
        more.samples == stats.samples + 1,
        more.pm10_standard_sum == stats.pm10_standard_sum + frame.pm10_standard,
        more.pm25_standard_sum == stats.pm25_standard_sum + frame.pm25_standard,
        first.samples == 1,
        first.pm10_standard_sum == frame.pm10_standard,
        first.pm25_standard_sum == frame.pm25_standard,
{
}

/// A default state has no slots and no length of an interval, so it cannot be used.
pub proof fn law_default_state_has_no_slots(state: AqiState, count: usize, secs: u64)
    requires
        call_ensures(<AqiState as Default>::default, (), state),
        call_ensures(AqiState::slot_count, (&state,), count),
        call_ensures(AqiState::granularity, (&state,), secs),
    ensures
        count == 0,
        secs == 0,
        !state@.usable(),
{
}

} // verus!
