//! Summaries of the sensor's measurements over fixed intervals of time.

use crate::clock::{is_reading, unix_seconds, ClockError};
use crate::duration::{Duration, NANOS_PER_SEC};
use crate::frame::Frame;
use vstd::arithmetic::div_mod::{
    lemma_div_multiples_vanish, lemma_fundamental_div_mod, lemma_fundamental_div_mod_converse,
    lemma_mod_bound, lemma_mod_decreases,
};
use vstd::arithmetic::mul::{
    lemma_mul_inequality, lemma_mul_is_commutative, lemma_mul_is_distributive_sub_other_way,
};
use vstd::prelude::*;

verus! {

/// The size of a slot in memory. All the slots together take no more than `isize::MAX` bytes.
pub const SLOT_BYTES: usize = 32;

/// What is kept of the frames of one interval.
#[derive(Debug, Clone, Copy)]
pub struct FrameStats {
    /// The number of frames
    pub samples: u32,
    /// The sum of their PM1.0 concentrations in standard units
    pub pm10_standard_sum: u32,
    /// The sum of their PM2.5 concentrations in standard units
    pub pm25_standard_sum: u32,
}

/// The model of [`FrameStats`].
pub struct StatsModel {
    pub samples: nat,
    pub pm10_sum: nat,
    pub pm25_sum: nat,
}

impl View for FrameStats {
    type V = StatsModel;

    open spec fn view(&self) -> StatsModel {
        StatsModel {
            samples: self.samples as nat,
            pm10_sum: self.pm10_standard_sum as nat,
            pm25_sum: self.pm25_standard_sum as nat,
        }
    }
}

impl StatsModel {
    /// The statistics of a single frame.
    pub open spec fn of(frame: Frame) -> StatsModel {
        StatsModel {
            samples: 1,
            pm10_sum: frame.pm10_standard as nat,
            pm25_sum: frame.pm25_standard as nat,
        }
    }

    /// The statistics with one more frame.
    pub open spec fn plus(self, frame: Frame) -> StatsModel {
        StatsModel {
            samples: self.samples + 1,
            pm10_sum: self.pm10_sum + frame.pm10_standard as nat,
            pm25_sum: self.pm25_sum + frame.pm25_standard as nat,
        }
    }

    /// Whether the counters can hold these statistics.
    pub open spec fn fits(self) -> bool {
        self.samples <= u32::MAX && self.pm10_sum <= u32::MAX && self.pm25_sum <= u32::MAX
    }

    /// Whether these can be the statistics of some frames, at least one.
    pub open spec fn plausible(self) -> bool {
        &&& self.samples >= 1
        &&& self.pm10_sum <= self.samples * u16::MAX
        &&& self.pm25_sum <= self.samples * u16::MAX
    }
}

impl From<&Frame> for FrameStats {
    fn from(frame: &Frame) -> (stats: FrameStats) {
        FrameStats {
            samples: 1,
            pm10_standard_sum: frame.pm10_standard as u32,
            pm25_standard_sum: frame.pm25_standard as u32,
        }
    }
}

impl vstd::std_specs::convert::FromSpecImpl<&Frame> for FrameStats {
    open spec fn obeys_from_spec() -> bool {
        true
    }

    open spec fn from_spec(frame: &Frame) -> FrameStats {
        FrameStats {
            samples: 1,
            pm10_standard_sum: frame.pm10_standard as u32,
            pm25_standard_sum: frame.pm25_standard as u32,
        }
    }
}

impl FrameStats {
    /// Whether the counters can take a frame more.
    pub fn accepts(&self, frame: &Frame) -> (room: bool)
        ensures
            room == self@.plus(*frame).fits(),
    {
        self.samples < u32::MAX && self.pm10_standard_sum <= u32::MAX - frame.pm10_standard as u32
            && self.pm25_standard_sum <= u32::MAX - frame.pm25_standard as u32
    }

    /// The statistics with one more frame.
    pub fn add_frame(self, frame: &Frame) -> (stats: FrameStats)
        requires
            self@.plus(*frame).fits(),
        ensures
            stats@ == self@.plus(*frame),
    {
        FrameStats {
            samples: self.samples + 1,
            pm10_standard_sum: self.pm10_standard_sum + frame.pm10_standard as u32,
            pm25_standard_sum: self.pm25_standard_sum + frame.pm25_standard as u32,
        }
    }
}

/// The statistics of one interval, and which interval that is.
#[derive(Debug, Clone, Copy)]
struct Slot {
    /// The number of the interval, counted from the Unix epoch
    period: u64,
    stats: FrameStats,
}

/// A rolling set of statistics. Time is cut into intervals of equal length, counted from the Unix
/// epoch; the intervals take turns in a fixed number of slots. A slot knows the interval that its
/// statistics are of, and starts anew with the first frame of another.
pub struct AqiState {
    slots: Vec<Option<Slot>>,
    last_slot: Option<usize>,
    granularity: u64,
}

/// The model of a slot: the number of an interval and its statistics.
pub struct SlotModel {
    pub period: nat,
    pub stats: StatsModel,
}

/// The model of an [`AqiState`].
#[verifier::ext_equal]
pub struct AqiModel {
    pub slots: Seq<Option<SlotModel>>,
    /// The slot of the last frame
    pub last_slot: Option<nat>,
    /// The length of an interval in seconds
    pub granularity: nat,
}

/// The summary of one interval.
#[derive(Debug, Clone, Copy)]
pub struct AqiSample {
    /// The sample's interval index. 0 indicates that the sample is in the current interval (which
    /// is likely incomplete), 1 is the previous interval, etc. Intervals have the length that the
    /// state was made with.
    pub interval: usize,
    /// When the interval began, in seconds since the Unix epoch
    pub start: u64,
    /// The number of frames
    pub samples: u32,
    /// The sum of their PM1.0 concentrations
    pub pm10_sum: u32,
    /// The sum of their PM2.5 concentrations
    pub pm25_sum: u32,
    /// The air quality index of the mean PM1.0 concentration, where it has one
    pub pm10_aqi: Option<u32>,
    /// The air quality index of the mean PM2.5 concentration, where it has one
    pub pm25_aqi: Option<u32>,
}

impl View for AqiState {
    type V = AqiModel;

    closed spec fn view(&self) -> AqiModel {
        AqiModel {
            slots: Seq::new(
                self.slots@.len(),
                |i: int|
                    match self.slots@[i] {
                        Some(slot) => Some(
                            SlotModel { period: slot.period as nat, stats: slot.stats@ },
                        ),
                        None => None,
                    },
            ),
            last_slot: match self.last_slot {
                Some(i) => Some(i as nat),
                None => None,
            },
            granularity: self.granularity as nat,
        }
    }
}

impl AqiModel {
    /// A state without frames.
    pub open spec fn empty(n_slots: nat, granularity: nat) -> AqiModel {
        AqiModel { slots: Seq::new(n_slots, |i: int| None), last_slot: None, granularity }
    }

    /// What every state keeps: the last frame is in its slot, a slot holds an interval whose turn
    /// it is there and the statistics of some frames, and the intervals that the slots span can
    /// be counted in seconds.
    pub open spec fn wf(self) -> bool {
        &&& self.last_slot matches Some(i) ==> i < self.slots.len() && self.slots[i as int] is Some
        &&& forall|i: int|
            0 <= i < self.slots.len() && (#[trigger] self.slots[i]) is Some
                ==> self.slots[i]->0.period % self.slots.len() == i
                && self.slots[i]->0.stats.plausible() && self.slots[i]->0.stats.fits()
        &&& self.slots.len() * self.granularity <= u64::MAX
        &&& self.slots.len() * SLOT_BYTES <= isize::MAX
    }

    /// Whether there are intervals and a slot to put them in.
    pub open spec fn usable(self) -> bool {
        self.granularity > 0 && self.slots.len() > 0
    }

    /// The number of the interval that a time lies in.
    pub open spec fn period(self, now: nat) -> nat {
        now / self.granularity
    }

    /// The slot of the interval that a time lies in.
    pub open spec fn slot_of(self, now: nat) -> nat {
        self.period(now) % self.slots.len()
    }

    /// The statistics of an interval, if its slot is still its own.
    pub open spec fn held(self, period: nat) -> Option<StatsModel> {
        match self.slots[(period % self.slots.len()) as int] {
            Some(slot) => if slot.period == period {
                Some(slot.stats)
            } else {
                None
            },
            None => None,
        }
    }

    /// The statistics of the interval of a time with one more frame: they start anew unless the
    /// last frame was of the same interval.
    pub open spec fn slot_plus(self, frame: Frame, now: nat) -> StatsModel {
        match self.held(self.period(now)) {
            Some(stats) => if self.last_slot == Some(self.slot_of(now)) {
                stats.plus(frame)
            } else {
                StatsModel::of(frame)
            },
            None => StatsModel::of(frame),
        }
    }

    /// The state with one more frame, received at time `now`.
    pub open spec fn add_frame(self, frame: Frame, now: nat) -> AqiModel {
        AqiModel {
            slots: self.slots.update(
                self.slot_of(now) as int,
                Some(SlotModel { period: self.period(now), stats: self.slot_plus(frame, now) }),
            ),
            last_slot: Some(self.slot_of(now)),
            granularity: self.granularity,
        }
    }

    /// Whether the counters of the last frame's slot can take a frame more.
    pub open spec fn accepts(self, frame: Frame) -> bool {
        self.last_slot matches Some(i) ==> self.slots[i as int]->0.stats.plus(frame).fits()
    }

    /// The statistics of the interval `k` intervals before that of the time `now`.
    pub open spec fn slot_back(self, now: nat, k: nat) -> Option<StatsModel> {
        if k <= self.period(now) {
            self.held((self.period(now) - k) as nat)
        } else {
            None
        }
    }

    /// Which of the last `n` intervals have statistics, the latest first.
    pub open spec fn populated(self, now: nat, n: nat) -> Seq<nat>
        decreases n,
    {
        if n == 0 {
            Seq::empty()
        } else {
            let k = (n - 1) as nat;
            if self.slot_back(now, k) is Some {
                self.populated(now, k).push(k)
            } else {
                self.populated(now, k)
            }
        }
    }

    /// Whether a sample reports, apart from its air quality indices, the interval `k` intervals
    /// before that of the time `now`.
    pub open spec fn describes(self, now: nat, k: nat, sample: AqiSample) -> bool {
        &&& sample.interval == k
        &&& sample.start == (self.period(now) - k) * self.granularity
        &&& self.slot_back(now, k) == Some(
            StatsModel {
                samples: sample.samples as nat,
                pm10_sum: sample.pm10_sum as nat,
                pm25_sum: sample.pm25_sum as nat,
            },
        )
    }

    /// Whether `samples` is what there is to report at time `now` of the last `n` intervals, with
    /// air quality indices that `pm10` and `pm25` gave for the sums and the number of frames.
    pub open spec fn reports<F: Fn(u32, u32) -> Option<u32>, G: Fn(u32, u32) -> Option<u32>>(
        self,
        now: nat,
        n: nat,
        samples: Seq<AqiSample>,
        pm10: F,
        pm25: G,
    ) -> bool {
        let intervals = self.populated(now, n);
        &&& samples.len() == intervals.len()
        &&& forall|i: int|
            #![trigger samples[i]]
            0 <= i < samples.len() ==> {
                &&& self.describes(now, intervals[i], samples[i])
                &&& call_ensures(
                    pm10,
                    (samples[i].pm10_sum, samples[i].samples),
                    samples[i].pm10_aqi,
                )
                &&& call_ensures(
                    pm25,
                    (samples[i].pm25_sum, samples[i].samples),
                    samples[i].pm25_aqi,
                )
            }
    }
}

/// The number of slots of a state with intervals of length `granularity` that is to keep them for
/// `retention`, both in nanoseconds: the whole intervals, counted in whole seconds.
pub open spec fn slots_for(granularity: nat, retention: nat) -> nat {
    (retention / NANOS_PER_SEC as nat) / (granularity / NANOS_PER_SEC as nat)
}

/// Whether a function can be called with the sum of some concentrations, at least one, and their
/// number.
pub open spec fn takes_sums<F: Fn(u32, u32) -> Option<u32>>(f: F) -> bool {
    forall|sum: u32, samples: u32|
        samples >= 1 && sum <= samples * u16::MAX ==> #[trigger] call_requires(f, (sum, samples))
}

impl Default for AqiState {
    fn default() -> (state: AqiState)
        ensures
            state@ == AqiModel::empty(0, 0),
            state@.wf(),
    {
        let state = AqiState { slots: Vec::new(), last_slot: None, granularity: 0 };
        assert(state@.slots =~= AqiModel::empty(0, 0).slots);
        state
    }
}

impl AqiState {
    /// A state without frames, with intervals of length `granularity` and as many slots as
    /// `retention` has whole intervals. Both lengths count in whole seconds.
    pub fn new(granularity: Duration, retention: Duration) -> (state: AqiState)
        requires
            granularity@ >= NANOS_PER_SEC,
            slots_for(granularity@, retention@) * SLOT_BYTES <= isize::MAX,
        ensures
            state@.wf(),
            state@ == AqiModel::empty(
                slots_for(granularity@, retention@),
                granularity@ / NANOS_PER_SEC as nat,
            ),
    {
        let granularity = granularity.as_secs();
        let retention = retention.as_secs();
        let n_slots = (retention / granularity) as usize;
        let state = AqiState { slots: vec![None; n_slots], last_slot: None, granularity };
        proof {
            lemma_fundamental_div_mod(retention as int, granularity as int);
            lemma_mul_is_commutative(granularity as int, n_slots as int);
            assert(state@.slots =~= AqiModel::empty(n_slots as nat, granularity as nat).slots);
        }
        state
    }

    /// The number of slots.
    pub fn slot_count(&self) -> (n: usize)
        ensures
            n == self@.slots.len(),
    {
        self.slots.len()
    }

    /// The length of an interval in seconds.
    pub fn granularity(&self) -> (secs: u64)
        ensures
            secs == self@.granularity,
    {
        self.granularity
    }

    /// The slot and the beginning of the interval that the time `now` lies in.
    pub fn cur_slot(&self, now: u64) -> (slot: (usize, u64))
        requires
            self@.usable(),
        ensures
            slot.0 == self@.slot_of(now as nat),
            slot.0 < self@.slots.len(),
            slot.1 == self@.period(now as nat) * self@.granularity,
    {
        proof {
            let g = self.granularity as int;
            lemma_mod_decreases(now as nat, self.granularity as nat);
            lemma_fundamental_div_mod(now as int, g);
            lemma_mul_is_commutative(g, now as int / g);
            lemma_div_multiples_vanish(now as int / g, g);
        }
        let this_timeslot = now - (now % self.granularity);
        let cur_slot = ((this_timeslot / self.granularity) % self.slots.len() as u64) as usize;
        (cur_slot, this_timeslot)
    }

    /// Whether the counters of the last frame's slot can take a frame more.
    pub fn accepts(&self, frame: &Frame) -> (room: bool)
        requires
            self@.wf(),
        ensures
            room == self@.accepts(*frame),
    {
        match self.last_slot {
            None => true,
            Some(i) => {
                assert(self@.slots[i as int] is Some);
                match self.slots[i] {
                    None => true,
                    Some(slot) => {
                        assert(self@.slots[i as int]->0.stats == slot.stats@);
                        slot.stats.accepts(frame)
                    },
                }
            },
        }
    }

    /// Whether the counters can take a frame that is received at time `now`, in seconds since the
    /// Unix epoch.
    pub fn accepts_at(&self, frame: &Frame, now: u64) -> (room: bool)
        requires
            self@.wf(),
            self@.usable(),
        ensures
            room == self@.slot_plus(*frame, now as nat).fits(),
    {
        let (cur_slot, _) = self.cur_slot(now);
        match self.slots[cur_slot] {
            None => {
                assert(self@.slots[cur_slot as int] is None);
                true
            },
            Some(slot) => {
                assert(self@.slots[cur_slot as int] == Some(
                    SlotModel { period: slot.period as nat, stats: slot.stats@ },
                ));
                if self.last_slot == Some(cur_slot) && slot.period == now / self.granularity {
                    slot.stats.accepts(frame)
                } else {
                    true
                }
            },
        }
    }

    /// Takes in a frame that was received at time `now`, in seconds since the Unix epoch.
    pub fn add_frame_at(&mut self, frame: &Frame, now: u64)
        requires
            old(self)@.wf(),
            old(self)@.usable(),
            old(self)@.slot_plus(*frame, now as nat).fits(),
        ensures
            final(self)@.wf(),
            final(self)@ == old(self)@.add_frame(*frame, now as nat),
    {
        let (cur_slot, _) = self.cur_slot(now);
        let period = now / self.granularity;
        let stats: FrameStats = match self.slots[cur_slot] {
            Some(slot) => {
                assert(self@.slots[cur_slot as int] == Some(
                    SlotModel { period: slot.period as nat, stats: slot.stats@ },
                ));
                if self.last_slot == Some(cur_slot) && slot.period == period {
                    slot.stats.add_frame(frame)
                } else {
                    FrameStats::from(frame)
                }
            },
            None => {
                assert(self@.slots[cur_slot as int] is None);
                FrameStats::from(frame)
            },
        };
        self.slots[cur_slot] = Some(Slot { period, stats });
        self.last_slot = Some(cur_slot);
        assert(self@.slots =~= old(self)@.add_frame(*frame, now as nat).slots);
    }

    /// Takes in a frame that was received at the time that the clock gave, if it gave one, and
    /// gives that time.
    pub fn add_frame_for(&mut self, frame: &Frame, reading: Option<u64>) -> (now: Result<
        u64,
        ClockError,
    >)
        requires
            old(self)@.wf(),
            old(self)@.usable(),
            reading matches Some(t) ==> old(self)@.slot_plus(*frame, t as nat).fits(),
        ensures
            final(self)@.wf(),
            match reading {
                Some(t) => now == Ok::<u64, ClockError>(t) && final(self)@ == old(
                    self,
                )@.add_frame(*frame, t as nat),
                None => now == Err::<u64, ClockError>(ClockError::BeforeEpoch) && final(self)@
                    == old(self)@,
            },
    {
        match reading {
            Some(now) => {
                self.add_frame_at(frame, now);
                Ok(now)
            },
            None => Err(ClockError::BeforeEpoch),
        }
    }

    /// Takes in a frame that was received just now, and gives the time that the clock said, in
    /// seconds since the Unix epoch. If it says a time before that, nothing changes.
    pub fn add_frame(&mut self, frame: &Frame) -> (now: Result<u64, ClockError>)
        requires
            old(self)@.wf(),
            old(self)@.usable(),
            old(self)@.accepts(*frame),
        ensures
            final(self)@.wf(),
            match now {
                Ok(t) => is_reading(Some(t)) && final(self)@ == old(self)@.add_frame(
                    *frame,
                    t as nat,
                ),
                Err(e) => is_reading(None) && e is BeforeEpoch && final(self)@ == old(self)@,
            },
    {
        proof {
            let n = old(self)@.slots.len();
            assert forall|t: u64| #[trigger]
                old(self)@.slot_plus(*frame, t as nat).fits() by {
                lemma_mod_bound(old(self)@.period(t as nat) as int, n as int);
            }
        }
        self.add_frame_for(frame, unix_seconds())
    }

    /// Reports the last `n_samples` intervals at time `now`, in seconds since the Unix epoch: a
    /// sample for each that has statistics, the latest interval first. `pm10` and `pm25` give the
    /// air quality index for a sum of concentrations and their number.
    ///
    /// The interval that is a whole turn of the slots back can be asked for too. It is reported
    /// until a frame of the current interval takes its slot.
    pub fn recent_at<F: Fn(u32, u32) -> Option<u32>, G: Fn(u32, u32) -> Option<u32>>(
        &self,
        n_samples: usize,
        now: u64,
        pm10: F,
        pm25: G,
    ) -> (samples: Vec<AqiSample>)
        requires
            self@.wf(),
            self@.usable(),
            n_samples <= self@.slots.len() + 1,
            takes_sums(pm10),
            takes_sums(pm25),
        ensures
            self@.reports(now as nat, n_samples as nat, samples@, pm10, pm25),
    {
        let mut samples: Vec<AqiSample> = Vec::new();
        let (cur_slot, time) = self.cur_slot(now);
        let period = now / self.granularity;
        let n_slots = self.slots.len();
        let mut interval: usize = 0;
        while interval < n_samples
            invariant
                self@.wf(),
                self@.usable(),
                interval <= n_samples <= n_slots + 1,
                n_slots == self.slots@.len(),
                self.slots@.len() == self@.slots.len(),
                cur_slot < n_slots,
                cur_slot == self@.slot_of(now as nat),
                period == self@.period(now as nat),
                time == period * self.granularity,
                takes_sums(pm10),
                takes_sums(pm25),
                self@.reports(now as nat, interval as nat, samples@, pm10, pm25),
            decreases n_samples - interval,
        {
            let offset = (cur_slot + (n_slots - interval)) % n_slots;
            let ghost held = self@.slot_back(now as nat, interval as nat);
            proof {
                if interval <= period {
                    lemma_slot_back(period as nat, n_slots as nat, interval as nat);
                }
            }
            match self.slots[offset] {
                Some(slot) => {
                    assert(self@.slots[offset as int] == Some(
                        SlotModel { period: slot.period as nat, stats: slot.stats@ },
                    ));
                    // The slot may still be that of an interval before or, where the clock has
                    // gone back, after the one that is asked for.
                    if slot.period <= period && period - slot.period == interval as u64 {
                        let stats = slot.stats;
                        assert(held == Some(stats@));
                        let pm10_aqi = pm10(stats.pm10_standard_sum, stats.samples);
                        let pm25_aqi = pm25(stats.pm25_standard_sum, stats.samples);
                        proof {
                            let g = self.granularity as int;
                            let k = interval as int;
                            let t = period as int;
                            lemma_mul_inequality(k, n_slots as int, g);
                            lemma_mul_inequality(k, t, g);
                            lemma_mul_is_commutative(k, g);
                            lemma_mul_is_distributive_sub_other_way(g, t, k);
                        }
                        let start = time - self.granularity * interval as u64;
                        samples.push(
                            AqiSample {
                                interval,
                                start,
                                samples: stats.samples,
                                pm10_sum: stats.pm10_standard_sum,
                                pm25_sum: stats.pm25_standard_sum,
                                pm10_aqi,
                                pm25_aqi,
                            },
                        );
                    } else {
                        assert(held is None);
                    }
                },
                None => {
                    assert(self@.slots[offset as int] is None);
                    assert(held is None);
                },
            }
            interval = interval + 1;
        }
        samples
    }

    /// Reports the last `n_samples` intervals at the time that the clock gave, if it gave one.
    pub fn recent_for<F: Fn(u32, u32) -> Option<u32>, G: Fn(u32, u32) -> Option<u32>>(
        &self,
        n_samples: usize,
        reading: Option<u64>,
        pm10: F,
        pm25: G,
    ) -> (samples: Result<Vec<AqiSample>, ClockError>)
        requires
            self@.wf(),
            self@.usable(),
            n_samples <= self@.slots.len() + 1,
            takes_sums(pm10),
            takes_sums(pm25),
        ensures
            match reading {
                None => samples == Err::<Vec<AqiSample>, ClockError>(ClockError::BeforeEpoch),
                Some(now) => samples matches Ok(v) && self@.reports(
                    now as nat,
                    n_samples as nat,
                    v@,
                    pm10,
                    pm25,
                ),
            },
    {
        match reading {
            None => Err(ClockError::BeforeEpoch),
            Some(now) => Ok(self.recent_at(n_samples, now, pm10, pm25)),
        }
    }

    /// Reports the last `n_samples` intervals as of now, see [`AqiState::recent_at`].
    pub fn recent<F: Fn(u32, u32) -> Option<u32>, G: Fn(u32, u32) -> Option<u32>>(
        &self,
        n_samples: usize,
        pm10: F,
        pm25: G,
    ) -> (samples: Result<Vec<AqiSample>, ClockError>)
        requires
            self@.wf(),
            self@.usable(),
            n_samples <= self@.slots.len() + 1,
            takes_sums(pm10),
            takes_sums(pm25),
        ensures
            match samples {
                Ok(v) => exists|now: u64| #[trigger]
                    is_reading(Some(now)) && self@.reports(
                        now as nat,
                        n_samples as nat,
                        v@,
                        pm10,
                        pm25,
                    ),
                Err(e) => is_reading(None) && e is BeforeEpoch,
            },
    {
        self.recent_for(n_samples, unix_seconds(), pm10, pm25)
    }
}

/// The slot `k` slots back is that of the interval `k` intervals back.
proof fn lemma_slot_back(period: nat, n: nat, k: nat)
    requires
        n > 0,
        k <= n,
        k <= period,
    ensures
        (period % n + n - k) % n as int == (period - k) % n as int,
{
    let q = period as int / n as int;
    let r = period as int % n as int;
    lemma_fundamental_div_mod(period as int, n as int);
    assert((q - 1) * n == q * n - n) by (nonlinear_arith);
    assert(n * q == q * n) by (nonlinear_arith);
    if r >= k {
        lemma_fundamental_div_mod_converse(period - k, n as int, q, r - k);
        lemma_fundamental_div_mod_converse(r + n - k, n as int, 1, r - k);
    } else {
        lemma_fundamental_div_mod_converse(period - k, n as int, q - 1, r + n - k);
        lemma_fundamental_div_mod_converse(r + n - k, n as int, 0, r + n - k);
    }
}

} // verus!
