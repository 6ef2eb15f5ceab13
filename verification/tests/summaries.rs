use pms5003::aqi::{AqiSample, AqiState, FrameStats};
use pms5003::clock::ClockError;
use pms5003::duration::Duration;
use pms5003::frame::Frame;
use pms5003::monitor::{MonitorState, Reply};
use pms5003::pms5003::Error;
use pms5003::stream::stream_goes_on;

fn frame(pm10: u16, pm25: u16) -> Frame {
    Frame {
        pm10_standard: pm10,
        pm25_standard: pm25,
        pm100_standard: 0,
        pm10_env: 0,
        pm25_env: 0,
        pm100_env: 0,
        particles_03um: 0,
        particles_05um: 0,
        particles_10um: 0,
        particles_25um: 0,
        particles_50um: 0,
        particles_100um: 0,
        _unused: 0,
        checksum: 0,
    }
}

fn state(n_slots: u64) -> AqiState {
    AqiState::new(Duration::new(60, 0), Duration::new(60 * n_slots, 0))
}

fn pm10_index(sum: u32, samples: u32) -> Option<u32> {
    aqi::pm10(sum as f64 / samples as f64).ok().map(|q| q.aqi())
}

fn pm25_index(sum: u32, samples: u32) -> Option<u32> {
    aqi::pm2_5(sum as f64 / samples as f64).ok().map(|q| q.aqi())
}

fn recent(s: &AqiState, n: usize, now: u64) -> Vec<AqiSample> {
    s.recent_at(n, now, pm10_index, pm25_index)
}

/// The interval, the start, the number of frames and the sums of each sample.
fn brief(samples: &[AqiSample]) -> Vec<(usize, u64, u32, u32, u32)> {
    samples
        .iter()
        .map(|s| (s.interval, s.start, s.samples, s.pm10_sum, s.pm25_sum))
        .collect()
}

fn unix_now() -> u64 {
    std::time::SystemTime::now()
        .duration_since(std::time::UNIX_EPOCH)
        .unwrap()
        .as_secs()
}

#[test]
fn stats_add_up() {
    let stats = FrameStats::from(&frame(3, 7));
    assert_eq!(
        (stats.samples, stats.pm10_standard_sum, stats.pm25_standard_sum),
        (1, 3, 7)
    );
    let stats = stats.add_frame(&frame(65535, 1));
    assert_eq!(
        (stats.samples, stats.pm10_standard_sum, stats.pm25_standard_sum),
        (2, 65538, 8)
    );
}

#[test]
fn a_new_state_counts_whole_intervals() {
    let s = AqiState::new(Duration::new(60, 0), Duration::new(86_400, 0));
    assert_eq!(s.slot_count(), 1440);
    assert_eq!(s.granularity(), 60);
    let s = AqiState::new(Duration::new(60, 999), Duration::new(179, 999_999_999));
    assert_eq!(s.slot_count(), 2);
    assert_eq!(s.granularity(), 60);
    let s = AqiState::new(Duration::new(60, 0), Duration::new(59, 0));
    assert_eq!(s.slot_count(), 0);
    let s = AqiState::default();
    assert_eq!((s.slot_count(), s.granularity()), (0, 0));
}

#[test]
fn slots_rotate() {
    let s = state(5);
    assert_eq!(s.cur_slot(0), (0, 0));
    assert_eq!(s.cur_slot(59), (0, 0));
    assert_eq!(s.cur_slot(60), (1, 60));
    assert_eq!(s.cur_slot(299), (4, 240));
    assert_eq!(s.cur_slot(300), (0, 300));
    assert_eq!(s.cur_slot(1_700_000_000), (3, 1_699_999_980));
}

#[test]
fn nothing_is_reported_of_an_empty_state() {
    let s = state(5);
    assert!(recent(&s, 6, 1_000_000).is_empty());
    assert!(recent(&s, 0, 1_000_000).is_empty());
}

#[test]
fn a_report_sums_each_interval() {
    let mut s = state(5);
    s.add_frame_at(&frame(1, 10), 600);
    s.add_frame_at(&frame(2, 20), 659);
    s.add_frame_at(&frame(3, 30), 660);
    s.add_frame_at(&frame(4, 40), 780);
    assert_eq!(
        brief(&recent(&s, 5, 781)),
        vec![(0, 780, 1, 4, 40), (2, 660, 1, 3, 30), (3, 600, 2, 3, 30)]
    );
    assert_eq!(brief(&recent(&s, 1, 781)), vec![(0, 780, 1, 4, 40)]);
    // Two intervals later the first slots are still in the window.
    assert_eq!(
        brief(&recent(&s, 5, 840)),
        vec![(1, 780, 1, 4, 40), (3, 660, 1, 3, 30), (4, 600, 2, 3, 30)]
    );
}

#[test]
fn a_slot_starts_anew_with_its_next_interval() {
    let mut s = state(3);
    s.add_frame_at(&frame(1, 1), 0);
    s.add_frame_at(&frame(2, 2), 60);
    s.add_frame_at(&frame(4, 4), 180);
    assert_eq!(
        brief(&recent(&s, 3, 180)),
        vec![(0, 180, 1, 4, 4), (2, 60, 1, 2, 2)]
    );
}

#[test]
fn a_frame_of_a_new_interval_is_not_merged_with_an_old_one() {
    let mut s = state(1);
    s.add_frame_at(&frame(1, 2), 600);
    s.add_frame_at(&frame(3, 4), 660);
    assert_eq!(brief(&recent(&s, 1, 660)), vec![(0, 660, 1, 3, 4)]);
    s.add_frame_at(&frame(5, 6), 719);
    assert_eq!(brief(&recent(&s, 1, 719)), vec![(0, 660, 2, 8, 10)]);
}

#[test]
fn an_interval_a_whole_turn_ago_is_not_current() {
    let mut s = state(2);
    s.add_frame_at(&frame(1, 1), 600);
    assert_eq!(brief(&recent(&s, 2, 660)), vec![(1, 600, 1, 1, 1)]);
    assert!(recent(&s, 2, 720).is_empty());
    assert!(recent(&s, 2, 840).is_empty());
    // Its slot is still its own until a frame of the current interval comes.
    assert_eq!(brief(&recent(&s, 3, 720)), vec![(2, 600, 1, 1, 1)]);
    s.add_frame_at(&frame(2, 2), 720);
    assert_eq!(brief(&recent(&s, 3, 720)), vec![(0, 720, 1, 2, 2)]);
}

#[test]
fn one_interval_more_than_there_are_slots() {
    let mut s = state(2);
    s.add_frame_at(&frame(1, 1), 600);
    assert_eq!(brief(&recent(&s, 3, 600)), vec![(0, 600, 1, 1, 1)]);
}

#[test]
fn a_clock_that_goes_back() {
    let mut s = state(3);
    s.add_frame_at(&frame(1, 1), 660);
    // The frame is of a later interval than any that is asked for.
    assert!(recent(&s, 4, 480).is_empty());
    s.add_frame_at(&frame(2, 2), 600);
    assert_eq!(
        brief(&recent(&s, 2, 660)),
        vec![(0, 660, 1, 1, 1), (1, 600, 1, 2, 2)]
    );
    // An interval that is taken up again starts anew.
    s.add_frame_at(&frame(4, 4), 661);
    assert_eq!(
        brief(&recent(&s, 2, 661)),
        vec![(0, 660, 1, 4, 4), (1, 600, 1, 2, 2)]
    );
}

fn all(samples: &[AqiSample]) -> Vec<(usize, u64, u32, u32, u32, Option<u32>, Option<u32>)> {
    samples
        .iter()
        .map(|s| {
            (
                s.interval, s.start, s.samples, s.pm10_sum, s.pm25_sum, s.pm10_aqi, s.pm25_aqi,
            )
        })
        .collect()
}

#[test]
fn a_shorter_report_is_a_prefix() {
    let mut s = state(5);
    for (pm, now) in [(10, 600), (20, 660), (30, 780), (40, 840)] {
        s.add_frame_at(&frame(pm, pm), now);
    }
    let longest = all(&recent(&s, 5, 899));
    assert_eq!(longest.len(), 4);
    for n in 0..=5 {
        let expected: Vec<_> = longest.iter().filter(|x| x.0 < n).cloned().collect();
        assert_eq!(all(&recent(&s, n, 841)), expected);
        assert_eq!(expected[..], longest[..expected.len()]);
    }
}

#[test]
fn samples_age() {
    let mut s = state(5);
    for (pm, now) in [(10, 600), (20, 660), (30, 780)] {
        s.add_frame_at(&frame(pm, pm), now);
    }
    let before = all(&recent(&s, 4, 790));
    assert_eq!(before.len(), 3);
    let aged: Vec<_> = before
        .iter()
        .map(|x| (x.0 + 1, x.1, x.2, x.3, x.4, x.5, x.6))
        .collect();
    assert_eq!(all(&recent(&s, 5, 850)), aged);
}

#[test]
fn indices_are_of_the_mean() {
    let mut s = state(3);
    s.add_frame_at(&frame(54, 12), 600);
    s.add_frame_at(&frame(56, 58), 601);
    let sample = recent(&s, 1, 601)[0];
    // The means are 55 and 35.
    assert_eq!(sample.pm10_aqi, Some(51));
    assert_eq!(sample.pm25_aqi, aqi::pm2_5(35.0).ok().map(|q| q.aqi()));
    let mut s = state(3);
    s.add_frame_at(&frame(605, 501), 600);
    let sample = recent(&s, 1, 600)[0];
    assert_eq!((sample.pm10_aqi, sample.pm25_aqi), (None, None));
}

#[test]
fn indices_get_their_own_sums() {
    let mut s = state(3);
    s.add_frame_at(&frame(7, 11), 600);
    s.add_frame_at(&frame(7, 11), 600);
    let samples = s.recent_at(1, 600, |sum, n| Some(sum * 10 + n), |sum, n| Some(sum * 100 + n));
    assert_eq!(samples[0].pm10_aqi, Some(142));
    assert_eq!(samples[0].pm25_aqi, Some(2202));
}

#[test]
fn the_counters_fill_up() {
    let mut s = state(3);
    assert!(s.accepts(&frame(65535, 65535)));
    for _ in 0..65537 {
        assert!(s.accepts(&frame(65535, 0)));
        s.add_frame_at(&frame(65535, 0), 600);
    }
    assert_eq!(brief(&recent(&s, 1, 600)), vec![(0, 600, 65537, u32::MAX, 0)]);
    assert!(s.accepts(&frame(0, 65535)));
    assert!(!s.accepts(&frame(1, 0)));
    assert!(!s.accepts_at(&frame(1, 0), 659));
    assert!(s.accepts_at(&frame(0, 1), 659));
    // Other intervals have counters of their own, in this slot or in another.
    assert!(s.accepts_at(&frame(1, 0), 660));
    assert!(s.accepts_at(&frame(1, 0), 780));
    s.add_frame_at(&frame(1, 0), 780);
    assert_eq!(brief(&recent(&s, 1, 780)), vec![(0, 780, 1, 1, 0)]);
}

#[test]
fn an_early_clock_reports_nothing() {
    let mut s = state(3);
    s.add_frame_at(&frame(1, 1), 300);
    let r = s.recent_for(4, Some(10), pm10_index, pm25_index);
    assert!(r.unwrap().is_empty());
    let r = s.recent_for(1, Some(310), pm10_index, pm25_index);
    assert_eq!(brief(&r.unwrap()), vec![(0, 300, 1, 1, 1)]);
}

#[test]
fn a_clock_before_the_epoch_is_an_error() {
    let mut s = state(3);
    assert_eq!(s.add_frame_for(&frame(1, 1), Some(300)), Ok(300));
    assert_eq!(
        s.add_frame_for(&frame(2, 2), None),
        Err(ClockError::BeforeEpoch)
    );
    assert_eq!(brief(&recent(&s, 1, 300)), vec![(0, 300, 1, 1, 1)]);
    let r = s.recent_for(2, None, pm10_index, pm25_index);
    assert_eq!(r.err(), Some(ClockError::BeforeEpoch));
}

#[test]
fn the_system_clock_is_used() {
    let mut s = AqiState::new(Duration::new(3600, 0), Duration::new(3600 * 24, 0));
    let before = unix_now();
    let now = s.add_frame(&frame(5, 6)).unwrap();
    let after = unix_now();
    assert!(before <= now && now <= after);
    let samples = s.recent(2, pm10_index, pm25_index).unwrap();
    assert_eq!(samples.len(), 1);
    assert_eq!(samples[0].start, now - now % 3600);
    assert_eq!((samples[0].pm10_sum, samples[0].pm25_sum), (5, 6));
}

#[test]
fn a_sample_as_text() {
    let mut s = state(3);
    for _ in 0..70 {
        s.add_frame_at(&frame(2, 3), 600);
    }
    s.add_frame_at(&frame(1, 700), 660);
    let samples = recent(&s, 3, 660);
    assert_eq!(
        samples[0].describe("12:01"),
        "12:01 CUR samples=  1 pm10_sum= 1 pm25_sum=700 pm10_aqi= 1 pm25_aqi= 0"
    );
    assert_eq!(
        samples[1].describe("12:00"),
        "12:00     samples= 70 pm10_sum=140 pm25_sum=210 pm10_aqi= 2 pm25_aqi=13"
    );
}

#[test]
fn text_agrees_with_the_standard_formatter() {
    for n in [0u32, 1, 9, 10, 42, 99, 100, 999, 1000, 65536, 1_000_000_007, u32::MAX] {
        let sample = AqiSample {
            interval: n as usize,
            start: 0,
            samples: n,
            pm10_sum: n,
            pm25_sum: n,
            pm10_aqi: Some(n),
            pm25_aqi: None,
        };
        let expected = format!(
            "{} {:3} samples={:3} pm10_sum={:2} pm25_sum={:2} pm10_aqi={:2} pm25_aqi={:2}",
            "07:30",
            if n == 0 { "CUR" } else { "" },
            n,
            n,
            n,
            n,
            0
        );
        assert_eq!(sample.describe("07:30"), expected);
    }
}

#[test]
fn an_error_ends_the_stream() {
    assert!(stream_goes_on(&Ok(frame(1, 1))));
    assert!(!stream_goes_on(&Err(Error::Timeout)));
}

#[test]
fn a_monitor_counts_every_frame() {
    let mut m = MonitorState::new(Duration::new(60, 0), Duration::new(300, 0));
    assert_eq!(m.state().slot_count(), 5);
    m.on_frame_at(Ok(frame(1, 2)), 600);
    m.on_frame_at(Ok(frame(3, 4)), 610);
    assert!(!m.has_failed());
    match m.on_query_for(2, Some(615), pm10_index, pm25_index) {
        Ok(Reply::Samples(samples)) => assert_eq!(brief(&samples), vec![(0, 600, 2, 4, 6)]),
        other => panic!("{:?}", other),
    }
    assert_eq!(m.on_frame_for(Ok(frame(5, 6)), Some(620)), Ok(Some(620)));
    assert_eq!(
        m.on_frame_for(Ok(frame(7, 8)), None),
        Err(ClockError::BeforeEpoch)
    );
    match m.on_query_for(2, Some(620), pm10_index, pm25_index) {
        Ok(Reply::Samples(samples)) => assert_eq!(brief(&samples), vec![(0, 600, 3, 9, 12)]),
        other => panic!("{:?}", other),
    }
    let r = m.on_query_for(2, None, pm10_index, pm25_index);
    assert!(matches!(r, Err(ClockError::BeforeEpoch)));
    assert_eq!(m.on_frame_for(Err(Error::Timeout), None), Ok(None));
    assert!(m.has_failed());
}

#[test]
fn a_failure_answers_the_next_query() {
    let mut m = MonitorState::new(Duration::new(60, 0), Duration::new(300, 0));
    m.on_frame_at(Ok(frame(1, 2)), 600);
    assert!(matches!(m.on_frame(Err(Error::Timeout)), Ok(None)));
    m.on_frame_at(
        Err(Error::Checksum {
            expected: 1,
            decoded: 2,
        }),
        605,
    );
    m.on_frame_at(Ok(frame(3, 4)), 610);
    assert!(m.has_failed());
    // More intervals than there are slots: a failure is told before anything else.
    match m.on_query_for(99, None, pm10_index, pm25_index) {
        Ok(reply) => {
            assert!(matches!(
                reply,
                Reply::Failure(Error::Checksum {
                    expected: 1,
                    decoded: 2
                })
            ));
            assert!(reply.ends(true));
            assert!(reply.ends(false));
        }
        other => panic!("{:?}", other),
    }
    assert!(!m.has_failed());
    match m.on_query_for(1, Some(610), pm10_index, pm25_index) {
        Ok(reply) => {
            assert!(!reply.ends(true));
            assert!(reply.ends(false));
        }
        other => panic!("{:?}", other),
    }
}

#[test]
fn a_monitor_uses_the_system_clock() {
    let mut m = MonitorState::new(Duration::new(3600, 0), Duration::new(3600 * 3, 0));
    let before = unix_now();
    let now = m.on_frame(Ok(frame(8, 9))).unwrap().unwrap();
    assert!(before <= now && now <= unix_now());
    match m.on_query(2, pm10_index, pm25_index) {
        Ok(Reply::Samples(samples)) => {
            assert_eq!(samples.len(), 1);
            assert_eq!(samples[0].start, now - now % 3600);
            assert_eq!(samples[0].pm25_sum, 9);
        }
        other => panic!("{:?}", other),
    }
}
