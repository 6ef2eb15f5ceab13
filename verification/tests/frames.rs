use pms5003::duration::Duration;
use pms5003::frame::{payload_checksum, Frame};
use pms5003::pms5003::{poll_delay, Action, Error, Event, FrameReader};

const WORDS: [u16; 13] = [
    5, 9, 12, 6, 10, 13, 1200, 340, 77, 8, 3, 1, 0x9700,
];

fn payload(words: [u16; 13]) -> Vec<u8> {
    let mut bytes: Vec<u8> = Vec::new();
    for w in words {
        bytes.push((w >> 8) as u8);
        bytes.push((w & 0xff) as u8);
    }
    let sum: u16 = 0x42 + 0x4d + 28 + bytes.iter().map(|b| *b as u16).sum::<u16>();
    bytes.push((sum >> 8) as u8);
    bytes.push((sum & 0xff) as u8);
    bytes
}

fn wire(words: [u16; 13]) -> Vec<u8> {
    let mut bytes = vec![b'B', b'M', 0, 28];
    bytes.extend(payload(words));
    bytes
}

fn frame(words: [u16; 13], checksum: u16) -> Frame {
    Frame {
        pm10_standard: words[0],
        pm25_standard: words[1],
        pm100_standard: words[2],
        pm10_env: words[3],
        pm25_env: words[4],
        pm100_env: words[5],
        particles_03um: words[6],
        particles_05um: words[7],
        particles_10um: words[8],
        particles_25um: words[9],
        particles_50um: words[10],
        particles_100um: words[11],
        _unused: words[12],
        checksum,
    }
}

/// Runs a reader over a stream: the outcome, if there is one, and how many bytes were taken.
fn read(stream: &[u8]) -> (Option<Result<Frame, Error>>, usize) {
    let mut reader = FrameReader::new(Duration::new(10, 0));
    let mut action = Action::CheckClock;
    let mut at = 0;
    loop {
        let event = match action {
            Action::CheckClock => Event::Elapsed(Duration::new(1, 0)),
            Action::CheckReady => Event::BytesReady((stream.len() - at) as u32),
            Action::Sleep => return (None, at),
            Action::Read => {
                let n = reader.segment().len();
                at += n;
                Event::Bytes(stream[at - n..at].to_vec())
            }
            Action::Finish(outcome) => return (Some(outcome), at),
        };
        action = reader.step(event);
    }
}

#[test]
fn decode_reads_big_endian_words() {
    let bytes: Vec<u8> = (1u8..=28).collect();
    let f = Frame::decode(&bytes).unwrap();
    assert_eq!(f.pm10_standard, 0x0102);
    assert_eq!(f.pm25_standard, 0x0304);
    assert_eq!(f.pm100_standard, 0x0506);
    assert_eq!(f.pm10_env, 0x0708);
    assert_eq!(f.pm25_env, 0x090a);
    assert_eq!(f.pm100_env, 0x0b0c);
    assert_eq!(f.particles_03um, 0x0d0e);
    assert_eq!(f.particles_05um, 0x0f10);
    assert_eq!(f.particles_10um, 0x1112);
    assert_eq!(f.particles_25um, 0x1314);
    assert_eq!(f.particles_50um, 0x1516);
    assert_eq!(f.particles_100um, 0x1718);
    assert_eq!(f._unused, 0x191a);
    assert_eq!(f.checksum, 0x1b1c);
}

#[test]
fn decode_takes_exactly_one_payload() {
    for n in 0usize..64 {
        assert_eq!(Frame::decode(&vec![7u8; n]).is_ok(), n == 28);
    }
    assert!(matches!(
        Frame::decode(&[0u8; 27]).map_err(Error::Bincode),
        Err(Error::Bincode(_))
    ));
}

#[test]
fn checksum_counts_the_header_and_not_itself() {
    assert_eq!(payload_checksum(&[0u8; 28]), 171);
    let mut bytes = vec![0u8; 26];
    bytes.extend([255, 255]);
    assert_eq!(payload_checksum(&bytes), 171);
    assert_eq!(payload_checksum(&[255u8; 28]), 171 + 26 * 255);
    let bytes: Vec<u8> = (1u8..=28).collect();
    assert_eq!(payload_checksum(&bytes), 171 + 26 * 27 / 2);
}

#[test]
fn encoding_and_decoding_are_inverse() {
    let bytes = payload(WORDS);
    let sum = payload_checksum(&bytes);
    assert_eq!(Frame::decode(&bytes).unwrap(), frame(WORDS, sum));
}

#[test]
fn a_lone_frame_is_delivered() {
    let stream = wire(WORDS);
    let sum = payload_checksum(&payload(WORDS));
    let (outcome, taken) = read(&stream);
    assert_eq!(outcome.unwrap().unwrap(), frame(WORDS, sum));
    assert_eq!(taken, 32);
}

#[test]
fn noise_is_skipped() {
    let noise = [0u8, b'M', 28, 255, b'A', b'C', 0];
    let (outcome, taken) = read(&noise);
    assert!(outcome.is_none());
    assert_eq!(taken, noise.len());

    let mut stream = noise.to_vec();
    stream.extend(wire(WORDS));
    stream.extend([1, 2, 3]);
    let (outcome, taken) = read(&stream);
    assert_eq!(outcome.unwrap().unwrap().particles_03um, 1200);
    assert_eq!(taken, noise.len() + 32);
}

#[test]
fn false_starts_are_recognised() {
    for start in [&b"B"[..], b"BB", b"BA", b"BBBBB", b"BMXY", b"BM\x00\x1d", b"BMBM"] {
        let mut stream = start.to_vec();
        stream.extend(wire(WORDS));
        let (outcome, taken) = read(&stream);
        assert_eq!(outcome.unwrap().unwrap().pm25_standard, 9, "{:?}", start);
        assert_eq!(taken, stream.len());
    }
}

#[test]
fn a_marker_read_as_a_size_is_lost() {
    let mut stream = b"BM".to_vec();
    stream.extend(wire(WORDS));
    let (outcome, _) = read(&stream);
    assert!(outcome.is_none());
}

#[test]
fn a_wrong_checksum_is_an_error() {
    let mut stream = wire(WORDS);
    let sum = payload_checksum(&payload(WORDS));
    stream[5] += 1;
    let (outcome, taken) = read(&stream);
    assert_eq!(taken, 32);
    match outcome.unwrap() {
        Err(Error::Checksum { expected, decoded }) => {
            assert_eq!(expected, sum + 1);
            assert_eq!(decoded, sum);
        }
        other => panic!("{:?}", other),
    }
}

#[test]
fn scanning_in_pieces_is_scanning_the_whole() {
    let mut first = b"xyB".to_vec();
    first.extend(wire(WORDS));
    let mut second = WORDS;
    second[1] = 10;
    let mut both = first.clone();
    both.extend(wire(second));
    let (outcome, taken) = read(&both);
    assert_eq!(outcome.unwrap().unwrap().pm25_standard, 9);
    assert_eq!(taken, first.len());
    let (outcome, _) = read(&both[taken..]);
    assert_eq!(outcome.unwrap().unwrap().pm25_standard, 10);
}

#[test]
fn the_timeout_is_exceeded_not_met() {
    let mut reader = FrameReader::new(Duration::new(10, 0));
    assert!(matches!(
        reader.step(Event::Elapsed(Duration::new(10, 0))),
        Action::CheckReady
    ));
    assert!(matches!(
        reader.step(Event::Elapsed(Duration::new(10, 1))),
        Action::Finish(Err(Error::Timeout))
    ));
}

#[test]
fn a_reader_waits_for_its_whole_segment() {
    let mut reader = FrameReader::new(Duration::new(10, 0));
    let mut sizes = Vec::new();
    for bytes in [&b"B"[..], b"M", b"\x00\x1c"] {
        sizes.push(reader.segment().len());
        assert!(matches!(
            reader.step(Event::BytesReady(bytes.len() as u32 - 1)),
            Action::Sleep
        ));
        assert!(matches!(reader.step(Event::Slept), Action::CheckClock));
        assert!(matches!(
            reader.step(Event::BytesReady(bytes.len() as u32)),
            Action::Read
        ));
        assert!(matches!(
            reader.step(Event::Bytes(bytes.to_vec())),
            Action::CheckClock
        ));
    }
    sizes.push(reader.segment().len());
    assert_eq!(sizes, vec![1, 1, 2, 28]);
    assert!(matches!(reader.step(Event::BytesReady(27)), Action::Sleep));
    assert!(matches!(reader.step(Event::BytesReady(28)), Action::Read));
}

#[test]
fn a_segment_holds_what_was_read_before() {
    let mut reader = FrameReader::new(Duration::new(10, 0));
    assert_eq!(reader.segment(), vec![0u8]);
    reader.step(Event::Bytes(vec![b'x']));
    assert_eq!(reader.segment(), vec![b'x']);
    reader.step(Event::Bytes(vec![b'B']));
    assert_eq!(reader.segment(), vec![0u8]);
}

#[test]
fn port_errors_end_the_reading() {
    let mut reader = FrameReader::new(Duration::new(10, 0));
    let gone = serialport::Error::new(serialport::ErrorKind::NoDevice, "gone");
    match reader.step(Event::ReadyFailed(gone)) {
        Action::Finish(Err(Error::SerialPort(e))) => {
            assert_eq!(e.kind(), serialport::ErrorKind::NoDevice)
        }
        other => panic!("{:?}", other),
    }
    let broken = std::io::Error::new(std::io::ErrorKind::BrokenPipe, "broken");
    match reader.step(Event::ReadFailed(broken)) {
        Action::Finish(Err(Error::FuturesIO(e))) => {
            assert_eq!(e.kind(), std::io::ErrorKind::BrokenPipe)
        }
        other => panic!("{:?}", other),
    }
}

#[test]
fn lengths_of_time() {
    let d = Duration::new(3, 999_999_999);
    assert_eq!(d.as_secs(), 3);
    assert_eq!(d.subsec_nanos(), 999_999_999);
    assert!(Duration::new(4, 0).exceeds(&d));
    assert!(!d.exceeds(&Duration::new(4, 0)));
    assert!(d.exceeds(&Duration::new(3, 999_999_998)));
    assert!(!d.exceeds(&d));
    let delay = poll_delay();
    assert_eq!((delay.as_secs(), delay.subsec_nanos()), (0, 215_000_000));
}

#[test]
fn waiting_does_not_change_what_is_read() {
    let stream = wire(WORDS);
    let mut reader = FrameReader::new(Duration::new(10, 0));
    let mut action = Action::CheckClock;
    let mut at = 0;
    let mut ready: usize = 0;
    let mut seconds: u64 = 0;
    let mut waits: usize = 0;
    let outcome = loop {
        let event = match action {
            Action::CheckClock => Event::Elapsed(Duration::new(seconds, 0)),
            Action::CheckReady => Event::BytesReady((ready - at) as u32),
            Action::Sleep => {
                // Five bytes come in each second.
                waits += 1;
                seconds += 1;
                ready = std::cmp::min(ready + 5, stream.len());
                Event::Slept
            }
            Action::Read => {
                let n = reader.segment().len();
                at += n;
                Event::Bytes(stream[at - n..at].to_vec())
            }
            Action::Finish(outcome) => break outcome,
        };
        action = reader.step(event);
    };
    assert_eq!(outcome.unwrap().pm100_env, 13);
    assert_eq!((at, waits), (32, 7));
}
