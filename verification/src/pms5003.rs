//! Finding the sensor's frames in its serial byte stream.

use crate::duration::Duration;
use crate::frame::{
    payload_checksum, Frame, EXPECT_FRAME_SIZE, FULL_FRAME_SIZE, START_OF_FRAME_0,
    START_OF_FRAME_1,
};
use serialport::Error as PortError;
use vstd::prelude::*;

verus! {

/// What std says about a failed read from the port.
#[verifier::external_type_specification]
#[verifier::external_body]
pub struct ExIoError(std::io::Error);

/// What serialport says about a port that it could not query.
#[verifier::external_type_specification]
#[verifier::external_body]
pub struct ExSerialPortError(PortError);

/// Why no frame could be obtained from the sensor.
#[derive(Debug)]
pub enum Error {
    /// The payload of a frame could not be decoded.
    Bincode(bincode::Error),
    /// The port could not be read.
    FuturesIO(std::io::Error),
    /// The port did not say how many bytes it holds.
    SerialPort(PortError),
    /// No frame came in time.
    Timeout,
    /// A frame came whose bytes do not add up to its checksum.
    Checksum { expected: u16, decoded: u16 },
}

/// What a reader expects next in the byte stream.
#[derive(Debug, Clone, Copy, PartialEq, Eq, Structural)]
pub enum ReadState {
    /// The first start-of-frame byte
    SOF1,
    /// The second start-of-frame byte
    SOF2,
    /// The frame's size
    Size,
    /// The frame's payload
    Data,
}

/// What came of the last thing that a reader asked for.
#[derive(Debug)]
pub enum Event {
    /// The time since the reader was made
    Elapsed(Duration),
    /// The number of bytes that the port holds
    BytesReady(u32),
    /// The port did not say how many bytes it holds.
    ReadyFailed(PortError),
    /// The wait for more bytes is over.
    Slept,
    /// The bytes of the reader's segment after reading into it
    Bytes(Vec<u8>),
    /// The port could not be read.
    ReadFailed(std::io::Error),
}

/// What a reader asks for.
#[derive(Debug)]
pub enum Action {
    /// Say how much time has passed.
    CheckClock,
    /// Say how many bytes the port holds.
    CheckReady,
    /// Wait for [`poll_delay`].
    Sleep,
    /// Read into the reader's segment.
    Read,
    /// Nothing more: this is the outcome.
    Finish(Result<Frame, Error>),
}

/// How long to wait for new bytes. The sensor sends a frame about every 860ms; a quarter of that
/// rarely delays a measurement and does not poll too often.
pub fn poll_delay() -> (delay: Duration)
    ensures
        delay@ == 215_000_000,
{
    Duration::new(0, 215_000_000)
}

/// Reads one frame, step by step. It starts by asking for the clock, see [`Action::CheckClock`];
/// each event is answered with what the reader asks for next.
pub struct FrameReader {
    state: ReadState,
    framebuf: [u8; FULL_FRAME_SIZE],
    timeout: Duration,
}

/// The model of a [`FrameReader`].
#[verifier::ext_equal]
pub struct ReaderModel {
    pub state: ReadState,
    pub framebuf: Seq<u8>,
    /// In nanoseconds
    pub timeout: nat,
}

impl View for FrameReader {
    type V = ReaderModel;

    closed spec fn view(&self) -> ReaderModel {
        ReaderModel { state: self.state, framebuf: self.framebuf@, timeout: self.timeout@ }
    }
}

/// Where the part of a frame that a state waits for begins.
pub open spec fn segment_start(state: ReadState) -> nat {
    match state {
        ReadState::SOF1 => 0,
        ReadState::SOF2 => 1,
        ReadState::Size => 2,
        ReadState::Data => 4,
    }
}

/// Where the part of a frame that a state waits for ends.
pub open spec fn segment_end(state: ReadState) -> nat {
    match state {
        ReadState::SOF1 => 1,
        ReadState::SOF2 => 2,
        ReadState::Size => 4,
        ReadState::Data => FULL_FRAME_SIZE as nat,
    }
}

/// The outcome of reading a whole payload: the frame that it spells, unless its checksum is wrong.
pub open spec fn payload_outcome(payload: Seq<u8>) -> Result<Frame, Error> {
    let frame = crate::frame::frame_of(payload);
    let expected = crate::frame::expected_checksum(payload);
    if expected == frame.checksum {
        Ok(frame)
    } else {
        Err(Error::Checksum { expected: expected as u16, decoded: frame.checksum })
    }
}

impl ReaderModel {
    /// A reader that has read nothing.
    pub open spec fn fresh(timeout: nat) -> ReaderModel {
        ReaderModel {
            state: ReadState::SOF1,
            framebuf: Seq::new(FULL_FRAME_SIZE as nat, |i: int| 0u8),
            timeout,
        }
    }

    /// The number of bytes to read next.
    pub open spec fn wanted(self) -> nat {
        (segment_end(self.state) - segment_start(self.state)) as nat
    }

    /// What the next bytes are read into.
    pub open spec fn segment(self) -> Seq<u8> {
        self.framebuf.subrange(segment_start(self.state) as int, segment_end(self.state) as int)
    }

    /// The state after the bytes of a start marker or of a size.
    pub open spec fn next_state(self, bytes: Seq<u8>) -> ReadState {
        match self.state {
            ReadState::SOF1 => if bytes[0] == START_OF_FRAME_0 {
                ReadState::SOF2
            } else {
                ReadState::SOF1
            },
            ReadState::SOF2 => if bytes[0] == START_OF_FRAME_1 {
                ReadState::Size
            } else if bytes[0] == START_OF_FRAME_0 {
                // The byte before was a false start, and this one may be the true one.
                ReadState::SOF2
            } else {
                ReadState::SOF1
            },
            ReadState::Size => if crate::frame::be16(bytes[0], bytes[1]) == EXPECT_FRAME_SIZE {
                ReadState::Data
            } else {
                // Not a size: wait for another start marker.
                ReadState::SOF1
            },
            ReadState::Data => ReadState::Data,
        }
    }

    /// The reader after bytes were read into its segment, and what it asks for then.
    pub open spec fn receive(self, bytes: Seq<u8>) -> (ReaderModel, Action) {
        let start = segment_start(self.state) as int;
        let end = segment_end(self.state) as int;
        let next = ReaderModel {
            state: self.next_state(bytes),
            framebuf: self.framebuf.take(start) + bytes + self.framebuf.skip(end),
            timeout: self.timeout,
        };
        if self.state is Data {
            (next, Action::Finish(payload_outcome(bytes)))
        } else {
            (next, Action::CheckClock)
        }
    }

    /// The reader after an event, and what it asks for then.
    pub open spec fn step(self, event: Event) -> (ReaderModel, Action) {
        match event {
            Event::Elapsed(elapsed) => if elapsed@ > self.timeout {
                (self, Action::Finish(Err(Error::Timeout)))
            } else {
                (self, Action::CheckReady)
            },
            Event::BytesReady(n) => if n < self.wanted() {
                (self, Action::Sleep)
            } else {
                (self, Action::Read)
            },
            Event::ReadyFailed(e) => (self, Action::Finish(Err(Error::SerialPort(e)))),
            Event::Slept => (self, Action::CheckClock),
            Event::Bytes(bytes) => self.receive(bytes@),
            Event::ReadFailed(e) => (self, Action::Finish(Err(Error::FuturesIO(e)))),
        }
    }
}

impl FrameReader {
    /// A reader that gives up once more than `timeout` has passed.
    pub fn new(timeout: Duration) -> (reader: FrameReader)
        ensures
            reader@ == ReaderModel::fresh(timeout@),
    {
        FrameReader { state: ReadState::SOF1, framebuf: [0u8; FULL_FRAME_SIZE], timeout }
    }

    /// Where the current segment begins and ends in the buffer.
    fn bounds(&self) -> (range: (usize, usize))
        ensures
            range.0 == segment_start(self@.state),
            range.1 == segment_end(self@.state),
            range.0 < range.1 <= FULL_FRAME_SIZE,
    {
        match self.state {
            ReadState::SOF1 => (0, 1),
            ReadState::SOF2 => (1, 2),
            ReadState::Size => (2, 4),
            ReadState::Data => (4, FULL_FRAME_SIZE),
        }
    }

    /// The bytes to read into next: what the buffer holds there so far. A read that fills them
    /// only in part leaves the others as they are.
    pub fn segment(&self) -> (bytes: Vec<u8>)
        ensures
            bytes@ == self@.segment(),
            bytes@.len() == self@.wanted(),
    {
        let (start, end) = self.bounds();
        let mut bytes: Vec<u8> = Vec::new();
        let mut i: usize = start;
        while i < end
            invariant
                start <= i <= end <= FULL_FRAME_SIZE,
                bytes@ == self.framebuf@.subrange(start as int, i as int),
            decreases end - i,
        {
            bytes.push(self.framebuf[i]);
            i = i + 1;
            assert(bytes@ =~= self.framebuf@.subrange(start as int, i as int));
        }
        bytes
    }

    /// Takes in the bytes of the current segment.
    fn receive(&mut self, bytes: &Vec<u8>) -> (action: Action)
        requires
            bytes@.len() == old(self)@.wanted(),
        ensures
            (final(self)@, action) == old(self)@.receive(bytes@),
    {
        let (start, end) = self.bounds();
        let mut i: usize = 0;
        while i < end - start
            invariant
                start <= end <= FULL_FRAME_SIZE,
                bytes@.len() == end - start,
                i <= end - start,
                self.state == old(self).state,
                self.timeout == old(self).timeout,
                self.framebuf@ == old(self).framebuf@.take(start as int) + bytes@.take(i as int)
                    + old(self).framebuf@.skip(start + i),
            decreases end - start - i,
        {
            self.framebuf[start + i] = bytes[i];
            i = i + 1;
            assert(self.framebuf@ =~= old(self).framebuf@.take(start as int) + bytes@.take(
                i as int,
            ) + old(self).framebuf@.skip(start + i));
        }
        assert(bytes@.take(i as int) =~= bytes@);
        match self.state {
            ReadState::SOF1 => {
                if bytes[0] == START_OF_FRAME_0 {
                    self.state = ReadState::SOF2;
                }
            },
            ReadState::SOF2 => {
                if bytes[0] == START_OF_FRAME_1 {
                    self.state = ReadState::Size;
                } else if bytes[0] != START_OF_FRAME_0 {
                    self.state = ReadState::SOF1;
                }
            },
            ReadState::Size => {
                if bytes[0] as usize * 256 + bytes[1] as usize == EXPECT_FRAME_SIZE {
                    self.state = ReadState::Data;
                } else {
                    self.state = ReadState::SOF1;
                }
            },
            ReadState::Data => {
                return match Frame::decode(bytes.as_slice()) {
                    Ok(frame) => {
                        let expected = payload_checksum(bytes.as_slice());
                        if expected != frame.checksum {
                            // The sensor may need to be reopened or reset.
                            Action::Finish(
                                Err(Error::Checksum { expected, decoded: frame.checksum }),
                            )
                        } else {
                            Action::Finish(Ok(frame))
                        }
                    },
                    Err(e) => Action::Finish(Err(Error::Bincode(e))),
                };
            },
        }
        Action::CheckClock
    }

    /// Takes in an event and says what to do next.
    pub fn step(&mut self, event: Event) -> (action: Action)
        requires
            event matches Event::Bytes(bytes) ==> bytes@.len() == old(self)@.wanted(),
        ensures
            (final(self)@, action) == old(self)@.step(event),
    {
        match event {
            Event::Elapsed(elapsed) => {
                if elapsed.exceeds(&self.timeout) {
                    Action::Finish(Err(Error::Timeout))
                } else {
                    Action::CheckReady
                }
            },
            Event::BytesReady(n) => {
                let (start, end) = self.bounds();
                if (n as usize) < end - start {
                    Action::Sleep
                } else {
                    Action::Read
                }
            },
            Event::ReadyFailed(e) => Action::Finish(Err(Error::SerialPort(e))),
            Event::Slept => Action::CheckClock,
            Event::Bytes(bytes) => self.receive(&bytes),
            Event::ReadFailed(e) => Action::Finish(Err(Error::FuturesIO(e))),
        }
    }
}

} // verus!
