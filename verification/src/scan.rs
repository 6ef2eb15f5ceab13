//! What a frame reader finds in a byte stream: it skips what is no frame, takes the first frame
//! that begins while it waits for one, and delivers a frame only with the right checksum.

use crate::frame::{
    bytes_before_checksum, expected_checksum, frame_of, header, intact,
    law_checksum_adds_every_byte, law_decode_of_encode, law_encode_of_decode, law_fields_in_order,
    payload_of, spells, wire, Frame, EXPECT_FRAME_SIZE, START_OF_FRAME_0,
};
use crate::pms5003::{payload_outcome, Action, Error, Event, ReadState, ReaderModel};
use vstd::prelude::*;

verus! {

/// How far a reader gets with a stream of bytes.
#[verifier::ext_equal]
pub enum Scan {
    /// It has not finished, and `rest` is too short for its next segment.
    Pending { reader: ReaderModel, rest: Seq<u8> },
    /// It has finished before `rest`.
    Done { outcome: Result<Frame, Error>, rest: Seq<u8> },
}

/// Lets a reader take its segments off the front of `stream` for as long as it can.
pub open spec fn scan(reader: ReaderModel, stream: Seq<u8>) -> Scan
    decreases stream.len(),
{
    let n = reader.wanted() as int;
    if stream.len() < n {
        Scan::Pending { reader, rest: stream }
    } else {
        let (next, action) = reader.receive(stream.take(n));
        match action {
            Action::Finish(outcome) => Scan::Done { outcome, rest: stream.skip(n) },
            _ => scan(next, stream.skip(n)),
        }
    }
}

/// Whether a reader has no frame in hand: it waits for a start marker and has taken in all that
/// there was.
pub open spec fn waiting(scanned: Scan) -> bool {
    scanned matches Scan::Pending { reader, rest } && rest.len() == 0 && (reader.state is SOF1
        || reader.state is SOF2)
}

/// Scanning two streams one after the other is scanning them joined.
pub proof fn law_scan_in_pieces(reader: ReaderModel, front: Seq<u8>, back: Seq<u8>)
    ensures
        match scan(reader, front) {
            Scan::Done { outcome, rest } => scan(reader, front + back) == (Scan::Done {
                outcome,
                rest: rest + back,
            }),
            Scan::Pending { reader: later, rest } => scan(reader, front + back) == scan(
                later,
                rest + back,
            ),
        },
    decreases front.len(),
{
    let n = reader.wanted() as int;
    if front.len() >= n {
        assert((front + back).take(n) =~= front.take(n));
        assert((front + back).skip(n) =~= front.skip(n) + back);
        let (next, action) = reader.receive(front.take(n));
        if !(action is Finish) {
            law_scan_in_pieces(next, front.skip(n), back);
        }
    }
}

/// Bytes among which no frame can begin are skipped: wherever the first byte of a start marker
/// turns up, the second does not follow it.
pub proof fn law_noise_is_skipped(reader: ReaderModel, noise: Seq<u8>)
    requires
        reader.state is SOF1 || (reader.state is SOF2 && (noise.len() > 0 ==> noise[0] != 0x4d)),
        forall|i: int|
            #![trigger noise[i]]
            0 <= i < noise.len() - 1 ==> !(noise[i] == 0x42 && noise[i + 1] == 0x4d),
    ensures
        waiting(scan(reader, noise)),
    decreases noise.len(),
{
    if noise.len() > 0 {
        let (next, action) = reader.receive(noise.take(1));
        let rest = noise.skip(1);
        assert forall|i: int| #![trigger rest[i]] 0 <= i < rest.len() - 1 implies !(rest[i] == 0x42
            && rest[i + 1] == 0x4d) by {
            assert(rest[i] == noise[i + 1] && rest[i + 1] == noise[i + 2]);
        }
        assert(noise.take(1)[0] == noise[0]);
        if rest.len() > 0 {
            assert(rest[0] == noise[1]);
        }
        law_noise_is_skipped(next, rest);
    }
}

/// While a reader looks for a marker or a size, bytes alone never end the reading, whatever they
/// are: it goes on to look at the clock.
pub proof fn law_bytes_without_a_payload_do_not_end_the_reading(
    reader: ReaderModel,
    bytes: Seq<u8>,
)
    requires
        !(reader.state is Data),
    ensures
        reader.receive(bytes).1 is CheckClock,
{
}

/// What follows the first frame in a stream, read as text: the payload of the first start marker
/// that has the size of a frame behind it, and the rest of the stream. A marker with another size
/// is passed over together with that size.
pub open spec fn find(stream: Seq<u8>) -> Option<(Seq<u8>, Seq<u8>)>
    decreases stream.len(),
{
    if stream.len() < 2 {
        None
    } else if stream[0] == 0x42 && stream[1] == 0x4d {
        if stream.len() < 4 {
            None
        } else if stream[2] == 0 && stream[3] == 28 {
            if stream.len() < 32 {
                None
            } else {
                Some((stream.subrange(4, 32), stream.skip(32)))
            }
        } else {
            find(stream.skip(4))
        }
    } else {
        find(stream.skip(1))
    }
}

/// Whether an outcome is right for a payload: the frame that it spells, if its bytes add up to
/// the checksum that it carries, and else the two sums that differ.
pub open spec fn right_outcome(payload: Seq<u8>, outcome: Result<Frame, Error>) -> bool {
    let carried = payload[26] * 256 + payload[27];
    match outcome {
        Ok(frame) => spells(payload, frame) && carried == bytes_before_checksum(payload),
        Err(Error::Checksum { expected, decoded }) => {
            &&& expected == bytes_before_checksum(payload)
            &&& decoded == carried
            &&& expected != decoded
        },
        Err(_) => false,
    }
}

/// A reader that waits for a frame finds the first one in whatever stream it is given, and gives
/// the right outcome for it; where there is none, it does not finish.
pub proof fn law_scan_finds_the_first_frame(reader: ReaderModel, stream: Seq<u8>)
    requires
        reader.state is SOF1,
    ensures
        match find(stream) {
            Some((payload, left)) => scan(reader, stream) matches Scan::Done { outcome, rest }
                && rest == left && right_outcome(payload, outcome),
            None => scan(reader, stream) is Pending,
        },
{
    assert(seen(reader.state) + stream =~= stream);
    lemma_scan_is_find(reader, stream);
}

proof fn lemma_outcome_is_right(payload: Seq<u8>)
    requires
        payload.len() == 28,
    ensures
        right_outcome(payload, payload_outcome(payload)),
{
    law_fields_in_order(payload);
    law_checksum_adds_every_byte(payload);
}

#[verifier::rlimit(50)]
#[verifier::spinoff_prover]
proof fn lemma_scan_is_find(reader: ReaderModel, stream: Seq<u8>)
    ensures
        match find(seen(reader.state) + stream) {
            Some((payload, left)) => scan(reader, stream) matches Scan::Done { outcome, rest }
                && rest == left && right_outcome(payload, outcome),
            None => scan(reader, stream) is Pending,
        },
    decreases stream.len(),
{
    let n = reader.wanted() as int;
    let whole = seen(reader.state) + stream;
    if stream.len() >= n {
        let bytes = stream.take(n);
        let rest = stream.skip(n);
        let (next, action) = reader.receive(bytes);
        match reader.state {
            ReadState::SOF1 => {
                lemma_scan_is_find(next, rest);
                if stream[0] == 0x42 {
                    assert(seen(next.state) + rest =~= whole);
                } else {
                    assert(whole.skip(1) =~= seen(next.state) + rest);
                }
            },
            ReadState::SOF2 => {
                lemma_scan_is_find(next, rest);
                if stream[0] == 0x4d {
                    assert(seen(next.state) + rest =~= whole);
                } else if stream[0] == 0x42 {
                    assert(whole.skip(1) =~= seen(next.state) + rest);
                } else {
                    assert(whole.skip(1) =~= stream);
                    assert(stream.skip(1) =~= seen(next.state) + rest);
                    assert(find(whole) == find(stream));
                    assert(stream.len() >= 2 ==> find(stream) == find(stream.skip(1)));
                }
            },
            ReadState::Size => {
                lemma_scan_is_find(next, rest);
                assert(whole[2] == stream[0] && whole[3] == stream[1]);
                if stream[0] == 0 && stream[1] == 28 {
                    assert(seen(next.state) + rest =~= whole);
                } else {
                    assert(whole.skip(4) =~= seen(next.state) + rest);
                }
            },
            ReadState::Data => {
                assert(whole.subrange(4, 32) =~= bytes);
                assert(whole.skip(32) =~= rest);
                lemma_outcome_is_right(bytes);
            },
        }
    }
}

/// Whatever a reader has skipped, the next frame that begins while it waits for a start marker is
/// the one it delivers, as the sensor sent it; if its checksum is wrong, the error names both
/// sums. What follows the frame is left in the stream.
pub proof fn law_next_frame_is_delivered(
    reader: ReaderModel,
    skipped: Seq<u8>,
    frame: Frame,
    rest: Seq<u8>,
)
    requires
        waiting(scan(reader, skipped)),
    ensures
        scan(reader, skipped + wire(frame) + rest) == (Scan::Done {
            outcome: if intact(frame) {
                Ok(frame)
            } else {
                Err(
                    Error::Checksum {
                        expected: expected_checksum(payload_of(frame)) as u16,
                        decoded: frame.checksum,
                    },
                )
            },
            rest,
        }),
{
    let payload = payload_of(frame);
    let stream = wire(frame) + rest;
    law_scan_in_pieces(reader, skipped, stream);
    assert(skipped + wire(frame) + rest =~= skipped + stream);
    law_decode_of_encode(frame);
    let at_b = scan(reader, skipped)->reader;
    assert(scan(reader, skipped)->Pending_rest + stream =~= stream);
    assert(stream.take(1)[0] == START_OF_FRAME_0);
    let (at_m, _) = at_b.receive(stream.take(1));
    let stream = stream.skip(1);
    assert(stream.take(1)[0] == header()[1]);
    let (at_size, _) = at_m.receive(stream.take(1));
    let stream = stream.skip(1);
    assert(stream.take(2)[0] == 0 && stream.take(2)[1] == EXPECT_FRAME_SIZE);
    let (at_data, _) = at_size.receive(stream.take(2));
    let stream = stream.skip(2);
    assert(stream.take(EXPECT_FRAME_SIZE as int) =~= payload);
    assert(stream.skip(EXPECT_FRAME_SIZE as int) =~= rest);
    reveal_with_fuel(scan, 5);
}

/// A frame comes out of a step only with the checksum that its other words call for.
pub proof fn law_delivered_frame_is_intact(reader: ReaderModel, event: Event)
    requires
        event matches Event::Bytes(bytes) ==> bytes@.len() == reader.wanted(),
    ensures
        reader.step(event).1 matches Action::Finish(Ok(frame)) ==> intact(frame),
{
    if let Event::Bytes(bytes) = event {
        if reader.state is Data {
            law_encode_of_decode(bytes@);
        }
    }
}

/// A frame is delivered only where all of its bytes, marker, size and payload, stood together in
/// the stream.
pub proof fn law_delivered_frame_was_sent(reader: ReaderModel, stream: Seq<u8>)
    requires
        reader.state is SOF1,
        scan(reader, stream) matches Scan::Done { outcome: Ok(frame), rest },
    ensures
        scan(reader, stream) matches Scan::Done { outcome: Ok(frame), rest } && intact(frame)
            && exists|before: Seq<u8>| stream == #[trigger] (before + wire(frame)) + rest,
{
    assert(Seq::<u8>::empty().skip(0) =~= seen(reader.state));
    lemma_sent(reader, Seq::empty(), stream);
    assert(Seq::<u8>::empty() + stream =~= stream);
}

/// The bytes just before the point that a reader has reached: as much of a frame as it has seen.
spec fn seen(state: ReadState) -> Seq<u8> {
    match state {
        ReadState::SOF1 => Seq::empty(),
        ReadState::SOF2 => header().take(1),
        ReadState::Size => header().take(2),
        ReadState::Data => header(),
    }
}

#[verifier::spinoff_prover]
proof fn lemma_sent(reader: ReaderModel, before: Seq<u8>, stream: Seq<u8>)
    requires
        scan(reader, stream) matches Scan::Done { outcome: Ok(frame), rest },
        before.len() >= seen(reader.state).len(),
        before.skip(before.len() - seen(reader.state).len()) == seen(reader.state),
    ensures
        scan(reader, stream) matches Scan::Done { outcome: Ok(frame), rest } && intact(frame)
            && exists|b: Seq<u8>| before + stream == #[trigger] (b + wire(frame)) + rest,
    decreases stream.len(),
{
    let n = reader.wanted() as int;
    let bytes = stream.take(n);
    let (next, action) = reader.receive(bytes);
    assert(stream.len() >= n);
    if reader.state is Data {
        let frame = frame_of(bytes);
        law_encode_of_decode(bytes);
        let b = before.take(before.len() - 4);
        assert(before =~= b + header());
        assert(before + stream =~= (b + wire(frame)) + stream.skip(n));
        assert(scan(reader, stream) == (Scan::Done { outcome: Ok(frame), rest: stream.skip(n) }));
    } else {
        let after = before + bytes;
        let k = seen(next.state).len() as int;
        let m = seen(reader.state).len() as int;
        assert forall|i: int| 0 <= i < k implies after.skip(after.len() - k)[i] == seen(
            next.state,
        )[i] by {
            if k > bytes.len() && i < m {
                assert(before.skip(before.len() - m)[i] == before[before.len() - m + i]);
                assert(after[after.len() - k + i] == before[before.len() - m + i]);
            }
            if next.state is Data {
                assert(bytes[0] == 0 && bytes[1] == EXPECT_FRAME_SIZE);
            }
        }
        assert(after.skip(after.len() - k) =~= seen(next.state));
        lemma_sent(next, after, stream.skip(n));
        assert(after + stream.skip(n) =~= before + stream);
    }
}

} // verus!
