//! What a frame reader does while its requests are answered one after the other.

use crate::duration::Duration;
use crate::pms5003::{poll_delay, Action, Error, Event, FrameReader, ReadState, ReaderModel};
use crate::scan::{find, law_scan_finds_the_first_frame, right_outcome, scan, Scan};
use vstd::prelude::*;

verus! {

/// Whether an event is an answer to what a reader asked for.
pub open spec fn answers(reader: ReaderModel, action: Action, event: Event) -> bool {
    match action {
        Action::CheckClock => event is Elapsed,
        Action::CheckReady => event is BytesReady || event is ReadyFailed,
        Action::Sleep => event is Slept,
        Action::Read => event is ReadFailed || (event matches Event::Bytes(bytes)
            && bytes@.len() == reader.wanted()),
        Action::Finish(_) => false,
    }
}

/// The reader after some events, and what it asks for then.
pub open spec fn progress(reader: ReaderModel, events: Seq<Event>) -> (ReaderModel, Action)
    decreases events.len(),
{
    if events.len() == 0 {
        (reader, Action::CheckClock)
    } else {
        progress(reader, events.drop_last()).0.step(events.last())
    }
}

/// Whether each of some events answers what the reader asked for before it.
pub open spec fn answered(reader: ReaderModel, events: Seq<Event>) -> bool
    decreases events.len(),
{
    events.len() > 0 ==> {
        let (before, action) = progress(reader, events.drop_last());
        answered(reader, events.drop_last()) && answers(before, action, events.last())
    }
}

/// All the bytes that were read.
pub open spec fn bytes_read(events: Seq<Event>) -> Seq<u8>
    decreases events.len(),
{
    if events.len() == 0 {
        Seq::empty()
    } else {
        let earlier = bytes_read(events.drop_last());
        match events.last() {
            Event::Bytes(bytes) => earlier + bytes@,
            _ => earlier,
        }
    }
}

/// The timeout stays as it was set.
proof fn lemma_timeout_stays(reader: ReaderModel, events: Seq<Event>)
    ensures
        progress(reader, events).0.timeout == reader.timeout,
    decreases events.len(),
{
    if events.len() > 0 {
        lemma_timeout_stays(reader, events.drop_last());
    }
}

/// Bytes are read only when the port holds as many as the reader wants, and only right after the
/// clock has shown that the timeout was not exceeded.
pub proof fn law_reads_in_time(reader: ReaderModel, events: Seq<Event>)
    requires
        answered(reader, events),
        events.len() > 0,
        events.last() is Bytes,
    ensures
        events.len() >= 3,
        events[events.len() - 2] matches Event::BytesReady(n) && n >= progress(
            reader,
            events.drop_last(),
        ).0.wanted(),
        events[events.len() - 3] matches Event::Elapsed(d) && d@ <= reader.timeout,
{
    let before_read = events.drop_last();
    assert(before_read.len() > 0);
    assert(before_read.last() == events[events.len() - 2]);
    assert(before_read.last() is BytesReady);
    let before_ready = before_read.drop_last();
    assert(answered(reader, before_read));
    assert(progress(reader, before_ready).1 is CheckReady);
    assert(before_ready.len() > 0);
    assert(before_ready.last() == events[events.len() - 3]);
    lemma_timeout_stays(reader, before_ready.drop_last());
}

/// Once the clock shows that the timeout is exceeded, the reading ends with that error.
pub proof fn law_timeout_ends_the_reading(reader: ReaderModel, events: Seq<Event>)
    requires
        events.len() > 0,
        events.last() matches Event::Elapsed(d) && d@ > reader.timeout,
    ensures
        progress(reader, events).1 == Action::Finish(Err(Error::Timeout)),
{
    lemma_timeout_stays(reader, events.drop_last());
}

/// However the reading is interrupted by waiting and by looking at the clock, the reader does with
/// the bytes that were read what it does with them in one stream: it has either not finished, or
/// finished with the last of them, or with an error of the port or the clock.
pub proof fn law_run_is_scan(reader: ReaderModel, events: Seq<Event>)
    requires
        answered(reader, events),
    ensures
        ({
            let (later, action) = progress(reader, events);
            let scanned = scan(reader, bytes_read(events));
            if events.len() > 0 && events.last() is Bytes && action is Finish {
                scanned == (Scan::Done {
                    outcome: action->Finish_0,
                    rest: Seq::empty(),
                })
            } else {
                scanned == (Scan::Pending { reader: later, rest: Seq::empty() })
            }
        }),
    decreases events.len(),
{
    if events.len() > 0 {
        let earlier = events.drop_last();
        let (before, action) = progress(reader, earlier);
        law_run_is_scan(reader, earlier);
        if let Event::Bytes(bytes) = events.last() {
            crate::scan::law_scan_in_pieces(reader, bytes_read(earlier), bytes@);
            assert(Seq::<u8>::empty() + bytes@ =~= bytes@);
            let n = before.wanted() as int;
            assert(bytes@.take(n) =~= bytes@);
            assert(bytes@.skip(n) =~= Seq::<u8>::empty());
            reveal_with_fuel(scan, 2);
        }
    }
}

/// How many bytes a reader reads at a time: the marker byte by byte, then the size, then the
/// payload.
pub open spec fn part_len(state: ReadState) -> nat {
    match state {
        ReadState::SOF1 => 1,
        ReadState::SOF2 => 1,
        ReadState::Size => 2,
        ReadState::Data => 28,
    }
}

/// Where in the buffer a reader puts what it reads.
pub open spec fn part_start(state: ReadState) -> int {
    match state {
        ReadState::SOF1 => 0,
        ReadState::SOF2 => 1,
        ReadState::Size => 2,
        ReadState::Data => 4,
    }
}

/// The reading ends with a timeout if and only if the clock shows that it is exceeded; an error of
/// the port, and no other event, ends it with that very error; and bytes end it only with a whole
/// payload.
pub proof fn law_endings_have_their_causes(
    reader: ReaderModel,
    event: Event,
    port: serialport::Error,
    io: std::io::Error,
)
    ensures
        reader.step(event).1 == Action::Finish(Err(Error::Timeout)) <==> (event matches
            Event::Elapsed(d) && d@ > reader.timeout),
        reader.step(event).1 == Action::Finish(Err(Error::SerialPort(port))) <==> event
            == Event::ReadyFailed(port),
        reader.step(event).1 == Action::Finish(Err(Error::FuturesIO(io))) <==> event
            == Event::ReadFailed(io),
        reader.step(event).1 matches Action::Finish(Ok(_)) ==> event is Bytes && reader.state is
            Data,
        reader.step(event).1 is Finish && event is Bytes ==> reader.state is Data,
        reader.state is Data && event is Bytes ==> reader.step(event).1 is Finish,
        reader.step(event).1 is Finish && event is BytesReady ==> false,
        reader.step(event).1 is Finish && event is Slept ==> false,
{
}

/// Only bytes change what a reader has read.
pub proof fn law_only_bytes_are_taken_in(reader: ReaderModel, event: Event)
    requires
        !(event is Bytes),
    ensures
        reader.step(event).0 == reader,
{
}

/// As long as the timeout is not exceeded a reader gets on: it asks how many bytes there are, waits
/// and looks at the clock again while there are too few, and reads its next part as soon as there
/// are enough.
pub proof fn law_a_round_of_requests(reader: ReaderModel, elapsed: Duration, ready: u32)
    requires
        elapsed@ <= reader.timeout,
    ensures
        reader.wanted() == part_len(reader.state),
        progress(reader, seq![Event::Elapsed(elapsed)]) == (reader, Action::CheckReady),
        ready >= part_len(reader.state) ==> progress(
            reader,
            seq![Event::Elapsed(elapsed), Event::BytesReady(ready)],
        ) == (reader, Action::Read),
        ready < part_len(reader.state) ==> progress(
            reader,
            seq![Event::Elapsed(elapsed), Event::BytesReady(ready)],
        ) == (reader, Action::Sleep) && progress(
            reader,
            seq![Event::Elapsed(elapsed), Event::BytesReady(ready), Event::Slept],
        ) == (reader, Action::CheckClock),
{
    let one = seq![Event::Elapsed(elapsed)];
    let two = seq![Event::Elapsed(elapsed), Event::BytesReady(ready)];
    let three = seq![Event::Elapsed(elapsed), Event::BytesReady(ready), Event::Slept];
    assert(one.drop_last() =~= Seq::<Event>::empty());
    assert(two.drop_last() =~= one);
    assert(three.drop_last() =~= two);
    reveal_with_fuel(progress, 4);
}

/// A fresh reader has read nothing: it waits for a start marker, with a buffer of zeros, and its
/// timeout is the one that was set.
pub proof fn law_fresh_reader(timeout: nat)
    ensures
        ReaderModel::fresh(timeout).state is SOF1,
        ReaderModel::fresh(timeout).timeout == timeout,
        ReaderModel::fresh(timeout).framebuf.len() == 32,
        forall|i: int|
            0 <= i < 32 ==> #[trigger] ReaderModel::fresh(timeout).framebuf[i] == 0u8,
{
}

/// The parts of a frame lie one behind the other in the buffer, the marker first; what is read
/// goes where its part lies, and the rest of the buffer stays as it was.
pub proof fn law_parts_lie_in_order(reader: ReaderModel, bytes: Seq<u8>)
    requires
        reader.framebuf.len() == 32,
        bytes.len() == part_len(reader.state),
    ensures
        ({
            let next = reader.receive(bytes).0;
            let at = part_start(reader.state);
            &&& reader.segment() == reader.framebuf.subrange(at, at + bytes.len())
            &&& reader.state is Data ==> next.state is Data
            &&& next.timeout == reader.timeout
            &&& next.framebuf.len() == 32
            &&& forall|i: int|
                0 <= i < 32 ==> #[trigger] next.framebuf[i] == (if at <= i < at + bytes.len() {
                    bytes[i - at]
                } else {
                    reader.framebuf[i]
                })
        }),
{
}

/// A reader asks for the marker's two bytes one at a time, for two bytes of size and for twenty-
/// eight of payload, and gives what the buffer holds there.
pub proof fn law_segment_is_the_next_part(reader: FrameReader, bytes: Vec<u8>)
    requires
        call_ensures(FrameReader::segment, (&reader,), bytes),
    ensures
        bytes@.len() == part_len(reader@.state),
        bytes@ == reader@.framebuf.subrange(
            part_start(reader@.state),
            part_start(reader@.state) + part_len(reader@.state),
        ),
{
}

/// A new reader has the given timeout and has read nothing.
pub proof fn law_new_reader_is_fresh(timeout: Duration, reader: FrameReader)
    requires
        call_ensures(FrameReader::new, (timeout,), reader),
    ensures
        reader@.state is SOF1,
        reader@.timeout == timeout@,
        progress(reader@, Seq::empty()) == (reader@, Action::CheckClock),
{
}

/// A reader waits for a quarter of the 860ms in which the sensor sends a frame.
pub proof fn law_four_waits_for_a_frame(delay: Duration)
    requires
        call_ensures(poll_delay, (), delay),
    ensures
        4 * delay@ == 860_000_000,
{
}

/// A step carries a run on. If it finishes with bytes, these were the last of the first frame in
/// all that was read, and the outcome is right for its payload; if it does not finish, no whole
/// frame was read. It finishes with a timeout if and only if the clock shows that it is exceeded,
/// and with an error of the port if and only if there was one.
pub proof fn law_step_carries_on(
    reader: &mut FrameReader,
    timeout: Duration,
    fresh: FrameReader,
    events: Seq<Event>,
    event: Event,
    action: Action,
)
    requires
        call_ensures(FrameReader::new, (timeout,), fresh),
        old(reader)@ == progress(fresh@, events).0,
        answered(fresh@, events.push(event)),
        call_ensures(FrameReader::step, (reader, event), action),
    ensures
        (final(reader)@, action) == progress(fresh@, events.push(event)),
        match event {
            Event::Elapsed(d) => if d@ > timeout@ {
                action == Action::Finish(Err(Error::Timeout))
            } else {
                action is CheckReady
            },
            Event::BytesReady(n) => if n >= part_len(old(reader)@.state) {
                action is Read
            } else {
                action is Sleep
            },
            Event::ReadyFailed(e) => action == Action::Finish(Err(Error::SerialPort(e))),
            Event::Slept => action is CheckClock,
            Event::ReadFailed(e) => action == Action::Finish(Err(Error::FuturesIO(e))),
            Event::Bytes(_) => match find(bytes_read(events.push(event))) {
                Some((payload, left)) => action matches Action::Finish(outcome) && left.len() == 0
                    && right_outcome(payload, outcome),
                None => action is CheckClock,
            },
        },
{
    let longer = events.push(event);
    assert(longer.drop_last() =~= events);
    lemma_timeout_stays(fresh@, events);
    law_run_is_scan(fresh@, longer);
    law_scan_finds_the_first_frame(fresh@, bytes_read(longer));
}

} // verus!
