//! The stream of frames that a sensor gives.

use crate::frame::Frame;
use crate::pms5003::Error;
use vstd::prelude::*;

verus! {

/// Whether a stream of frames goes on after an outcome.
pub open spec fn goes_on(outcome: Result<Frame, Error>) -> bool {
    outcome is Ok
}

/// Whether more frames are to be read after an outcome was relayed: an error is the final value
/// of a stream of frames.
pub fn stream_goes_on(outcome: &Result<Frame, Error>) -> (more: bool)
    ensures
        more == goes_on(*outcome),
{
    outcome.is_ok()
}

/// The values of a stream of frames, given the outcomes of reading frame after frame.
pub open spec fn relayed(outcomes: Seq<Result<Frame, Error>>) -> Seq<Result<Frame, Error>>
    decreases outcomes.len(),
{
    if outcomes.len() == 0 {
        Seq::empty()
    } else if goes_on(outcomes.first()) {
        seq![outcomes.first()] + relayed(outcomes.drop_first())
    } else {
        seq![outcomes.first()]
    }
}

/// An error is the final value of a stream of frames: every value before the last is a frame, and
/// all the outcomes are relayed unless one is an error.
pub proof fn law_error_is_the_final_value(outcomes: Seq<Result<Frame, Error>>)
    ensures
        relayed(outcomes).len() <= outcomes.len(),
        relayed(outcomes) == outcomes.take(relayed(outcomes).len() as int),
        forall|i: int|
            0 <= i < relayed(outcomes).len() - 1 ==> (#[trigger] relayed(outcomes)[i]) is Ok,
        relayed(outcomes).len() < outcomes.len() ==> relayed(outcomes).len() > 0 && relayed(
            outcomes,
        ).last() is Err,
    decreases outcomes.len(),
{
    if outcomes.len() > 0 && outcomes.first() is Ok {
        let tail = outcomes.drop_first();
        law_error_is_the_final_value(tail);
        let values = relayed(outcomes);
        assert(values =~= seq![outcomes.first()] + relayed(tail));
        assert forall|i: int| 0 <= i < values.len() - 1 implies (#[trigger] values[i]) is Ok by {
            if i > 0 {
                assert(values[i] == relayed(tail)[i - 1]);
            }
        }
        assert(values =~= outcomes.take(values.len() as int)) by {
            assert forall|i: int| 0 <= i < values.len() implies values[i] == outcomes[i] by {
                if i > 0 {
                    assert(relayed(tail)[i - 1] == tail.take(relayed(tail).len() as int)[i - 1]);
                }
            }
        }
        if values.len() < outcomes.len() {
            assert(values.last() == relayed(tail).last());
        }
    }
}

/// More frames are to be read after a frame, and none after an error.
pub proof fn law_frames_go_on(outcome: Result<Frame, Error>, more: bool)
    requires
        call_ensures(stream_goes_on, (&outcome,), more),
    ensures
        outcome is Ok ==> more,
        outcome is Err ==> !more,
{
}

} // verus!
