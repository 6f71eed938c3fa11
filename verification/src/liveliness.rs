//! The liveliness check on a connection to a peer that listens on udp: every five seconds a
//! probe on stream zero, answered within two seconds; the first probe left unanswered tells
//! the connection its peer is gone. Peers that listen on tcp are not probed.

use vstd::prelude::*;
use crate::mplex::{build_frame, disconnect_notice, frame, internal_marker, MuxedStreamFlag};
use crate::multiaddr::{first_value, Multiaddr};

verus! {

/// Milliseconds between the end of one exchange and the next probe.
pub const PROBE_PERIOD_MILLIS: u64 = 5000;

/// Milliseconds an exchange of probe and answer may take.
pub const ANSWER_LIMIT_MILLIS: u64 = 2000;

/// What the liveliness task learned last.
#[derive(Debug, Clone, Copy, PartialEq, Eq, Structural)]
pub enum LivelinessEvent {
    /// The task starts.
    Start,
    /// The wait between probes is over.
    Tick,
    /// The exchange of probe and answer finished in time.
    Answered,
    /// The exchange did not finish in time.
    TimedOut,
}

/// What the liveliness task does next.
#[derive(Debug)]
pub enum LivelinessAction {
    /// Stop: no check, or the check is over.
    Done,
    /// Wait this long, then report `Tick`.
    Sleep { millis: u64 },
    /// Send the probe, then wait for the answer, within `millis`.
    ProbeThenAwait { frame: Vec<u8>, millis: u64 },
    /// Wait for the peer's probe, then answer it, within `millis`.
    AwaitThenProbe { frame: Vec<u8>, millis: u64 },
    /// Hand the connection this frame (its peer is gone), then stop.
    Notify { frame: Vec<u8> },
}

/// The bytes "liveliness".
pub open spec fn liveliness_text() -> Seq<u8> {
    seq![108u8, 105, 118, 101, 108, 105, 110, 101, 115, 115]
}

/// The bytes "disconnected".
pub open spec fn disconnected_text() -> Seq<u8> {
    seq![100u8, 105, 115, 99, 111, 110, 110, 101, 99, 116, 101, 100]
}

/// The probe: a liveliness frame on stream zero carrying "liveliness".
pub open spec fn probe_frame() -> Seq<u8> {
    frame(0, MuxedStreamFlag::Liveliness, liveliness_text())
}

/// The notice of a peer gone: an internal disconnected frame on stream zero carrying
/// "disconnected".
pub open spec fn gone_notice() -> Seq<u8> {
    internal_marker() + frame(0, MuxedStreamFlag::Disconnected, disconnected_text())
}

/// The next action for an event, on a connection to a peer listening on `remote`.
pub open spec fn liveliness_next(
    remote: Seq<(Seq<char>, Seq<char>)>,
    is_initiator: bool,
    ev: LivelinessEvent,
    action: LivelinessAction,
) -> bool {
    match ev {
        LivelinessEvent::Start => if first_value(remote, "tcp"@) is Some {
            action is Done
        } else {
            action == LivelinessAction::Sleep { millis: PROBE_PERIOD_MILLIS }
        },
        LivelinessEvent::Tick => if is_initiator {
            action matches LivelinessAction::ProbeThenAwait { frame, millis } && frame@
                == probe_frame() && millis == ANSWER_LIMIT_MILLIS
        } else {
            action matches LivelinessAction::AwaitThenProbe { frame, millis } && frame@
                == probe_frame() && millis == ANSWER_LIMIT_MILLIS
        },
        LivelinessEvent::Answered => action == LivelinessAction::Sleep { millis: PROBE_PERIOD_MILLIS },
        LivelinessEvent::TimedOut => action matches LivelinessAction::Notify { frame } && frame@
            == gone_notice(),
    }
}

/// An answered exchange is followed by the probe period's wait, on either side of the
/// connection and whatever the peer's address: the check goes on while the peer answers.
pub proof fn lemma_answered_sleeps(
    remote: Seq<(Seq<char>, Seq<char>)>,
    is_initiator: bool,
    action: LivelinessAction,
)
    requires
        liveliness_next(remote, is_initiator, LivelinessEvent::Answered, action),
    ensures
        action == (LivelinessAction::Sleep { millis: PROBE_PERIOD_MILLIS }),
{
}

/// The check stops only at its start (a peer on tcp is not probed) or after a probe left
/// unanswered, which is reported: while the peer answers, neither side stops, and both sides
/// wait the same period after an answered exchange.
pub proof fn lemma_stops_only_at_start_or_silence(
    remote: Seq<(Seq<char>, Seq<char>)>,
    is_initiator: bool,
    ev: LivelinessEvent,
    action: LivelinessAction,
    other: LivelinessAction,
)
    requires
        liveliness_next(remote, is_initiator, ev, action),
        liveliness_next(remote, !is_initiator, ev, other),
    ensures
        action is Done ==> (ev is Start && (first_value(remote, "tcp"@) is Some)),
        action is Notify ==> (ev is TimedOut),
        ev is Answered ==> (action == other),
{
}

/// Decides the liveliness task's next action.
pub fn liveliness_step(remote: &Multiaddr, is_initiator: bool, ev: LivelinessEvent) -> (r: LivelinessAction)
    ensures
        liveliness_next(remote@, is_initiator, ev, r),
        ev is Answered ==> (r == (LivelinessAction::Sleep { millis: PROBE_PERIOD_MILLIS })),
        r is Done ==> (ev is Start),
        r is Notify ==> (ev is TimedOut),
{
    match ev {
        LivelinessEvent::Start => match remote.value_for_protocol("tcp") {
            Some(_) => LivelinessAction::Done,
            None => LivelinessAction::Sleep { millis: PROBE_PERIOD_MILLIS },
        },
        LivelinessEvent::Tick => {
            let text: Vec<u8> = vec![108u8, 105, 118, 101, 108, 105, 110, 101, 115, 115];
            assert(text@ =~= liveliness_text());
            let probe = build_frame(0, MuxedStreamFlag::Liveliness, text.as_slice());
            if is_initiator {
                LivelinessAction::ProbeThenAwait { frame: probe, millis: ANSWER_LIMIT_MILLIS }
            } else {
                LivelinessAction::AwaitThenProbe { frame: probe, millis: ANSWER_LIMIT_MILLIS }
            }
        },
        LivelinessEvent::Answered => LivelinessAction::Sleep { millis: PROBE_PERIOD_MILLIS },
        LivelinessEvent::TimedOut => {
            let text: Vec<u8> = vec![100u8, 105, 115, 99, 111, 110, 110, 101, 99, 116, 101, 100];
            assert(text@ =~= disconnected_text());
            LivelinessAction::Notify { frame: disconnect_notice(text.as_slice()) }
        },
    }
}

} // verus!
