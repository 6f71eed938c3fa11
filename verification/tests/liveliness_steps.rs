use rnet::liveliness::{liveliness_step, LivelinessAction, LivelinessEvent, ANSWER_LIMIT_MILLIS, PROBE_PERIOD_MILLIS};
use rnet::mplex::{build_frame, disconnect_notice, MuxedStreamFlag};
use rnet::multiaddr::Multiaddr;

#[test]
fn tcp_peers_are_not_probed() {
    let tcp = Multiaddr::new("/ip4/127.0.0.1/tcp/4001").unwrap();
    assert!(matches!(liveliness_step(&tcp, true, LivelinessEvent::Start), LivelinessAction::Done));
}

#[test]
fn udp_peers_are_probed_every_five_seconds() {
    let udp = Multiaddr::new("/ip4/127.0.0.1/udp/4001").unwrap();
    assert_eq!(PROBE_PERIOD_MILLIS, 5000);
    assert_eq!(ANSWER_LIMIT_MILLIS, 2000);
    assert!(matches!(liveliness_step(&udp, true, LivelinessEvent::Start), LivelinessAction::Sleep { millis: 5000 }));
    let probe = build_frame(0, MuxedStreamFlag::Liveliness, b"liveliness");
    match liveliness_step(&udp, true, LivelinessEvent::Tick) {
        LivelinessAction::ProbeThenAwait { frame, millis } => {
            assert_eq!(frame, probe);
            assert_eq!(millis, 2000);
        }
        other => panic!("unexpected {:?}", other),
    }
    match liveliness_step(&udp, false, LivelinessEvent::Tick) {
        LivelinessAction::AwaitThenProbe { frame, millis } => {
            assert_eq!(frame, probe);
            assert_eq!(millis, 2000);
        }
        other => panic!("unexpected {:?}", other),
    }
    assert!(matches!(liveliness_step(&udp, false, LivelinessEvent::Answered), LivelinessAction::Sleep { millis: 5000 }));
}

#[test]
fn a_missed_answer_ends_in_a_disconnect_notice() {
    let udp = Multiaddr::new("/ip4/127.0.0.1/udp/4001").unwrap();
    match liveliness_step(&udp, true, LivelinessEvent::TimedOut) {
        LivelinessAction::Notify { frame } => {
            assert_eq!(frame, disconnect_notice(b"disconnected"));
            assert_eq!(&frame[..16], b"internal-payload");
        }
        other => panic!("unexpected {:?}", other),
    }
}
