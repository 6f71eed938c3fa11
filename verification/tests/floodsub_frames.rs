use rnet::events::{ping_summary, received_message_event, FloodsubMsgType, GlobalEvent};
use rnet::subscription::{
    build_floodsub_api_frame, parse_floodsub_api_frame, process_floodsub_api_frame,
    SubAPIMpscFlag,
};

#[test]
fn sub_flag_tags_round_trip() {
    let flags = [SubAPIMpscFlag::Unsubscribe, SubAPIMpscFlag::DeadPeers, SubAPIMpscFlag::Publish];
    for (i, flag) in flags.iter().enumerate() {
        assert_eq!(flag.tag() as usize, i + 1);
        assert_eq!(SubAPIMpscFlag::from_tag(flag.tag()), Some(*flag));
    }
    assert_eq!(SubAPIMpscFlag::from_tag(0), None);
    assert_eq!(SubAPIMpscFlag::from_tag(4), None);
}

#[test]
fn publish_frame_bytes() {
    let frame = build_floodsub_api_frame(
        SubAPIMpscFlag::Publish,
        None,
        Some(vec!["topic".to_string()]),
        Some(b"hello".to_vec()),
    );
    let mut expected = vec![3u8, 4, 0, 0, 0];
    expected.extend_from_slice(b"none");
    expected.extend_from_slice(&[1, 1, 0, 0, 0, 5, 0, 0, 0]);
    expected.extend_from_slice(b"topic");
    expected.extend_from_slice(&[1, 5, 0, 0, 0]);
    expected.extend_from_slice(b"hello");
    assert_eq!(frame, expected);
}

#[test]
fn unsubscribe_frame_bytes() {
    let frame = build_floodsub_api_frame(SubAPIMpscFlag::Unsubscribe, Some("x".to_string()), None, None);
    assert_eq!(frame, vec![1u8, 1, 0, 0, 0, b'x', 0, 0]);
}

#[test]
fn frames_read_back() {
    let frame = build_floodsub_api_frame(
        SubAPIMpscFlag::Publish,
        None,
        Some(vec!["a".to_string(), "".to_string(), "topic-ü".to_string()]),
        Some(vec![0, 255, 7]),
    );
    let (flag, (s, v, d)) = process_floodsub_api_frame(frame).unwrap();
    assert_eq!(flag, SubAPIMpscFlag::Publish);
    assert_eq!(s, None);
    assert_eq!(v, Some(vec!["a".to_string(), "".to_string(), "topic-ü".to_string()]));
    assert_eq!(d, Some(vec![0, 255, 7]));

    let frame = build_floodsub_api_frame(SubAPIMpscFlag::DeadPeers, Some("peer".to_string()), Some(vec![]), None);
    let (flag, (s, v, d)) = parse_floodsub_api_frame(&frame).unwrap();
    assert_eq!(flag, SubAPIMpscFlag::DeadPeers);
    assert_eq!(s, Some("peer".to_string()));
    assert_eq!(v, Some(vec![]));
    assert_eq!(d, None);
}

#[test]
fn the_string_none_reads_as_missing() {
    let frame = build_floodsub_api_frame(SubAPIMpscFlag::Publish, Some("none".to_string()), None, None);
    let (_, (s, _, _)) = process_floodsub_api_frame(frame).unwrap();
    assert_eq!(s, None);
}

#[test]
fn malformed_frames_are_refused() {
    assert!(parse_floodsub_api_frame(&vec![]).is_none());
    // unknown flag
    assert!(parse_floodsub_api_frame(&vec![9, 0, 0, 0, 0, 0, 0]).is_none());
    // cut short
    let frame = build_floodsub_api_frame(SubAPIMpscFlag::Publish, None, None, Some(b"data".to_vec()));
    assert!(parse_floodsub_api_frame(&frame[..frame.len() - 1].to_vec()).is_none());
    // a string that is not UTF-8
    assert!(parse_floodsub_api_frame(&vec![1, 1, 0, 0, 0, 0xff, 0, 0]).is_none());
    // the shortest frame
    assert!(parse_floodsub_api_frame(&vec![1, 0, 0, 0, 0, 0, 0]).is_some());
}

#[test]
fn received_message_becomes_a_publish_event() {
    match received_message_event("news".to_string(), b"hi".to_vec(), b"QmPeer") {
        GlobalEvent::Floodsub(e) => {
            assert_eq!(e.msg_type, FloodsubMsgType::Publish);
            assert_eq!(e.topic, "news");
            assert_eq!(e.msg, Some(b"hi".to_vec()));
            assert_eq!(e.source, Some("QmPeer".to_string()));
        }
        other => panic!("unexpected {:?}", other),
    }
    match received_message_event("t".to_string(), vec![], &[0x66, 0xff]) {
        GlobalEvent::Floodsub(e) => assert_eq!(e.source, Some("f\u{fffd}".to_string())),
        other => panic!("unexpected {:?}", other),
    }
}

#[test]
fn ping_summary_counts_the_rtts() {
    match ping_summary("peer".to_string(), vec![10, 20, 30]) {
        GlobalEvent::Ping(p) => {
            assert_eq!(p.remote, "peer");
            assert_eq!(p.rtts, vec![10, 20, 30]);
            assert_eq!(p.count, 3);
        }
        other => panic!("unexpected {:?}", other),
    }
}

#[test]
fn every_cut_of_a_frame_is_refused() {
    let frame = build_floodsub_api_frame(
        SubAPIMpscFlag::Publish,
        Some("peer".to_string()),
        Some(vec!["a".to_string(), "bc".to_string()]),
        Some(vec![9, 8, 7]),
    );
    assert!(parse_floodsub_api_frame(&frame).is_some());
    for k in 0..frame.len() {
        assert!(parse_floodsub_api_frame(&frame[..k].to_vec()).is_none(), "cut at {}", k);
    }
    let bare = build_floodsub_api_frame(SubAPIMpscFlag::DeadPeers, None, None, None);
    for k in 0..bare.len() {
        assert!(parse_floodsub_api_frame(&bare[..k].to_vec()).is_none());
    }
}
