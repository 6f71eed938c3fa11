use rnet::mplex::{
    accept_protocol, build_frame, close_stream_frame, confirm_protocol, disconnect_notice,
    is_routable, mark_internal, new_stream_request, process_header, route_frame, strip_internal,
    MplexAction, MuxError, MuxedStreamFlag, INTERNAL,
};

const ALL_FLAGS: [MuxedStreamFlag; 7] = [
    MuxedStreamFlag::NewStream,
    MuxedStreamFlag::Message,
    MuxedStreamFlag::CloseStream,
    MuxedStreamFlag::Disconnected,
    MuxedStreamFlag::HandshakeReq,
    MuxedStreamFlag::HandshakeRes,
    MuxedStreamFlag::Liveliness,
];

#[test]
fn test_build_and_parse_frame() {
    let stream_id = 42u32;
    let flag = MuxedStreamFlag::Message;
    let payload = b"HelloWorld!".to_vec();

    let frame = build_frame(stream_id, flag.clone(), &payload);

    let (parsed_stream_id, parsed_flag, _, payload_len) = process_header(&frame).unwrap();

    assert_eq!(parsed_stream_id, stream_id);
    assert_eq!(parsed_flag.tag(), flag.tag(), "flag mismatch");
    assert_eq!(payload_len, payload.len(), "payload_len mismatch");

    let (_, remaining) = unsigned_varint::decode::u32(frame.as_slice()).unwrap();

    let (decoded_payload_len, payload_after_len) =
        unsigned_varint::decode::usize(remaining).unwrap();

    assert_eq!(decoded_payload_len, payload_len);
    let payload_extracted = payload_after_len[..payload_len].to_vec();

    assert_eq!(payload_extracted, payload, "payload mismatch");
}

#[test]
fn frame_bytes_are_header_length_payload() {
    // header 42 << 3 | 2 = 338 = varint [0xd2, 0x02], length 11
    let frame = build_frame(42, MuxedStreamFlag::Message, b"HelloWorld!");
    let mut expected = vec![0xd2, 0x02, 11];
    expected.extend_from_slice(b"HelloWorld!");
    assert_eq!(frame, expected);

    let small = build_frame(1, MuxedStreamFlag::NewStream, b"");
    assert_eq!(small, vec![0x09, 0x00]);
}

#[test]
fn flag_tags_round_trip() {
    for (i, flag) in ALL_FLAGS.iter().enumerate() {
        assert_eq!(flag.tag() as usize, i + 1);
        assert_eq!(MuxedStreamFlag::from_tag(flag.tag()), Some(*flag));
    }
    assert_eq!(MuxedStreamFlag::from_tag(0), None);
    assert_eq!(MuxedStreamFlag::from_tag(8), None);
    assert_eq!(MuxedStreamFlag::from_tag(255), None);
}

#[test]
fn frame_round_trip_for_every_flag() {
    let payload: Vec<u8> = (0..200u32).map(|x| x as u8).collect();
    for flag in ALL_FLAGS {
        for stream_id in [0u32, 1, 15, 16, 300, 0x1fff_ffff] {
            let frame = build_frame(stream_id, flag, &payload);
            let (id, f, header_len, len) = process_header(&frame).unwrap();
            assert_eq!(id, stream_id);
            assert_eq!(f, flag);
            assert_eq!(len, payload.len());
            // the length varint of 200 takes two bytes
            assert_eq!(&frame[header_len + 2..], payload.as_slice());
        }
    }
}

#[test]
fn stream_id_keeps_twenty_nine_bits() {
    let frame = build_frame(0x2000_0005, MuxedStreamFlag::Message, b"x");
    let (id, flag, _, _) = process_header(&frame).unwrap();
    assert_eq!(id, 5);
    assert_eq!(flag, MuxedStreamFlag::Message);
}

#[test]
fn header_errors() {
    assert_eq!(process_header(&vec![]), Err(MuxError::InvalidVarintHeader));
    // a continuation byte with nothing after it
    assert_eq!(process_header(&vec![0x80]), Err(MuxError::InvalidVarintHeader));
    // not minimal
    assert_eq!(process_header(&vec![0x82, 0x00, 0x00]), Err(MuxError::InvalidVarintHeader));
    // header but no length
    assert_eq!(process_header(&vec![0x0a]), Err(MuxError::InvalidLength));
    // flag bits zero
    assert_eq!(process_header(&vec![0x08, 0x00]), Err(MuxError::InvalidMplexFlag));
}

#[test]
fn internal_marker_round_trip() {
    assert_eq!(&INTERNAL, b"internal-payload");
    let frame = build_frame(3, MuxedStreamFlag::Message, b"abc");
    let marked = mark_internal(frame.clone());
    assert_eq!(&marked[..16], b"internal-payload");
    assert_eq!(strip_internal(&marked), Some(frame.clone()));
    assert_eq!(strip_internal(&frame), None);
    assert_eq!(strip_internal(&b"internal".to_vec()), None);
    assert_eq!(strip_internal(&INTERNAL.to_vec()), Some(vec![]));
}

#[test]
fn stream_requests_are_internal_frames() {
    let mut close = INTERNAL.to_vec();
    close.extend_from_slice(&[(7 << 3) | 3, 0]);
    assert_eq!(close_stream_frame(7), close);

    let protocols = vec!["rnet/ping/0.0.1".to_string(), "other".to_string()];
    let mut open = INTERNAL.to_vec();
    open.extend(build_frame(0, MuxedStreamFlag::NewStream, b"rnet/ping/0.0.1"));
    assert_eq!(new_stream_request(&protocols), open);

    let mut gone = INTERNAL.to_vec();
    gone.extend(build_frame(0, MuxedStreamFlag::Disconnected, b"eof"));
    assert_eq!(disconnect_notice(b"eof"), gone);
}

#[test]
fn route_new_stream_request_opens_outbound() {
    let frame = build_frame(0, MuxedStreamFlag::NewStream, b"rnet/ping/0.0.1");
    assert!(is_routable(4, &frame));
    match route_frame(4, &frame) {
        Ok((next, MplexAction::OpenOutbound { stream_id, protocol, announce })) => {
            assert_eq!(next, 5);
            assert_eq!(stream_id, 5);
            assert_eq!(protocol, b"rnet/ping/0.0.1".to_vec());
            assert_eq!(announce, build_frame(5, MuxedStreamFlag::NewStream, b""));
        }
        other => panic!("unexpected {:?}", other),
    }
}

#[test]
fn route_inbound_and_deliveries() {
    let frame = build_frame(9, MuxedStreamFlag::NewStream, b"");
    match route_frame(2, &frame) {
        Ok((9, MplexAction::OpenInbound { stream_id: 9 })) => {}
        other => panic!("unexpected {:?}", other),
    }
    for flag in [MuxedStreamFlag::Message, MuxedStreamFlag::HandshakeReq, MuxedStreamFlag::HandshakeRes] {
        let frame = build_frame(3, flag, b"data");
        match route_frame(2, &frame) {
            Ok((2, MplexAction::Deliver { stream_id: 3, payload })) => assert_eq!(payload, b"data".to_vec()),
            other => panic!("unexpected {:?}", other),
        }
    }
    match route_frame(2, &build_frame(3, MuxedStreamFlag::CloseStream, b"")) {
        Ok((2, MplexAction::Close { stream_id: 3 })) => {}
        other => panic!("unexpected {:?}", other),
    }
    match route_frame(2, &build_frame(0, MuxedStreamFlag::Disconnected, b"bye")) {
        Ok((2, MplexAction::Disconnect)) => {}
        other => panic!("unexpected {:?}", other),
    }
    match route_frame(2, &build_frame(0, MuxedStreamFlag::Liveliness, b"ping")) {
        Ok((2, MplexAction::Liveliness { payload })) => assert_eq!(payload, b"ping".to_vec()),
        other => panic!("unexpected {:?}", other),
    }
}

#[test]
fn route_takes_only_the_announced_payload() {
    let mut frame = build_frame(3, MuxedStreamFlag::Message, b"data");
    frame.extend_from_slice(b"trailing");
    match route_frame(0, &frame) {
        Ok((0, MplexAction::Deliver { stream_id: 3, payload })) => assert_eq!(payload, b"data".to_vec()),
        other => panic!("unexpected {:?}", other),
    }
}

#[test]
fn route_errors_and_unroutable_frames() {
    assert!(is_routable(0, &vec![]));
    assert!(matches!(route_frame(0, &vec![]), Err(MuxError::InvalidVarintHeader)));
    assert!(matches!(route_frame(0, &vec![0x08, 0x00]), Err(MuxError::InvalidMplexFlag)));

    let mut short = build_frame(3, MuxedStreamFlag::Message, b"data");
    short.pop();
    assert!(!is_routable(0, &short));

    let open = build_frame(0, MuxedStreamFlag::NewStream, b"p");
    assert!(!is_routable(u32::MAX, &open));
    assert!(is_routable(u32::MAX - 1, &open));
}

#[test]
fn protocol_handshake() {
    let registered = vec!["rnet/floodsub/0.0.1".to_string(), "rnet/ping/0.0.1".to_string()];
    assert_eq!(
        accept_protocol(&b"rnet/ping/0.0.1".to_vec(), &registered),
        Some("rnet/ping/0.0.1".to_string())
    );
    assert_eq!(accept_protocol(&b"rnet/other/0.0.1".to_vec(), &registered), None);
    assert_eq!(accept_protocol(&b"".to_vec(), &vec![]), None);

    assert_eq!(
        confirm_protocol(b"rnet/ping/0.0.1".to_vec(), &b"rnet/ping/0.0.1".to_vec()),
        Some("rnet/ping/0.0.1".to_string())
    );
    assert_eq!(confirm_protocol(b"rnet/ping/0.0.1".to_vec(), &b"na".to_vec()), None);
}
