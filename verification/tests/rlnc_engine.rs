use rnet::engine::PingRLNC;
use rnet::ping::{ping_payload, PING_LENGTH};
use rnet::rlnc::{EncodedPayload, DEFAULT_CHUNK_SIZE, DEFAULT_ENCODE_SET_LEN};

fn copy(e: &EncodedPayload) -> EncodedPayload {
    EncodedPayload { coeffs: e.coeffs.clone(), payload: e.payload.clone(), id: e.id.clone() }
}

#[test]
fn formulate_makes_a_coded_set() {
    let payload = ping_payload();
    assert_eq!(payload, vec![1u8; PING_LENGTH]);
    let set = PingRLNC::formulate(&payload, "ping-1");
    assert_eq!(set.len(), DEFAULT_ENCODE_SET_LEN as usize);
    for e in &set {
        assert_eq!(e.id, "ping-1");
        assert_eq!(e.coeffs.len(), 7);
        assert_eq!(e.payload.len(), DEFAULT_CHUNK_SIZE as usize);
    }
}

#[test]
fn the_packet_that_completes_an_entry_decodes_the_payload() {
    let payload = ping_payload();
    let packets = EncodedPayload::split(&payload);
    let n = packets.len();
    assert_eq!(n, 7);
    // lower-triangular coefficient rows with ones on the diagonal: nonsingular
    let set: Vec<EncodedPayload> = (0..n)
        .map(|k| {
            let coeffs: Vec<u8> =
                (0..n).map(|j| if j == k { 1 } else if j < k { (k * 7 + j) as u8 } else { 0 }).collect();
            EncodedPayload::encode_with_coefficients(&packets, coeffs, "ping-1".to_string())
        })
        .collect();
    let mut engine = PingRLNC::new();
    // the first six packets are gathered
    for e in set.iter().take(n - 1) {
        assert!(engine.accepts(e));
        assert_eq!(engine.handle_incoming(copy(e)), None);
    }
    // the seventh completes the entry: all seven are decoded
    assert!(engine.accepts(&set[n - 1]));
    let out = engine.handle_incoming(copy(&set[n - 1])).expect("decoded");
    let mut expected = payload.clone();
    expected.extend_from_slice(&[0, 0, 0]);
    assert_eq!(out, expected);
    // later packets of a decoded payload are ignored
    for e in set.iter() {
        assert_eq!(engine.handle_incoming(copy(e)), None);
    }
    // another id starts its own entry
    let other = PingRLNC::formulate(&ping_payload(), "ping-2");
    assert_eq!(engine.handle_incoming(copy(&other[0])), None);
}

#[test]
fn random_coded_sets_decode_the_ping_payload() {
    let payload = ping_payload();
    let mut expected = payload.clone();
    expected.extend_from_slice(&[0, 0, 0]);
    let mut recovered = 0;
    for round in 0..20 {
        let id = format!("ping-{}", round);
        let set = PingRLNC::formulate(&payload, &id);
        let mut engine = PingRLNC::new();
        let mut out = None;
        for e in set.iter().take(7) {
            out = engine.handle_incoming(copy(e));
        }
        let out = out.expect("the seventh packet completes the entry");
        assert_eq!(out.len(), 35);
        if out == expected {
            recovered += 1;
        }
    }
    assert!(recovered > 0);
}

#[test]
fn decoding_the_gathered_packets_matches_reconstruct() {
    let payload = b"abcdefghij";
    let packets = EncodedPayload::split(payload);
    // two packets: the second arrival completes the entry and both are decoded
    let first = EncodedPayload::encode_with_coefficients(&packets, vec![1, 3], "p".to_string());
    let second = EncodedPayload::encode_with_coefficients(&packets, vec![0, 1], "p".to_string());
    let gathered = vec![copy(&first), copy(&second)];
    let mut engine = PingRLNC::new();
    assert_eq!(engine.handle_incoming(first), None);
    let out = engine.handle_incoming(second).unwrap();
    assert_eq!(out, PingRLNC::reconstruct(&gathered));
    assert_eq!(out, payload.to_vec());
}

#[test]
fn packets_without_coefficients_are_taken_only_as_first() {
    let mut engine = PingRLNC::new();
    let empty = EncodedPayload { coeffs: vec![], payload: vec![1, 2], id: "z".to_string() };
    assert!(engine.accepts(&empty));
    assert_eq!(engine.handle_incoming(empty), None);
    let again = EncodedPayload { coeffs: vec![], payload: vec![3, 4], id: "z".to_string() };
    assert!(!engine.accepts(&again));
}
