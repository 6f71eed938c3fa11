use base58::ToBase58;
use rnet::keys::peer_id_from_public_key_der;
use rnet::ping::{decode_ping_count, encode_ping_count, ping_rounds, CONTINUOUS_PINGS};
use rnet::protocol::{InnerProtocolOpt, ProtocolSlots, FLOODSUB, PING};
use rnet::transport::{MuxerTransport, MuxerUpgrader, MPLEX, MULTISELECT_CONNECT};
use sha2::Digest;

#[test]
fn ping_count_round_trip() {
    for count in [0u32, 1, 5, 256, 0x0102_0304, u32::MAX] {
        let bytes = encode_ping_count(count);
        assert_eq!(bytes, count.to_be_bytes().to_vec());
        assert_eq!(decode_ping_count(&bytes), Some(count));
    }
    assert_eq!(encode_ping_count(0x0102_0304), vec![1, 2, 3, 4]);
    assert_eq!(decode_ping_count(&vec![0, 0, 1]), None);
    assert_eq!(decode_ping_count(&vec![0, 0, 1, 0, 9]), Some(256));
}

#[test]
fn ping_runs() {
    assert_eq!(ping_rounds(0), (CONTINUOUS_PINGS, true));
    assert_eq!(CONTINUOUS_PINGS, 10);
    assert_eq!(ping_rounds(3), (3, false));
}

#[test]
fn peer_id_is_base58_of_the_key_digest() {
    let der = b"not really a key, but bytes all the same".to_vec();
    let digest = sha2::Sha256::digest(&der);
    assert_eq!(peer_id_from_public_key_der(&der), digest[..32].to_base58());
    assert_ne!(peer_id_from_public_key_der(&der), der.to_base58());
    assert_eq!(peer_id_from_public_key_der(&der), peer_id_from_public_key_der(&der));
    assert_ne!(peer_id_from_public_key_der(b"a"), peer_id_from_public_key_der(b"b"));
    // the digest of nothing
    assert_eq!(
        peer_id_from_public_key_der(b""),
        hex_digest_base58("e3b0c44298fc1c149afbf4c8996fb92427ae41e4649b934ca495991b7852b855")
    );
}

fn hex_digest_base58(hex: &str) -> String {
    let bytes: Vec<u8> = (0..hex.len() / 2)
        .map(|i| u8::from_str_radix(&hex[2 * i..2 * i + 2], 16).unwrap())
        .collect();
    bytes.to_base58()
}

#[test]
fn muxer_transport_offers_mplex() {
    let t = MuxerTransport::new();
    assert_eq!(t.muxer_opts, vec!["mplex".to_string()]);
    assert!(t.select_transport().is_ok());
    let u = MuxerUpgrader::new();
    assert_eq!(u.transport.muxer_opts, vec!["mplex".to_string()]);
    assert_eq!(MuxerTransport::default().muxer_opts, vec!["mplex".to_string()]);
    assert_eq!(MuxerUpgrader::default().transport.muxer_opts, vec!["mplex".to_string()]);
    assert_eq!(MPLEX, "rnet/mplex/0.0.1");
    assert_eq!(MULTISELECT_CONNECT, "mutilselect/0.0.1");
}

#[test]
fn protocols_start_once() {
    let floodsub = InnerProtocolOpt::Floodsub;
    let ping = InnerProtocolOpt::Ping { enable_rlnc: true };
    assert_eq!(floodsub.protocol_name(), FLOODSUB);
    assert_eq!(ping.protocol_name(), PING);
    assert_eq!(FLOODSUB, "rnet/floodsub/0.0.1");
    assert_eq!(PING, "rnet/ping/0.0.1");
    assert!(floodsub.starts(false, true));
    assert!(!floodsub.starts(true, false));
    assert!(ping.starts(true, false));
    assert!(!ping.starts(false, true));
}

#[test]
fn initiating_a_protocol_twice_starts_it_once() {
    let mut slots = ProtocolSlots::new();
    assert!(slots.initiate(InnerProtocolOpt::Floodsub));
    assert!(!slots.initiate(InnerProtocolOpt::Floodsub));
    assert_eq!(slots, ProtocolSlots { floodsub: true, ping: false });
    assert!(slots.initiate(InnerProtocolOpt::Ping { enable_rlnc: false }));
    assert!(!slots.initiate(InnerProtocolOpt::Ping { enable_rlnc: true }));
    assert_eq!(slots, ProtocolSlots { floodsub: true, ping: true });
}

#[test]
fn negotiation_messages_are_bincode_strings() {
    let msg = rnet::transport::encode_bincode_str("rnet/mplex/0.0.1");
    assert_eq!(msg, bincode::serialize("rnet/mplex/0.0.1").unwrap());
    let mut expected = vec![16u8, 0, 0, 0, 0, 0, 0, 0];
    expected.extend_from_slice(b"rnet/mplex/0.0.1");
    assert_eq!(msg, expected);
    assert!(rnet::transport::selection_accepted(&msg, "rnet/mplex/0.0.1"));
    assert!(!rnet::transport::selection_accepted(&msg, "mutilselect/0.0.1"));
    assert!(!rnet::transport::selection_accepted(&msg[..10], "rnet/mplex/0.0.1"));
    assert!(!rnet::transport::selection_accepted(&[], ""));
    // bytes after the string are ignored, as bincode does
    let mut longer = msg.clone();
    longer.push(7);
    assert!(rnet::transport::selection_accepted(&longer, "rnet/mplex/0.0.1"));
    assert_eq!(
        rnet::transport::decode_bincode_string(&msg),
        bincode::deserialize::<String>(&msg).ok()
    );
    // not UTF-8
    assert!(rnet::transport::decode_bincode_string(&[1, 0, 0, 0, 0, 0, 0, 0, 0xff]).is_none());
}

fn base58_by_division(bytes: &[u8]) -> String {
    let alphabet = b"123456789ABCDEFGHJKLMNPQRSTUVWXYZabcdefghijkmnopqrstuvwxyz";
    let zeros = bytes.iter().take_while(|b| **b == 0).count();
    let mut number: Vec<u8> = bytes.to_vec();
    let mut digits: Vec<char> = Vec::new();
    while number.iter().any(|b| *b != 0) {
        let mut rem: u32 = 0;
        for b in number.iter_mut() {
            let cur = rem * 256 + *b as u32;
            *b = (cur / 58) as u8;
            rem = cur % 58;
        }
        digits.push(alphabet[rem as usize] as char);
    }
    let mut text: String = std::iter::repeat('1').take(zeros).collect();
    text.extend(digits.iter().rev());
    text
}

#[test]
fn peer_id_is_leading_ones_then_base58_digits_of_the_digest() {
    for der in [b"".to_vec(), b"abc".to_vec(), vec![0u8; 7], b"a key of some kind".to_vec()] {
        let digest = sha2::Sha256::digest(&der);
        assert_eq!(peer_id_from_public_key_der(&der), base58_by_division(&digest));
    }
    assert_eq!(base58_by_division(&[0, 0, 57]), "11z");
    assert_eq!([0u8, 0, 57][..].to_base58(), "11z");
}
