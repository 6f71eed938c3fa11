use rnet::multiaddr::{with_bound_port, Multiaddr, MultiaddrError, Protocol};

#[test]
fn test_headers() {
    let maddr = Multiaddr::new("ip4/127.0.0.1/tcp/0")
        .unwrap()
        .to_string()
        .into_bytes();

    let string = String::from_utf8(maddr).unwrap();
    println!("{}", string);
}

#[test]
fn parses_components_in_order() {
    let m = Multiaddr::new("/ip4/127.0.0.1/tcp/4001").unwrap();
    assert_eq!(m.protocols.len(), 2);
    assert!(matches!(&m.protocols[0], Protocol::Ip4(v) if v == "127.0.0.1"));
    assert!(matches!(&m.protocols[1], Protocol::Tcp(v) if v == "4001"));
    assert_eq!(m.to_string(), "/ip4/127.0.0.1/tcp/4001");
    // the leading slash and empty segments do not matter
    assert_eq!(Multiaddr::new("ip4/127.0.0.1//tcp/0/").unwrap().to_string(), "/ip4/127.0.0.1/tcp/0");
    assert_eq!(Multiaddr::new("").unwrap().to_string(), "");
}

#[test]
fn refuses_unknown_protocols_and_missing_values() {
    assert!(matches!(Multiaddr::new("/ip4"), Err(MultiaddrError::InvalidMultiaddr)));
    assert!(matches!(Multiaddr::new("/dns/example.com"), Err(MultiaddrError::InvalidMultiaddr)));
    assert!(matches!(Multiaddr::new("/ip4/1.2.3.4/tcp"), Err(MultiaddrError::InvalidMultiaddr)));
}

#[test]
fn text_reads_back() {
    let mut m = Multiaddr::new("/ip6/::1/udp/9000").unwrap();
    m.push_proto(Protocol::P2P("QmPeer".to_string()));
    let text = m.to_string();
    assert_eq!(text, "/ip6/::1/udp/9000/p2p/QmPeer");
    let again = Multiaddr::new(&text).unwrap();
    assert_eq!(again.to_string(), text);
    assert_eq!(again.value_for_protocol("p2p"), Some("QmPeer".to_string()));
}

#[test]
fn values_and_transport() {
    let m = Multiaddr::new("/ip4/10.0.0.1/tcp/1/tcp/2").unwrap();
    assert_eq!(m.value_for_protocol("tcp"), Some("1".to_string()));
    assert_eq!(m.value_for_protocol("ip4"), Some("10.0.0.1".to_string()));
    assert_eq!(m.value_for_protocol("udp"), None);
    assert_eq!(m.transport_name(), "tcp");
    assert_eq!(Multiaddr::new("/ip4/10.0.0.1/udp/1").unwrap().transport_name(), "udp");
}

#[test]
fn bound_port_replaces_the_transport_value() {
    let tcp = Multiaddr::new("ip4/127.0.0.1/tcp/0").unwrap();
    let bound = with_bound_port(&tcp, "127.0.0.1:40123").unwrap();
    assert_eq!(bound.to_string(), "/ip4/127.0.0.1/tcp/40123");
    // the address given is left as it was
    assert_eq!(tcp.to_string(), "/ip4/127.0.0.1/tcp/0");

    let udp = Multiaddr::new("/ip4/0.0.0.0/udp/0").unwrap();
    assert_eq!(with_bound_port(&udp, "0.0.0.0:9000").unwrap().to_string(), "/ip4/0.0.0.0/udp/9000");

    // only the first tcp component changes
    let two = Multiaddr::new("/tcp/1/tcp/2").unwrap();
    assert_eq!(with_bound_port(&two, "h:7").unwrap().to_string(), "/tcp/7/tcp/2");

    // the port is the text between the first colon and the next one
    assert_eq!(with_bound_port(&tcp, "a:b:c").unwrap().to_string(), "/ip4/127.0.0.1/tcp/b");
}

#[test]
fn bound_port_needs_a_colon_and_a_transport() {
    let tcp = Multiaddr::new("ip4/127.0.0.1/tcp/0").unwrap();
    assert!(with_bound_port(&tcp, "127.0.0.1").is_none());
    let bare = Multiaddr::new("/ip4/127.0.0.1").unwrap();
    assert!(with_bound_port(&bare, "127.0.0.1:1").is_none());
}

#[test]
fn replace_value_for_protocol_changes_the_first_match() {
    let mut m = Multiaddr::new("/ip4/1.1.1.1/udp/5/p2p/Qm").unwrap();
    assert!(m.replace_value_for_protocol("p2p", "Other").is_ok());
    assert_eq!(m.to_string(), "/ip4/1.1.1.1/udp/5/p2p/Other");
    assert!(matches!(m.replace_value_for_protocol("tcp", "1"), Err(MultiaddrError::InvalidMultiaddr)));
    assert_eq!(m.to_string(), "/ip4/1.1.1.1/udp/5/p2p/Other");
    assert_eq!(m.copy().to_string(), m.to_string());
}
