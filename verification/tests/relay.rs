use scream::relay::{
    decode_frame, encode_frame, tunnel_receive, Relay, SocketAddr, SocketAddrV4, SocketAddrV6,
};
use scream::time::Duration;

#[test]
fn tunnel_frame_round_trips_address_and_payload() {
    let addr = SocketAddr::v4([239, 255, 255, 250], 1900);
    let framed = encode_frame(addr, b"NOTIFY * HTTP/1.1");
    let (back, payload) = decode_frame(&framed).unwrap();
    assert_eq!(back, addr);
    assert_eq!(payload, b"NOTIFY * HTTP/1.1");
}

#[test]
fn tunnel_keepalive_frame_has_no_payload() {
    let framed = encode_frame(SocketAddr::v4([0, 0, 0, 0], 0), &[]);
    let (_, payload) = decode_frame(&framed).unwrap();
    assert!(payload.is_empty());
}

#[test]
fn decode_frame_rejects_a_short_buffer() {
    assert!(decode_frame(&[1, 2, 3]).is_none());
}

#[test]
fn a_frame_is_big_endian() {
    let addr = SocketAddr::v4([1, 2, 3, 4], 0x0506);
    assert_eq!(addr, SocketAddr::V4(SocketAddrV4 { ip: 0x0102_0304, port: 0x0506 }));
    assert_eq!(encode_frame(addr, &[7]), vec![1, 2, 3, 4, 5, 6, 7]);
}

#[test]
fn an_ipv6_address_is_lost() {
    let addr = SocketAddr::V6(SocketAddrV6 { ip: 1, port: 80, flowinfo: 0, scope_id: 0 });
    assert_eq!(encode_frame(addr, &[9]), vec![0, 0, 0, 0, 0, 0, 9]);
}

#[test]
fn the_server_takes_datagrams_and_no_keepalives() {
    let from = SocketAddr::v4([10, 0, 0, 9], 5000);
    assert_eq!(tunnel_receive(&encode_frame(from, b"hello"), 2048), Some((from, b"hello".to_vec())));
    assert_eq!(tunnel_receive(&encode_frame(from, b"hello"), 3), Some((from, b"hel".to_vec())));
    assert_eq!(tunnel_receive(&encode_frame(from, b""), 2048), None);
    assert_eq!(tunnel_receive(&[1, 2, 3, 4, 5], 2048), None);
}

fn secs(s: u64) -> Duration {
    Duration::from_secs(s)
}

#[test]
fn a_search_is_reflected_and_the_answer_goes_back() {
    let server = SocketAddr::v4([172, 17, 0, 2], 40000);
    let searcher = SocketAddr::v4([192, 168, 1, 50], 50123);
    let mut relay = Relay::new();

    // The keepalive makes the server known and goes nowhere
    let keepalive = encode_frame(SocketAddr::v4([0, 0, 0, 0], 0), &[]);
    assert!(relay.up(&keepalive, server, secs(0)).is_none());

    let search = b"M-SEARCH * HTTP/1.1\r\nMAN: \"ssdp:discover\"\r\nST: ssdp:all\r\nMX: 1\r\n\r\n";
    let (frame, to) = relay.down(search, searcher, secs(1)).unwrap();
    assert_eq!(to, vec![server]);
    let (peer, datagram) = tunnel_receive(&frame, 2048).unwrap();
    assert_eq!(peer, searcher);
    assert_eq!(datagram, search);

    let answer = b"HTTP/1.1 200 OK\r\nST: upnp:rootdevice\r\n\r\n";
    let sent = relay.up(&encode_frame(peer, answer), server, secs(2));
    assert_eq!(sent, Some((searcher, answer.to_vec())));
}

#[test]
fn anything_but_a_search_stays_on_the_lan() {
    let mut relay = Relay::new();
    let from = SocketAddr::v4([1, 1, 1, 1], 1);
    assert!(relay.down(b"NOTIFY * HTTP/1.1\r\n\r\n", from, secs(0)).is_none());
    assert!(relay.down(b"M-SEARC", from, secs(0)).is_none());
    assert!(relay.down(b"M-SEARCH", from, secs(0)).is_some());
}

#[test]
fn clients_are_forgotten_after_two_minutes() {
    let a = SocketAddr::v4([10, 0, 0, 1], 1);
    let b = SocketAddr::v4([10, 0, 0, 2], 2);
    let from = SocketAddr::v4([9, 9, 9, 9], 9);
    let keepalive = encode_frame(SocketAddr::v4([0, 0, 0, 0], 0), &[]);
    let mut relay = Relay::new();
    relay.up(&keepalive, a, secs(0));
    relay.up(&keepalive, b, secs(10));
    relay.up(&keepalive, a, secs(20));
    // Junk makes nobody known
    relay.up(&[1, 2], from, secs(20));
    let (_, to) = relay.down(b"M-SEARCH", from, secs(129)).unwrap();
    assert_eq!(to, vec![a, b]);
    let (_, to) = relay.down(b"M-SEARCH", from, secs(130)).unwrap();
    assert_eq!(to, vec![a]);
    let (_, to) = relay.down(b"M-SEARCH", from, secs(140)).unwrap();
    assert!(to.is_empty());
}
