use std::time::Duration;

use websocket::error::ProtocolError;
use websocket::frame::{encode, mask_key, TooLong};
use websocket::handshake::client_key;
use websocket::session::{Accepted, Arrived, Dialing, Received};
use websocket::target::{loopback_target, split_target};
use websocket::WebSocketTransport;

/// What the servers in these tests take.
const LIMIT: usize = 1 << 20;

/// The lines of a head, up to the blank one.
fn head_of(wire: &[u8]) -> Vec<String> {
    let text = String::from_utf8(wire.to_vec()).expect("text");
    let head = text.strip_suffix("\r\n\r\n").expect("a blank line");
    head.split("\r\n").map(|line| line.to_string()).collect()
}

/// A header field of a head.
fn field<'a>(head: &'a [String], name: &str) -> Option<&'a str> {
    head.iter().find_map(|line| {
        let (found, value) = line.split_once(": ")?;
        (found == name).then_some(value)
    })
}

/// Feed a frame to a server, piece by piece.
fn receive(accepted: Accepted, head: &[String], wire: &[u8]) -> Result<Arrived, ProtocolError> {
    let mut session = accepted.answer(head, field(head, "Sec-WebSocket-Key"))?.sent();
    let mut at = 0;
    loop {
        let n = session.reader.need();
        let piece = &wire[at..at + n];
        at += n;
        match session.received(piece)? {
            Received::More(next) => session = next,
            Received::Message(arrived) => return Ok(arrived),
        }
    }
}

/// Send `payload` from one end of a loopback to the other.
fn round(payload: &[u8]) -> Result<Arrived, ProtocolError> {
    let target = loopback_target("127.0.0.1:8080");
    let dialing = Dialing::new(&target, payload.to_vec())?;
    assert_eq!(dialing.authority, "127.0.0.1:8080");
    let host = dialing.authority.clone();
    let requesting = dialing.request(&host, client_key());
    let asked = head_of(&requesting.request);
    assert_eq!(field(&asked, "Host"), Some("127.0.0.1:8080"));

    let peer = || Accepted::new("127.0.0.1:49152".to_string(), LIMIT);
    let answering = peer().answer(&asked, field(&asked, "Sec-WebSocket-Key"))?;
    let answered = head_of(&answering.response);

    let accept = field(&answered, "Sec-WebSocket-Accept");
    let frame = requesting.frame(&answered, accept, mask_key())?;
    receive(peer(), &asked, &frame)
}

/// The shapes a transport is most likely to change: nothing, one byte,
/// every byte value, a run of NULs, high bytes, and line endings alone.
fn edge_payloads() -> Vec<(&'static str, Vec<u8>)> {
    vec![
        ("empty", Vec::new()),
        ("one byte", vec![0x2a]),
        ("every byte", (0..=255).collect()),
        ("nul run", vec![0; 512]),
        ("high bytes", vec![0xff; 512]),
        ("crlf storm", b"\r\n".repeat(400)),
    ]
}

#[test]
fn websocket_round_trip_carries_the_body_and_the_path() {
    let arrived = round(b"<order/>").expect("round");

    assert_eq!(arrived.bytes, b"<order/>");
    assert!(arrived.origin_uri.starts_with("ws://127.0.0.1:"));
    assert!(arrived.origin_uri.ends_with("/pingpong"));
}

#[test]
fn websocket_carries_binary_unharmed() {
    let arrived = round(&[0x00, 0x01, 0x02, 0xfd, 0xfe, 0xff]).expect("round");

    assert_eq!(arrived.bytes, [0x00, 0x01, 0x02, 0xfd, 0xfe, 0xff]);
}

#[test]
fn the_loopback_returns_the_edge_payloads_whole() {
    for (name, bytes) in edge_payloads() {
        assert_eq!(round(&bytes).expect(name).bytes, bytes, "{name}");
    }
}

#[test]
fn a_target_without_ws_scheme_is_refused() {
    assert!(split_target("http://host/x").is_err());
}

#[test]
fn a_refused_target_is_named() {
    for target in ["http://host/x", "", "ws:/", "ws:/x", "WS://host", "wss://host/"] {
        let refused = split_target(target).expect_err("refused");
        assert_eq!(refused, ProtocolError::NotAWsTarget(target.to_string()));
        assert_eq!(refused.message(), format!("not a ws:// target: {target}"));
        assert!(Dialing::new(target, Vec::new()).is_err());
    }
}

#[test]
fn a_target_is_split_at_its_first_slash() {
    assert_eq!(split_target("ws://host:81/a/b"), Ok(("host:81", "/a/b")));
    assert_eq!(split_target("ws://host/"), Ok(("host", "/")));
    assert_eq!(split_target("ws://host"), Ok(("host", "/")));
    assert_eq!(split_target("ws://"), Ok(("", "/")));
    assert_eq!(split_target("ws:///x"), Ok(("", "/x")));
    assert_eq!(split_target("ws://värd/å"), Ok(("värd", "/å")));
    assert_eq!(split_target(&loopback_target("[::1]:9")), Ok(("[::1]:9", "/pingpong")));
}

#[test]
fn a_server_refuses_a_request_without_a_key() {
    let head = vec!["GET / HTTP/1.1".to_string()];
    let accepted = Accepted::new("peer".to_string(), LIMIT);
    assert_eq!(accepted.answer(&head, None).err(), Some(ProtocolError::NoKey));
}

#[test]
fn a_server_reads_an_unmasked_frame_too() {
    let head = vec!["GET /in HTTP/1.1".to_string(), "Sec-WebSocket-Key: k".to_string()];
    let accepted = Accepted::new("peer:1".to_string(), LIMIT);
    assert_eq!(
        receive(accepted, &head, &encode(b"plain", None)),
        Ok(Arrived { origin_uri: "ws://peer:1/in".to_string(), bytes: b"plain".to_vec() })
    );
}

#[test]
fn a_server_refuses_a_frame_over_its_limit() {
    let head = vec!["GET / HTTP/1.1".to_string(), "Sec-WebSocket-Key: k".to_string()];
    let accepted = Accepted::new("peer".to_string(), 4);
    assert_eq!(
        receive(accepted, &head, &encode(b"plain", Some([1, 2, 3, 4]))),
        Err(ProtocolError::FrameTooLong(TooLong { length: 5, limit: 4 }))
    );
}

#[test]
fn a_client_sends_nothing_to_a_server_that_refuses() {
    let requesting = Dialing::new("ws://h", b"x".to_vec()).expect("a target").request("h", "k".to_string());
    let head = vec!["HTTP/1.1 200 OK".to_string()];
    assert_eq!(
        requesting.frame(&head, None, [0; 4]),
        Err(ProtocolError::DidNotSwitch("HTTP/1.1 200 OK".to_string()))
    );
}

#[test]
fn a_client_sends_nothing_where_only_the_reason_reads_101() {
    let requesting = Dialing::new("ws://h", b"x".to_vec()).expect("a target").request("h", "k".to_string());
    let token = websocket::handshake::accept_key("k");
    let head = vec!["HTTP/1.1 404 Room 101".to_string()];
    assert_eq!(
        requesting.frame(&head, Some(&token), [0; 4]),
        Err(ProtocolError::DidNotSwitch("HTTP/1.1 404 Room 101".to_string()))
    );
}

#[test]
fn a_transport_keeps_its_address_and_its_timeout() {
    let transport = WebSocketTransport::new("0.0.0.0:80");
    assert_eq!(transport.bind, "0.0.0.0:80");
    assert_eq!(transport.accept_timeout, None);

    let second = Duration::from_secs(1);
    let patient = transport.clone().timing_out_after(Duration::from_secs(9));
    assert_eq!(patient.bind, "0.0.0.0:80");
    assert_eq!(patient.accept_timeout, Some(Duration::from_secs(9)));
    assert_eq!(patient.timing_out_after(second).accept_timeout, Some(second));

    let loopback = WebSocketTransport::loopback(second);
    assert_eq!(loopback.bind, "127.0.0.1:0");
    assert_eq!(loopback.accept_timeout, Some(second));
}
