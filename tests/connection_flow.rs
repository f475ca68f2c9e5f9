use wsframe::connection::{
    bytes_eq, close_frame, handshake_response, ClientConnection, Phase, ReadAction, ReadEvent, Step,
};
use wsframe::frame::WebSocketFrame;
use wsframe::handshake::{accept_key_input, gen_key, WEBSOCKET_GUID};
use wsframe::registry::{ConnectionRegistry, SERVER_TOKEN};

fn encode(frame: &WebSocketFrame) -> Vec<u8> {
    let mut out = Vec::new();
    frame.write(&mut out);
    out
}

fn framed() -> ClientConnection {
    let mut c = ClientConnection::new();
    c.on_header_field(b"Upgrade");
    c.on_header_value(b"websocket");
    c.on_header_field(b"Sec-WebSocket-Key");
    c.on_header_value(b"dGhlIHNhbXBsZSBub25jZQ==");
    assert!(c.on_headers_complete(true).is_some());
    c
}

#[test]
fn handshake_test_vector() {
    assert_eq!(gen_key(b"dGhlIHNhbXBsZSBub25jZQ=="), b"s3pPLMBiTxaQ9kYGzzhZRbK+xOo=".to_vec());
}

#[test]
fn handshake_of_empty_key_is_deterministic() {
    let a = gen_key(b"");
    assert_eq!(a.len(), 28);
    assert_eq!(a, gen_key(b""));
    assert_ne!(a, gen_key(b"x"));
}

#[test]
fn accept_input_appends_guid() {
    let input = accept_key_input(b"abc");
    assert_eq!(input, [b"abc".as_slice(), WEBSOCKET_GUID.as_bytes()].concat());
}

#[test]
fn upgrade_response_text() {
    let resp = handshake_response(b"dGhlIHNhbXBsZSBub25jZQ==");
    assert_eq!(
        String::from_utf8(resp).unwrap(),
        "HTTP/1.1 101 Switching Protocols\r\nUpgrade: websocket\r\nConnection: Upgrade\r\nSec-WebSocket-Accept: s3pPLMBiTxaQ9kYGzzhZRbK+xOo=\r\n\r\n"
    );
}

#[test]
fn headers_complete_upgrades_with_key() {
    let mut c = ClientConnection::new();
    c.on_header_field(b"Sec-WebSocket-Key");
    c.on_header_value(b"old");
    c.on_header_field(b"Sec-WebSocket-Key");
    c.on_header_value(b"dGhlIHNhbXBsZSBub25jZQ==");
    assert_eq!(c.headers.len(), 2);
    let resp = c.on_headers_complete(true).expect("upgrade response");
    assert_eq!(resp, handshake_response(b"dGhlIHNhbXBsZSBub25jZQ=="));
    assert_eq!(c.phase, Phase::Framed);
}

#[test]
fn headers_complete_without_upgrade_closes() {
    let mut c = ClientConnection::new();
    c.on_header_field(b"Sec-WebSocket-Key");
    c.on_header_value(b"abc");
    assert_eq!(c.on_headers_complete(false), None);
    assert_eq!(c.phase, Phase::Closing);
}

#[test]
fn headers_complete_without_key_closes() {
    let mut c = ClientConnection::new();
    c.on_header_field(b"Host");
    c.on_header_value(b"example");
    assert_eq!(c.on_headers_complete(true), None);
    assert_eq!(c.phase, Phase::Closing);
}

#[test]
fn value_without_field_is_ignored() {
    let mut c = ClientConnection::new();
    c.on_header_value(b"stray");
    assert!(c.headers.is_empty());
}

#[test]
fn split_frame_is_buffered_until_complete() {
    let payload: Vec<u8> = (0..200u32).map(|i| i as u8).collect();
    let bytes = encode(&WebSocketFrame::binary(&payload));
    for split in [1usize, 3, 100] {
        let mut c = framed();
        c.feed(&bytes[..split]);
        assert!(matches!(c.step(), Step::NeedMore));
        assert_eq!(c.pending, bytes[..split].to_vec());
        c.feed(&bytes[split..]);
        match c.step() {
            Step::Deliver(f) => assert_eq!(f.payload, payload),
            other => panic!("unexpected step {:?}", other),
        }
        assert!(c.pending.is_empty());
        assert_eq!(c.phase, Phase::Framed);
    }
}

#[test]
fn ping_is_answered_with_pong() {
    let mut c = framed();
    c.feed(&[0x89, 0x82, 1, 2, 3, 4, b'h' ^ 1, b'i' ^ 2]);
    match c.step() {
        Step::Reply(bytes) => assert_eq!(bytes, vec![0x8a, 2, b'h', b'i']),
        other => panic!("unexpected step {:?}", other),
    }
    assert_eq!(c.phase, Phase::Framed);
}

#[test]
fn close_frame_closes() {
    let mut c = framed();
    c.feed(&[0x88, 0x00]);
    match c.step() {
        Step::Close(bytes) => assert_eq!(bytes, vec![0x88, 0x00]),
        other => panic!("unexpected step {:?}", other),
    }
    assert_eq!(c.phase, Phase::Closing);
    assert_eq!(close_frame(), vec![0x88, 0x00]);
}

#[test]
fn malformed_frame_closes() {
    let mut c = framed();
    c.feed(&[0x83, 0x00]);
    assert!(matches!(c.step(), Step::Close(_)));
    assert_eq!(c.phase, Phase::Closing);
    assert!(c.pending.is_empty());
}

#[test]
fn two_frames_in_one_read() {
    let mut c = framed();
    let mut bytes = encode(&WebSocketFrame::text("a"));
    bytes.extend(encode(&WebSocketFrame::text("bc")));
    c.feed(&bytes);
    assert!(matches!(c.step(), Step::Deliver(f) if f.payload == b"a".to_vec()));
    assert!(matches!(c.step(), Step::Deliver(f) if f.payload == b"bc".to_vec()));
    assert!(matches!(c.step(), Step::NeedMore));
}

#[test]
fn bytes_eq_compares_contents() {
    assert!(bytes_eq(b"abc", b"abc"));
    assert!(!bytes_eq(b"abc", b"abd"));
    assert!(!bytes_eq(b"ab", b"abc"));
}

#[test]
fn accepted_tokens_are_distinct_and_not_the_listener() {
    let mut r = ConnectionRegistry::new();
    let mut tokens = Vec::new();
    for _ in 0..5 {
        tokens.push(r.accept().expect("token"));
    }
    assert_eq!(r.len(), 5);
    for (i, t) in tokens.iter().enumerate() {
        assert_ne!(*t, SERVER_TOKEN);
        assert!(r.contains(*t));
        assert!(!tokens[i + 1..].contains(t));
        assert_eq!(r.phase(*t), Some(Phase::Handshaking));
    }
}

#[test]
fn removed_token_is_never_reassigned() {
    let mut r = ConnectionRegistry::new();
    let a = r.accept().unwrap();
    let b = r.accept().unwrap();
    assert!(r.close(b));
    assert_eq!(r.phase(b), Some(Phase::Closing));
    let removed = r.remove(b).expect("live");
    assert_eq!(removed.phase, Phase::Closing);
    assert_eq!(r.phase(a), Some(Phase::Handshaking));
    assert_eq!(r.len(), 1);
    assert!(!r.contains(b));
    assert!(r.remove(b).is_none());
    for _ in 0..10 {
        let t = r.accept().unwrap();
        assert_ne!(t, b);
        assert_ne!(t, a);
    }
    assert_eq!(r.len(), 11);
}

#[test]
fn registry_drives_a_connection() {
    let mut r = ConnectionRegistry::new();
    let t = r.accept().unwrap();
    assert!(r.step(t).is_none());
    assert!(r.on_header_field(t, b"Sec-WebSocket-Key"));
    assert!(r.on_header_value(t, b"dGhlIHNhbXBsZSBub25jZQ=="));
    let resp = r.on_headers_complete(t, true).expect("live").expect("upgraded");
    assert_eq!(resp, handshake_response(b"dGhlIHNhbXBsZSBub25jZQ=="));
    assert_eq!(r.on_headers_complete(t, true), None);
    assert!(r.feed(t, &[0x81, 0x02, b'o']));
    assert!(matches!(r.step(t), Some(Step::NeedMore)));
    assert!(r.feed(t, &[b'k']));
    assert!(matches!(r.step(t), Some(Step::Deliver(f)) if f.payload == b"ok".to_vec()));
    assert!(!r.feed(t + 1, b"x"));
    assert!(r.step(t + 1).is_none());
}

#[test]
fn read_events_decide_what_follows() {
    let mut c = framed();
    assert_eq!(c.on_read(ReadEvent::Bytes), ReadAction::ReadAgain);
    assert_eq!(c.on_read(ReadEvent::Interrupted), ReadAction::ReadAgain);
    assert_eq!(c.on_read(ReadEvent::WouldBlock), ReadAction::StopReading);
    assert_eq!(c.phase, Phase::Framed);
    assert_eq!(c.on_read(ReadEvent::EndOfInput), ReadAction::StopReading);
    assert_eq!(c.phase, Phase::Closing);
    assert_eq!(c.on_read(ReadEvent::Bytes), ReadAction::StopReading);

    let mut d = framed();
    assert_eq!(d.on_read(ReadEvent::Failed), ReadAction::StopReading);
    assert_eq!(d.phase, Phase::Closing);
}

#[test]
fn request_bytes_upgrade_keeps_leftover_frame_bytes() {
    let mut c = ClientConnection::new();
    c.on_header_field(b"Sec-WebSocket-Key");
    c.on_header_value(b"dGhlIHNhbXBsZSBub25jZQ==");
    let resp = c.on_request_bytes(false, true, true, &[0x81, 0x01, b'x']).expect("upgraded");
    assert_eq!(resp, handshake_response(b"dGhlIHNhbXBsZSBub25jZQ=="));
    assert_eq!(c.phase, Phase::Framed);
    assert_eq!(c.pending, vec![0x81, 0x01, b'x']);
    assert!(matches!(c.step(), Step::Deliver(f) if f.payload == b"x".to_vec()));
}

#[test]
fn request_bytes_parse_error_closes() {
    let mut c = ClientConnection::new();
    assert_eq!(c.on_request_bytes(true, false, false, &[]), None);
    assert_eq!(c.phase, Phase::Closing);
}

#[test]
fn request_bytes_incomplete_head_waits() {
    let mut c = ClientConnection::new();
    assert_eq!(c.on_request_bytes(false, false, false, b"ignored"), None);
    assert_eq!(c.phase, Phase::Handshaking);
    assert!(c.pending.is_empty());
}

#[test]
fn registry_forwards_read_events_and_requests() {
    let mut r = ConnectionRegistry::new();
    let t = r.accept().unwrap();
    assert!(r.on_header_field(t, b"Sec-WebSocket-Key"));
    assert!(r.on_header_value(t, b"abc"));
    assert_eq!(r.on_request_bytes(t, false, false, false, &[]), Some(None));
    let out = r.on_request_bytes(t, false, true, true, &[]).expect("live");
    assert_eq!(out, Some(handshake_response(b"abc")));
    assert_eq!(r.on_request_bytes(t, false, true, true, &[]), None);
    assert_eq!(r.on_read(t, ReadEvent::WouldBlock), Some(ReadAction::StopReading));
    assert_eq!(r.on_read(t, ReadEvent::EndOfInput), Some(ReadAction::StopReading));
    assert_eq!(r.phase(t), Some(Phase::Closing));
    assert_eq!(r.on_read(t + 1, ReadEvent::Bytes), None);
}
