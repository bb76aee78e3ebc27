//! The WebSocket carrier, as a client with masked frames sees it.

use dsh_proxy::routing::{greeting, preamble, Greeting};
use dsh_proxy::ws::{accept_bytes, accept_key, ReadStep, WsError, WsStream};

/// Frame a payload the way a browser would: final and masked.
fn client_frame(opcode: u8, payload: &[u8]) -> Vec<u8> {
    started_with(0x80 | opcode, payload)
}

/// Frame a payload behind a first byte.
fn started_with(first: u8, payload: &[u8]) -> Vec<u8> {
    let mut out = Vec::new();
    out.push(first);
    if payload.len() < 126 {
        out.push(0x80 | payload.len() as u8);
    } else if payload.len() <= u16::MAX as usize {
        out.push(0x80 | 126);
        out.extend_from_slice(&(payload.len() as u16).to_be_bytes());
    } else {
        out.push(0x80 | 127);
        out.extend_from_slice(&(payload.len() as u64).to_be_bytes());
    }
    let mask = [0x37u8, 0xfa, 0x21, 0x3d];
    out.extend_from_slice(&mask);
    for (index, byte) in payload.iter().enumerate() {
        out.push(byte ^ mask[index % 4]);
    }
    out
}

/// Read until the stream asks for more, or ends.
fn read_all(stream: &mut WsStream) -> (Vec<u8>, bool) {
    let mut got = Vec::new();
    loop {
        match stream.poll_read(7).unwrap() {
            ReadStep::Ready(chunk) => got.extend_from_slice(&chunk),
            ReadStep::Decoded => {}
            ReadStep::NeedInput => return (got, false),
            ReadStep::Closed => return (got, true),
        }
    }
}

/// Take everything staged for the client.
fn staged(stream: &mut WsStream) -> Vec<u8> {
    let bytes = stream.staged().to_vec();
    if !bytes.is_empty() {
        stream.drained(bytes.len()).unwrap();
    }
    bytes
}

/// RFC 6455's own example.
#[test]
fn the_accept_key_of_the_sample_nonce() {
    assert_eq!(accept_key("dGhlIHNhbXBsZSBub25jZQ=="), "s3pPLMBiTxaQ9kYGzzhZRbK+xOo=");
    assert_eq!(accept_bytes(b"dGhlIHNhbXBsZSBub25jZQ=="), "s3pPLMBiTxaQ9kYGzzhZRbK+xOo=");
}

/// Fragments without FIN, pings and pongs between, and reads of every size: the
/// reader gets the bytes of the data frames, and each ping its pong.
#[test]
fn boundaries_and_control_frames_leave_the_bytes_alone() {
    let mut wire = started_with(0x02, b"one ");
    wire.extend_from_slice(&client_frame(0x9, b"p1"));
    wire.extend_from_slice(&started_with(0x00, b"two "));
    wire.extend_from_slice(&client_frame(0xa, b"late"));
    wire.extend_from_slice(&started_with(0x09, b"p2"));
    wire.extend_from_slice(&client_frame(0x0, b"three"));
    for cut in [1, 3, 10, 1000] {
        for room in [1, 2, 5, 100] {
            let mut stream = WsStream::new();
            let mut got = Vec::new();
            for piece in wire.chunks(cut) {
                stream.receive(piece);
                loop {
                    match stream.poll_read(room).unwrap() {
                        ReadStep::Ready(chunk) => got.extend_from_slice(&chunk),
                        ReadStep::Decoded => {}
                        ReadStep::NeedInput => break,
                        ReadStep::Closed => panic!("closed"),
                    }
                }
            }
            assert_eq!(got, b"one two three");
            assert_eq!(staged(&mut stream), [&[0x8a, 2][..], b"p1", &[0x8a, 2], b"p2"].concat());
        }
    }
}

#[test]
fn a_preamble_split_across_frames_still_routes() {
    let key = [0x42u8; 32];
    let head = preamble(&key);
    let mut stream = WsStream::new();
    for piece in head.chunks(7) {
        stream.receive(&client_frame(0x2, piece));
    }
    let (got, _) = read_all(&mut stream);
    assert_eq!(got, head);
    let got: [u8; 37] = got.try_into().unwrap();
    assert!(matches!(greeting(&got), Greeting::Client(addressed) if addressed == key));
}

#[test]
fn frames_may_arrive_byte_by_byte() {
    let mut stream = WsStream::new();
    let mut got = Vec::new();
    let mut wire = client_frame(0x2, b"hello ");
    wire.extend_from_slice(&client_frame(0x0, b"world"));
    wire.extend_from_slice(&client_frame(0x1, b"!"));
    for byte in wire {
        stream.receive(&[byte]);
        got.extend_from_slice(&read_all(&mut stream).0);
    }
    assert_eq!(got, b"hello world!");
}

#[test]
fn a_ping_is_answered_with_a_pong() {
    let mut stream = WsStream::new();
    stream.receive(&client_frame(0x9, b"alive"));
    assert_eq!(read_all(&mut stream).0, b"");
    assert_eq!(staged(&mut stream), [&[0x8a, 5][..], b"alive"].concat());
}

#[test]
fn a_pong_says_nothing() {
    let mut stream = WsStream::new();
    stream.receive(&client_frame(0xa, b"late"));
    assert_eq!(read_all(&mut stream), (Vec::new(), false));
    assert_eq!(staged(&mut stream), b"");
}

#[test]
fn a_close_ends_the_stream() {
    let mut stream = WsStream::new();
    stream.receive(&client_frame(0x2, b"last"));
    stream.receive(&client_frame(0x8, &[3, 232]));
    let (got, closed) = read_all(&mut stream);
    assert_eq!(got, b"last");
    assert!(closed);
    // Nothing is said after a close.
    stream.poll_shutdown();
    assert_eq!(staged(&mut stream), b"");
}

#[test]
fn server_frames_are_not_masked() {
    let mut stream = WsStream::new();
    assert_eq!(stream.poll_write(b"hi"), 2);
    assert_eq!(staged(&mut stream), [&[0x82, 2][..], b"hi"].concat());
    let medium = vec![1u8; 300];
    assert_eq!(stream.poll_write(&medium), 300);
    assert_eq!(staged(&mut stream), [&[0x82, 126, 1, 44][..], &medium].concat());
}

#[test]
fn long_lengths_take_eight_bytes() {
    let body = vec![9u8; 70_000];
    let mut stream = WsStream::new();
    stream.receive(&client_frame(0x2, &body));
    assert_eq!(read_all(&mut stream).0, body);
}

#[test]
fn broken_clients_are_refused() {
    let mut unmasked = WsStream::new();
    unmasked.receive(&[0x82, 2, 1, 2]);
    let error = unmasked.poll_read(1).err().unwrap();
    assert_eq!(error, WsError::Unmasked);

    let mut unknown = WsStream::new();
    unknown.receive(&client_frame(0x3, b""));
    assert_eq!(unknown.poll_read(1).err().unwrap(), WsError::UnknownOpcode);

    let mut large = WsStream::new();
    large.receive(&[0x82, 0xff, 0, 0, 0, 1, 0, 0, 0, 0, 0, 0, 0, 0]);
    let error = large.poll_read(1).err().unwrap();
    assert_eq!(error, WsError::TooLarge);
    assert_eq!(error.message(), "websocket frame is too large");
}

#[test]
fn a_shutdown_says_close() {
    let mut stream = WsStream::new();
    stream.poll_shutdown();
    assert_eq!(staged(&mut stream), vec![0x88, 0]);
}
