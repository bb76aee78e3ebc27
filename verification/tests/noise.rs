//! Handshakes, keys, the frame codec and the sealed byte stream.

use bytes::{Bytes, BytesMut};

use dsh_proxy::mux::Frame;
use dsh_proxy::noise::{
    codecs, generate_keypair, key32, public_key_of, read_frame, write_frame, IkInitiator,
    IkResponder, NoiseError, XxInitiator, XxResponder,
};
use dsh_proxy::routing::preamble;
use dsh_proxy::tunnel::{NoiseStream, ReadStep, WriteStep, MAX_PLAIN};
use dsh_proxy::wire::{MAX_HANDSHAKE_MSG, MAX_NOISE_MSG, TAG_LEN};

/// The body of a framed handshake message.
fn body(frame: &[u8]) -> &[u8] {
    let head = [frame[0], frame[1]];
    let len = read_frame(head).unwrap();
    assert_eq!(frame.len(), 2 + len);
    &frame[2..]
}

/// Derivation must agree with the key pair the handshake layer generates.
#[test]
fn public_key_matches_snow() {
    for _ in 0..16 {
        let (private, public) = generate_keypair().unwrap();
        assert_eq!(public_key_of(&private).unwrap().to_vec(), public);
    }
}

#[test]
fn a_private_key_has_32_bytes() {
    for len in [0, 31, 33] {
        let error = public_key_of(&vec![1u8; len]).unwrap_err();
        assert!(matches!(error, NoiseError::PrivateKeyLength));
        assert_eq!(error.message(), "private key must be 32 bytes");
    }
    assert_eq!(key32(&[7u8; 32]), Some([7u8; 32]));
    assert_eq!(key32(&[7u8; 31]), None);
}

/// The public key of a known private key (RFC 7748, section 6.1).
#[test]
fn a_known_public_key() {
    let private = [
        0x77, 0x07, 0x6d, 0x0a, 0x73, 0x18, 0xa5, 0x7d, 0x3c, 0x16, 0xc1, 0x72, 0x51, 0xb2, 0x66,
        0x45, 0xdf, 0x4c, 0x2f, 0x87, 0xeb, 0xc0, 0x99, 0x2a, 0xb1, 0x77, 0xfb, 0xa5, 0x1d, 0xb9,
        0x2c, 0x2a,
    ];
    let public = [
        0x85, 0x20, 0xf0, 0x09, 0x89, 0x30, 0xa7, 0x54, 0x74, 0x8b, 0x7d, 0xdc, 0xb4, 0x3e, 0xf7,
        0x5a, 0x0d, 0xbf, 0x3a, 0x0d, 0x26, 0x38, 0x1a, 0xf4, 0xeb, 0xa4, 0xa9, 0x8e, 0xaa, 0x9b,
        0x4e, 0x6a,
    ];
    assert_eq!(public_key_of(&private).unwrap(), public);
}

fn xx() -> (snow::StatelessTransportState, snow::StatelessTransportState, [u8; 32], Vec<u8>) {
    let (proxy, _) = generate_keypair().unwrap();
    let (bridge, public) = generate_keypair().unwrap();
    let mut initiator = XxInitiator::new(&bridge, b"prologue").unwrap();
    let mut responder = XxResponder::new(&proxy, b"prologue").unwrap();
    let first = initiator.next().unwrap();
    let second = responder.reply(body(&first)).unwrap();
    initiator.take(body(&second)).unwrap();
    let third = initiator.next().unwrap();
    let (key, proxy_side) = responder.finish(body(&third)).unwrap();
    (proxy_side, initiator.finish().unwrap(), key, public)
}

#[test]
fn an_xx_handshake_proves_the_bridge_key() {
    let (_, _, key, public) = xx();
    assert_eq!(key.to_vec(), public);
}

#[test]
fn another_prologue_is_refused() {
    let (proxy, _) = generate_keypair().unwrap();
    let (bridge, _) = generate_keypair().unwrap();
    let mut initiator = XxInitiator::new(&bridge, b"one").unwrap();
    let mut responder = XxResponder::new(&proxy, b"two").unwrap();
    let first = initiator.next().unwrap();
    let second = responder.reply(body(&first)).unwrap();
    assert!(matches!(initiator.take(body(&second)), Err(NoiseError::Refused(_))));
}

#[test]
fn a_garbled_first_message_is_refused() {
    let (proxy, _) = generate_keypair().unwrap();
    let mut responder = XxResponder::new(&proxy, b"").unwrap();
    assert!(matches!(responder.reply(&[1, 2, 3]), Err(NoiseError::Refused(_))));
}

#[test]
fn handshake_messages_are_bounded() {
    assert!(matches!(read_frame([4, 1]), Err(NoiseError::HandshakeTooLarge)));
    assert_eq!(read_frame([4, 0]).unwrap(), MAX_HANDSHAKE_MSG);
    assert_eq!(read_frame([0, 0]).unwrap(), 0);
    assert_eq!(write_frame(b"abc").unwrap(), vec![0, 3, b'a', b'b', b'c']);
    let error = write_frame(&vec![0u8; MAX_HANDSHAKE_MSG + 1]).unwrap_err();
    assert_eq!(error.message(), "handshake message too large");
}

#[test]
fn frames_cross_the_link() {
    let (a, b, _, _) = xx();
    let (mut from_b, mut to_b) = codecs(a);
    let (mut from_a, mut to_a) = codecs(b);
    let mut wire = BytesMut::new();
    for round in 0..3u32 {
        let payload = Bytes::from(vec![round as u8; 1000 * round as usize]);
        to_b.encode(Frame { id: round, kind: 1, payload }, &mut wire).unwrap();
    }
    for round in 0..3u32 {
        let plain = from_a.decode(&mut wire).unwrap().unwrap();
        let len = 1000 * round as usize;
        let mut head = round.to_be_bytes().to_vec();
        head.push(1);
        head.extend_from_slice(&(len as u16).to_be_bytes());
        head.push(0);
        assert_eq!(&plain[..8], &head[..]);
        assert_eq!(&plain[8..], &vec![round as u8; len][..]);
    }
    assert!(from_a.decode(&mut wire).unwrap().is_none());
    to_a.encode(Frame::control(7, 2), &mut wire).unwrap();
    assert_eq!(wire.len(), 2 + 8 + TAG_LEN);
    assert_eq!(&from_b.decode(&mut wire).unwrap().unwrap()[..], &[0, 0, 0, 7, 2, 0, 0, 0]);
}

/// A refused frame uses no nonce up, and no two sealed frames are alike; the
/// other end opens them in order, however the bytes are cut.
#[test]
fn every_frame_has_a_nonce_of_its_own() {
    let (a, b, _, _) = xx();
    let (_, mut encoder) = codecs(a);
    let mut sealed = Vec::new();
    for round in 0..4 {
        if round == 2 {
            let over = Bytes::from(vec![0u8; MAX_NOISE_MSG]);
            let mut none = BytesMut::new();
            assert!(encoder.encode(Frame { id: 1, kind: 1, payload: over }, &mut none).is_err());
        }
        let mut wire = BytesMut::new();
        encoder.encode(Frame::control(5, 1), &mut wire).unwrap();
        sealed.push(wire.to_vec());
    }
    for i in 0..sealed.len() {
        for k in 0..i {
            assert_ne!(sealed[i], sealed[k]);
        }
    }
    let (mut decoder, _) = codecs(b);
    let mut src = BytesMut::new();
    let mut opened = 0;
    for piece in sealed.concat().chunks(7) {
        src.extend_from_slice(piece);
        while let Some(plain) = decoder.decode(&mut src).unwrap() {
            assert_eq!(&plain[..], &[0, 0, 0, 5, 1, 0, 0, 0]);
            opened += 1;
        }
    }
    assert_eq!((opened, src.len()), (4, 0));
}

#[test]
fn a_frame_must_fit_one_message() {
    let (a, b, _, _) = xx();
    let (_, mut encoder) = codecs(a);
    let (mut decoder, _) = codecs(b);
    let mut wire = BytesMut::new();
    let most = MAX_NOISE_MSG - TAG_LEN - 8;
    let over = Frame { id: 1, kind: 1, payload: Bytes::from(vec![0u8; most + 1]) };
    let error = encoder.encode(over, &mut wire).unwrap_err();
    assert_eq!(error.message(), "noise message too large");
    assert!(wire.is_empty());
    let full = Frame { id: 1, kind: 1, payload: Bytes::from(vec![0u8; most]) };
    encoder.encode(full, &mut wire).unwrap();
    assert_eq!(wire.len(), 2 + MAX_NOISE_MSG);
    assert_eq!(decoder.decode(&mut wire).unwrap().unwrap().len(), most + 8);
}

#[test]
fn a_decoder_tells_its_errors() {
    let (a, b, _, _) = xx();
    let (_, mut encoder) = codecs(a);
    let (mut decoder, _) = codecs(b);
    let mut short = BytesMut::from(&[0u8, 15, 1, 2][..]);
    let error = decoder.decode(&mut short).unwrap_err();
    assert_eq!(error.message(), "short noise message");
    assert_eq!(short.len(), 4);

    let mut wire = BytesMut::new();
    encoder.encode(Frame::control(1, 1), &mut wire).unwrap();
    wire[5] ^= 1;
    let error = decoder.decode(&mut wire).unwrap_err();
    assert!(matches!(error, NoiseError::Refused(_)));
    assert_eq!(error.message(), "");
    assert!(wire.is_empty());
}

fn ik(prologue: &[u8], token: &[u8]) -> (snow::StatelessTransportState, snow::StatelessTransportState) {
    let (device, device_id) = generate_keypair().unwrap();
    let (bridge, bridge_key) = generate_keypair().unwrap();
    let bridge_key: [u8; 32] = bridge_key.try_into().unwrap();
    let mut initiator = IkInitiator::new(&device, bridge_key, prologue).unwrap();
    let mut responder = IkResponder::new(&bridge, prologue).unwrap();
    let first = initiator.first(token).unwrap();
    let (seen, carried) = responder.accept(body(&first)).unwrap();
    assert_eq!(seen.to_vec(), device_id);
    assert_eq!(carried, token);
    let second = responder.answer().unwrap();
    let device_side = initiator.finish(body(&second)).unwrap();
    (device_side, responder.finish().unwrap())
}

#[test]
fn an_ik_handshake_carries_the_pairing_token() {
    let _ = ik(b"head", b"");
    let _ = ik(b"head", &[7u8; 32]);
    let _ = ik(b"head", &vec![1u8; MAX_HANDSHAKE_MSG - 96]);
}

#[test]
fn a_handshake_speaks_only_in_its_turn() {
    let (device, _) = generate_keypair().unwrap();
    let (bridge, bridge_key) = generate_keypair().unwrap();
    let mut responder = IkResponder::new(&bridge, b"").unwrap();
    assert!(matches!(responder.answer(), Err(NoiseError::Refused(_))));
    let mut initiator = IkInitiator::new(&device, bridge_key.try_into().unwrap(), b"").unwrap();
    let first = initiator.first(b"").unwrap();
    // An ephemeral key, a sealed static key and an empty sealed payload.
    assert_eq!(first.len(), 2 + 32 + 48 + 16);
    assert!(matches!(initiator.first(b""), Err(NoiseError::Refused(_))));
}

#[test]
fn a_pairing_token_that_does_not_fit_is_refused() {
    let (device, _) = generate_keypair().unwrap();
    let mut initiator = IkInitiator::new(&device, [9u8; 32], b"").unwrap();
    assert!(matches!(
        initiator.first(&vec![0u8; MAX_HANDSHAKE_MSG]),
        Err(NoiseError::HandshakeTooLarge)
    ));
}

#[test]
fn the_wrong_bridge_cannot_read_the_first_message() {
    let (device, _) = generate_keypair().unwrap();
    let (_, meant) = generate_keypair().unwrap();
    let (other, _) = generate_keypair().unwrap();
    let mut initiator = IkInitiator::new(&device, meant.try_into().unwrap(), b"").unwrap();
    let first = initiator.first(b"").unwrap();
    let mut responder = IkResponder::new(&other, b"").unwrap();
    assert!(matches!(responder.accept(body(&first)), Err(NoiseError::Refused(_))));
}

fn drain(from: &mut NoiseStream, to: &mut NoiseStream) {
    let staged = from.staged().to_vec();
    to.receive(&staged);
    from.drained(staged.len());
}

/// A message that arrives complete in one burst, and then leaves the carrier
/// quiet, must still be readable.
#[test]
fn a_complete_buffered_message_is_read_without_more_ciphertext() {
    let max_plain = MAX_NOISE_MSG - TAG_LEN;
    let (client, bridge) = ik(&preamble(&[3u8; 32]), b"");
    let mut client = NoiseStream::new(client);
    let mut bridge = NoiseStream::new(bridge);
    let payload: Vec<u8> = (0..max_plain + 64).map(|i| (i % 251) as u8).collect();

    let mut sent = 0;
    while sent < payload.len() {
        match client.poll_write(&payload[sent..]).unwrap() {
            WriteStep::Taken(n) => sent += n,
            WriteStep::Wait => panic!("the carrier took everything"),
        }
        drain(&mut client, &mut bridge);
    }
    // Nothing more arrives from here on.
    let mut got = Vec::new();
    while got.len() < payload.len() {
        match bridge.poll_read(8192).unwrap() {
            ReadStep::Ready(chunk) => got.extend_from_slice(&chunk),
            ReadStep::NeedInput => panic!("stalled with data in hand"),
        }
    }
    assert_eq!(got, payload);
    assert!(matches!(bridge.poll_read(1), Ok(ReadStep::NeedInput)));

    assert!(matches!(bridge.poll_write(b"ok"), Ok(WriteStep::Taken(2))));
    drain(&mut bridge, &mut client);
    match client.poll_read(2).unwrap() {
        ReadStep::Ready(chunk) => assert_eq!(&chunk[..], b"ok"),
        ReadStep::NeedInput => panic!("no answer"),
    }
}

/// Whatever is written comes out of the other end, however the bytes are cut on
/// the way and however they are read.
#[test]
fn a_sealed_stream_may_be_cut_anywhere() {
    let data: Vec<u8> = (0..MAX_PLAIN + 5000).map(|i| (i % 253) as u8).collect();
    for (part, cut, room) in [(1000, 7, 64), (70_000, 4096, 1), (3, 65_000, 100_000)] {
        let (a, b) = ik(b"", b"");
        let mut writer = NoiseStream::new(a);
        let mut reader = NoiseStream::new(b);
        let data = if part == 3 { &data[..3000] } else { &data[..] };
        let mut wire = Vec::new();
        for mut rest in data.chunks(part) {
            while !rest.is_empty() {
                match writer.poll_write(rest).unwrap() {
                    WriteStep::Taken(n) => rest = &rest[n..],
                    WriteStep::Wait => panic!("everything has left"),
                }
                wire.extend_from_slice(writer.staged());
                let n = writer.staged().len();
                writer.drained(n);
            }
        }
        let mut got = Vec::new();
        for piece in wire.chunks(cut) {
            reader.receive(piece);
            while let ReadStep::Ready(chunk) = reader.poll_read(room).unwrap() {
                got.extend_from_slice(&chunk);
            }
        }
        assert_eq!(got, data);
    }
}

#[test]
fn a_sealed_stream_takes_one_message_at_a_time() {
    let (a, _) = ik(b"", b"");
    let mut stream = NoiseStream::new(a);
    assert_eq!(MAX_PLAIN, MAX_NOISE_MSG - TAG_LEN);
    match stream.poll_write(&vec![0u8; MAX_PLAIN + 1]).unwrap() {
        WriteStep::Taken(n) => assert_eq!(n, MAX_PLAIN),
        WriteStep::Wait => panic!("nothing is staged"),
    }
    assert_eq!(stream.staged().len(), 2 + MAX_NOISE_MSG);
    assert!(matches!(stream.poll_write(b"x"), Ok(WriteStep::Wait)));
    stream.drained(2);
    assert_eq!(stream.staged().len(), MAX_NOISE_MSG);
}

#[test]
fn a_sealed_stream_tells_its_errors() {
    let (a, b) = ik(b"", b"");
    let mut a = NoiseStream::new(a);
    let mut b = NoiseStream::new(b);
    b.receive(&[0, 3, 1, 2, 3]);
    assert!(matches!(b.poll_read(1), Err(NoiseError::Short)));
    let (_, other) = ik(b"", b"");
    let mut other = NoiseStream::new(other);
    a.poll_write(b"secret").unwrap();
    drain(&mut a, &mut other);
    assert!(matches!(other.poll_read(1), Err(NoiseError::Refused(_))));
}
