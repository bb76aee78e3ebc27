//! The mux session and its byte streams, frame by frame.

use bytes::Bytes;

use dsh_proxy::mux::{read_frame, Frame, INBOX_FRAMES};
use dsh_proxy::session::{MuxError, MuxSession, Reaction, RecvStep, SendStep, StreamRx, StreamTx};
use dsh_proxy::stream::{FlushStep, MuxStreamIo, ReadStep, WRITE_COALESCE};
use dsh_proxy::wire::{
    GRANT_THRESHOLD, KIND_CLOSE, KIND_DATA, KIND_OPEN, KIND_WINDOW, MAX_PAYLOAD, WINDOW,
};

fn bytes_of(id: u32, kind: u8, payload: &[u8]) -> Bytes {
    let mut plain = Vec::new();
    plain.extend_from_slice(&id.to_be_bytes());
    plain.push(kind);
    plain.extend_from_slice(&(payload.len() as u16).to_be_bytes());
    plain.push(0);
    plain.extend_from_slice(payload);
    Bytes::from(plain)
}

fn said(frame: &Frame) -> (u32, u8, Vec<u8>) {
    (frame.id, frame.kind, frame.payload.to_vec())
}

fn open(session: &mut MuxSession) -> (StreamTx, StreamRx) {
    session.try_open_stream().unwrap()
}

fn feed(session: &mut MuxSession, id: u32, kind: u8, payload: &[u8]) -> Reaction {
    session.on_frame(bytes_of(id, kind, payload)).unwrap()
}

#[test]
fn a_frame_reads_back() {
    let frame = read_frame(bytes_of(0x0102_0304, 7, b"body")).unwrap();
    assert_eq!(said(&frame), (0x0102_0304, 7, b"body".to_vec()));
    assert!(read_frame(Bytes::from_static(b"1234567")).is_none());
    let control = Frame::control(9, KIND_CLOSE);
    assert_eq!(said(&control), (9, KIND_CLOSE, Vec::new()));
}

/// The frame ends where its message does: neither the length field nor the
/// reserved byte is read.
#[test]
fn the_length_field_is_not_read() {
    let frame = read_frame(Bytes::from_static(&[0, 0, 0, 1, 1, 0xff, 0xff, 9, 42])).unwrap();
    assert_eq!(said(&frame), (1, 1, vec![42]));
}

#[test]
fn a_short_frame_breaks_the_link() {
    let mut session = MuxSession::start(4);
    assert!(matches!(
        session.on_frame(Bytes::from_static(b"1234567")),
        Err(MuxError::ShortFrame)
    ));
}

#[test]
fn ids_count_up_from_one() {
    let mut session = MuxSession::start(4);
    let (first, _) = open(&mut session);
    let (second, _) = open(&mut session);
    assert_eq!((first.id(), second.id()), (1, 2));
    assert_eq!(said(&second.announce()), (2, KIND_OPEN, Vec::new()));
}

/// A slot that goes back is taken again, but never under an id that was given
/// out before.
#[test]
fn ids_are_not_given_out_twice() {
    let mut session = MuxSession::start(2);
    let mut ids = Vec::new();
    for round in 0..5 {
        let before = session.stream_count();
        let (tx, rx) = open(&mut session);
        assert_eq!(session.stream_count(), before + 1);
        assert!(!ids.contains(&tx.id()));
        ids.push(tx.id());
        if round > 0 {
            session.withdraw(tx, rx);
            assert_eq!(session.stream_count(), before);
        }
    }
    assert_eq!(ids, vec![1, 2, 3, 4, 5]);
}

#[test]
fn a_ceiling_of_zero_is_one() {
    let mut session = MuxSession::start(0);
    assert!(session.try_open_stream().is_some());
    assert!(session.try_open_stream().is_none());
    assert_eq!(session.stream_count(), 1);
}

#[test]
fn a_keepalive_of_any_kind_is_echoed() {
    let mut session = MuxSession::start(1);
    for kind in [KIND_OPEN, KIND_DATA, KIND_CLOSE, KIND_WINDOW, 77] {
        match feed(&mut session, 0, kind, b"ping") {
            Reaction::Reply(frame) => assert_eq!(said(&frame), (0, KIND_DATA, Vec::new())),
            _ => panic!("no echo"),
        }
    }
    assert_eq!(session.stream_count(), 0);
}

#[test]
fn a_peer_may_open_within_the_budget() {
    let mut session = MuxSession::start(1);
    let (tx, rx) = match feed(&mut session, 40, KIND_OPEN, &[]) {
        Reaction::Opened(tx, rx) => (tx, rx),
        _ => panic!("not opened"),
    };
    assert_eq!(tx.id(), 40);
    match feed(&mut session, 41, KIND_OPEN, &[]) {
        Reaction::Reply(frame) => assert_eq!(said(&frame), (41, KIND_CLOSE, Vec::new())),
        _ => panic!("over budget"),
    }
    assert!(matches!(feed(&mut session, 40, KIND_DATA, b"x"), Reaction::Nothing));
    assert!(matches!(rx.recv(&mut session), RecvStep::Chunk(chunk) if &chunk[..] == b"x"));
    assert!(matches!(rx.recv(&mut session), RecvStep::Wait));
}

/// A stream that is opened again displaces the old one: its reader sees the
/// end, its sender keeps the credit it has, and the slot is not counted twice.
#[test]
fn reopening_an_id_displaces_its_stream() {
    let mut session = MuxSession::start(2);
    let (old_tx, old_rx) = match feed(&mut session, 5, KIND_OPEN, &[]) {
        Reaction::Opened(tx, rx) => (tx, rx),
        _ => panic!("not opened"),
    };
    feed(&mut session, 5, KIND_DATA, b"early");
    let (_new_tx, new_rx) = match feed(&mut session, 5, KIND_OPEN, &[]) {
        Reaction::Opened(tx, rx) => (tx, rx),
        _ => panic!("not opened"),
    };
    assert_eq!(session.stream_count(), 1);
    feed(&mut session, 5, KIND_DATA, b"late");
    assert!(matches!(old_rx.recv(&mut session), RecvStep::Chunk(chunk) if &chunk[..] == b"early"));
    assert!(matches!(old_rx.recv(&mut session), RecvStep::End));
    assert!(matches!(new_rx.recv(&mut session), RecvStep::Chunk(chunk) if &chunk[..] == b"late"));
    let mut data = Bytes::from_static(b"still");
    assert!(matches!(old_tx.send(&mut session, &mut data), SendStep::Frame(_)));
}

#[test]
fn unknown_streams_and_kinds_are_ignored() {
    let mut session = MuxSession::start(1);
    let (_tx, rx) = open(&mut session);
    for (id, kind) in [(9, KIND_DATA), (9, KIND_CLOSE), (9, KIND_WINDOW), (1, 4), (1, 255)] {
        assert!(matches!(feed(&mut session, id, kind, &[0, 0, 0, 1]), Reaction::Nothing));
    }
    assert!(matches!(rx.recv(&mut session), RecvStep::Wait));
}

#[test]
fn data_comes_in_frames_of_at_most_one_payload() {
    let mut session = MuxSession::start(1);
    let (tx, _rx) = open(&mut session);
    let mut data = Bytes::from(vec![3u8; MAX_PAYLOAD + 5]);
    match tx.send(&mut session, &mut data) {
        SendStep::Frame(frame) => {
            assert_eq!((frame.id, frame.kind, frame.payload.len()), (1, KIND_DATA, MAX_PAYLOAD));
        }
        _ => panic!("no frame"),
    }
    match tx.send(&mut session, &mut data) {
        SendStep::Frame(frame) => assert_eq!(frame.payload.len(), 5),
        _ => panic!("no frame"),
    }
    assert!(matches!(tx.send(&mut session, &mut data), SendStep::Done));
}

#[test]
fn a_grant_lets_a_parked_sender_go_on() {
    let mut session = MuxSession::start(1);
    let (tx, _rx) = open(&mut session);
    let mut data = Bytes::from(vec![1u8; WINDOW as usize + 100]);
    let mut frames = 0;
    while let SendStep::Frame(_) = tx.send(&mut session, &mut data) {
        frames += 1;
    }
    assert_eq!(frames, WINDOW as usize / MAX_PAYLOAD);
    assert_eq!(data.len(), 100);
    feed(&mut session, 1, KIND_WINDOW, &99u32.to_be_bytes());
    assert!(matches!(tx.send(&mut session, &mut data), SendStep::Wait));
    feed(&mut session, 1, KIND_WINDOW, &1u32.to_be_bytes());
    assert!(matches!(tx.send(&mut session, &mut data), SendStep::Frame(_)));
    // A grant of another length says nothing.
    feed(&mut session, 1, KIND_WINDOW, &[0, 0, 0, 0, 9]);
    let mut one = Bytes::from_static(b"1");
    assert!(matches!(tx.send(&mut session, &mut one), SendStep::Wait));
}

#[test]
fn grants_that_do_not_fit_are_told() {
    let mut session = MuxSession::start(1);
    let (_tx, _rx) = open(&mut session);
    let big = bytes_of(1, KIND_WINDOW, &u32::MAX.to_be_bytes());
    assert!(session.grant_fits(&big));
    assert!(session.grant_fits(&bytes_of(9, KIND_WINDOW, &u32::MAX.to_be_bytes())));
    assert!(session.grant_fits(&bytes_of(0, KIND_WINDOW, &u32::MAX.to_be_bytes())));
    assert!(session.grant_fits(&Bytes::from_static(b"short")));
}

#[test]
fn a_grant_frame_carries_four_bytes() {
    let mut session = MuxSession::start(1);
    let (tx, _rx) = open(&mut session);
    assert_eq!(said(&tx.grant(0x0102_0304)), (1, KIND_WINDOW, vec![1, 2, 3, 4]));
}

/// A local close leaves credit good; a remote one fails the sender.
#[test]
fn closing_from_either_side() {
    let mut session = MuxSession::start(2);
    let (tx, rx) = open(&mut session);
    assert_eq!(said(&tx.close(&mut session)), (1, KIND_CLOSE, Vec::new()));
    let mut data = Bytes::from_static(b"x");
    assert!(matches!(tx.send(&mut session, &mut data), SendStep::Frame(_)));
    assert!(matches!(rx.recv(&mut session), RecvStep::End));
    assert_eq!(session.stream_count(), 0);

    let (tx, rx) = open(&mut session);
    feed(&mut session, 2, KIND_DATA, b"last");
    feed(&mut session, 2, KIND_CLOSE, &[]);
    let mut data = Bytes::from_static(b"x");
    assert!(matches!(tx.send(&mut session, &mut data), SendStep::Broken));
    let mut nothing = Bytes::new();
    assert!(matches!(tx.send(&mut session, &mut nothing), SendStep::Done));
    assert!(matches!(rx.recv(&mut session), RecvStep::Chunk(_)));
    assert!(matches!(rx.recv(&mut session), RecvStep::End));
}

#[test]
fn a_dropped_reader_costs_nothing() {
    let mut session = MuxSession::start(2);
    let (_tx, rx) = open(&mut session);
    session.drop_rx(rx);
    for _ in 0..INBOX_FRAMES + 10 {
        assert!(matches!(feed(&mut session, 1, KIND_DATA, b"x"), Reaction::Nothing));
    }
    assert_eq!(session.stream_count(), 1);
}

#[test]
fn an_inbox_takes_its_frames_and_no_more() {
    let mut session = MuxSession::start(2);
    let (_tx, rx) = open(&mut session);
    for i in 0..INBOX_FRAMES {
        assert!(matches!(
            feed(&mut session, 1, KIND_DATA, &(i as u32).to_be_bytes()),
            Reaction::Nothing
        ));
    }
    match feed(&mut session, 1, KIND_DATA, b"over") {
        Reaction::Reply(frame) => assert_eq!(said(&frame), (1, KIND_CLOSE, Vec::new())),
        _ => panic!("no overflow"),
    }
    for i in 0..INBOX_FRAMES {
        match rx.recv(&mut session) {
            RecvStep::Chunk(chunk) => assert_eq!(&chunk[..], &(i as u32).to_be_bytes()),
            _ => panic!("a chunk is lost"),
        }
    }
    assert!(matches!(rx.recv(&mut session), RecvStep::End));
}

#[test]
fn a_withdrawn_stream_frees_its_slot() {
    let mut session = MuxSession::start(1);
    let (tx, rx) = open(&mut session);
    assert!(session.try_open_stream().is_none());
    session.withdraw(tx, rx);
    assert_eq!(session.stream_count(), 0);
    let (tx, _rx) = open(&mut session);
    assert_eq!(tx.id(), 2);
}

#[test]
fn shutdown_ends_every_stream() {
    let mut session = MuxSession::start(3);
    let (tx_a, rx_a) = open(&mut session);
    let (tx_b, rx_b) = open(&mut session);
    feed(&mut session, 1, KIND_DATA, b"kept");
    session.shutdown();
    assert_eq!(session.stream_count(), 0);
    let mut data = Bytes::from_static(b"x");
    assert!(matches!(tx_a.send(&mut session, &mut data), SendStep::Broken));
    assert!(matches!(tx_b.send(&mut session, &mut data), SendStep::Broken));
    assert!(matches!(rx_a.recv(&mut session), RecvStep::Chunk(chunk) if &chunk[..] == b"kept"));
    assert!(matches!(rx_a.recv(&mut session), RecvStep::End));
    assert!(matches!(rx_b.recv(&mut session), RecvStep::End));
}

#[test]
fn lanes_are_used_again() {
    let mut session = MuxSession::start(1);
    for round in 0..1000u32 {
        let (tx, rx) = open(&mut session);
        assert_eq!(tx.id(), round + 1);
        feed(&mut session, round + 1, KIND_DATA, b"x");
        let _ = session.close_stream(tx.id());
        session.drop_tx(tx);
        session.drop_rx(rx);
    }
    assert_eq!(session.stream_count(), 0);
}

fn io(session: &mut MuxSession) -> MuxStreamIo {
    let (tx, rx) = open(session);
    MuxStreamIo::new(tx, rx)
}

#[test]
fn a_byte_stream_cuts_chunks_as_the_reader_likes() {
    let mut session = MuxSession::start(1);
    let mut io = io(&mut session);
    assert!(matches!(io.poll_read(&mut session, 4), ReadStep::Wait));
    feed(&mut session, 1, KIND_DATA, b"hello world");
    let mut got = Vec::new();
    for _ in 0..3 {
        assert!(io.read_fits(&session, 4));
        match io.poll_read(&mut session, 4) {
            ReadStep::Ready(bytes) => got.push(bytes.to_vec()),
            _ => panic!("nothing to read"),
        }
    }
    assert_eq!(got, vec![b"hell".to_vec(), b"o wo".to_vec(), b"rld".to_vec()]);
    assert!(matches!(io.poll_read(&mut session, 4), ReadStep::Wait));
    feed(&mut session, 1, KIND_CLOSE, &[]);
    assert!(matches!(io.poll_read(&mut session, 4), ReadStep::End));
    match io.flush_credit() {
        Some(frame) => assert_eq!(said(&frame), (1, KIND_WINDOW, 11u32.to_be_bytes().to_vec())),
        None => panic!("credit is owed"),
    }
}

/// A body larger than one window only completes if credit is returned.
#[test]
fn bulk_beyond_one_window_completes() {
    let mut session = MuxSession::start(1);
    let mut io = io(&mut session);
    let payload: Vec<u8> = (0..768 * 1024).map(|i| (i % 251) as u8).collect();
    let mut credit = WINDOW as usize;
    let mut sent = 0;
    let mut got = Vec::new();
    while got.len() < payload.len() {
        while sent < payload.len() && credit > 0 {
            let take = (payload.len() - sent).min(MAX_PAYLOAD).min(credit);
            feed(&mut session, 1, KIND_DATA, &payload[sent..sent + take]);
            sent += take;
            credit -= take;
        }
        match io.poll_read(&mut session, 8000) {
            ReadStep::Ready(bytes) => got.extend_from_slice(&bytes),
            _ => panic!("the transfer stalled"),
        }
        if let Some(frame) = io.return_credit() {
            let (id, kind, body) = said(&frame);
            assert_eq!((id, kind), (1, KIND_WINDOW));
            let grant = u32::from_be_bytes([body[0], body[1], body[2], body[3]]);
            assert!(grant >= GRANT_THRESHOLD);
            credit += grant as usize;
            io.credit_returned();
        }
    }
    assert_eq!(got, payload);
}

/// The peer is granted what was read: never more, and less than half a window
/// stays owed while the link takes what it is offered.
#[test]
fn grants_follow_the_reads() {
    let mut session = MuxSession::start(1);
    let mut io = io(&mut session);
    let mut handed = 0usize;
    let mut granted = 0usize;
    for round in 0..64 {
        feed(&mut session, 1, KIND_DATA, &vec![7u8; MAX_PAYLOAD]);
        let room = 1 + 997 * round;
        loop {
            assert!(io.read_fits(&session, room));
            let step = io.poll_read(&mut session, room);
            if let Some(frame) = io.offer_credit(&step) {
                assert_eq!((frame.id, frame.kind), (1, KIND_WINDOW));
                granted += u32::from_be_bytes(frame.payload[..].try_into().unwrap()) as usize;
                io.credit_returned();
            }
            match step {
                ReadStep::Ready(chunk) => handed += chunk.len(),
                ReadStep::Wait => break,
                ReadStep::End => panic!("ended"),
            }
            assert!(granted <= handed);
            assert!(handed - granted < GRANT_THRESHOLD as usize);
        }
    }
    assert_eq!(handed, 64 * MAX_PAYLOAD);
    feed(&mut session, 1, KIND_DATA, b"tail");
    feed(&mut session, 1, KIND_CLOSE, &[]);
    assert!(matches!(io.poll_read(&mut session, 9), ReadStep::Ready(_)));
    let step = io.poll_read(&mut session, 9);
    assert!(matches!(step, ReadStep::End));
    let last = io.offer_credit(&step).unwrap();
    granted += u32::from_be_bytes(last.payload[..].try_into().unwrap()) as usize;
    assert_eq!(granted, handed + 4);
}

#[test]
fn credit_the_link_did_not_take_stays_owed() {
    let mut session = MuxSession::start(1);
    let mut io = io(&mut session);
    for _ in 0..8 {
        feed(&mut session, 1, KIND_DATA, &[0u8; MAX_PAYLOAD]);
        io.poll_read(&mut session, MAX_PAYLOAD);
    }
    let first = io.return_credit().unwrap();
    assert_eq!(said(&first).2, GRANT_THRESHOLD.to_be_bytes().to_vec());
    feed(&mut session, 1, KIND_DATA, b"more");
    io.poll_read(&mut session, 100);
    let second = io.return_credit().unwrap();
    assert_eq!(said(&second).2, (GRANT_THRESHOLD + 4).to_be_bytes().to_vec());
    io.credit_returned();
    assert!(io.return_credit().is_none());
    assert!(io.flush_credit().is_none());
}

#[test]
fn writes_are_coalesced_into_frames() {
    let mut session = MuxSession::start(1);
    let mut io = io(&mut session);
    assert_eq!(io.poll_write(b"head "), Some(5));
    assert_eq!(io.poll_write(b"body"), Some(4));
    match io.poll_flush(&mut session) {
        FlushStep::Frame(frame) => assert_eq!(said(&frame), (1, KIND_DATA, b"head body".to_vec())),
        _ => panic!("no frame"),
    }
    assert!(matches!(io.poll_flush(&mut session), FlushStep::Done));
}

#[test]
fn a_full_buffer_pushes_back() {
    let mut session = MuxSession::start(1);
    let mut io = io(&mut session);
    let big = vec![5u8; WRITE_COALESCE];
    assert_eq!(io.poll_write(&big), Some(WRITE_COALESCE));
    assert_eq!(io.poll_write(b"no"), None);
    let mut got = Vec::new();
    while let FlushStep::Frame(frame) = io.poll_flush(&mut session) {
        got.extend_from_slice(&frame.payload);
    }
    assert_eq!(got, big);
    assert_eq!(io.poll_write(b"yes"), Some(3));
}

#[test]
fn a_full_window_parks_the_writer() {
    let mut session = MuxSession::start(1);
    let mut io = io(&mut session);
    let total = WINDOW as usize + WRITE_COALESCE;
    let mut written = 0;
    let mut sent = 0;
    let mut granted = false;
    while sent < total {
        if written < total && io.poll_write(&[1u8; 4096]).is_some() {
            written += 4096;
        }
        match io.poll_flush(&mut session) {
            FlushStep::Frame(frame) => sent += frame.payload.len(),
            FlushStep::Wait => {
                assert_eq!(sent, WINDOW as usize);
                assert!(!granted);
                granted = true;
                feed(&mut session, 1, KIND_WINDOW, &WINDOW.to_be_bytes());
            }
            FlushStep::Done => {}
            FlushStep::Broken => panic!("broken"),
        }
    }
    assert!(granted);
}

#[test]
fn a_dead_link_fails_the_flush() {
    let mut session = MuxSession::start(1);
    let mut io = io(&mut session);
    io.poll_write(b"lost");
    session.shutdown();
    assert!(matches!(io.poll_flush(&mut session), FlushStep::Broken));
    assert!(matches!(io.poll_flush(&mut session), FlushStep::Done));
    io.poll_write(&vec![0u8; WRITE_COALESCE]);
    io.abandon();
    assert!(matches!(io.poll_flush(&mut session), FlushStep::Done));
}

#[test]
fn a_released_stream_returns_its_credit_and_its_slot() {
    let mut session = MuxSession::start(1);
    let mut io = io(&mut session);
    feed(&mut session, 1, KIND_DATA, b"abc");
    io.poll_read(&mut session, 10);
    let (credit, end) = io.poll_shutdown(&mut session);
    assert_eq!(said(&credit.unwrap()), (1, KIND_WINDOW, 3u32.to_be_bytes().to_vec()));
    assert_eq!(said(&end), (1, KIND_CLOSE, Vec::new()));
    assert_eq!(session.stream_count(), 0);
    io.credit_returned();
    let (credit, end) = io.release(&mut session);
    assert!(credit.is_none());
    assert_eq!(said(&end), (1, KIND_CLOSE, Vec::new()));
    assert!(session.try_open_stream().is_some());
}
