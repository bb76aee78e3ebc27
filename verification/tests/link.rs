//! The bridge link, end to end in memory: a proxy made of the library, and an
//! echo bridge that speaks the wire by hand.

use std::collections::VecDeque;

use bytes::{Bytes, BytesMut};

use dsh_proxy::mux::Frame;
use dsh_proxy::noise::{codecs, generate_keypair, NoiseDecoder, NoiseEncoder, XxResponder};
use dsh_proxy::routing::{greeting, preamble, Greeting, Table};
use dsh_proxy::session::{MuxSession, Reaction, RecvStep, SendStep};
use dsh_proxy::splice::Splice;
use dsh_proxy::wire::{
    GRANT_THRESHOLD, HEAD_LEN, KIND_CLOSE, KIND_DATA, KIND_OPEN, KIND_WINDOW, MAX_PAYLOAD,
    NOISE_XX, WINDOW,
};

fn head_of(magic: &[u8; 4], version: u8, key: &[u8]) -> Vec<u8> {
    let mut head = Vec::new();
    head.extend_from_slice(magic);
    head.push(version);
    head.extend_from_slice(key);
    head
}

/// Cut one length-prefixed message off the front of a buffer.
fn take_lp(buffer: &mut BytesMut) -> Option<Vec<u8>> {
    if buffer.len() < 2 {
        return None;
    }
    let len = u16::from_be_bytes([buffer[0], buffer[1]]) as usize;
    if buffer.len() < 2 + len {
        return None;
    }
    let _ = buffer.split_to(2);
    Some(buffer.split_to(len).to_vec())
}

/// A bridge that echoes every byte of every stream back to its phone.
struct EchoBridge {
    transport: snow::TransportState,
    /// Credit for sending, one window per stream.
    credit: Vec<u32>,
    queue: VecDeque<(u32, Vec<u8>)>,
    /// Frames seen, as id, kind and length.
    seen: Vec<(u32, u8, usize)>,
}

impl EchoBridge {
    fn seal(&mut self, wire: &mut BytesMut, id: u32, kind: u8, payload: &[u8]) {
        let mut plain = Vec::new();
        plain.extend_from_slice(&id.to_be_bytes());
        plain.push(kind);
        plain.extend_from_slice(&(payload.len() as u16).to_be_bytes());
        plain.push(0);
        plain.extend_from_slice(payload);
        let mut sealed = vec![0u8; plain.len() + 16];
        let n = self.transport.write_message(&plain, &mut sealed).unwrap();
        wire.extend_from_slice(&(n as u16).to_be_bytes());
        wire.extend_from_slice(&sealed[..n]);
    }

    fn credit(&mut self, id: u32) -> &mut u32 {
        while self.credit.len() <= id as usize {
            self.credit.push(WINDOW);
        }
        &mut self.credit[id as usize]
    }

    fn drain(&mut self, wire: &mut BytesMut) {
        let mut blocked = VecDeque::new();
        while let Some((id, body)) = self.queue.pop_front() {
            let held = *self.credit(id) as usize;
            let take = body.len().min(MAX_PAYLOAD).min(held);
            if take == 0 || blocked.iter().any(|(other, _)| *other == id) {
                blocked.push_back((id, body));
                continue;
            }
            *self.credit(id) -= take as u32;
            self.seal(wire, id, KIND_DATA, &body[..take]);
            if take < body.len() {
                self.queue.push_front((id, body[take..].to_vec()));
            }
        }
        self.queue = blocked;
    }

    fn on_message(&mut self, sealed: &[u8], wire: &mut BytesMut) {
        let mut plain = vec![0u8; sealed.len()];
        let n = self.transport.read_message(sealed, &mut plain).unwrap();
        plain.truncate(n);
        let id = u32::from_be_bytes([plain[0], plain[1], plain[2], plain[3]]);
        let kind = plain[4];
        let body = plain[8..].to_vec();
        assert_eq!(u16::from_be_bytes([plain[5], plain[6]]) as usize, body.len());
        self.seen.push((id, kind, body.len()));
        match kind {
            KIND_DATA if id != 0 => {
                let len = body.len() as u32;
                self.seal(wire, id, KIND_WINDOW, &len.to_be_bytes());
                self.queue.push_back((id, body));
                self.drain(wire);
            }
            KIND_WINDOW => {
                let grant = u32::from_be_bytes([body[0], body[1], body[2], body[3]]);
                *self.credit(id) += grant;
                self.drain(wire);
            }
            KIND_CLOSE => self.queue.retain(|(queued, _)| *queued != id),
            _ => {}
        }
    }
}

/// A proxy and its bridge, with the socket between them as two buffers.
struct Link {
    session: MuxSession,
    encoder: NoiseEncoder,
    decoder: NoiseDecoder,
    bridge: EchoBridge,
    to_bridge: BytesMut,
    to_proxy: BytesMut,
    key: [u8; 32],
}

impl Link {
    fn new(max_streams: usize) -> Link {
        let (proxy_private, _) = generate_keypair().unwrap();
        let (private, public) = generate_keypair().unwrap();
        let head = head_of(b"DSHB", 1, &[0u8; 32]);
        let mut hs = snow::Builder::new(NOISE_XX.parse().unwrap())
            .local_private_key(&private)
            .prologue(&head)
            .build_initiator()
            .unwrap();
        let mut buf = vec![0u8; 65535];
        let mut responder = XxResponder::new(&proxy_private, &head).unwrap();
        let n = hs.write_message(&[], &mut buf).unwrap();
        let reply = responder.reply(&buf[..n]).unwrap();
        let mut framed = BytesMut::from(&reply[..]);
        let msg2 = take_lp(&mut framed).unwrap();
        assert!(framed.is_empty());
        hs.read_message(&msg2, &mut buf).unwrap();
        let n = hs.write_message(&[], &mut buf).unwrap();
        let (key, transport) = responder.finish(&buf[..n]).unwrap();
        assert_eq!(key.to_vec(), public);
        let (decoder, encoder) = codecs(transport);
        Link {
            session: MuxSession::start(max_streams),
            encoder,
            decoder,
            bridge: EchoBridge {
                transport: hs.into_transport_mode().unwrap(),
                credit: Vec::new(),
                queue: VecDeque::new(),
                seen: Vec::new(),
            },
            to_bridge: BytesMut::new(),
            to_proxy: BytesMut::new(),
            key,
        }
    }

    fn send(&mut self, frame: Frame) {
        self.encoder.encode(frame, &mut self.to_bridge).unwrap();
    }

    /// Let the bridge take everything, then the proxy.
    fn pump(&mut self) {
        while let Some(sealed) = take_lp(&mut self.to_bridge) {
            self.bridge.on_message(&sealed, &mut self.to_proxy);
        }
        self.proxy_takes();
    }

    fn proxy_takes(&mut self) {
        while let Some(frame) = self.decoder.decode(&mut self.to_proxy).unwrap() {
            assert!(self.session.grant_fits(&frame));
            match self.session.on_frame(frame).unwrap() {
                Reaction::Nothing => {}
                Reaction::Reply(frame) => self.send(frame),
                Reaction::Opened(_, _) => panic!("the bridge never opens"),
            }
        }
    }

    /// Open a phone's stream and forward its preamble.
    fn connect(&mut self) -> Option<Phone> {
        let splice = Splice::open(&mut self.session)?;
        let head: [u8; HEAD_LEN] = preamble(&self.key).try_into().unwrap();
        let (open, first) = splice.begin(&head);
        assert_eq!((open.kind, open.payload.len()), (KIND_OPEN, 0));
        assert_eq!(splice.announce().id, open.id);
        assert_eq!(&first[..], &head[..]);
        self.send(open);
        let mut phone = Phone { splice, got: Vec::new(), left: first };
        phone.push(self);
        Some(phone)
    }
}

/// A phone spliced onto the link.
struct Phone {
    splice: Splice,
    got: Vec<u8>,
    left: Bytes,
}

impl Phone {
    fn push(&mut self, link: &mut Link) {
        loop {
            match self.splice.uplink(&mut link.session, &mut self.left) {
                SendStep::Frame(frame) => link.send(frame),
                SendStep::Done | SendStep::Wait => return,
                SendStep::Broken => panic!("the stream broke"),
            }
        }
    }

    /// Read whatever has arrived; the credit goes back on its own.
    fn pull(&mut self, link: &mut Link) {
        while let RecvStep::Chunk(chunk) = self.splice.downlink(&mut link.session) {
            self.got.extend_from_slice(&chunk);
            if let Some(grant) = self.splice.delivered(chunk.len()) {
                link.send(grant);
            }
        }
    }
}

#[test]
fn phone_round_trip() {
    let mut link = Link::new(2048);
    let mut phone = link.connect().unwrap();
    phone.left = Bytes::from_static(b"hello bridge");
    phone.push(&mut link);
    link.pump();
    phone.pull(&mut link);
    let head = head_of(b"DSHC", 1, &link.key);
    assert_eq!(&phone.got[..HEAD_LEN], &head[..]);
    assert_eq!(&phone.got[HEAD_LEN..], b"hello bridge");
    assert_eq!(link.bridge.seen[0], (1, KIND_OPEN, 0));
}

/// More than one window each way, which only completes if credit keeps flowing.
#[test]
fn bulk_transfer_through_window() {
    let mut link = Link::new(2048);
    let payload: Vec<u8> = (0..3 * 1024 * 1024).map(|i| (i % 251) as u8).collect();
    let mut phone = link.connect().unwrap();
    phone.left = Bytes::from(payload.clone());
    let mut rounds = 0;
    while phone.got.len() < HEAD_LEN + payload.len() {
        phone.push(&mut link);
        link.pump();
        phone.pull(&mut link);
        rounds += 1;
        assert!(rounds < 1000, "the transfer stalled");
    }
    assert_eq!(&phone.got[HEAD_LEN..], &payload[..], "payload corrupted in the tunnel");
    let grants: Vec<usize> = link
        .bridge
        .seen
        .iter()
        .filter(|(_, kind, _)| *kind == KIND_WINDOW)
        .map(|(_, _, len)| *len)
        .collect();
    assert!(!grants.is_empty() && grants.len() <= (3 * 1024 * 1024 + HEAD_LEN) / GRANT_THRESHOLD as usize);
    assert!(grants.iter().all(|len| *len == 4));
}

/// Without a grant, no more than one window leaves.
#[test]
fn a_sender_stops_at_its_window() {
    let mut link = Link::new(4);
    let mut phone = link.connect().unwrap();
    phone.left = Bytes::from(vec![7u8; 1024 * 1024]);
    phone.push(&mut link);
    let left = phone.left.len();
    assert_eq!(1024 * 1024 - left + HEAD_LEN, {
        let whole = (WINDOW as usize - HEAD_LEN) / MAX_PAYLOAD * MAX_PAYLOAD;
        whole + HEAD_LEN
    });
    assert!(matches!(
        phone.splice.uplink(&mut link.session, &mut phone.left),
        SendStep::Wait
    ));
    assert_eq!(phone.left.len(), left);
}

#[test]
fn concurrent_streams_stay_separate() {
    let mut link = Link::new(2048);
    let mut phones = Vec::new();
    for i in 0..50u32 {
        let mut phone = link.connect().unwrap();
        let body = format!("stream-{i:04}-payload").repeat(64);
        phone.left = Bytes::from(body.clone());
        phones.push((phone, body));
    }
    for (phone, _) in phones.iter_mut() {
        phone.push(&mut link);
    }
    assert_eq!(link.session.stream_count(), 50);
    link.pump();
    for (phone, body) in phones.iter_mut() {
        phone.pull(&mut link);
        assert_eq!(&phone.got[HEAD_LEN..], body.as_bytes());
    }
}

#[test]
fn keepalive_is_echoed() {
    let mut link = Link::new(2048);
    let mut wire = BytesMut::new();
    link.bridge.seal(&mut wire, 0, KIND_DATA, &[]);
    link.to_proxy = wire;
    link.proxy_takes();
    link.pump();
    assert_eq!(link.bridge.seen, vec![(0, KIND_DATA, 0)]);
}

#[test]
fn unknown_bridge_key_is_dropped() {
    let link = Link::new(2048);
    let mut table = Table::new();
    table.register(&link.key, 1);
    let head: [u8; 37] = head_of(b"DSHC", 1, &[9u8; 32]).try_into().unwrap();
    match greeting(&head) {
        Greeting::Client(key) => assert_eq!(table.lookup(&key), None),
        _ => panic!("a client greeted"),
    }
    assert_eq!(table.lookup(&link.key), Some(1));
}

#[test]
fn wrong_version_and_magic_are_dropped() {
    for head in [head_of(b"DSHC", 2, &[0u8; 32]), head_of(b"XXXX", 1, &[0u8; 32])] {
        let head: [u8; 37] = head.try_into().unwrap();
        assert!(matches!(greeting(&head), Greeting::Nobody));
    }
    let bridge: [u8; 37] = head_of(b"DSHB", 1, &[0u8; 32]).try_into().unwrap();
    assert!(matches!(greeting(&bridge), Greeting::Bridge));
    let old_bridge: [u8; 37] = head_of(b"DSHB", 0, &[0u8; 32]).try_into().unwrap();
    assert!(matches!(greeting(&old_bridge), Greeting::Nobody));
}

#[test]
fn stream_budget_is_never_exceeded() {
    const CAP: usize = 8;
    let mut link = Link::new(CAP);
    let mut held = Vec::new();
    for _ in 0..CAP * 4 {
        if let Some(phone) = link.connect() {
            held.push(phone);
        }
    }
    assert_eq!(held.len(), CAP);
    assert_eq!(link.session.stream_count(), CAP);
    link.pump();
    for phone in held.iter_mut() {
        phone.pull(&mut link);
        assert_eq!(phone.got, head_of(b"DSHC", 1, &link.key));
    }
    // One that ends gives its slot back at once.
    let gone = held.pop().unwrap();
    let frame = gone.splice.close(&mut link.session);
    link.send(frame);
    assert_eq!(link.session.stream_count(), CAP - 1);
    assert!(link.connect().is_some());
    assert!(link.connect().is_none());
}

/// One stream that is flooded past its credit is lost; the link and every other
/// phone on it survive.
#[test]
fn inbox_overflow_costs_one_stream_not_the_link() {
    let mut link = Link::new(8);
    let mut victim = link.connect().unwrap();
    let mut bystander = link.connect().unwrap();
    link.pump();
    victim.pull(&mut link);
    assert_eq!(victim.got, head_of(b"DSHC", 1, &link.key));

    let mut wire = BytesMut::new();
    for _ in 0..4096 {
        link.bridge.seal(&mut wire, 1, KIND_DATA, &[b'x'; 16]);
    }
    link.to_proxy = wire;
    link.proxy_takes();
    link.bridge.seen.clear();
    link.pump();
    // Told once; what came after was for a stream that is gone.
    assert_eq!(link.bridge.seen, vec![(1, KIND_CLOSE, 0)]);
    // What had arrived before is still there, and then comes the end.
    victim.got.clear();
    victim.pull(&mut link);
    assert_eq!(victim.got.len(), 1024 * 16);
    assert!(matches!(victim.splice.downlink(&mut link.session), RecvStep::End));
    let mut more = Bytes::from_static(b"more");
    assert!(matches!(
        victim.splice.uplink(&mut link.session, &mut more),
        SendStep::Broken
    ));

    bystander.pull(&mut link);
    assert_eq!(bystander.got, head_of(b"DSHC", 1, &link.key));
    let mut second = link.connect().unwrap();
    link.pump();
    second.pull(&mut link);
    assert_eq!(second.got, head_of(b"DSHC", 1, &link.key));
}

/// Cutting the link's bytes anywhere changes nothing of what they say.
#[test]
fn frames_decode_however_they_are_cut() {
    let mut link = Link::new(8);
    let mut wire = BytesMut::new();
    link.bridge.seal(&mut wire, 0, KIND_DATA, &[]);
    link.bridge.seal(&mut wire, 0, KIND_DATA, b"again");
    let mut echoed = 0;
    for byte in wire.to_vec() {
        link.to_proxy.extend_from_slice(&[byte]);
        while let Some(frame) = link.decoder.decode(&mut link.to_proxy).unwrap() {
            assert!(matches!(link.session.on_frame(frame), Ok(Reaction::Reply(_))));
            echoed += 1;
        }
    }
    assert_eq!(echoed, 2);
}
