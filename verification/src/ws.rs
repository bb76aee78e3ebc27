//! A WebSocket server, cut down to exactly what a byte pipe needs.
//!
//! This is not a WebSocket library: message boundaries carry no meaning here,
//! and every data frame's payload is simply appended to the stream. Control
//! frames are the only ones that mean anything.
//!
//! `WsStream` holds the three buffers of one connection and decides what each
//! of them does next; moving bytes between it and a socket is its caller's
//! part.

use bytes::{Bytes, BytesMut};
use vstd::prelude::*;

use vstd::utf8::encode_utf8;

use crate::buf::{advance, as_slice, content, held, put_u16, put_u64, put_u8, set_byte};
use crate::crypto::{
    base64_text, encode_base64, sha1, sha1_digest, MAX_DIGEST_INPUT,
};
use crate::wire::{
    be16, be16_value, be64, be64_value, law_be16_round_trip, law_be64_round_trip,
    law_most_significant_byte_first, read_be16, read_be32,
};

verus! {

/// The constant that RFC 6455 makes every server mix into the accept key.
pub const GUID: &'static str = "258EAFA5-E914-47DA-95CA-C5AB0DC85B11";

/// A frame larger than this is not a client of ours; it is a memory attack.
pub const MAX_FRAME: usize = 16777216;

/// Outgoing payload per frame. Bigger frames save header bytes and cost
/// latency; the mux already hands us work in chunks well under this.
pub const MAX_SEND: usize = 65536;

pub const OP_CONTINUATION: u8 = 0x0;

pub const OP_TEXT: u8 = 0x1;

pub const OP_BINARY: u8 = 0x2;

pub const OP_CLOSE: u8 = 0x8;

pub const OP_PING: u8 = 0x9;

pub const OP_PONG: u8 = 0xa;

/// Why a WebSocket connection cannot go on.
#[derive(Debug, Clone, Copy, PartialEq, Eq, Structural)]
pub enum WsError {
    /// The announced payload is over `MAX_FRAME`.
    TooLarge,
    /// A client must mask. An unmasked client frame is either a broken
    /// implementation or someone hand-rolling traffic at us.
    Unmasked,
    /// An opcode that means nothing here.
    UnknownOpcode,
    /// The socket takes no more bytes.
    Closed,
}

impl WsError {
    /// The message shown for this error.
    pub fn message(&self) -> (text: &'static str)
        ensures
            text@ == (match *self {
                WsError::TooLarge => "websocket frame is too large"@,
                WsError::Unmasked => "client frame is not masked"@,
                WsError::UnknownOpcode => "unknown websocket opcode"@,
                WsError::Closed => "websocket closed"@,
            }),
    {
        match self {
            WsError::TooLarge => "websocket frame is too large",
            WsError::Unmasked => "client frame is not masked",
            WsError::UnknownOpcode => "unknown websocket opcode",
            WsError::Closed => "websocket closed",
        }
    }
}

/// The answer to a client's key, which is taken as bytes.
pub open spec fn accept_text(client_key: Seq<u8>) -> Seq<char> {
    base64_text(sha1_digest(client_key + encode_utf8(GUID@)))
}

/// The `Sec-WebSocket-Accept` answer to a client's `Sec-WebSocket-Key`: the
/// base64 of the SHA-1 of the key followed by `GUID`.
///
/// SHA-1 is not a security choice here: RFC 6455 fixes it, and the value
/// proves only that a WebSocket server answered.
pub fn accept_key(client_key: &str) -> (answer: String)
    requires
        encode_utf8(client_key@ + GUID@).len() <= MAX_DIGEST_INPUT,
    ensures
        answer@ == accept_text(encode_utf8(client_key@)),
        answer@ == base64_text(sha1_digest(encode_utf8(client_key@ + GUID@))),
{
    proof {
        lemma_encoded_end_to_end(client_key@, GUID@);
    }
    accept_bytes(client_key.as_bytes())
}

/// The answer to a client's key, given as bytes.
pub fn accept_bytes(client_key: &[u8]) -> (answer: String)
    requires
        client_key@.len() + encode_utf8(GUID@).len() <= MAX_DIGEST_INPUT,
    ensures
        answer@ == accept_text(client_key@),
{
    let mut input: Vec<u8> = Vec::new();
    input.extend_from_slice(client_key);
    input.extend_from_slice(GUID.as_bytes());
    assert(input@ =~= client_key@ + encode_utf8(GUID@));
    encode_base64(sha1(input.as_slice()).as_slice())
}

/// Texts end to end are encoded end to end.
proof fn lemma_encoded_end_to_end(a: Seq<char>, b: Seq<char>)
    ensures
        encode_utf8(a + b) == encode_utf8(a) + encode_utf8(b),
    decreases a.len(),
{
    if a.len() == 0 {
        assert(a + b =~= b);
        assert(encode_utf8(a) + encode_utf8(b) =~= encode_utf8(b));
    } else {
        lemma_encoded_end_to_end(a.drop_first(), b);
        assert((a + b).drop_first() =~= a.drop_first() + b);
        assert(encode_utf8(a + b) =~= encode_utf8(a) + encode_utf8(b));
    }
}

/// What the front of a byte stream holds.
pub enum Parse {
    /// Not a whole frame yet.
    Partial,
    /// A frame over `MAX_FRAME`.
    TooLarge,
    /// A frame without the mask that a client must apply.
    Unmasked,
    /// A whole frame: its opcode, its unmasked payload, and its size on the wire.
    Frame { opcode: u8, payload: Seq<u8>, size: nat },
}

/// The payload length that a frame head announces and the number of bytes the
/// head takes before the mask, or `None` while the head is not all there.
pub open spec fn announced(s: Seq<u8>) -> Option<(int, int)> {
    if s.len() < 2 {
        None
    } else {
        let short = s[1] & 0x7f;
        if short == 126 {
            if s.len() < 4 {
                None
            } else {
                Some((be16_value(s.skip(2)), 4))
            }
        } else if short == 127 {
            if s.len() < 10 {
                None
            } else {
                Some((be64_value(s.skip(2)), 10))
            }
        } else {
            Some((short as int, 2))
        }
    }
}

/// `data` with the four-byte `mask` applied cyclically. Applying it twice
/// gives the data back.
pub open spec fn masked(data: Seq<u8>, mask: Seq<u8>) -> Seq<u8> {
    Seq::new(data.len(), |i: int| data[i] ^ mask[i % 4])
}

/// Read one client frame off the front of `s`.
pub open spec fn parse(s: Seq<u8>) -> Parse {
    match announced(s) {
        None => Parse::Partial,
        Some((length, offset)) => {
            if length > MAX_FRAME {
                Parse::TooLarge
            } else if s[1] & 0x80 == 0 {
                Parse::Unmasked
            } else if s.len() < offset + 4 + length {
                Parse::Partial
            } else {
                Parse::Frame {
                    opcode: s[0] & 0x0f,
                    payload: masked(
                        s.subrange(offset + 4, offset + 4 + length),
                        s.subrange(offset, offset + 4),
                    ),
                    size: (offset + 4 + length) as nat,
                }
            }
        },
    }
}

/// The length field of a frame head for `n` payload bytes, with `bit` as the
/// mask bit.
pub open spec fn length_field(n: nat, bit: u8) -> Seq<u8> {
    if n < 126 {
        seq![bit | n as u8]
    } else if n <= 0xffff {
        seq![bit | 126] + be16(n as u16)
    } else {
        seq![bit | 127] + be64(n as u64)
    }
}

/// One server frame: final, never masked.
pub open spec fn server_frame(opcode: u8, payload: Seq<u8>) -> Seq<u8> {
    seq![0x80 | opcode] + length_field(payload.len(), 0) + payload
}

/// One client frame, masked with `mask`. Its first byte holds the FIN bit, the
/// reserved bits and the opcode.
pub open spec fn client_frame(first: u8, payload: Seq<u8>, mask: Seq<u8>) -> Seq<u8> {
    seq![first] + length_field(payload.len(), 0x80) + mask + masked(payload, mask)
}

/// The buffers of one connection, as values.
pub struct WsView {
    /// Bytes read from the socket that are not yet a whole frame.
    pub incoming: Seq<u8>,
    /// Payload bytes waiting for the reader.
    pub plain: Seq<u8>,
    /// Frames waiting for the socket.
    pub outgoing: Seq<u8>,
    /// Whether the stream ends once `plain` is drained.
    pub closed: bool,
}

/// What a whole frame does to a connection.
pub open spec fn applied(v: WsView, opcode: u8, payload: Seq<u8>) -> (WsView, Result<bool, WsError>) {
    if opcode == OP_CONTINUATION || opcode == OP_TEXT || opcode == OP_BINARY {
        (WsView { plain: v.plain + payload, ..v }, Ok(true))
    } else if opcode == OP_CLOSE {
        (WsView { closed: true, ..v }, Ok(true))
    } else if opcode == OP_PING {
        (WsView { outgoing: v.outgoing + server_frame(OP_PONG, payload), ..v }, Ok(true))
    } else if opcode == OP_PONG {
        (v, Ok(true))
    } else {
        (v, Err(WsError::UnknownOpcode))
    }
}

/// What taking one frame out of `incoming` does and answers.
pub open spec fn decoded(v: WsView) -> (WsView, Result<bool, WsError>) {
    match parse(v.incoming) {
        Parse::Partial => (v, Ok(false)),
        Parse::TooLarge => (v, Err(WsError::TooLarge)),
        Parse::Unmasked => (v, Err(WsError::Unmasked)),
        Parse::Frame { opcode, payload, size } => applied(
            WsView { incoming: v.incoming.skip(size as int), ..v },
            opcode,
            payload,
        ),
    }
}

/// The connection with one more frame for the socket.
pub open spec fn with_frame(v: WsView, opcode: u8, payload: Seq<u8>) -> WsView {
    WsView { outgoing: v.outgoing + server_frame(opcode, payload), ..v }
}

/// The connection after a write, and how much of the data it took.
pub open spec fn written(v: WsView, data: Seq<u8>) -> (WsView, int) {
    let taken = if data.len() < MAX_SEND {
        data.len() as int
    } else {
        MAX_SEND as int
    };
    (with_frame(v, OP_BINARY, data.take(taken)), taken)
}

/// The connection once this side has closed it.
pub open spec fn shut(v: WsView) -> WsView {
    if v.closed {
        v
    } else {
        WsView { closed: true, ..with_frame(v, OP_CLOSE, Seq::empty()) }
    }
}

/// What a read comes to.
pub enum Asked {
    Ready(Seq<u8>),
    Decoded,
    Closed,
    NeedInput,
    Broken(WsError),
}

/// What a read of at most `room` bytes comes to.
pub open spec fn asked(v: WsView, room: nat) -> Asked {
    if v.plain.len() > 0 {
        Asked::Ready(
            v.plain.take(
                if v.plain.len() < room {
                    v.plain.len() as int
                } else {
                    room as int
                },
            ),
        )
    } else {
        match decoded(v).1 {
            Ok(true) => Asked::Decoded,
            Ok(false) => if v.closed {
                Asked::Closed
            } else {
                Asked::NeedInput
            },
            Err(error) => Asked::Broken(error),
        }
    }
}

/// What a reader is to do next.
pub enum ReadStep {
    /// These bytes are for the reader.
    Ready(Bytes),
    /// A frame was taken in; a pong may be waiting for the socket. Ask again.
    Decoded,
    /// The peer closed; nothing more will come.
    Closed,
    /// More bytes from the socket are needed.
    NeedInput,
}

/// One WebSocket connection, presented as the byte stream it carries.
pub struct WsStream {
    incoming: BytesMut,
    plain: BytesMut,
    outgoing: BytesMut,
    closed: bool,
}

impl View for WsStream {
    type V = WsView;

    closed spec fn view(&self) -> WsView {
        WsView {
            incoming: held(self.incoming),
            plain: held(self.plain),
            outgoing: held(self.outgoing),
            closed: self.closed,
        }
    }
}

impl WsStream {
    /// A connection with nothing read and nothing to write.
    pub fn new() -> (stream: Self)
        ensures
            stream@ == (WsView {
                incoming: Seq::empty(),
                plain: Seq::empty(),
                outgoing: Seq::empty(),
                closed: false,
            }),
    {
        WsStream {
            incoming: BytesMut::new(),
            plain: BytesMut::new(),
            outgoing: BytesMut::new(),
            closed: false,
        }
    }

    /// Stage one server frame. Server frames are never masked.
    pub fn frame(&mut self, opcode: u8, payload: &[u8])
        ensures
            final(self)@ == with_frame(old(self)@, opcode, payload@),
            final(self)@ == (WsView {
                outgoing: old(self)@.outgoing + server_frame(opcode, payload@),
                ..old(self)@
            }),
    {
        put_u8(&mut self.outgoing, 0x80 | opcode);
        let n: usize = payload.len();
        if n < 126 {
            put_u8(&mut self.outgoing, n as u8);
            assert(0u8 | n as u8 == n as u8) by (bit_vector);
        } else if n <= 0xffff {
            put_u8(&mut self.outgoing, 126);
            put_u16(&mut self.outgoing, n as u16);
            assert(0u8 | 126u8 == 126u8) by (bit_vector);
        } else {
            put_u8(&mut self.outgoing, 127);
            put_u64(&mut self.outgoing, n as u64);
            assert(0u8 | 127u8 == 127u8) by (bit_vector);
        }
        self.outgoing.extend_from_slice(payload);
        assert(held(self.outgoing) =~= held(old(self).outgoing) + server_frame(opcode, payload@));
    }

    /// Take one complete frame out of `incoming`.
    ///
    /// Returns whether a frame was consumed; payload lands in `plain`.
    pub fn decode(&mut self) -> (taken: Result<bool, WsError>)
        ensures
            (final(self)@, taken) == decoded(old(self)@),
    {
        let ghost before = held(self.incoming);
        let bytes = as_slice(&self.incoming);
        let have: usize = bytes.len();
        if have < 2 {
            return Ok(false);
        }
        let first: u8 = bytes[0];
        let second: u8 = bytes[1];
        let opcode: u8 = first & 0x0f;
        let short: u8 = second & 0x7f;
        let length: u64;
        let offset: usize;
        if short == 126 {
            if have < 4 {
                return Ok(false);
            }
            length = read_be16(bytes[2], bytes[3]) as u64;
            offset = 4;
        } else if short == 127 {
            if have < 10 {
                return Ok(false);
            }
            let high: u32 = read_be32(bytes[2], bytes[3], bytes[4], bytes[5]);
            let low: u32 = read_be32(bytes[6], bytes[7], bytes[8], bytes[9]);
            length = high as u64 * 0x1_0000_0000 + low as u64;
            offset = 10;
            assert(before.skip(2).skip(4)[0] == before[6]);
        } else {
            length = short as u64;
            offset = 2;
        }
        assert(announced(before) == Some((length as int, offset as int)));
        if length > MAX_FRAME as u64 {
            return Err(WsError::TooLarge);
        }
        if second & 0x80 == 0 {
            return Err(WsError::Unmasked);
        }
        if have < offset + 4 {
            return Ok(false);
        }
        let mask: [u8; 4] = [bytes[offset], bytes[offset + 1], bytes[offset + 2], bytes[offset + 3]];
        let size: usize = length as usize;
        if have < offset + 4 + size {
            return Ok(false);
        }
        advance(&mut self.incoming, offset + 4);
        let mut payload: BytesMut = self.incoming.split_to(size);
        let ghost sealed = before.subrange(offset + 4, offset + 4 + size);
        let ghost key = before.subrange(offset as int, offset + 4);
        assert(held(payload) =~= sealed);
        assert(held(self.incoming) =~= before.skip(offset + 4 + size));
        assert(mask@ =~= key);
        let mut index: usize = 0;
        while index < size
            invariant
                index <= size,
                size == sealed.len(),
                mask@ == key,
                held(payload).len() == size,
                forall|i: int| 0 <= i < index ==> held(payload)[i] == sealed[i] ^ key[i % 4],
                forall|i: int| index <= i < size ==> held(payload)[i] == sealed[i],
            decreases size - index,
        {
            let byte: u8 = as_slice(&payload)[index];
            set_byte(&mut payload, index, byte ^ mask[index % 4]);
            index += 1;
        }
        assert(held(payload) =~= masked(sealed, key));
        if opcode == OP_CONTINUATION || opcode == OP_TEXT || opcode == OP_BINARY {
            // A pipe cares about bytes, not messages, so a fragment is just
            // more stream and FIN means nothing.
            self.plain.unsplit(payload);
        } else if opcode == OP_CLOSE {
            self.closed = true;
        } else if opcode == OP_PING {
            self.frame(OP_PONG, as_slice(&payload));
        } else if opcode == OP_PONG {
        } else {
            return Err(WsError::UnknownOpcode);
        }
        Ok(true)
    }

    /// One step of a read of at most `room` bytes.
    ///
    /// What is already buffered comes before asking for more: the socket can
    /// fall quiet exactly on a frame boundary, and a reader that waits for more
    /// bytes with a whole frame in hand hangs.
    pub fn poll_read(&mut self, room: usize) -> (step: Result<ReadStep, WsError>)
        ensures
            match asked(old(self)@, room as nat) {
                Asked::Ready(said) => step matches Ok(ReadStep::Ready(bytes)) && content(bytes)
                    == said,
                Asked::Decoded => step == Ok::<ReadStep, WsError>(ReadStep::Decoded),
                Asked::Closed => step == Ok::<ReadStep, WsError>(ReadStep::Closed),
                Asked::NeedInput => step == Ok::<ReadStep, WsError>(ReadStep::NeedInput),
                Asked::Broken(error) => step == Err::<ReadStep, WsError>(error),
            },
            final(self)@ == called(old(self)@, WsCall::Read(room as nat)).0,
            ({
                let before = old(self)@;
                let taken = if before.plain.len() < room { before.plain.len() as int } else { room as int };
                if before.plain.len() > 0 {
                    &&& step matches Ok(ReadStep::Ready(bytes)) && content(bytes) == before.plain.take(taken)
                    &&& final(self)@ == (WsView { plain: before.plain.skip(taken), ..before })
                } else {
                    &&& final(self)@ == decoded(before).0
                    &&& match decoded(before).1 {
                        Ok(true) => step == Ok::<ReadStep, WsError>(ReadStep::Decoded),
                        Ok(false) if before.closed => step == Ok::<ReadStep, WsError>(ReadStep::Closed),
                        Ok(false) => step == Ok::<ReadStep, WsError>(ReadStep::NeedInput),
                        Err(error) => step == Err::<ReadStep, WsError>(error),
                    }
                }
            }),
    {
        let waiting: usize = self.plain.len();
        if waiting > 0 {
            let taken: usize = if waiting < room {
                waiting
            } else {
                room
            };
            return Ok(ReadStep::Ready(self.plain.split_to(taken).freeze()));
        }
        match self.decode() {
            Ok(true) => Ok(ReadStep::Decoded),
            Ok(false) => if self.closed {
                Ok(ReadStep::Closed)
            } else {
                Ok(ReadStep::NeedInput)
            },
            Err(error) => Err(error),
        }
    }

    /// Take in bytes that the socket delivered.
    pub fn receive(&mut self, data: &[u8])
        ensures
            final(self)@ == called(old(self)@, WsCall::Receive(data@)).0,
            final(self)@ == (WsView { incoming: old(self)@.incoming + data@, ..old(self)@ }),
    {
        self.incoming.extend_from_slice(data);
    }

    /// Stage the front of `data` as one binary frame, and say how much of it
    /// that was.
    pub fn poll_write(&mut self, data: &[u8]) -> (taken: usize)
        ensures
            (final(self)@, taken as int) == written(old(self)@, data@),
            taken == if data@.len() < MAX_SEND { data@.len() as int } else { MAX_SEND as int },
            final(self)@ == (WsView {
                outgoing: old(self)@.outgoing + server_frame(OP_BINARY, data@.take(taken as int)),
                ..old(self)@
            }),
    {
        let taken: usize = if data.len() < MAX_SEND {
            data.len()
        } else {
            MAX_SEND
        };
        self.frame(OP_BINARY, vstd::slice::slice_subrange(data, 0, taken));
        taken
    }

    /// Stage a close frame, unless the stream is closed already.
    pub fn poll_shutdown(&mut self)
        ensures
            final(self)@ == shut(old(self)@),
            final(self)@ == (if old(self)@.closed {
                old(self)@
            } else {
                WsView {
                    outgoing: old(self)@.outgoing + server_frame(OP_CLOSE, Seq::empty()),
                    closed: true,
                    ..old(self)@
                }
            }),
    {
        if !self.closed {
            let nothing: [u8; 0] = [];
            self.frame(OP_CLOSE, &nothing);
            self.closed = true;
            assert(nothing@ =~= Seq::<u8>::empty());
        }
    }

    /// The frames waiting for the socket.
    pub fn staged(&self) -> (frames: &[u8])
        ensures
            frames@ == self@.outgoing,
    {
        as_slice(&self.outgoing)
    }

    /// Account for `n` staged bytes that the socket took. A socket that takes
    /// none is closed.
    pub fn drained(&mut self, n: usize) -> (outcome: Result<(), WsError>)
        requires
            n <= old(self)@.outgoing.len(),
        ensures
            n == 0 ==> outcome == Err::<(), WsError>(WsError::Closed),
            n > 0 ==> outcome == Ok::<(), WsError>(()),
            final(self)@ == (WsView { outgoing: old(self)@.outgoing.skip(n as int), ..old(self)@ }),
    {
        if n == 0 {
            assert(self@.outgoing.skip(0) =~= self@.outgoing);
            return Err(WsError::Closed);
        }
        advance(&mut self.outgoing, n);
        Ok(())
    }
}

/// A frame read off the front of a stream is the same frame however much of
/// the stream has arrived behind it.
pub proof fn law_later_bytes_change_no_frame(s: Seq<u8>, later: Seq<u8>)
    requires
        !(parse(s) is Partial),
    ensures
        parse(s + later) == parse(s),
{
    let all = s + later;
    assert(announced(all) == announced(s)) by {
        assert(all[0] == s[0] && all[1] == s[1]);
        if s.len() >= 10 {
            assert(all.skip(2).skip(4)[0] == s.skip(2).skip(4)[0]);
        }
    }
    match announced(s) {
        None => {},
        Some((length, offset)) => {
            if length <= MAX_FRAME && s[1] & 0x80 != 0 {
                assert(all.subrange(offset + 4, offset + 4 + length) =~= s.subrange(
                    offset + 4,
                    offset + 4 + length,
                ));
                assert(all.subrange(offset, offset + 4) =~= s.subrange(offset, offset + 4));
            }
        },
    }
}

/// The front of a stream that a client framed reads back as the opcode and the
/// payload it framed, and takes exactly that frame's bytes. The FIN bit and the
/// reserved bits do not matter.
pub proof fn law_client_frame_reads_back(first: u8, payload: Seq<u8>, mask: Seq<u8>, later: Seq<u8>)
    requires
        payload.len() <= MAX_FRAME,
        mask.len() == 4,
    ensures
        parse(client_frame(first, payload, mask) + later) == (Parse::Frame {
            opcode: first & 0x0f,
            payload,
            size: client_frame(first, payload, mask).len(),
        }),
{
    let n = payload.len();
    let field = length_field(n, 0x80);
    let frame = client_frame(first, payload, mask);
    let s = frame + later;
    let offset = 1 + field.len() as int;
    assert(s =~= seq![first] + field + (mask + masked(payload, mask) + later));
    lemma_announced(first, n, 0x80, mask + masked(payload, mask) + later);
    assert(s.subrange(offset, offset + 4) =~= mask);
    assert(s.subrange(offset + 4, offset + 4 + n) =~= masked(payload, mask));
    assert(masked(masked(payload, mask), mask) =~= payload) by {
        assert forall|i: int| 0 <= i < n implies #[trigger] masked(masked(payload, mask), mask)[i]
            == payload[i] by {
            let a = payload[i];
            let b = mask[i % 4];
            assert((a ^ b) ^ b == a) by (bit_vector);
        }
    }
}

/// A client that reads a server frame's head finds no mask, the opcode, the
/// payload's length, and the payload right behind.
pub proof fn law_server_frame_reads_back(opcode: u8, payload: Seq<u8>, later: Seq<u8>)
    requires
        opcode < 16,
        payload.len() <= u64::MAX,
    ensures
        ({
            let s = server_frame(opcode, payload) + later;
            &&& s[0] & 0x0f == opcode
            &&& s[1] & 0x80 == 0
            &&& announced(s) matches Some((length, offset)) && {
                &&& length == payload.len()
                &&& s.subrange(offset, offset + length) == payload
                &&& s.skip(offset + length) == later
            }
        }),
{
    let n = payload.len();
    let field = length_field(n, 0);
    let s = server_frame(opcode, payload) + later;
    let offset = 1 + field.len() as int;
    assert((0x80 | opcode) & 0x0f == opcode) by (bit_vector)
        requires
            opcode < 16,
    ;
    assert(s =~= seq![0x80 | opcode] + field + (payload + later));
    lemma_announced(0x80 | opcode, n, 0, payload + later);
    assert(s.subrange(offset, offset + n) =~= payload);
    assert(s.skip(offset + n) =~= later);
}

proof fn lemma_announced(first: u8, n: nat, bit: u8, later: Seq<u8>)
    requires
        n <= u64::MAX,
        bit == 0 || bit == 0x80,
    ensures
        ({
            let field = length_field(n, bit);
            let s = seq![first] + field + later;
            &&& announced(s) == Some((n as int, 1 + field.len() as int))
            &&& (s[1] & 0x80 == 0) == (bit == 0)
        }),
{
    let field = length_field(n, bit);
    let s = seq![first] + field + later;
    assert(s[1] == field[0]);
    if n < 126 {
        let m = n as u8;
        assert((bit | m) & 0x7f == m && ((bit | m) & 0x80 == 0) == (bit == 0)) by (bit_vector)
            requires
                m < 126,
                bit == 0 || bit == 0x80,
        ;
    } else if n <= 0xffff {
        assert((bit | 126) & 0x7f == 126 && ((bit | 126) & 0x80 == 0) == (bit == 0)) by (bit_vector)
            requires
                bit == 0 || bit == 0x80,
        ;
        law_be16_round_trip(n as u16);
        assert(s.skip(2)[0] == be16(n as u16)[0]);
        assert(s.skip(2)[1] == be16(n as u16)[1]);
    } else {
        assert((bit | 127) & 0x7f == 127 && ((bit | 127) & 0x80 == 0) == (bit == 0)) by (bit_vector)
            requires
                bit == 0 || bit == 0x80,
        ;
        law_be64_round_trip(n as u64);
        let t = s.skip(2);
        assert(forall|i: int| 0 <= i < 8 ==> t[i] == be64(n as u64)[i]);
        assert(forall|i: int| 0 <= i < 4 ==> t.skip(4)[i] == be64(n as u64).skip(4)[i]);
    }
}

/// Take every whole frame out of `incoming`, and say what stopped it.
pub open spec fn settled(v: WsView) -> (WsView, Option<WsError>)
    decreases v.incoming.len(),
{
    match decoded(v) {
        (w, Ok(true)) => settled(w),
        (w, Ok(false)) => (w, None),
        (w, Err(error)) => (w, Some(error)),
    }
}

/// Where the socket's reads fall does not matter: bytes taken in and settled
/// in two parts leave the connection as the same bytes in one part do.
pub proof fn law_reads_may_split_anywhere(v: WsView, first: Seq<u8>, second: Seq<u8>)
    requires
        settled(WsView { incoming: v.incoming + first, ..v }).1 is None,
    ensures
        ({
            let half = settled(WsView { incoming: v.incoming + first, ..v }).0;
            settled(WsView { incoming: half.incoming + second, ..half }) == settled(
                WsView { incoming: v.incoming + first + second, ..v },
            )
        }),
    decreases v.incoming.len() + first.len(),
{
    let start = WsView { incoming: v.incoming + first, ..v };
    let whole = WsView { incoming: v.incoming + first + second, ..v };
    match parse(start.incoming) {
        Parse::Frame { opcode, payload, size } => {
            law_later_bytes_change_no_frame(start.incoming, second);
            let next = decoded(start).0;
            assert(whole.incoming.skip(size as int) =~= start.incoming.skip(size as int) + second);
            let empty = Seq::<u8>::empty();
            assert(next.incoming + empty =~= next.incoming);
            law_reads_may_split_anywhere(next, empty, second);
        },
        _ => {},
    }
}

/// A client's frame: its first byte, its payload and its mask.
pub type ClientFrame = (u8, Seq<u8>, Seq<u8>);

/// Whether a frame carries bytes of the stream.
pub open spec fn carries(frame: ClientFrame) -> bool {
    let opcode = frame.0 & 0x0f;
    opcode == OP_CONTINUATION || opcode == OP_TEXT || opcode == OP_BINARY
}

/// Whether a frame is one that a client of a byte pipe may send before it
/// closes: data, a ping or a pong.
pub open spec fn ordinary(frame: ClientFrame) -> bool {
    let opcode = frame.0 & 0x0f;
    &&& carries(frame) || opcode == OP_PING || opcode == OP_PONG
    &&& frame.1.len() <= MAX_FRAME
    &&& frame.2.len() == 4
}

/// The payloads of the data frames among `frames`, end to end.
pub open spec fn payloads(frames: Seq<ClientFrame>) -> Seq<u8>
    decreases frames.len(),
{
    if frames.len() == 0 {
        Seq::empty()
    } else if carries(frames[0]) {
        frames[0].1 + payloads(frames.skip(1))
    } else {
        payloads(frames.skip(1))
    }
}

/// The pongs that the pings among `frames` are owed, end to end.
pub open spec fn pongs(frames: Seq<ClientFrame>) -> Seq<u8>
    decreases frames.len(),
{
    if frames.len() == 0 {
        Seq::empty()
    } else if frames[0].0 & 0x0f == OP_PING {
        server_frame(OP_PONG, frames[0].1) + pongs(frames.skip(1))
    } else {
        pongs(frames.skip(1))
    }
}

/// The bytes of `frames`, end to end.
pub open spec fn framed(frames: Seq<ClientFrame>) -> Seq<u8>
    decreases frames.len(),
{
    if frames.len() == 0 {
        Seq::empty()
    } else {
        client_frame(frames[0].0, frames[0].1, frames[0].2) + framed(frames.skip(1))
    }
}

/// What whole frames leave: the bytes of the data frames for the reader, and a
/// pong for each ping.
proof fn lemma_frames_settle(v: WsView, frames: Seq<ClientFrame>)
    requires
        v.incoming.len() == 0,
        forall|i: int| 0 <= i < frames.len() ==> ordinary(#[trigger] frames[i]),
    ensures
        settled(WsView { incoming: framed(frames), ..v }) == (
            WsView {
                plain: v.plain + payloads(frames),
                outgoing: v.outgoing + pongs(frames),
                ..v
            },
            None::<WsError>,
        ),
    decreases frames.len(),
{
    if frames.len() == 0 {
        assert(v.incoming =~= framed(frames));
        assert(v.plain + payloads(frames) =~= v.plain);
        assert(v.outgoing + pongs(frames) =~= v.outgoing);
    } else {
        let (first, payload, mask) = frames[0];
        let rest = frames.skip(1);
        let frame = client_frame(first, payload, mask);
        assert(ordinary(frames[0]));
        law_client_frame_reads_back(first, payload, mask, framed(rest));
        assert((frame + framed(rest)).skip(frame.len() as int) =~= framed(rest));
        let start = WsView { incoming: framed(frames), ..v };
        let taken = decoded(start).0;
        let next = WsView { incoming: v.incoming, ..taken };
        assert forall|i: int| 0 <= i < rest.len() implies ordinary(#[trigger] rest[i]) by {
            assert(rest[i] == frames[i + 1]);
        }
        lemma_frames_settle(next, rest);
        assert(taken == WsView { incoming: framed(rest), ..next });
        assert(v.plain + payload + payloads(rest) =~= v.plain + (payload + payloads(rest)));
        let pong = server_frame(OP_PONG, payload);
        assert(v.outgoing + pong + pongs(rest) =~= v.outgoing + (pong + pongs(rest)));
    }
}

/// One call on a connection.
pub enum WsCall {
    /// The socket delivered these bytes.
    Receive(Seq<u8>),
    /// A read of at most so many bytes.
    Read(nat),
}

/// The connection after a call, and the bytes that the call hands to the reader.
pub open spec fn called(v: WsView, call: WsCall) -> (WsView, Seq<u8>) {
    match call {
        WsCall::Receive(data) => (WsView { incoming: v.incoming + data, ..v }, Seq::empty()),
        WsCall::Read(room) => if v.plain.len() > 0 {
            let taken = if v.plain.len() < room {
                v.plain.len() as int
            } else {
                room as int
            };
            (WsView { plain: v.plain.skip(taken), ..v }, v.plain.take(taken))
        } else {
            (decoded(v).0, Seq::empty())
        },
    }
}

/// The connection after a run of calls, and all bytes that the run hands to the
/// reader.
pub open spec fn called_all(v: WsView, calls: Seq<WsCall>) -> (WsView, Seq<u8>)
    decreases calls.len(),
{
    if calls.len() == 0 {
        (v, Seq::empty())
    } else {
        let (next, first) = called(v, calls[0]);
        let (end, rest) = called_all(next, calls.skip(1));
        (end, first + rest)
    }
}

/// The bytes that a call takes in from the socket.
pub open spec fn taken_in(call: WsCall) -> Seq<u8> {
    match call {
        WsCall::Receive(data) => data,
        WsCall::Read(_) => Seq::empty(),
    }
}

/// All bytes that a run of calls takes in from the socket.
pub open spec fn received(calls: Seq<WsCall>) -> Seq<u8>
    decreases calls.len(),
{
    if calls.len() == 0 {
        Seq::empty()
    } else {
        taken_in(calls[0]) + received(calls.skip(1))
    }
}

/// A connection with more bytes behind those it has read.
pub open spec fn with_input(v: WsView, later: Seq<u8>) -> WsView {
    WsView { incoming: v.incoming + later, ..v }
}

/// Bytes that wait for the reader stay in front of what is decoded behind them.
proof fn lemma_plain_in_front(v: WsView, front: Seq<u8>)
    ensures
        settled(WsView { plain: front + v.plain, ..v }) == (
            WsView { plain: front + settled(v).0.plain, ..settled(v).0 },
            settled(v).1,
        ),
    decreases v.incoming.len(),
{
    let ahead = WsView { plain: front + v.plain, ..v };
    if let Parse::Frame { opcode, payload, size } = parse(v.incoming) {
        let next = decoded(v).0;
        assert(front + (v.plain + payload) =~= (front + v.plain) + payload);
        assert(decoded(ahead).0 == WsView { plain: front + next.plain, ..next });
        if decoded(v).1 is Ok {
            lemma_plain_in_front(next, front);
        }
    }
}

/// A frame that is taken out now is one that need not be taken out later.
proof fn lemma_decoding_settles(v: WsView, later: Seq<u8>)
    requires
        settled(with_input(v, later)).1 is None,
    ensures
        settled(with_input(decoded(v).0, later)) == settled(with_input(v, later)),
{
    let all = with_input(v, later);
    if !(parse(v.incoming) is Partial) {
        law_later_bytes_change_no_frame(v.incoming, later);
        if let Parse::Frame { opcode, payload, size } = parse(v.incoming) {
            assert(all.incoming.skip(size as int) =~= v.incoming.skip(size as int) + later);
            assert(decoded(all).0 == with_input(decoded(v).0, later));
        }
    }
}

/// What a call hands to the reader comes off the front of what is still to come.
proof fn lemma_call_settles(v: WsView, call: WsCall, later: Seq<u8>)
    requires
        settled(with_input(v, taken_in(call) + later)).1 is None,
    ensures
        ({
            let (next, first) = called(v, call);
            let left = settled(with_input(next, later));
            &&& left.1 is None
            &&& settled(with_input(v, taken_in(call) + later)).0 == WsView {
                plain: first + left.0.plain,
                ..left.0
            }
        }),
{
    let (next, first) = called(v, call);
    let left = with_input(next, later);
    let all = with_input(v, taken_in(call) + later);
    match call {
        WsCall::Receive(data) => {
            assert(left.incoming =~= all.incoming);
            assert(first + settled(left).0.plain =~= settled(left).0.plain);
        },
        WsCall::Read(_) => {
            assert(all.incoming =~= v.incoming + later);
            if v.plain.len() > 0 {
                lemma_plain_in_front(left, first);
                assert(first + next.plain =~= v.plain);
            } else {
                lemma_decoding_settles(v, later);
                assert(first + settled(left).0.plain =~= settled(left).0.plain);
            }
        },
    }
}

/// How reads are cut does not matter, neither those from the socket nor those of
/// the reader: after any run of calls, what the reader has been handed, and what
/// it will still be handed, is what the bytes taken in all at once amount to; and
/// so are the frames for the socket.
pub proof fn law_reads_may_be_cut_anywhere(v: WsView, calls: Seq<WsCall>)
    requires
        settled(with_input(v, received(calls))).1 is None,
    ensures
        ({
            let (end, handed) = called_all(v, calls);
            let whole = settled(with_input(v, received(calls))).0;
            &&& settled(end).1 is None
            &&& whole == WsView { plain: handed + settled(end).0.plain, ..settled(end).0 }
        }),
    decreases calls.len(),
{
    if calls.len() == 0 {
        assert(v.incoming + received(calls) =~= v.incoming);
        assert(Seq::<u8>::empty() + settled(v).0.plain =~= settled(v).0.plain);
    } else {
        let rest = calls.skip(1);
        let (next, first) = called(v, calls[0]);
        lemma_call_settles(v, calls[0], received(rest));
        law_reads_may_be_cut_anywhere(next, rest);
        let (end, handed) = called_all(next, rest);
        assert(first + (handed + settled(end).0.plain) =~= (first + handed) + settled(end).0.plain);
    }
}

/// Message boundaries carry no meaning: however a client cuts its bytes into
/// frames, final or not, whatever pings and pongs come between, and however the
/// socket and the reader cut their reads, the reader is handed exactly the bytes
/// of the data frames, in order, and every ping is answered.
pub proof fn law_boundaries_carry_no_meaning(
    v: WsView,
    frames: Seq<ClientFrame>,
    calls: Seq<WsCall>,
)
    requires
        v.incoming.len() == 0,
        forall|i: int| 0 <= i < frames.len() ==> ordinary(#[trigger] frames[i]),
        received(calls) == framed(frames),
    ensures
        ({
            let (end, handed) = called_all(v, calls);
            &&& settled(end).1 is None
            &&& handed + settled(end).0.plain == v.plain + payloads(frames)
            &&& settled(end).0.outgoing == v.outgoing + pongs(frames)
            &&& settled(end).0.incoming.len() == 0
        }),
{
    lemma_frames_settle(v, frames);
    assert(v.incoming + received(calls) =~= framed(frames));
    law_reads_may_be_cut_anywhere(v, calls);
}

/// A ping is answered: its payload goes back in a pong, and the byte stream is
/// left alone.
pub proof fn law_ping_is_answered(
    v: WsView,
    first: u8,
    payload: Seq<u8>,
    mask: Seq<u8>,
    later: Seq<u8>,
)
    requires
        first & 0x0f == OP_PING,
        payload.len() <= MAX_FRAME,
        mask.len() == 4,
        v.incoming == client_frame(first, payload, mask) + later,
    ensures
        decoded(v) == (
            WsView {
                incoming: later,
                outgoing: v.outgoing + server_frame(OP_PONG, payload),
                ..v
            },
            Ok::<bool, WsError>(true),
        ),
{
    law_client_frame_reads_back(first, payload, mask, later);
    let frame = client_frame(first, payload, mask);
    assert((frame + later).skip(frame.len() as int) =~= later);
}

/// Where each part of a server's frame stands: the first byte is 128 and the
/// opcode, so that the frame is final and every client delivers it as one whole
/// message; the length takes one byte, three or nine, by its size; there is no
/// mask; and the payload is all that follows.
pub proof fn law_server_frame_layout(opcode: u8, payload: Seq<u8>)
    requires
        opcode < 16,
        payload.len() <= u64::MAX,
    ensures
        ({
            let s = server_frame(opcode, payload);
            let n = payload.len();
            &&& s[0] == 128 + opcode
            &&& n < 126 ==> s.len() == 2 + n && s[1] == n && s.skip(2) == payload
            &&& 126 <= n <= 65535 ==> s.len() == 4 + n && s[1] == 126 && s[2] * 256 + s[3] == n
                && s.skip(4) == payload
            &&& n > 65535 ==> s.len() == 10 + n && s[1] == 127 && (s[2] * 16777216 + s[3] * 65536
                + s[4] * 256 + s[5]) * 4294967296 + (s[6] * 16777216 + s[7] * 65536 + s[8] * 256
                + s[9]) == n && s.skip(10) == payload
        }),
{
    let s = server_frame(opcode, payload);
    let n = payload.len();
    assert((0x80 | opcode) == 128 + opcode) by (bit_vector)
        requires
            opcode < 16,
    ;
    let field = length_field(n, 0);
    assert(s.skip(1 + field.len() as int) =~= payload);
    assert forall|i: int| 0 <= i < field.len() implies s[1 + i] == #[trigger] field[i] by {}
    if n < 126 {
        let m = n as u8;
        assert(0u8 | m == m) by (bit_vector);
        assert(s[1] == field[0]);
    } else if n <= 0xffff {
        assert(0u8 | 126u8 == 126u8) by (bit_vector);
        law_be16_round_trip(n as u16);
        assert(s[1] == field[0] && s[2] == field[1] && s[3] == field[2]);
        assert(field[1] == be16(n as u16)[0] && field[2] == be16(n as u16)[1]);
    } else {
        assert(0u8 | 127u8 == 127u8) by (bit_vector);
        law_most_significant_byte_first(0, 0, n as u64, Seq::empty());
        assert(s[1] == field[0]);
        assert(s[2] == field[1] && s[3] == field[2] && s[4] == field[3] && s[5] == field[4]);
        assert(s[6] == field[5] && s[7] == field[6] && s[8] == field[7] && s[9] == field[8]);
        assert(field[1] == be64(n as u64)[0] && field[2] == be64(n as u64)[1]);
        assert(field[3] == be64(n as u64)[2] && field[4] == be64(n as u64)[3]);
        assert(field[5] == be64(n as u64)[4] && field[6] == be64(n as u64)[5]);
        assert(field[7] == be64(n as u64)[6] && field[8] == be64(n as u64)[7]);
    }
}

/// Whether the head of a client's frame announces so many bytes, and ends before
/// so many: the low seven bits of the second byte, or the two or the eight bytes
/// behind it.
pub open spec fn head_says(s: Seq<u8>, n: int, offset: int) -> bool {
    ||| offset == 2 && s.len() >= 2 && n == s[1] % 128 && n < 126
    ||| offset == 4 && s.len() >= 4 && s[1] % 128 == 126 && n == s[2] * 256 + s[3]
    ||| offset == 10 && s.len() >= 10 && s[1] % 128 == 127 && n == (s[2] * 16777216 + s[3] * 65536
        + s[4] * 256 + s[5]) * 4294967296 + (s[6] * 16777216 + s[7] * 65536 + s[8] * 256 + s[9])
}

/// What is read of a client's bytes, by their place: a frame over 16 MiB is
/// refused, and one without the mask bit; one that is not all there is waited
/// for; and otherwise the opcode is the low half of the first byte, the four
/// bytes behind the length are the mask, and every byte behind them is unmasked
/// by the mask byte in turn.
pub proof fn law_client_frame_is_read_by_place(s: Seq<u8>, n: int, offset: int)
    requires
        head_says(s, n, offset),
    ensures
        n > 16777216 ==> parse(s) is TooLarge,
        n <= 16777216 && s[1] < 128 ==> parse(s) is Unmasked,
        n <= 16777216 && s[1] >= 128 && s.len() < offset + 4 + n ==> parse(s) is Partial,
        n <= 16777216 && s[1] >= 128 && s.len() >= offset + 4 + n ==> (parse(
            s,
        ) matches Parse::Frame { opcode, payload, size } && {
            &&& opcode == s[0] % 16
            &&& size == offset + 4 + n
            &&& payload.len() == n
            &&& forall|i: int|
                0 <= i < n ==> (#[trigger] payload[i]) == s[offset + 4 + i] ^ s[offset + i % 4]
        }),
{
    let first = s[0];
    let second = s[1];
    assert(first & 0x0f == first % 16) by (bit_vector);
    assert(second & 0x7f == second % 128) by (bit_vector);
    assert((second & 0x80 == 0) <==> second < 128) by (bit_vector);
    if offset == 10 {
        law_most_significant_byte_first(0, 0, 0, s.skip(2));
    }
    assert(announced(s) == Some((n, offset)));
}

/// A head that is not all there is waited for.
pub proof fn law_partial_heads_are_waited_for(s: Seq<u8>)
    ensures
        s.len() < 2 ==> parse(s) is Partial,
        2 <= s.len() < 4 && s[1] % 128 == 126 ==> parse(s) is Partial,
        2 <= s.len() < 10 && s[1] % 128 == 127 ==> parse(s) is Partial,
{
    if s.len() >= 2 {
        let second = s[1];
        assert(second & 0x7f == second % 128) by (bit_vector);
    }
}

/// What each opcode does: 0, 1 and 2 append their payload to the stream, whole
/// and at its end; 8 closes; 9 is answered with the same payload under 10; 10 does
/// nothing; any other is refused. Nothing else changes, and the frame, and only
/// the frame, leaves the bytes that were read.
pub proof fn law_frames_do_what_their_opcode_says(v: WsView, opcode: u8, payload: Seq<u8>, size: nat)
    requires
        parse(v.incoming) == (Parse::Frame { opcode, payload, size }),
    ensures
        ({
            let (w, answer) = decoded(v);
            &&& w.incoming == v.incoming.skip(size as int)
            &&& w.plain == (if opcode <= 2 {
                v.plain + payload
            } else {
                v.plain
            })
            &&& w.closed == (v.closed || opcode == 8)
            &&& w.outgoing == (if opcode == 9 {
                v.outgoing + server_frame(10, payload)
            } else {
                v.outgoing
            })
            &&& answer == (if opcode <= 2 || 8 <= opcode <= 10 {
                Ok::<bool, WsError>(true)
            } else {
                Err::<bool, WsError>(WsError::UnknownOpcode)
            })
        }),
{
}

/// Where no frame can be taken out, nothing changes, and the answer says why.
pub proof fn law_nothing_is_taken_of_a_broken_frame(v: WsView)
    requires
        !(parse(v.incoming) is Frame),
    ensures
        decoded(v).0 == v,
        parse(v.incoming) is Partial ==> decoded(v).1 == Ok::<bool, WsError>(false),
        parse(v.incoming) is TooLarge ==> decoded(v).1 == Err::<bool, WsError>(WsError::TooLarge),
        parse(v.incoming) is Unmasked ==> decoded(v).1 == Err::<bool, WsError>(WsError::Unmasked),
{
}

/// A read hands out the front of what waits, as much as there is room for, and
/// never nothing while something waits and there is room.
pub proof fn law_reads_hand_out_the_front(v: WsView, room: nat)
    requires
        v.plain.len() > 0,
    ensures
        ({
            let (w, handed) = called(v, WsCall::Read(room));
            &&& handed.len() == (if v.plain.len() < room {
                v.plain.len()
            } else {
                room
            })
            &&& handed + w.plain == v.plain
            &&& w.incoming == v.incoming
            &&& w.outgoing == v.outgoing
            &&& w.closed == v.closed
        }),
{
    let (w, handed) = called(v, WsCall::Read(room));
    assert(handed + w.plain =~= v.plain);
}

/// The accept value is the base64 of the SHA-1 of the key and the constant that
/// the protocol fixes.
pub proof fn law_accept_value(key: Seq<u8>)
    ensures
        accept_text(key) == base64_text(
            sha1_digest(key + encode_utf8("258EAFA5-E914-47DA-95CA-C5AB0DC85B11"@)),
        ),
        MAX_SEND == 65536,
{
}

/// A write goes out as one final binary frame with the front of the data: all of
/// it, but at most 65536 bytes, and it says how many. Frames go out in the order
/// in which they were staged.
pub proof fn law_writes_go_out_as_binary_frames(v: WsView, data: Seq<u8>)
    ensures
        ({
            let n = if data.len() < 65536 {
                data.len() as int
            } else {
                65536
            };
            let (w, taken) = written(v, data);
            &&& taken == n
            &&& w.outgoing == v.outgoing + server_frame(2, data.take(n))
            &&& w.outgoing[v.outgoing.len() as int] == 130
            &&& w.incoming == v.incoming
            &&& w.plain == v.plain
            &&& w.closed == v.closed
        }),
{
    let n = if data.len() < 65536 {
        data.len() as int
    } else {
        65536
    };
    law_server_frame_layout(2, data.take(n));
    assert(written(v, data).0.outgoing[v.outgoing.len() as int] == server_frame(
        2,
        data.take(n),
    )[0]);
}

/// Staging a frame puts it behind all that waits for the socket, and changes
/// nothing else.
pub proof fn law_frames_are_staged_in_order(v: WsView, opcode: u8, payload: Seq<u8>)
    ensures
        with_frame(v, opcode, payload).outgoing == v.outgoing + server_frame(opcode, payload),
        with_frame(v, opcode, payload).incoming == v.incoming,
        with_frame(v, opcode, payload).plain == v.plain,
        with_frame(v, opcode, payload).closed == v.closed,
{
}

/// Closing says so to the peer once: an empty close frame, and nothing where the
/// connection is closed already.
pub proof fn law_closing_is_said_once(v: WsView)
    ensures
        v.closed ==> shut(v) == v,
        !v.closed ==> {
            &&& shut(v).closed
            &&& shut(v).outgoing == v.outgoing + seq![136u8, 0]
            &&& shut(v).incoming == v.incoming
            &&& shut(v).plain == v.plain
        },
        shut(shut(v)) == shut(v),
{
    law_server_frame_layout(8, Seq::empty());
    assert(server_frame(8, Seq::empty()) =~= seq![136u8, 0]);
}

/// A reader gets what waits before anything else is taken in, comes to the end
/// only where the peer closed and no whole frame is left, and asks for more only
/// where the peer did not.
pub proof fn law_what_a_read_comes_to(v: WsView, room: nat)
    ensures
        v.plain.len() > 0 ==> (asked(v, room) matches Asked::Ready(bytes) && bytes == v.plain.take(
            if v.plain.len() < room {
                v.plain.len() as int
            } else {
                room as int
            },
        )),
        v.plain.len() == 0 ==> {
            &&& asked(v, room) is Decoded <==> decoded(v).1 == Ok::<bool, WsError>(true)
            &&& asked(v, room) is Closed <==> decoded(v).1 == Ok::<bool, WsError>(false) && v.closed
            &&& asked(v, room) is NeedInput <==> decoded(v).1 == Ok::<bool, WsError>(false)
                && !v.closed
            &&& decoded(v).1 matches Err(error) ==> asked(v, room) == Asked::Broken(error)
        },
{
}

} // verus!
