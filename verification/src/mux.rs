//! The minimal mux carried by one bridge link: OPEN / DATA / CLOSE / WINDOW.
//!
//! Only the proxy opens streams, one per mobile connection, so stream ids need
//! no odd/even split and the bridge never allocates.
//!
//! A session is a state machine: frames from the link and calls of the local
//! side go in, frames for the link and chunks for the readers come out. Who
//! waits for what, and how the frames cross the socket, is the caller's.

use bytes::Bytes;
use vstd::prelude::*;

use crate::buf::{advance_chunk, chunk_slice, content};
use crate::wire::{be16, be32, be32_value, law_be32_round_trip, read_be32, FRAME_HEAD};

pub use crate::session::{MuxSession, StreamRx, StreamTx};
pub use crate::stream::MuxStreamIo;

verus! {

/// Silence longer than this, in seconds, ends the session; the bridge pings
/// every 30s.
pub const IDLE_TIMEOUT_SECS: u64 = 90;

/// Frames a stream may hold before dispatch would block.
///
/// The real bound on a stream is its byte window, which the bridge may not
/// exceed; this is sized for the worst case of many small frames inside one
/// window rather than for `WINDOW / MAX_PAYLOAD`. Overflow therefore means a
/// peer that ignored its credit, and it costs that one stream.
pub const INBOX_FRAMES: usize = 1024;

/// Most permits that a credit pool or a stream budget may hold.
pub open spec fn max_permits() -> int {
    usize::MAX as int / 8
}

/// One mux frame.
pub struct Frame {
    pub id: u32,
    pub kind: u8,
    pub payload: Bytes,
}

/// What a frame says.
pub struct FrameView {
    pub id: u32,
    pub kind: u8,
    pub payload: Seq<u8>,
}

impl View for Frame {
    type V = FrameView;

    open spec fn view(&self) -> FrameView {
        FrameView { id: self.id, kind: self.kind, payload: content(self.payload) }
    }
}

/// A frame without payload.
pub open spec fn control(id: u32, kind: u8) -> FrameView {
    FrameView { id, kind, payload: Seq::empty() }
}

impl Frame {
    /// A frame without payload.
    pub fn control(id: u32, kind: u8) -> (frame: Self)
        ensures
            frame@ == control(id, kind),
    {
        Frame { id, kind, payload: Bytes::new() }
    }
}

/// A frame on the wire: streamId(u32) + kind(u8) + len(u16) + rsv(u8), then the
/// payload.
pub open spec fn frame_bytes(id: u32, kind: u8, payload: Seq<u8>) -> Seq<u8> {
    be32(id) + seq![kind] + be16(payload.len() as u16) + seq![0u8] + payload
}

/// What the bytes of a frame say, if they are long enough for a head. The
/// payload is all that follows the head: the frame ends where its Noise message
/// does, and neither the length field nor the reserved byte is read.
pub open spec fn parse(bytes: Seq<u8>) -> Option<FrameView> {
    if bytes.len() < FRAME_HEAD {
        None
    } else {
        Some(
            FrameView {
                id: be32_value(bytes) as u32,
                kind: bytes[4],
                payload: bytes.skip(FRAME_HEAD as int),
            },
        )
    }
}

/// A frame reads back from its bytes as it was written, whatever its id, kind
/// and payload.
pub proof fn law_frame_reads_back(id: u32, kind: u8, payload: Seq<u8>)
    ensures
        parse(frame_bytes(id, kind, payload)) == Some(FrameView { id, kind, payload }),
{
    let bytes = frame_bytes(id, kind, payload);
    law_be32_round_trip(id);
    assert(bytes.skip(FRAME_HEAD as int) =~= payload);
    assert(be32_value(bytes) == be32_value(be32(id)));
}

/// Append a frame head to `out`.
pub(crate) fn put_head(out: &mut Vec<u8>, id: u32, kind: u8, len: u16)
    ensures
        final(out)@ == old(out)@ + be32(id) + seq![kind] + be16(len) + seq![0u8],
{
    out.push((id / 0x100_0000) as u8);
    out.push((id / 0x1_0000 % 0x100) as u8);
    out.push((id / 0x100 % 0x100) as u8);
    out.push((id % 0x100) as u8);
    out.push(kind);
    out.push((len / 0x100) as u8);
    out.push((len % 0x100) as u8);
    out.push(0);
    assert(out@ =~= old(out)@ + be32(id) + seq![kind] + be16(len) + seq![0u8]);
}

/// Take a frame apart.
pub fn read_frame(bytes: Bytes) -> (frame: Option<Frame>)
    ensures
        match (frame, parse(content(bytes))) {
            (Some(frame), Some(said)) => frame@ == said,
            (None, None) => true,
            _ => false,
        },
{
    if bytes.len() < FRAME_HEAD {
        return None;
    }
    let mut payload = bytes;
    let slice = chunk_slice(&payload);
    let id: u32 = read_be32(slice[0], slice[1], slice[2], slice[3]);
    let kind: u8 = slice[4];
    assert(seq![slice[0], slice[1], slice[2], slice[3]] =~= content(bytes).take(4));
    // Slice, not copy: the payload shares the decrypted buffer.
    advance_chunk(&mut payload, FRAME_HEAD);
    Some(Frame { id, kind, payload })
}

/// Where each part of a frame stands on the wire: the stream's id in the first
/// four bytes, its kind in the fifth, the payload's length in the next two, a
/// zero, and the payload behind them, all of it.
pub proof fn law_frame_layout(id: u32, kind: u8, payload: Seq<u8>)
    ensures
        ({
            let s = frame_bytes(id, kind, payload);
            &&& s.len() == 8 + payload.len()
            &&& s[0] * 16777216 + s[1] * 65536 + s[2] * 256 + s[3] == id
            &&& s[4] == kind
            &&& payload.len() <= 65535 ==> s[5] * 256 + s[6] == payload.len()
            &&& s[7] == 0
            &&& forall|i: int| 0 <= i < payload.len() ==> (#[trigger] payload[i]) == s[8 + i]
        }),
{
    let s = frame_bytes(id, kind, payload);
    assert(s[0] == be32(id)[0] && s[1] == be32(id)[1] && s[2] == be32(id)[2] && s[3] == be32(id)[3]);
    law_be32_round_trip(id);
    let n = payload.len() as u16;
    assert(s[5] == be16(n)[0] && s[6] == be16(n)[1]);
}

/// What is read of any bytes: nothing of fewer than eight, and otherwise an id, a
/// kind and everything behind the head, by their place.
pub proof fn law_frame_is_read_by_place(s: Seq<u8>)
    ensures
        s.len() < 8 ==> parse(s) is None,
        s.len() >= 8 ==> (parse(s) matches Some(frame) && {
            &&& frame.id == s[0] * 16777216 + s[1] * 65536 + s[2] * 256 + s[3]
            &&& frame.kind == s[4]
            &&& frame.payload.len() == s.len() - 8
            &&& forall|i: int| 0 <= i < s.len() - 8 ==> (#[trigger] frame.payload[i]) == s[8 + i]
        }),
{
}

/// A control frame carries nothing.
pub proof fn law_control_frames_are_empty(id: u32, kind: u8)
    ensures
        control(id, kind).id == id,
        control(id, kind).kind == kind,
        control(id, kind).payload.len() == 0,
{
}

/// What a frame says is what it holds.
pub proof fn law_frames_say_what_they_hold(frame: Frame)
    ensures
        frame@.id == frame.id,
        frame@.kind == frame.kind,
        frame@.payload == content(frame.payload),
{
}

} // verus!
