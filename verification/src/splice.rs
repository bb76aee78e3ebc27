//! One mobile connection spliced onto its bridge.
//!
//! From here the proxy only moves bytes: the Noise_IK handshake inside belongs
//! to the two endpoints.

use bytes::Bytes;
use vstd::prelude::*;

use crate::buf::content;
use crate::mux::{control, Frame, FrameView};
use crate::session::{
    portion, receives, sends, window, MuxSession, RecvStep, SendStep, StreamRx, StreamTx,
};
use crate::stream::same_frame;
use crate::wire::{law_be32_round_trip, GRANT_THRESHOLD, KIND_CLOSE, KIND_OPEN};

verus! {

/// A client's stream on a bridge link, and the receive credit that its reads
/// have earned and that was not handed back yet.
pub struct Splice {
    tx: StreamTx,
    rx: StreamRx,
    pending: u32,
}

/// The credit owed after `n` more bytes reached the client.
pub open spec fn owed(pending: int, n: int) -> int {
    if pending + n >= GRANT_THRESHOLD {
        0
    } else {
        pending + n
    }
}

/// The credit handed back after `n` more bytes reached the client.
pub open spec fn returned(pending: int, n: int) -> int {
    if pending + n >= GRANT_THRESHOLD {
        pending + n
    } else {
        0
    }
}

/// The frame that hands credit back after `n` more bytes reached the client.
pub open spec fn credit_back(id: u32, pending: int, n: int) -> Option<FrameView> {
    if pending + n >= GRANT_THRESHOLD {
        Some(window(id, (pending + n) as u32))
    } else {
        None
    }
}

impl Splice {
    /// The stream's id.
    pub closed spec fn id(&self) -> u32 {
        self.tx.spec_id()
    }

    /// The stream's lane.
    pub closed spec fn lane(&self) -> int {
        self.tx.lane()
    }

    /// Credit owed to the bridge.
    pub closed spec fn pending(&self) -> int {
        self.pending as int
    }

    /// Whether both halves are of one stream.
    pub closed spec fn whole(&self) -> bool {
        self.tx.lane() == self.rx.lane()
    }

    /// Both halves are of one stream, and half a window is never owed.
    pub open spec fn wf(&self) -> bool {
        self.whole() && 0 <= self.pending() < GRANT_THRESHOLD
    }

    /// Open a stream for a client, if its bridge has budget left. The slot is
    /// reserved inside this call, so two clients racing for the last one cannot
    /// both win. The caller sends what `begin` gives, in order.
    pub fn open(session: &mut MuxSession) -> (splice: Option<Self>)
        requires
            old(session).wf(),
        ensures
            final(session).wf(),
            final(session)@ == old(session)@.offered(),
            splice is None <==> old(session)@.full(),
            splice matches Some(splice) ==> {
                &&& splice.wf()
                &&& splice.id() == old(session)@.next_id
                &&& splice.lane() == old(session)@.next_lane(old(session)@.next_id)
                &&& splice.pending() == 0
            },
    {
        match session.try_open_stream() {
            Some((tx, rx)) => Some(Splice { tx, rx, pending: 0 }),
            None => None,
        }
    }

    /// The one frame that tells the bridge of the stream.
    pub fn announce(&self) -> (frame: Frame)
        ensures
            frame@ == control(self.id(), KIND_OPEN),
    {
        self.tx.announce()
    }

    /// What the bridge gets first: the frame that opens the stream, and then the
    /// client's own preamble as the stream's first bytes.
    pub fn begin(&self, head: &[u8; 37]) -> (start: (Frame, Bytes))
        ensures
            start.0@ == control(self.id(), KIND_OPEN),
            content(start.1) == head@,
    {
        (self.announce(), Bytes::copy_from_slice(head))
    }

    /// One step of sending what the client sent.
    pub fn uplink(&self, session: &mut MuxSession, data: &mut Bytes) -> (step: SendStep)
        requires
            old(session).wf(),
        ensures
            final(session).wf(),
            final(session)@ == old(session)@.sending(self.lane(), content(*old(data))).0,
            sends(step, self.id(), content(*old(data)), old(session)@.sending(
                self.lane(),
                content(*old(data)),
            ).1),
            content(*final(data)) == (match step {
                SendStep::Frame(_) => content(*old(data)).skip(
                    portion(content(*old(data))) as int,
                ),
                _ => content(*old(data)),
            }),
    {
        self.tx.send(session, data)
    }

    /// The next chunk for the client.
    pub fn downlink(&self, session: &mut MuxSession) -> (step: RecvStep)
        requires
            self.wf(),
            old(session).wf(),
        ensures
            final(session).wf(),
            final(session)@ == old(session)@.receiving(self.lane()).0,
            receives(step, old(session)@.receiving(self.lane()).1),
    {
        self.rx.recv(session)
    }

    /// `n` bytes reached the client: the frame that returns the credit, once
    /// half a window is owed.
    pub fn delivered(&mut self, n: usize) -> (frame: Option<Frame>)
        requires
            old(self).wf(),
            old(self).pending() + n <= u32::MAX,
        ensures
            final(self).wf(),
            final(self).id() == old(self).id(),
            final(self).lane() == old(self).lane(),
            final(self).pending() == owed(old(self).pending(), n as int),
            same_frame(frame, credit_back(old(self).id(), old(self).pending(), n as int)),
            same_frame(
                frame,
                if old(self).pending() + n >= GRANT_THRESHOLD {
                    Some(window(old(self).id(), (old(self).pending() + n) as u32))
                } else {
                    None
                },
            ),
    {
        let due: u32 = self.pending + n as u32;
        if due >= GRANT_THRESHOLD {
            self.pending = 0;
            return Some(self.tx.grant(due));
        }
        self.pending = due;
        None
    }

    /// Either end hung up: the stream is over, and this is the frame that tells
    /// the bridge.
    pub fn close(self, session: &mut MuxSession) -> (frame: Frame)
        requires
            self.wf(),
            old(session).wf(),
        ensures
            final(session).wf(),
            final(session)@ == old(session)@.unlinked(self.id(), false).without_writer(
                self.lane(),
            ).without_reader(self.lane()),
            frame@ == control(self.id(), KIND_CLOSE),
    {
        let frame = self.tx.close(session);
        session.drop_tx(self.tx);
        session.drop_rx(self.rx);
        frame
    }

    /// The link died before the bridge heard of the stream.
    pub fn withdraw(self, session: &mut MuxSession)
        requires
            self.wf(),
            old(session).wf(),
        ensures
            final(session).wf(),
            final(session)@ == old(session)@.unlinked(self.id(), false).without_writer(
                self.lane(),
            ).without_reader(self.lane()),
    {
        session.withdraw(self.tx, self.rx);
    }
}

/// The credit owed after a run of chunks, from what was owed before.
pub open spec fn owed_after(pending: int, chunks: Seq<nat>) -> int
    decreases chunks.len(),
{
    if chunks.len() == 0 {
        pending
    } else {
        owed(owed_after(pending, chunks.drop_last()), chunks.last() as int)
    }
}

/// The credit handed back over a run of chunks.
pub open spec fn returned_over(pending: int, chunks: Seq<nat>) -> int
    decreases chunks.len(),
{
    if chunks.len() == 0 {
        0
    } else {
        returned_over(pending, chunks.drop_last()) + returned(
            owed_after(pending, chunks.drop_last()),
            chunks.last() as int,
        )
    }
}

/// The bytes of a run of chunks.
pub open spec fn total(chunks: Seq<nat>) -> nat
    decreases chunks.len(),
{
    if chunks.len() == 0 {
        0
    } else {
        total(chunks.drop_last()) + chunks.last()
    }
}

/// No credit is lost: over any run of chunks, what was handed back and what is
/// still owed is what reached the client, and less than half a window is owed,
/// so a bridge that keeps within its credit can always go on.
pub proof fn law_no_credit_is_lost(pending: int, chunks: Seq<nat>)
    requires
        0 <= pending < GRANT_THRESHOLD,
    ensures
        returned_over(pending, chunks) + owed_after(pending, chunks) == pending + total(chunks),
        0 <= owed_after(pending, chunks) < GRANT_THRESHOLD,
    decreases chunks.len(),
{
    if chunks.len() > 0 {
        law_no_credit_is_lost(pending, chunks.drop_last());
    }
}

/// Credit is handed back once 131072 bytes are owed, all of it in one frame of
/// the stream, and then nothing is owed; below that it adds up.
pub proof fn law_credit_is_returned_by_half_windows(id: u32, pending: int, n: int)
    requires
        0 <= pending,
        0 <= n,
        pending + n <= u32::MAX,
    ensures
        pending + n < 131072 ==> {
            &&& owed(pending, n) == pending + n
            &&& returned(pending, n) == 0
            &&& credit_back(id, pending, n) is None
        },
        pending + n >= 131072 ==> {
            &&& owed(pending, n) == 0
            &&& returned(pending, n) == pending + n
            &&& credit_back(id, pending, n) matches Some(frame) && frame.id == id && frame.kind == 3
                && frame.payload.len() == 4 && frame.payload[0] * 16777216 + frame.payload[1] * 65536
                + frame.payload[2] * 256 + frame.payload[3] == pending + n
        },
{
    law_be32_round_trip((pending + n) as u32);
}

} // verus!
