//! One mux stream exposed as a byte stream, so it can carry plain HTTP/1.1.

use bytes::{Bytes, BytesMut};
use vstd::prelude::*;

use crate::buf::{content, held};
use crate::mux::{control, Frame, FrameView};
use crate::session::{
    portion, window, window_frame, MuxSession, MuxView, Receiving, RecvStep, SendStep, Sending,
    StreamRx, StreamTx,
};
use crate::trace::joined;
use crate::wire::{be32_value, law_be32_round_trip, GRANT_THRESHOLD, KIND_CLOSE, KIND_DATA};

verus! {

/// Bytes queued for the bridge before a flush is forced.
///
/// This is a latency bound, not a memory bound: the real bound is the stream's
/// 256 KiB credit window. An HTTP writer writes a whole head in one call and
/// bodies in whatever chunks it has, so buffering a few KiB here turns a
/// request into one mux frame instead of a dozen.
pub const WRITE_COALESCE: usize = 32768;

/// One mux stream exposed as a byte stream.
///
/// Reads pull payloads out of the stream; writes are coalesced, and sent
/// through the send half, whose credit window provides the back-pressure.
pub struct MuxStreamIo {
    tx: StreamTx,
    rx: StreamRx,
    /// The tail of a received chunk not yet handed to the reader.
    inbox: Option<Bytes>,
    /// Bytes written but not yet being sent.
    out: BytesMut,
    /// What is left of the bytes being sent, so a full window parks the writer
    /// instead of buffering without bound.
    pending: Option<Bytes>,
    /// Receive credit earned by reading, not yet handed back to the peer.
    ///
    /// The peer may send exactly one window before it must be replenished, so a
    /// stream that never returns credit stalls once a window has crossed. The
    /// reader cannot wait for the link, so credit accumulates here and is
    /// offered opportunistically; a momentarily full link simply leaves it for
    /// the next read.
    credit_due: u32,
}

/// What a byte stream holds.
pub struct IoView {
    pub id: u32,
    pub lane: int,
    pub inbox: Option<Seq<u8>>,
    pub out: Seq<u8>,
    pub pending: Option<Seq<u8>>,
    pub credit_due: nat,
}

/// The bytes of a chunk that may be absent.
pub open spec fn chunk_bytes(chunk: Option<Bytes>) -> Option<Seq<u8>> {
    match chunk {
        Some(chunk) => Some(content(chunk)),
        None => None,
    }
}

impl View for MuxStreamIo {
    type V = IoView;

    closed spec fn view(&self) -> IoView {
        IoView {
            id: self.tx.spec_id(),
            lane: self.tx.lane(),
            inbox: chunk_bytes(self.inbox),
            out: held(self.out),
            pending: chunk_bytes(self.pending),
            credit_due: self.credit_due as nat,
        }
    }
}

/// `s`, or nothing if it is empty.
pub open spec fn nonempty(s: Seq<u8>) -> Option<Seq<u8>> {
    if s.len() == 0 {
        None
    } else {
        Some(s)
    }
}

/// How a read goes on.
pub enum Reading {
    Ready(Seq<u8>),
    Wait,
    End,
}

/// How a flush goes on.
pub enum Flushing {
    Done,
    Frame(FrameView),
    Wait,
    Broken,
}

impl IoView {
    /// A tail of a chunk is kept only while it is not empty, and so is what is
    /// being sent; nothing as long as a forced flush stays in the buffer.
    pub open spec fn wf(self) -> bool {
        &&& self.inbox matches Some(chunk) ==> chunk.len() > 0
        &&& self.pending matches Some(data) ==> data.len() > 0
        &&& self.out.len() < WRITE_COALESCE
    }

    /// The chunk that the next read takes from: the tail in hand, or else the
    /// next chunk of the stream.
    pub open spec fn next_chunk(self, v: MuxView) -> Option<Seq<u8>> {
        match self.inbox {
            Some(chunk) => Some(chunk),
            None => match v.receiving(self.lane).1 {
                Receiving::Chunk(chunk) => Some(chunk),
                _ => None,
            },
        }
    }

    /// How many bytes the next read takes.
    pub open spec fn next_take(self, v: MuxView, room: nat) -> nat {
        match self.next_chunk(v) {
            Some(chunk) => if chunk.len() < room {
                chunk.len()
            } else {
                room
            },
            None => 0,
        }
    }

    /// What a read does: it hands out as much of the next chunk as there is
    /// room for, keeps the rest, and owes the peer that much credit.
    pub open spec fn reading(self, v: MuxView, room: nat) -> (IoView, MuxView, Reading) {
        let w = match self.inbox {
            Some(_) => v,
            None => v.receiving(self.lane).0,
        };
        match self.next_chunk(v) {
            Some(chunk) => {
                let n = self.next_take(v, room);
                (
                    IoView {
                        inbox: nonempty(chunk.skip(n as int)),
                        credit_due: self.credit_due + n,
                        ..self
                    },
                    w,
                    Reading::Ready(chunk.take(n as int)),
                )
            },
            None => match v.receiving(self.lane).1 {
                Receiving::Wait => (self, w, Reading::Wait),
                _ => (self, w, Reading::End),
            },
        }
    }

    /// What a write does: the bytes join the buffer, and once a flush is due
    /// the whole buffer is on its way. While bytes are on their way, nothing is
    /// taken.
    pub open spec fn written(self, data: Seq<u8>) -> IoView {
        if self.pending is Some {
            self
        } else if self.out.len() + data.len() >= WRITE_COALESCE {
            IoView { out: Seq::empty(), pending: Some(self.out + data), ..self }
        } else {
            IoView { out: self.out + data, ..self }
        }
    }

    /// What is on its way first, for a flush: what is pending, or else the
    /// buffer.
    pub open spec fn flush_source(self) -> Seq<u8> {
        match self.pending {
            Some(data) => data,
            None => self.out,
        }
    }

    /// What a step of a flush does: it sends the next frame of what is pending,
    /// then of the buffer, until both are empty.
    pub open spec fn flushing(self, v: MuxView) -> (IoView, MuxView, Flushing) {
        let data = self.flush_source();
        let out = if self.pending is Some {
            self.out
        } else {
            Seq::empty()
        };
        let (w, how) = v.sending(self.lane, data);
        match how {
            Sending::Done => (self, w, Flushing::Done),
            Sending::Frame => (
                IoView { out, pending: nonempty(data.skip(portion(data) as int)), ..self },
                w,
                Flushing::Frame(
                    FrameView {
                        id: self.id,
                        kind: KIND_DATA,
                        payload: data.take(portion(data) as int),
                    },
                ),
            ),
            Sending::Wait => (IoView { out, pending: Some(data), ..self }, w, Flushing::Wait),
            Sending::Broken => (IoView { out, pending: None, ..self }, w, Flushing::Broken),
        }
    }

    /// Everything written and not yet sent, oldest first.
    pub open spec fn unsent(self) -> Seq<u8> {
        match self.pending {
            Some(data) => data + self.out,
            None => self.out,
        }
    }

    /// The frame that hands back all receive credit owed, if any is.
    pub open spec fn credit_frame(self) -> Option<FrameView> {
        if self.credit_due == 0 {
            None
        } else {
            Some(window(self.id, self.credit_due as u32))
        }
    }
}

/// A step of a read.
pub enum ReadStep {
    /// These bytes are next.
    Ready(Bytes),
    /// Nothing has arrived yet.
    Wait,
    /// The stream is over.
    End,
}

/// A step of a flush.
pub enum FlushStep {
    /// Nothing is left to send.
    Done,
    /// Send this frame, and go on.
    Frame(Frame),
    /// The peer's receive window is full.
    Wait,
    /// The stream or its link is gone.
    Broken,
}

/// Whether a step of a read is what the stream owes.
pub open spec fn reads(step: ReadStep, owed: Reading) -> bool {
    match (step, owed) {
        (ReadStep::Ready(chunk), Reading::Ready(said)) => content(chunk) == said,
        (ReadStep::Wait, Reading::Wait) => true,
        (ReadStep::End, Reading::End) => true,
        _ => false,
    }
}

/// What a step of a read says.
pub open spec fn said_of(step: ReadStep) -> Reading {
    match step {
        ReadStep::Ready(chunk) => Reading::Ready(content(chunk)),
        ReadStep::Wait => Reading::Wait,
        ReadStep::End => Reading::End,
    }
}

/// Whether a step of a flush is what the stream owes.
pub open spec fn flushes(step: FlushStep, owed: Flushing) -> bool {
    match (step, owed) {
        (FlushStep::Done, Flushing::Done) => true,
        (FlushStep::Frame(frame), Flushing::Frame(said)) => frame@ == said,
        (FlushStep::Wait, Flushing::Wait) => true,
        (FlushStep::Broken, Flushing::Broken) => true,
        _ => false,
    }
}

/// Whether a frame that may be absent is the one owed.
pub open spec fn same_frame(frame: Option<Frame>, owed: Option<FrameView>) -> bool {
    match (frame, owed) {
        (Some(frame), Some(said)) => frame@ == said,
        (None, None) => true,
        _ => false,
    }
}

impl MuxStreamIo {
    /// Whether both halves are of one stream.
    pub closed spec fn whole(&self) -> bool {
        self.rx.lane() == self.tx.lane()
    }

    /// The stream's invariant.
    pub open spec fn wf(&self) -> bool {
        self@.wf() && self.whole()
    }

    /// Wrap one opened stream as a byte stream.
    pub fn new(tx: StreamTx, rx: StreamRx) -> (io: Self)
        requires
            tx.lane() == rx.lane(),
        ensures
            io.wf(),
            io@ == (IoView {
                id: tx.spec_id(),
                lane: tx.lane(),
                inbox: None,
                out: Seq::empty(),
                pending: None,
                credit_due: 0,
            }),
    {
        MuxStreamIo { tx, rx, inbox: None, out: BytesMut::new(), pending: None, credit_due: 0 }
    }

    /// Whether the next read leaves the credit owed countable.
    pub fn read_fits(&self, session: &MuxSession, room: usize) -> (fits: bool)
        requires
            self.wf(),
        ensures
            fits == (self@.credit_due + self@.next_take(session@, room as nat) <= u32::MAX),
    {
        let next: Option<usize> = match &self.inbox {
            Some(chunk) => Some(chunk.len()),
            None => self.rx.waiting(session),
        };
        match next {
            Some(n) => {
                let take: usize = if n < room { n } else { room };
                take <= (u32::MAX - self.credit_due) as usize
            },
            None => true,
        }
    }

    /// Read at most `room` bytes.
    pub fn poll_read(&mut self, session: &mut MuxSession, room: usize) -> (step: ReadStep)
        requires
            old(self).wf(),
            old(session).wf(),
            old(self)@.credit_due + old(self)@.next_take(old(session)@, room as nat) <= u32::MAX,
        ensures
            final(self).wf(),
            final(session).wf(),
            final(self)@ == old(self)@.reading(old(session)@, room as nat).0,
            final(session)@ == old(self)@.reading(old(session)@, room as nat).1,
            reads(step, old(self)@.reading(old(session)@, room as nat).2),
    {
        // Drain the chunk already in hand before asking the stream for more: a
        // bridge may pack several HTTP bytes into one mux frame.
        let mut chunk = match self.inbox.take() {
            Some(chunk) => chunk,
            None => match self.rx.recv(session) {
                RecvStep::Chunk(chunk) => chunk,
                RecvStep::Wait => return ReadStep::Wait,
                RecvStep::End => return ReadStep::End,
            },
        };
        let n: usize = if chunk.len() < room { chunk.len() } else { room };
        let head = chunk.split_to(n);
        if !chunk.is_empty() {
            self.inbox = Some(chunk);
        }
        // What the reader has taken is what the peer may send again.
        self.credit_due = self.credit_due + n as u32;
        ReadStep::Ready(head)
    }

    /// Hand back receive credit once half a window is owed, instead of one
    /// frame per read: the frame to offer to the link.
    pub fn return_credit(&self) -> (frame: Option<Frame>)
        ensures
            same_frame(
                frame,
                if self@.credit_due < GRANT_THRESHOLD {
                    None
                } else {
                    self@.credit_frame()
                },
            ),
    {
        if self.credit_due < GRANT_THRESHOLD {
            return None;
        }
        self.flush_credit()
    }

    /// Hand back all receive credit owed, even below the threshold: the frame
    /// to offer to the link.
    ///
    /// Called when the stream ends, so the peer is never left short of the
    /// final bytes it sent.
    pub fn flush_credit(&self) -> (frame: Option<Frame>)
        ensures
            same_frame(frame, self@.credit_frame()),
    {
        if self.credit_due == 0 {
            return None;
        }
        Some(window_frame(self.tx.id(), self.credit_due))
    }

    /// The credit to offer to the link behind a read: half a window or more once
    /// bytes were handed out, and all of it at the end of the stream.
    pub fn offer_credit(&self, step: &ReadStep) -> (frame: Option<Frame>)
        ensures
            same_frame(frame, offered_credit(self@, said_of(*step))),
    {
        match step {
            ReadStep::Ready(_) => self.return_credit(),
            ReadStep::Wait => None,
            ReadStep::End => self.flush_credit(),
        }
    }

    /// The link took the frame with the credit owed.
    pub fn credit_returned(&mut self)
        requires
            old(self).wf(),
        ensures
            final(self).wf(),
            final(self)@ == (IoView { credit_due: 0, ..old(self)@ }),
    {
        self.credit_due = 0;
    }

    /// Write all of `data`, or nothing of it while bytes are on their way.
    pub fn poll_write(&mut self, data: &[u8]) -> (taken: Option<usize>)
        requires
            old(self).wf(),
        ensures
            final(self).wf(),
            final(self)@ == old(self)@.written(data@),
            taken == (if old(self)@.pending is Some {
                None
            } else {
                Some(data@.len() as usize)
            }),
    {
        // A pending send owns the buffer; apply back-pressure until it drains.
        if self.pending.is_some() {
            return None;
        }
        self.out.extend_from_slice(data);
        if self.out.len() >= WRITE_COALESCE {
            let all = self.out.split();
            self.pending = Some(all.freeze());
        }
        Some(data.len())
    }

    /// One step of sending everything written.
    pub fn poll_flush(&mut self, session: &mut MuxSession) -> (step: FlushStep)
        requires
            old(self).wf(),
            old(session).wf(),
        ensures
            final(self).wf(),
            final(session).wf(),
            final(self)@ == old(self)@.flushing(old(session)@).0,
            final(session)@ == old(self)@.flushing(old(session)@).1,
            flushes(step, old(self)@.flushing(old(session)@).2),
    {
        let mut data = match self.pending.take() {
            Some(data) => data,
            None => {
                if self.out.is_empty() {
                    return FlushStep::Done;
                }
                let all = self.out.split();
                all.freeze()
            },
        };
        match self.tx.send(session, &mut data) {
            SendStep::Done => FlushStep::Done,
            SendStep::Frame(frame) => {
                if !data.is_empty() {
                    self.pending = Some(data);
                }
                FlushStep::Frame(frame)
            },
            SendStep::Wait => {
                self.pending = Some(data);
                FlushStep::Wait
            },
            SendStep::Broken => FlushStep::Broken,
        }
    }

    /// The link is gone: give up what was on its way.
    pub fn abandon(&mut self)
        requires
            old(self).wf(),
        ensures
            final(self).wf(),
            final(self)@ == (IoView { pending: None, ..old(self)@ }),
    {
        self.pending = None;
    }

    /// Close the stream, once it is flushed: the frames to offer to the link,
    /// the credit still owed to the peer before the end.
    pub fn poll_shutdown(&self, session: &mut MuxSession) -> (frames: (Option<Frame>, Frame))
        requires
            old(session).wf(),
        ensures
            final(session).wf(),
            final(session)@ == old(session)@.unlinked(self@.id, true),
            same_frame(frames.0, self@.credit_frame()),
            frames.1@ == control(self@.id, KIND_CLOSE),
    {
        let credit = self.flush_credit();
        let end = session.close_stream(self.tx.id());
        (credit, end)
    }

    /// Whatever ended the connection, a finished keep-alive, a client hanging
    /// up, an error, the bridge slot goes back now: the frames to offer to the
    /// link.
    pub fn release(self, session: &mut MuxSession) -> (frames: (Option<Frame>, Frame))
        requires
            self.wf(),
            old(session).wf(),
        ensures
            final(session).wf(),
            final(session)@ == old(session)@.unlinked(self@.id, true).without_writer(
                self@.lane,
            ).without_reader(self@.lane),
            same_frame(frames.0, self@.credit_frame()),
            frames.1@ == control(self@.id, KIND_CLOSE),
    {
        let frames = self.poll_shutdown(session);
        session.drop_tx(self.tx);
        session.drop_rx(self.rx);
        frames
    }
}

/// Everything that a write takes joins what is unsent, at its end; a write that
/// takes nothing changes nothing.
pub proof fn law_written_bytes_wait_in_order(io: IoView, data: Seq<u8>)
    requires
        io.wf(),
    ensures
        io.written(data).wf(),
        io.pending is None ==> io.written(data).unsent() == io.unsent() + data,
        io.pending is Some ==> io.written(data) == io,
{
}

/// A step of a flush sends the front of what is unsent and keeps the rest. It
/// is done exactly when nothing is unsent, and only a broken link loses bytes.
pub proof fn law_flush_sends_in_order(io: IoView, v: MuxView)
    requires
        io.wf(),
    ensures
        ({
            let (after, _, how) = io.flushing(v);
            &&& after.wf()
            &&& how is Done <==> io.unsent().len() == 0
            &&& how matches Flushing::Frame(frame) ==> frame.payload.len() > 0 && frame.payload
                + after.unsent() == io.unsent()
            &&& how is Wait ==> after.unsent() == io.unsent()
        }),
{
    let data = io.flush_source();
    let n = portion(data) as int;
    let (after, _, how) = io.flushing(v);
    assert(data.take(n) + data.skip(n) =~= data);
    if how is Frame {
        assert(data.take(n) + after.unsent() =~= io.unsent());
    }
}

/// The credit owed grows by exactly what a read hands out, so that between two
/// frames of returned credit it is what was read since the first.
pub proof fn law_credit_owed_is_what_was_read(io: IoView, v: MuxView, room: nat)
    requires
        io.wf(),
    ensures
        ({
            let (after, _, how) = io.reading(v, room);
            &&& after.wf()
            &&& after.credit_due == io.credit_due + (match how {
                Reading::Ready(bytes) => bytes.len(),
                _ => 0,
            })
        }),
{
}

/// A read hands out the front of the chunk in hand and keeps the rest, so that
/// reads may be cut anywhere.
pub proof fn law_reads_drain_a_chunk_in_order(io: IoView, v: MuxView, room: nat)
    requires
        io.next_chunk(v) is Some,
    ensures
        io.reading(v, room).2 matches Reading::Ready(bytes) && bytes + (match io.reading(
            v,
            room,
        ).0.inbox {
            Some(rest) => rest,
            None => Seq::empty(),
        }) == io.next_chunk(v)->0,
{
    let chunk = io.next_chunk(v)->0;
    let n = io.next_take(v, room) as int;
    assert(chunk.take(n) + chunk.skip(n) =~= chunk);
}

/// One read, as the reader of a byte stream makes it: what its session holds at
/// that moment, how much room the reader has, and whether the link takes the
/// credit that is offered behind the read.
pub struct ReadCall {
    pub session: MuxView,
    pub room: nat,
    pub taken: bool,
}

/// What a read does: the stream after it, the bytes handed out, and the credit
/// granted to the peer.
pub struct Read {
    pub io: IoView,
    pub bytes: Seq<u8>,
    pub granted: int,
}

/// The credit that is offered behind a read: half a window or more is handed
/// back, and at the end of the stream all of it.
pub open spec fn offered_credit(io: IoView, how: Reading) -> Option<FrameView> {
    match how {
        Reading::Ready(_) => if io.credit_due < GRANT_THRESHOLD {
            None
        } else {
            io.credit_frame()
        },
        Reading::Wait => None,
        Reading::End => io.credit_frame(),
    }
}

/// One read, and the credit behind it.
pub open spec fn read_once(io: IoView, call: ReadCall) -> Read {
    let (after, _, how) = io.reading(call.session, call.room);
    let bytes = match how {
        Reading::Ready(bytes) => bytes,
        _ => Seq::empty(),
    };
    match offered_credit(after, how) {
        Some(frame) if call.taken => Read {
            io: IoView { credit_due: 0, ..after },
            bytes,
            granted: be32_value(frame.payload),
        },
        _ => Read { io: after, bytes, granted: 0 },
    }
}

/// A run of reads.
pub open spec fn read_all(io: IoView, calls: Seq<ReadCall>) -> Read
    decreases calls.len(),
{
    if calls.len() == 0 {
        Read { io, bytes: Seq::empty(), granted: 0 }
    } else {
        let first = read_once(io, calls[0]);
        let rest = read_all(first.io, calls.skip(1));
        Read { io: rest.io, bytes: first.bytes + rest.bytes, granted: first.granted + rest.granted }
    }
}

/// The chunks that a run of reads takes off its stream.
pub open spec fn chunks_read(io: IoView, calls: Seq<ReadCall>) -> Seq<Seq<u8>>
    decreases calls.len(),
{
    if calls.len() == 0 {
        Seq::empty()
    } else {
        let rest = chunks_read(read_once(io, calls[0]).io, calls.skip(1));
        match (io.inbox, calls[0].session.receiving(io.lane).1) {
            (None, Receiving::Chunk(chunk)) => seq![chunk] + rest,
            _ => rest,
        }
    }
}

/// Whether every read of a run leaves the credit owed countable.
pub open spec fn reads_fit(io: IoView, calls: Seq<ReadCall>) -> bool
    decreases calls.len(),
{
    calls.len() == 0 || {
        &&& io.credit_due + io.next_take(calls[0].session, calls[0].room) <= u32::MAX
        &&& reads_fit(read_once(io, calls[0]).io, calls.skip(1))
    }
}

/// The tail of a chunk that is still in hand.
pub open spec fn in_hand(io: IoView) -> Seq<u8> {
    match io.inbox {
        Some(chunk) => chunk,
        None => Seq::empty(),
    }
}

/// The peer is granted what was read, no more and nothing twice: over any run of
/// reads, what was granted and what is still owed is what was owed before and
/// what was handed out.
pub proof fn law_grants_are_what_was_read(io: IoView, calls: Seq<ReadCall>)
    requires
        reads_fit(io, calls),
    ensures
        ({
            let read = read_all(io, calls);
            &&& read.granted + read.io.credit_due == io.credit_due + read.bytes.len()
            &&& 0 <= read.granted <= io.credit_due + read.bytes.len()
        }),
    decreases calls.len(),
{
    if calls.len() > 0 {
        let (after, _, how) = io.reading(calls[0].session, calls[0].room);
        law_be32_round_trip(after.credit_due as u32);
        law_grants_are_what_was_read(read_once(io, calls[0]).io, calls.skip(1));
    }
}

/// A reader never starves its peer: as long as the link takes the credit offered,
/// less than half a window stays owed after each read, and none once the end of
/// the stream was reported.
pub proof fn law_less_than_half_a_window_stays_owed(io: IoView, calls: Seq<ReadCall>)
    requires
        io.credit_due < GRANT_THRESHOLD,
        forall|i: int| 0 <= i < calls.len() ==> (#[trigger] calls[i]).taken,
    ensures
        read_all(io, calls).io.credit_due < GRANT_THRESHOLD,
        calls.len() > 0 ==> ({
            let before = read_all(io, calls.drop_last()).io;
            before.reading(calls.last().session, calls.last().room).2 is End ==> read_all(
                io,
                calls,
            ).io.credit_due == 0
        }),
    decreases calls.len(),
{
    if calls.len() > 0 {
        let first = read_once(io, calls[0]).io;
        let rest = calls.skip(1);
        assert(calls[0].taken);
        assert forall|i: int| 0 <= i < rest.len() implies (#[trigger] rest[i]).taken by {
            assert(rest[i] == calls[i + 1]);
        }
        law_less_than_half_a_window_stays_owed(first, rest);
        if rest.len() > 0 {
            assert(calls.drop_last().skip(1) =~= rest.drop_last());
            assert(calls.drop_last()[0] == calls[0]);
            assert(calls.last() == rest.last());
        } else {
            assert(calls.last() == calls[0]);
        }
    }
}

/// The reader gets the bytes of the stream's chunks, in order and without loss:
/// over any run of reads, with room of any size, what was handed out and the tail
/// in hand is the tail there was before and the chunks taken off the stream.
pub proof fn law_reads_hand_out_the_chunks_in_order(io: IoView, calls: Seq<ReadCall>)
    ensures
        read_all(io, calls).bytes + in_hand(read_all(io, calls).io) == in_hand(io) + joined(
            chunks_read(io, calls),
        ),
    decreases calls.len(),
{
    if calls.len() == 0 {
        assert(Seq::<u8>::empty() + in_hand(io) =~= in_hand(io) + joined(Seq::empty()));
    } else {
        let call = calls[0];
        let rest = calls.skip(1);
        let first = read_once(io, call);
        let later = read_all(first.io, rest);
        let chunks = chunks_read(first.io, rest);
        law_reads_hand_out_the_chunks_in_order(first.io, rest);
        let fresh = match (io.inbox, call.session.receiving(io.lane).1) {
            (None, Receiving::Chunk(chunk)) => chunk,
            _ => Seq::empty(),
        };
        assert(first.bytes + in_hand(first.io) =~= in_hand(io) + fresh) by {
            if io.next_chunk(call.session) is Some {
                law_reads_drain_a_chunk_in_order(io, call.session, call.room);
            }
        }
        assert((first.bytes + later.bytes) + in_hand(later.io) =~= first.bytes + (later.bytes
            + in_hand(later.io)));
        assert(first.bytes + (in_hand(first.io) + joined(chunks)) =~= (first.bytes + in_hand(
            first.io,
        )) + joined(chunks));
        assert((in_hand(io) + fresh) + joined(chunks) =~= in_hand(io) + (fresh + joined(chunks)));
        if io.inbox is None && call.session.receiving(io.lane).1 is Chunk {
            assert((seq![fresh] + chunks).skip(1) =~= chunks);
        } else {
            assert(fresh + joined(chunks) =~= joined(chunks));
        }
    }
}

/// A write that is taken is taken whole, behind what waits; from 32768 bytes on,
/// all that waits is on its way, and until then none of it.
pub proof fn law_writes_wait_for_32768_bytes(io: IoView, data: Seq<u8>)
    requires
        io.pending is None,
    ensures
        ({
            let after = io.written(data);
            &&& io.out.len() + data.len() < 32768 ==> after.out == io.out + data && after.pending is None
            &&& io.out.len() + data.len() >= 32768 ==> after.out.len() == 0 && after.pending == Some(
                io.out + data,
            )
            &&& after.id == io.id
            &&& after.lane == io.lane
            &&& after.inbox == io.inbox
            &&& after.credit_due == io.credit_due
        }),
{
}

/// A read fills as much of its room as the chunk allows: it takes from the tail in
/// hand, without touching the session, or else from the oldest chunk that waits;
/// and it comes to the end, or waits, only where there is neither.
pub proof fn law_reads_fill_their_room(io: IoView, v: MuxView, room: nat)
    ensures
        ({
            let (after, w, how) = io.reading(v, room);
            let waiting = match v.lane(io.lane) {
                Some(lane) => lane.inbox,
                None => Seq::empty(),
            };
            let chunk = match io.inbox {
                Some(tail) => tail,
                None => waiting[0],
            };
            let n = if chunk.len() < room {
                chunk.len() as int
            } else {
                room as int
            };
            &&& io.inbox is Some || waiting.len() > 0 ==> {
                &&& how == Reading::Ready(chunk.take(n))
                &&& n < chunk.len() ==> after.inbox == Some(chunk.skip(n))
                &&& n == chunk.len() ==> after.inbox is None
                &&& after.credit_due == io.credit_due + n
            }
            &&& io.inbox is None && waiting.len() == 0 ==> {
                &&& after == io
                &&& how is Wait <==> v.lane(io.lane) is Some && (v.lane(io.lane)->0).linked
                &&& how is End <==> v.lane(io.lane) is None || !(v.lane(io.lane)->0).linked
            }
            &&& io.inbox is Some ==> w == v
            &&& io.inbox is None ==> w == v.receiving(io.lane).0
            &&& after.id == io.id
            &&& after.lane == io.lane
            &&& after.out == io.out
            &&& after.pending == io.pending
        }),
{
}

/// What a step of a flush sends is a data frame of the stream with the front of
/// what is on its way, or else of what waits: all of it, but at most 16384 bytes.
/// A full window leaves everything unsent on its way, and a stream that is gone
/// gives it up.
pub proof fn law_flushes_send_the_front(io: IoView, v: MuxView)
    ensures
        ({
            let (after, w, how) = io.flushing(v);
            let data = match io.pending {
                Some(data) => data,
                None => io.out,
            };
            let n = if data.len() < 16384 {
                data.len() as int
            } else {
                16384
            };
            &&& w == v.sending(io.lane, data).0
            &&& how is Done <==> v.sending(io.lane, data).1 is Done
            &&& how is Wait <==> v.sending(io.lane, data).1 is Wait
            &&& how is Broken <==> v.sending(io.lane, data).1 is Broken
            &&& how matches Flushing::Frame(frame) ==> {
                &&& frame.id == io.id
                &&& frame.kind == 1
                &&& frame.payload == data.take(n)
                &&& n < data.len() ==> after.pending == Some(data.skip(n))
                &&& n == data.len() ==> after.pending is None
            }
            &&& how is Wait ==> after.pending == Some(data)
            &&& how is Broken ==> after.pending is None
            &&& io.pending is Some ==> after.out == io.out
            &&& io.pending is None && !(how is Done) ==> after.out.len() == 0
            &&& how is Done ==> after == io
            &&& after.id == io.id
            &&& after.lane == io.lane
            &&& after.inbox == io.inbox
            &&& after.credit_due == io.credit_due
        }),
{
}

/// Credit goes back in one frame for all that is owed: behind a read that handed
/// out bytes once 131072 bytes are owed, at the end of the stream whenever any
/// is, and never otherwise.
pub proof fn law_credit_goes_back_whole(io: IoView, how: Reading)
    requires
        io.credit_due <= u32::MAX,
    ensures
        offered_credit(io, how) is Some <==> how is Ready && io.credit_due >= 131072 || how is End
            && io.credit_due > 0,
        io.credit_frame() is Some <==> io.credit_due > 0,
        io.credit_frame() matches Some(frame) ==> {
            &&& frame.id == io.id
            &&& frame.kind == 3
            &&& frame.payload.len() == 4
            &&& frame.payload[0] * 16777216 + frame.payload[1] * 65536 + frame.payload[2] * 256
                + frame.payload[3] == io.credit_due
        },
        offered_credit(io, how) is Some ==> offered_credit(io, how) == io.credit_frame(),
{
    law_be32_round_trip(io.credit_due as u32);
}

} // verus!
