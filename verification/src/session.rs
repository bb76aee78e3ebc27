//! One live bridge link and every stream riding it.

use std::collections::VecDeque;

use bytes::Bytes;
use dashmap::DashMap;
use vstd::prelude::*;

use crate::buf::{chunk_slice, content};
use crate::mux::{control, max_permits, parse, read_frame, Frame, FrameView, INBOX_FRAMES};
use crate::table::{
    clear_lanes, count_lanes, get_lane, insert_lane, lanes_by_id, new_lanes, remove_lane,
};
use crate::wire::{
    be32, be32_value, read_be32, KIND_CLOSE, KIND_DATA, KIND_OPEN, KIND_WINDOW, MAX_PAYLOAD,
    WINDOW,
};

verus! {

/// What the two halves of a stream and the table of streams share.
struct Lane {
    id: u32,
    /// Credit still held for sending to the peer.
    credit: usize,
    /// Whether the credit gate is open; a closed gate fails every send.
    open: bool,
    /// Chunks from the peer, not yet received.
    inbox: VecDeque<Bytes>,
    /// Whether the table still holds the stream.
    linked: bool,
    /// Whether the receive half is still held.
    reader: bool,
    /// Whether the send half is still held.
    writer: bool,
}

/// The chunks of an inbox, oldest first.
pub open spec fn chunks(inbox: Seq<Bytes>) -> Seq<Seq<u8>> {
    inbox.map_values(|chunk: Bytes| content(chunk))
}

/// What a lane holds.
pub struct LaneView {
    pub id: u32,
    pub credit: int,
    pub open: bool,
    pub inbox: Seq<Seq<u8>>,
    pub linked: bool,
    pub reader: bool,
    pub writer: bool,
}

impl View for Lane {
    type V = LaneView;

    closed spec fn view(&self) -> LaneView {
        LaneView {
            id: self.id,
            credit: self.credit as int,
            open: self.open,
            inbox: chunks(self.inbox@),
            linked: self.linked,
            reader: self.reader,
            writer: self.writer,
        }
    }
}

/// The lane of a stream that was just opened.
pub open spec fn fresh(id: u32) -> LaneView {
    LaneView {
        id,
        credit: WINDOW as int,
        open: true,
        inbox: Seq::empty(),
        linked: true,
        reader: true,
        writer: true,
    }
}

/// A lane that neither the table nor a half refers to is free again.
pub open spec fn kept(lane: LaneView) -> Option<LaneView> {
    if lane.linked || lane.reader || lane.writer {
        Some(lane)
    } else {
        None
    }
}

/// The first free lane from `start` on; past the end, if there is none.
pub open spec fn free_from(lanes: Seq<Option<LaneView>>, start: int) -> int
    decreases lanes.len() - start,
{
    if start >= lanes.len() {
        lanes.len() as int
    } else if lanes[start] is None {
        start
    } else {
        free_from(lanes, start + 1)
    }
}

/// What a session holds: which lane each stream id has, and the lanes.
#[verifier::ext_equal]
pub struct MuxView {
    pub streams: Map<u32, usize>,
    pub lanes: Seq<Option<LaneView>>,
    pub next_id: u32,
    pub max_streams: nat,
}

impl MuxView {
    /// Every stream in the table has an open lane of its own, a linked lane is
    /// in the table, no inbox is over its limit, and there are never more
    /// streams than the budget allows.
    pub open spec fn wf(self) -> bool {
        &&& self.streams.dom().finite()
        &&& self.streams.len() <= self.max_streams
        &&& 1 <= self.max_streams <= max_permits()
        &&& forall|id: u32| #[trigger]
            self.streams.contains_key(id) ==> {
                &&& self.streams[id] < self.lanes.len()
                &&& self.lanes[self.streams[id] as int] matches Some(lane)
                &&& lane.id == id
                &&& lane.linked
                &&& lane.open
            }
        &&& forall|i: int|
            0 <= i < self.lanes.len() && (#[trigger] self.lanes[i]) is Some ==> {
                let lane = self.lanes[i]->0;
                &&& lane.linked ==> self.streams.contains_key(lane.id) && self.streams[lane.id]
                    == i
                &&& lane.inbox.len() <= INBOX_FRAMES
                &&& 0 <= lane.credit <= max_permits()
                &&& lane.linked || lane.reader || lane.writer
            }
    }

    /// Whether the stream budget is spent.
    pub open spec fn full(self) -> bool {
        self.streams.len() >= self.max_streams
    }

    /// The lane at an index, if it is in use.
    pub open spec fn lane(self, i: int) -> Option<LaneView> {
        if 0 <= i < self.lanes.len() {
            self.lanes[i]
        } else {
            None
        }
    }

    /// The session with one lane changed.
    pub open spec fn with_lane(self, i: int, lane: Option<LaneView>) -> MuxView {
        MuxView { lanes: self.lanes.update(i, lane), ..self }
    }

    /// The session without a stream: its slot of the budget is free, its reader
    /// sees the end after what its inbox holds, and, where its gate is closed
    /// too, its sender fails.
    pub open spec fn unlinked(self, id: u32, close_gate: bool) -> MuxView {
        if self.streams.contains_key(id) {
            let i = self.streams[id] as int;
            let lane = self.lanes[i]->0;
            MuxView {
                streams: self.streams.remove(id),
                lanes: self.lanes.update(
                    i,
                    kept(LaneView { linked: false, open: lane.open && !close_gate, ..lane }),
                ),
                ..self
            }
        } else {
            self
        }
    }

    /// The lane that the next stream under this id will have.
    pub open spec fn next_lane(self, id: u32) -> int {
        free_from(self.unlinked(id, false).lanes, 0)
    }

    /// The session with a new stream; one that had the id before is displaced,
    /// its gate left as it was.
    pub open spec fn linked(self, id: u32) -> MuxView {
        let base = self.unlinked(id, false);
        let i = free_from(base.lanes, 0);
        MuxView {
            streams: base.streams.insert(id, i as usize),
            lanes: if i < base.lanes.len() {
                base.lanes.update(i, Some(fresh(id)))
            } else {
                base.lanes.push(Some(fresh(id)))
            },
            ..base
        }
    }

    /// The session after an attempt to open a stream from this side.
    pub open spec fn offered(self) -> MuxView {
        if self.full() {
            self
        } else {
            MuxView { next_id: self.next_id.wrapping_add(1), ..self.linked(self.next_id) }
        }
    }

    /// The session without any stream, and with every stream's gate closed.
    pub open spec fn ended(self) -> MuxView {
        MuxView {
            streams: Map::empty(),
            lanes: Seq::new(
                self.lanes.len(),
                |i: int|
                    match self.lanes[i] {
                        Some(lane) => if lane.linked {
                            kept(LaneView { linked: false, open: false, ..lane })
                        } else {
                            Some(lane)
                        },
                        None => None,
                    },
            ),
            ..self
        }
    }

    /// The session once the send half of a lane is gone.
    pub open spec fn without_writer(self, i: int) -> MuxView {
        match self.lane(i) {
            Some(lane) => self.with_lane(i, kept(LaneView { writer: false, ..lane })),
            None => self,
        }
    }

    /// The session once the receive half of a lane is gone, with what its inbox
    /// held.
    pub open spec fn without_reader(self, i: int) -> MuxView {
        match self.lane(i) {
            Some(lane) => self.with_lane(
                i,
                kept(LaneView { reader: false, inbox: Seq::empty(), ..lane }),
            ),
            None => self,
        }
    }
}

/// A session without streams.
pub open spec fn started(max_streams: nat) -> MuxView {
    MuxView {
        streams: Map::empty(),
        lanes: Seq::empty(),
        next_id: 1,
        max_streams: if max_streams == 0 {
            1
        } else {
            max_streams
        },
    }
}

/// The first free lane is free, or just past the end, and nothing before it is
/// free.
pub(crate) proof fn lemma_free_from(lanes: Seq<Option<LaneView>>, start: int)
    requires
        0 <= start <= lanes.len(),
    ensures
        start <= free_from(lanes, start) <= lanes.len(),
        free_from(lanes, start) < lanes.len() ==> lanes[free_from(lanes, start)] is None,
        forall|i: int| start <= i < free_from(lanes, start) ==> (#[trigger] lanes[i]) is Some,
    decreases lanes.len() - start,
{
    if start < lanes.len() && lanes[start] is Some {
        lemma_free_from(lanes, start + 1);
    }
}

/// Taking a stream out keeps the session well formed.
pub(crate) proof fn lemma_unlinked_wf(v: MuxView, id: u32, close_gate: bool)
    requires
        v.wf(),
    ensures
        v.unlinked(id, close_gate).wf(),
        v.unlinked(id, close_gate).lanes.len() == v.lanes.len(),
        !v.unlinked(id, close_gate).streams.contains_key(id),
        v.unlinked(id, close_gate).streams.len() <= v.streams.len(),
{
    let w = v.unlinked(id, close_gate);
    if v.streams.contains_key(id) {
        assert(w.streams.dom() =~= v.streams.dom().remove(id));
        let slot = v.streams[id] as int;
        assert(v.lanes[slot] is Some);
        assert forall|other: u32| #[trigger] w.streams.contains_key(other) implies {
            &&& w.streams[other] < w.lanes.len()
            &&& w.lanes[w.streams[other] as int] matches Some(lane)
            &&& lane.id == other
            &&& lane.linked
            &&& lane.open
        } by {
            assert(v.streams.contains_key(other));
        }
        assert forall|i: int|
            0 <= i < w.lanes.len() && (#[trigger] w.lanes[i]) is Some implies {
            let lane = w.lanes[i]->0;
            &&& lane.linked ==> w.streams.contains_key(lane.id) && w.streams[lane.id] == i
            &&& lane.inbox.len() <= INBOX_FRAMES
            &&& 0 <= lane.credit <= max_permits()
            &&& lane.linked || lane.reader || lane.writer
        } by {
            assert(v.lanes[i] is Some);
        }
    }
}

/// A new stream keeps the session well formed, while the budget is not spent.
pub(crate) proof fn lemma_linked_wf(v: MuxView, id: u32)
    requires
        v.wf(),
        !v.full(),
        v.lanes.len() <= usize::MAX,
    ensures
        v.linked(id).wf(),
        0 <= v.next_lane(id) <= v.lanes.len(),
        v.linked(id).streams.contains_key(id),
        v.linked(id).streams[id] == v.next_lane(id),
        v.linked(id).lane(v.next_lane(id)) == Some(fresh(id)),
{
    let base = v.unlinked(id, false);
    let w = v.linked(id);
    let slot = v.next_lane(id);
    lemma_unlinked_wf(v, id, false);
    lemma_free_from(base.lanes, 0);
    assert(w.streams.dom() =~= base.streams.dom().insert(id));
    assert forall|other: u32| #[trigger] w.streams.contains_key(other) implies {
        &&& w.streams[other] < w.lanes.len()
        &&& w.lanes[w.streams[other] as int] matches Some(lane)
        &&& lane.id == other
        &&& lane.linked
        &&& lane.open
    } by {
        if other != id {
            assert(base.streams.contains_key(other));
        }
    }
    assert forall|i: int| 0 <= i < w.lanes.len() && (#[trigger] w.lanes[i]) is Some implies {
        let lane = w.lanes[i]->0;
        &&& lane.linked ==> w.streams.contains_key(lane.id) && w.streams[lane.id] == i
        &&& lane.inbox.len() <= INBOX_FRAMES
        &&& 0 <= lane.credit <= max_permits()
        &&& lane.linked || lane.reader || lane.writer
    } by {
        if i != slot {
            assert(base.lanes[i] is Some);
        }
    }
}

/// A change of a lane that keeps its place in the table keeps the session well
/// formed.
pub(crate) proof fn lemma_with_lane_wf(v: MuxView, i: int, lane: LaneView)
    requires
        v.wf(),
        v.lane(i) is Some,
        lane.id == v.lane(i)->0.id,
        lane.linked == v.lane(i)->0.linked,
        lane.open == v.lane(i)->0.open,
        lane.inbox.len() <= INBOX_FRAMES,
        0 <= lane.credit <= max_permits(),
    ensures
        v.with_lane(i, kept(lane)).wf(),
{
    let w = v.with_lane(i, kept(lane));
    assert forall|id: u32| #[trigger] w.streams.contains_key(id) implies {
        &&& w.streams[id] < w.lanes.len()
        &&& w.lanes[w.streams[id] as int] matches Some(lane)
        &&& lane.id == id
        &&& lane.linked
        &&& lane.open
    } by {
        assert(v.streams.contains_key(id));
        assert(v.lanes[v.streams[id] as int] is Some);
    }
    assert forall|k: int| 0 <= k < w.lanes.len() && (#[trigger] w.lanes[k]) is Some implies {
        let lane = w.lanes[k]->0;
        &&& lane.linked ==> w.streams.contains_key(lane.id) && w.streams[lane.id] == k
        &&& lane.inbox.len() <= INBOX_FRAMES
        &&& 0 <= lane.credit <= max_permits()
        &&& lane.linked || lane.reader || lane.writer
    } by {
        assert(v.lanes[k] is Some);
    }
}

/// Ending every stream keeps the session well formed.
pub(crate) proof fn lemma_ended_wf(v: MuxView)
    requires
        v.wf(),
    ensures
        v.ended().wf(),
{
    let w = v.ended();
    assert forall|k: int| 0 <= k < w.lanes.len() && (#[trigger] w.lanes[k]) is Some implies {
        let lane = w.lanes[k]->0;
        &&& lane.linked ==> w.streams.contains_key(lane.id) && w.streams[lane.id] == k
        &&& lane.inbox.len() <= INBOX_FRAMES
        &&& 0 <= lane.credit <= max_permits()
        &&& lane.linked || lane.reader || lane.writer
    } by {
        assert(v.lanes[k] is Some);
    }
}

/// What the session does with a frame, besides changing itself.
pub enum Outcome {
    /// The frame is too short to hold a head; the link is broken.
    Short,
    /// Nothing to send.
    Nothing,
    /// A frame to send to the peer.
    Reply(FrameView),
    /// The peer opened a stream.
    Opened { id: u32, lane: int },
}

impl MuxView {
    /// What a DATA frame does: its payload joins the stream's inbox. A stream
    /// that is gone, or whose reader hung up, costs nothing. A full inbox means
    /// a peer that wrote past its window, which ends that one stream.
    pub open spec fn delivered(self, id: u32, payload: Seq<u8>) -> (MuxView, Outcome) {
        if !self.streams.contains_key(id) {
            (self, Outcome::Nothing)
        } else {
            let i = self.streams[id] as int;
            let lane = self.lanes[i]->0;
            if !lane.reader {
                (self, Outcome::Nothing)
            } else if lane.inbox.len() >= INBOX_FRAMES {
                (self.unlinked(id, true), Outcome::Reply(control(id, KIND_CLOSE)))
            } else {
                (
                    self.with_lane(i, Some(LaneView { inbox: lane.inbox.push(payload), ..lane })),
                    Outcome::Nothing,
                )
            }
        }
    }

    /// What a WINDOW frame does: the stream may send that much more.
    pub open spec fn granted(self, id: u32, grant: int) -> MuxView {
        if self.streams.contains_key(id) {
            let i = self.streams[id] as int;
            let lane = self.lanes[i]->0;
            self.with_lane(i, Some(LaneView { credit: lane.credit + grant, ..lane }))
        } else {
            self
        }
    }

    /// What a frame from the link does.
    pub open spec fn dispatched(self, bytes: Seq<u8>) -> (MuxView, Outcome) {
        match parse(bytes) {
            None => (self, Outcome::Short),
            Some(frame) => {
                // streamId 0 is the keepalive channel, whatever the kind.
                if frame.id == 0 {
                    (self, Outcome::Reply(control(0, KIND_DATA)))
                } else if frame.kind == KIND_OPEN {
                    if self.full() {
                        (self, Outcome::Reply(control(frame.id, KIND_CLOSE)))
                    } else {
                        (
                            self.linked(frame.id),
                            Outcome::Opened { id: frame.id, lane: self.next_lane(frame.id) },
                        )
                    }
                } else if frame.kind == KIND_DATA {
                    self.delivered(frame.id, frame.payload)
                } else if frame.kind == KIND_WINDOW && frame.payload.len() == 4 {
                    (self.granted(frame.id, be32_value(frame.payload)), Outcome::Nothing)
                } else if frame.kind == KIND_CLOSE {
                    (self.unlinked(frame.id, true), Outcome::Nothing)
                } else {
                    (self, Outcome::Nothing)
                }
            },
        }
    }

    /// Whether a frame leaves every credit pool within its limit.
    pub open spec fn credit_fits(self, bytes: Seq<u8>) -> bool {
        match parse(bytes) {
            Some(frame) => frame.id != 0 && frame.kind == KIND_WINDOW && frame.payload.len() == 4
                && self.streams.contains_key(frame.id) ==> self.lanes[self.streams[frame.id] as int]->0.credit
                + be32_value(frame.payload) <= max_permits(),
            None => true,
        }
    }
}

/// A frame from the link keeps the session well formed.
pub(crate) proof fn lemma_dispatched_wf(v: MuxView, bytes: Seq<u8>)
    requires
        v.wf(),
        v.credit_fits(bytes),
        v.lanes.len() <= usize::MAX,
    ensures
        v.dispatched(bytes).0.wf(),
{
    if let Some(frame) = parse(bytes) {
        lemma_unlinked_wf(v, frame.id, true);
        if !v.full() {
            lemma_linked_wf(v, frame.id);
        }
        if v.streams.contains_key(frame.id) {
            let i = v.streams[frame.id] as int;
            let lane = v.lanes[i]->0;
            if lane.inbox.len() < INBOX_FRAMES {
                lemma_with_lane_wf(
                    v,
                    i,
                    LaneView { inbox: lane.inbox.push(frame.payload), ..lane },
                );
            }
            if frame.kind == KIND_WINDOW && frame.id != 0 && frame.payload.len() == 4 {
                lemma_with_lane_wf(
                    v,
                    i,
                    LaneView { credit: lane.credit + be32_value(frame.payload), ..lane },
                );
            }
        }
    }
}

/// One live bridge link and every stream riding it.
pub struct MuxSession {
    streams: DashMap<u32, usize>,
    lanes: Vec<Option<Lane>>,
    next_id: u32,
    /// This link's stream ceiling.
    max_streams: usize,
}

/// What the lanes hold.
closed spec fn lane_views(lanes: Seq<Option<Lane>>) -> Seq<Option<LaneView>> {
    lanes.map_values(
        |lane: Option<Lane>|
            match lane {
                Some(lane) => Some(lane@),
                None => None,
            },
    )
}

impl View for MuxSession {
    type V = MuxView;

    closed spec fn view(&self) -> MuxView {
        MuxView {
            streams: lanes_by_id(self.streams),
            lanes: lane_views(self.lanes@),
            next_id: self.next_id,
            max_streams: self.max_streams as nat,
        }
    }
}

/// Send half of one mux stream.
pub struct StreamTx {
    id: u32,
    lane: usize,
}

/// Receive half of one mux stream.
pub struct StreamRx {
    lane: usize,
}

impl StreamTx {
    /// The stream's id.
    pub closed spec fn spec_id(&self) -> u32 {
        self.id
    }

    /// The stream's lane.
    pub closed spec fn lane(&self) -> int {
        self.lane as int
    }

    /// The stream's id.
    pub fn id(&self) -> (id: u32)
        ensures
            id == self.spec_id(),
    {
        self.id
    }

    /// The one frame that tells the peer of a stream that this side opened.
    pub fn announce(&self) -> (frame: Frame)
        ensures
            frame@ == control(self.spec_id(), KIND_OPEN),
    {
        Frame::control(self.id, KIND_OPEN)
    }
}

impl StreamRx {
    /// The stream's lane.
    pub closed spec fn lane(&self) -> int {
        self.lane as int
    }
}

/// Why a link is broken.
#[derive(Debug)]
pub enum MuxError {
    ShortFrame,
}

/// What is left to do after a frame.
pub enum Reaction {
    Nothing,
    /// Send this frame to the peer.
    Reply(Frame),
    /// The peer opened a stream: serve its halves, or drop them.
    Opened(StreamTx, StreamRx),
}

/// Whether a reaction is what the session owes.
pub open spec fn reacts(reaction: Result<Reaction, MuxError>, owed: Outcome) -> bool {
    match (reaction, owed) {
        (Err(MuxError::ShortFrame), Outcome::Short) => true,
        (Ok(Reaction::Nothing), Outcome::Nothing) => true,
        (Ok(Reaction::Reply(frame)), Outcome::Reply(said)) => frame@ == said,
        (Ok(Reaction::Opened(tx, rx)), Outcome::Opened { id, lane }) => tx.spec_id() == id
            && tx.lane() == lane && rx.lane() == lane,
        _ => false,
    }
}

impl MuxSession {
    /// The session's invariant.
    pub open spec fn wf(&self) -> bool {
        self@.wf()
    }

    /// A link without streams, with a stream ceiling of at least one.
    pub fn start(max_streams: usize) -> (session: Self)
        requires
            max_streams <= max_permits(),
        ensures
            session.wf(),
            session@ == started(max_streams as nat),
            session@ == (MuxView {
                streams: Map::empty(),
                lanes: Seq::empty(),
                next_id: 1,
                max_streams: if max_streams == 0 { 1 } else { max_streams as nat },
            }),
    {
        let max_streams: usize = if max_streams == 0 { 1 } else { max_streams };
        let session = MuxSession {
            streams: new_lanes(),
            lanes: Vec::new(),
            next_id: 1,
            max_streams,
        };
        assert(session@.lanes =~= Seq::empty());
        session
    }

    /// Streams currently riding this link; never more than its ceiling.
    pub fn stream_count(&self) -> (n: usize)
        requires
            self.wf(),
        ensures
            n == self@.streams.len(),
            n <= self@.max_streams,
    {
        count_lanes(&self.streams)
    }

    /// Take a stream out of the table.
    fn unlink(&mut self, id: u32, close_gate: bool)
        requires
            old(self).wf(),
        ensures
            final(self).wf(),
            final(self)@ == old(self)@.unlinked(id, close_gate),
    {
        proof {
            lemma_unlinked_wf(self@, id, close_gate);
        }
        if let Some(i) = get_lane(&self.streams, id) {
            assert(self@.streams.contains_key(id));
            assert(self@.lanes[i as int] is Some);
            remove_lane(&mut self.streams, id);
            let mut free: bool = false;
            match &mut self.lanes[i] {
                Some(lane) => {
                    lane.linked = false;
                    if close_gate {
                        lane.open = false;
                    }
                    free = !lane.reader && !lane.writer;
                },
                None => {},
            }
            if free {
                self.lanes[i] = None;
            }
            assert(self@ =~= old(self)@.unlinked(id, close_gate));
        }
    }

    /// Put a new stream into the table.
    fn link(&mut self, id: u32) -> (lane: usize)
        requires
            old(self).wf(),
            !old(self)@.full(),
        ensures
            final(self).wf(),
            final(self)@ == old(self)@.linked(id),
            lane == old(self)@.next_lane(id),
    {
        proof {
            assert(self@.lanes.len() == self.lanes.len());
            lemma_linked_wf(self@, id);
        }
        self.unlink(id, false);
        let ghost base = self@;
        let fresh_lane = Lane {
            id,
            credit: WINDOW as usize,
            open: true,
            inbox: VecDeque::new(),
            linked: true,
            reader: true,
            writer: true,
        };
        assert(fresh_lane@.inbox =~= Seq::empty());
        let mut i: usize = 0;
        while i < self.lanes.len() && self.lanes[i].is_some()
            invariant
                i <= self.lanes@.len(),
                self@ == base,
                free_from(base.lanes, i as int) == free_from(base.lanes, 0),
            decreases self.lanes@.len() - i,
        {
            i += 1;
        }
        insert_lane(&mut self.streams, id, i);
        if i < self.lanes.len() {
            self.lanes[i] = Some(fresh_lane);
        } else {
            self.lanes.push(Some(fresh_lane));
        }
        assert(self@ =~= old(self)@.linked(id));
        i
    }

    /// Open one stream for an incoming mobile connection, if the bridge has
    /// budget left: the stream halves, or `None` once this bridge is full.
    ///
    /// The slot is taken before the peer hears of the stream. The caller then
    /// sends the frame that `announce` gives, and calls `withdraw` if the link is
    /// gone.
    pub fn try_open_stream(&mut self) -> (halves: Option<(StreamTx, StreamRx)>)
        requires
            old(self).wf(),
        ensures
            final(self).wf(),
            final(self)@ == old(self)@.offered(),
            halves is None <==> old(self)@.full(),
            halves matches Some((tx, rx)) ==> tx.spec_id() == old(self)@.next_id && tx.lane()
                == old(self)@.next_lane(old(self)@.next_id) && rx.lane() == tx.lane(),
    {
        if count_lanes(&self.streams) >= self.max_streams {
            return None;
        }
        let id: u32 = self.next_id;
        self.next_id = id.wrapping_add(1);
        let lane: usize = self.link(id);
        Some((StreamTx { id, lane }, StreamRx { lane }))
    }

    /// Whether a frame leaves every credit pool within its limit.
    pub fn grant_fits(&self, bytes: &Bytes) -> (fits: bool)
        requires
            self.wf(),
        ensures
            fits == self@.credit_fits(content(*bytes)),
    {
        let slice = chunk_slice(bytes);
        if slice.len() != 12 || slice[4] != KIND_WINDOW {
            return true;
        }
        let id: u32 = read_be32(slice[0], slice[1], slice[2], slice[3]);
        let grant: u32 = read_be32(slice[8], slice[9], slice[10], slice[11]);
        assert(seq![slice[8], slice[9], slice[10], slice[11]] =~= content(*bytes).skip(8));
        if id == 0 {
            return true;
        }
        match get_lane(&self.streams, id) {
            Some(i) => match &self.lanes[i] {
                Some(lane) => grant as usize <= usize::MAX / 8 - lane.credit,
                None => true,
            },
            None => true,
        }
    }

    /// Take one frame from the link.
    pub fn on_frame(&mut self, bytes: Bytes) -> (reaction: Result<Reaction, MuxError>)
        requires
            old(self).wf(),
            old(self)@.credit_fits(content(bytes)),
        ensures
            final(self).wf(),
            final(self)@ == old(self)@.dispatched(content(bytes)).0,
            reacts(reaction, old(self)@.dispatched(content(bytes)).1),
    {
        proof {
            assert(self@.lanes.len() == self.lanes.len());
            lemma_dispatched_wf(self@, content(bytes));
        }
        let frame = match read_frame(bytes) {
            Some(frame) => frame,
            None => return Err(MuxError::ShortFrame),
        };
        let id: u32 = frame.id;
        // streamId 0 is the keepalive channel: echo it so the bridge can tell a
        // live link from a half-open one.
        if id == 0 {
            return Ok(Reaction::Reply(Frame::control(0, KIND_DATA)));
        }
        if frame.kind == KIND_OPEN {
            // Over budget: refuse the stream rather than exceed the ceiling.
            if count_lanes(&self.streams) >= self.max_streams {
                return Ok(Reaction::Reply(Frame::control(id, KIND_CLOSE)));
            }
            let lane: usize = self.link(id);
            return Ok(Reaction::Opened(StreamTx { id, lane }, StreamRx { lane }));
        }
        if frame.kind == KIND_DATA {
            return Ok(self.deliver(id, frame.payload));
        }
        if frame.kind == KIND_WINDOW && frame.payload.len() == 4 {
            let body = chunk_slice(&frame.payload);
            let grant: u32 = read_be32(body[0], body[1], body[2], body[3]);
            assert(seq![body[0], body[1], body[2], body[3]] =~= content(frame.payload));
            self.credit(id, grant);
            return Ok(Reaction::Nothing);
        }
        if frame.kind == KIND_CLOSE {
            self.unlink(id, true);
        }
        Ok(Reaction::Nothing)
    }

    /// Hand a payload to its stream.
    fn deliver(&mut self, id: u32, payload: Bytes) -> (reaction: Reaction)
        requires
            old(self).wf(),
        ensures
            final(self)@ == old(self)@.delivered(id, content(payload)).0,
            reacts(Ok(reaction), old(self)@.delivered(id, content(payload)).1),
    {
        let i: usize = match get_lane(&self.streams, id) {
            Some(i) => i,
            None => return Reaction::Nothing,
        };
        assert(self@.streams.contains_key(id));
        assert(self@.lanes[i as int] is Some);
        let mut overflow: bool = false;
        match &mut self.lanes[i] {
            Some(lane) => {
                // The mobile side hung up while this was in flight: its stream
                // is gone, but the link serves everyone else.
                if lane.reader {
                    if lane.inbox.len() >= INBOX_FRAMES {
                        overflow = true;
                    } else {
                        let ghost before = lane.inbox@;
                        lane.inbox.push_back(payload);
                        assert(chunks(lane.inbox@) =~= chunks(before).push(content(payload)));
                    }
                }
            },
            None => {},
        }
        if overflow {
            assert(self@ =~= old(self)@);
            // Full means the bridge wrote past the window it was granted. That
            // is a broken peer, but only on this stream.
            self.unlink(id, true);
            return Reaction::Reply(Frame::control(id, KIND_CLOSE));
        }
        assert(self@ =~= old(self)@.delivered(id, content(payload)).0);
        Reaction::Nothing
    }

    /// Add to the credit of a stream.
    fn credit(&mut self, id: u32, grant: u32)
        requires
            old(self).wf(),
            old(self)@.streams.contains_key(id) ==> old(
                self,
            )@.lanes[old(self)@.streams[id] as int]->0.credit + grant <= max_permits(),
        ensures
            final(self)@ == old(self)@.granted(id, grant as int),
    {
        if let Some(i) = get_lane(&self.streams, id) {
            assert(self@.streams.contains_key(id));
            assert(self@.lanes[i as int] is Some);
            match &mut self.lanes[i] {
                Some(lane) => {
                    lane.credit = lane.credit + grant as usize;
                },
                None => {},
            }
            assert(self@ =~= old(self)@.granted(id, grant as int));
        }
    }

    /// Remove one stream, and fail its sender: the frame that tells the bridge.
    pub fn close_stream(&mut self, id: u32) -> (frame: Frame)
        requires
            old(self).wf(),
        ensures
            final(self).wf(),
            final(self)@ == old(self)@.unlinked(id, true),
            frame@ == control(id, KIND_CLOSE),
    {
        self.unlink(id, true);
        Frame::control(id, KIND_CLOSE)
    }

    /// Let go of a send half.
    pub fn drop_tx(&mut self, tx: StreamTx)
        requires
            old(self).wf(),
        ensures
            final(self).wf(),
            final(self)@ == old(self)@.without_writer(tx.lane()),
    {
        let i: usize = tx.lane;
        if i >= self.lanes.len() {
            return;
        }
        let ghost before = self@;
        let mut free: bool = false;
        match &mut self.lanes[i] {
            Some(lane) => {
                lane.writer = false;
                free = !lane.linked && !lane.reader;
            },
            None => {},
        }
        if free {
            self.lanes[i] = None;
        }
        proof {
            assert(self@ =~= before.without_writer(tx.lane()));
            if let Some(lane) = before.lane(i as int) {
                assert(before.lanes[i as int] is Some);
                lemma_with_lane_wf(before, i as int, LaneView { writer: false, ..lane });
            }
        }
    }

    /// Let go of a receive half, and of what its inbox still holds.
    pub fn drop_rx(&mut self, rx: StreamRx)
        requires
            old(self).wf(),
        ensures
            final(self).wf(),
            final(self)@ == old(self)@.without_reader(rx.lane()),
    {
        let i: usize = rx.lane;
        if i >= self.lanes.len() {
            return;
        }
        let ghost before = self@;
        let mut free: bool = false;
        match &mut self.lanes[i] {
            Some(lane) => {
                lane.reader = false;
                lane.inbox = VecDeque::new();
                assert(chunks(lane.inbox@) =~= Seq::empty());
                free = !lane.linked && !lane.writer;
            },
            None => {},
        }
        if free {
            self.lanes[i] = None;
        }
        proof {
            assert(self@ =~= before.without_reader(rx.lane()));
            if let Some(lane) = before.lane(i as int) {
                assert(before.lanes[i as int] is Some);
                lemma_with_lane_wf(
                    before,
                    i as int,
                    LaneView { reader: false, inbox: Seq::empty(), ..lane },
                );
            }
        }
    }

    /// Take back a stream that the peer never heard of: the link died between
    /// reserving and announcing, and the slot must not leak.
    pub fn withdraw(&mut self, tx: StreamTx, rx: StreamRx)
        requires
            old(self).wf(),
        ensures
            final(self).wf(),
            final(self)@ == old(self)@.unlinked(tx.spec_id(), false).without_writer(
                tx.lane(),
            ).without_reader(rx.lane()),
    {
        self.unlink(tx.id, false);
        self.drop_tx(tx);
        self.drop_rx(rx);
    }

    /// The link is gone: no stream stays, and every sender fails. Readers still
    /// get what their inboxes hold.
    pub fn shutdown(&mut self)
        requires
            old(self).wf(),
        ensures
            final(self).wf(),
            final(self)@ == old(self)@.ended(),
    {
        clear_lanes(&mut self.streams);
        let mut i: usize = 0;
        while i < self.lanes.len()
            invariant
                i <= self.lanes@.len(),
                self.lanes@.len() == old(self).lanes@.len(),
                lanes_by_id(self.streams) == Map::<u32, usize>::empty(),
                self.next_id == old(self).next_id,
                self.max_streams == old(self).max_streams,
                forall|k: int|
                    0 <= k < i ==> (#[trigger] self@.lanes[k]) == old(self)@.ended().lanes[k],
                forall|k: int|
                    i <= k < self.lanes@.len() ==> (#[trigger] self@.lanes[k]) == old(
                        self,
                    )@.lanes[k],
            decreases self.lanes@.len() - i,
        {
            let ghost before = self@;
            let mut free: bool = false;
            match &mut self.lanes[i] {
                Some(lane) => {
                    if lane.linked {
                        lane.linked = false;
                        lane.open = false;
                        free = !lane.reader && !lane.writer;
                    }
                },
                None => {},
            }
            if free {
                self.lanes[i] = None;
            }
            assert(before.lanes[i as int] == old(self)@.lanes[i as int]);
            assert(self@.lanes =~= before.lanes.update(
                i as int,
                old(self)@.ended().lanes[i as int],
            ));
            i += 1;
        }
        proof {
            lemma_ended_wf(old(self)@);
            assert(self@ =~= old(self)@.ended());
        }
    }
}

impl StreamTx {
    /// One step of sending `data`: its next frame, once the peer's receive
    /// window has room for all of it.
    ///
    /// Credit is taken when the frame is handed out. `Wait` means that the
    /// window is full: call again once a frame from the link was taken.
    pub fn send(&self, session: &mut MuxSession, data: &mut Bytes) -> (step: SendStep)
        requires
            old(session).wf(),
        ensures
            final(session).wf(),
            final(session)@ == old(session)@.sending(self.lane(), content(*old(data))).0,
            sends(step, self.spec_id(), content(*old(data)), old(session)@.sending(
                self.lane(),
                content(*old(data)),
            ).1),
            content(*final(data)) == (match step {
                SendStep::Frame(_) => content(*old(data)).skip(
                    portion(content(*old(data))) as int,
                ),
                _ => content(*old(data)),
            }),
    {
        if data.is_empty() {
            return SendStep::Done;
        }
        let take: usize = if data.len() < MAX_PAYLOAD { data.len() } else { MAX_PAYLOAD };
        let i: usize = self.lane;
        if i >= session.lanes.len() {
            return SendStep::Broken;
        }
        let ghost before = session@;
        match &mut session.lanes[i] {
            Some(lane) => {
                if !lane.open {
                    assert(session@ =~= before);
                    return SendStep::Broken;
                }
                if lane.credit < take {
                    assert(session@ =~= before);
                    return SendStep::Wait;
                }
                lane.credit = lane.credit - take;
            },
            None => {
                assert(session@ =~= before);
                return SendStep::Broken;
            },
        }
        proof {
            let lane = before.lane(i as int)->0;
            lemma_with_lane_wf(before, i as int, LaneView { credit: lane.credit - take, ..lane });
            assert(before.lanes[i as int] is Some);
            assert(session@ =~= before.sending(self.lane(), content(*data)).0);
        }
        let payload = data.split_to(take);
        SendStep::Frame(Frame { id: self.id, kind: KIND_DATA, payload })
    }

    /// Return receive credit after the bytes have left for the mobile client:
    /// the frame to send.
    pub fn grant(&self, bytes: u32) -> (frame: Frame)
        ensures
            frame@ == window(self.spec_id(), bytes),
    {
        window_frame(self.id, bytes)
    }

    /// Close the stream on both ends: the frame to send. Credit already granted
    /// to this side stays good.
    pub fn close(&self, session: &mut MuxSession) -> (frame: Frame)
        requires
            old(session).wf(),
        ensures
            final(session).wf(),
            final(session)@ == old(session)@.unlinked(self.spec_id(), false),
            frame@ == control(self.spec_id(), KIND_CLOSE),
    {
        session.unlink(self.id, false);
        Frame::control(self.id, KIND_CLOSE)
    }
}

impl StreamRx {
    /// How long the next chunk is, if one has arrived.
    pub(crate) fn waiting(&self, session: &MuxSession) -> (n: Option<usize>)
        ensures
            match (n, session@.receiving(self.lane()).1) {
                (Some(n), Receiving::Chunk(chunk)) => n == chunk.len(),
                (None, Receiving::Chunk(_)) => false,
                (Some(_), _) => false,
                (None, _) => true,
            },
    {
        if self.lane >= session.lanes.len() {
            return None;
        }
        match &session.lanes[self.lane] {
            Some(lane) => if lane.inbox.len() > 0 {
                assert(chunks(lane.inbox@)[0] == content(lane.inbox@[0]));
                Some(lane.inbox[0].len())
            } else {
                None
            },
            None => None,
        }
    }

    /// The next chunk of a stream, if there is one.
    pub fn recv(&self, session: &mut MuxSession) -> (step: RecvStep)
        requires
            old(session).wf(),
        ensures
            final(session).wf(),
            final(session)@ == old(session)@.receiving(self.lane()).0,
            receives(step, old(session)@.receiving(self.lane()).1),
    {
        let i: usize = self.lane;
        if i >= session.lanes.len() {
            return RecvStep::End;
        }
        let ghost before = session@;
        match &mut session.lanes[i] {
            Some(lane) => {
                assert(before.lanes[i as int] is Some);
                let ghost inbox = lane.inbox@;
                match lane.inbox.pop_front() {
                    Some(chunk) => {
                        proof {
                            assert(chunks(lane.inbox@) =~= chunks(inbox).skip(1));
                            assert(chunks(inbox)[0] == content(chunk));
                            let seen = before.lane(i as int)->0;
                            lemma_with_lane_wf(
                                before,
                                i as int,
                                LaneView { inbox: seen.inbox.skip(1), ..seen },
                            );
                            assert(session@ =~= before.receiving(self.lane()).0);
                        }
                        RecvStep::Chunk(chunk)
                    },
                    None => {
                        assert(chunks(inbox) =~= Seq::empty());
                        let more: bool = lane.linked;
                        assert(session@ =~= before);
                        if more {
                            RecvStep::Wait
                        } else {
                            RecvStep::End
                        }
                    },
                }
            },
            None => {
                assert(session@ =~= before);
                RecvStep::End
            },
        }
    }
}

/// A step of sending.
pub enum SendStep {
    /// Nothing is left to send.
    Done,
    /// Send this frame, and go on.
    Frame(Frame),
    /// The peer's receive window is full.
    Wait,
    /// The stream or its link is gone.
    Broken,
}

/// A step of receiving.
pub enum RecvStep {
    Chunk(Bytes),
    /// Nothing has arrived yet.
    Wait,
    /// The stream is over.
    End,
}

/// How sending goes on.
pub enum Sending {
    Done,
    Frame,
    Wait,
    Broken,
}

/// How receiving goes on.
pub enum Receiving {
    Chunk(Seq<u8>),
    Wait,
    End,
}

/// How much of some bytes the next frame carries.
pub open spec fn portion(data: Seq<u8>) -> nat {
    if data.len() < MAX_PAYLOAD {
        data.len()
    } else {
        MAX_PAYLOAD as nat
    }
}

/// Whether a step of sending is what the session owes.
pub open spec fn sends(step: SendStep, id: u32, data: Seq<u8>, owed: Sending) -> bool {
    match (step, owed) {
        (SendStep::Done, Sending::Done) => true,
        (SendStep::Frame(frame), Sending::Frame) => frame@ == (FrameView {
            id,
            kind: KIND_DATA,
            payload: data.take(portion(data) as int),
        }),
        (SendStep::Wait, Sending::Wait) => true,
        (SendStep::Broken, Sending::Broken) => true,
        _ => false,
    }
}

/// Whether a step of receiving is what the session owes.
pub open spec fn receives(step: RecvStep, owed: Receiving) -> bool {
    match (step, owed) {
        (RecvStep::Chunk(chunk), Receiving::Chunk(said)) => content(chunk) == said,
        (RecvStep::Wait, Receiving::Wait) => true,
        (RecvStep::End, Receiving::End) => true,
        _ => false,
    }
}

/// A frame that hands back receive credit.
pub open spec fn window(id: u32, bytes: u32) -> FrameView {
    FrameView { id, kind: KIND_WINDOW, payload: be32(bytes) }
}

/// A frame that hands back receive credit.
pub(crate) fn window_frame(id: u32, bytes: u32) -> (frame: Frame)
    ensures
        frame@ == window(id, bytes),
{
    let payload: [u8; 4] = [
        (bytes / 0x100_0000) as u8,
        (bytes / 0x1_0000 % 0x100) as u8,
        (bytes / 0x100 % 0x100) as u8,
        (bytes % 0x100) as u8,
    ];
    assert(payload@ =~= be32(bytes));
    Frame { id, kind: KIND_WINDOW, payload: Bytes::copy_from_slice(&payload) }
}

impl MuxView {
    /// What a step of sending does: credit for the next frame is spent, if
    /// there is enough.
    pub open spec fn sending(self, i: int, data: Seq<u8>) -> (MuxView, Sending) {
        if data.len() == 0 {
            (self, Sending::Done)
        } else {
            match self.lane(i) {
                Some(lane) => if !lane.open {
                    (self, Sending::Broken)
                } else if lane.credit < portion(data) {
                    (self, Sending::Wait)
                } else {
                    (
                        self.with_lane(
                            i,
                            Some(LaneView { credit: lane.credit - portion(data), ..lane }),
                        ),
                        Sending::Frame,
                    )
                },
                None => (self, Sending::Broken),
            }
        }
    }

    /// What a step of receiving does: the oldest chunk leaves the inbox.
    pub open spec fn receiving(self, i: int) -> (MuxView, Receiving) {
        match self.lane(i) {
            Some(lane) => if lane.inbox.len() > 0 {
                (
                    self.with_lane(i, Some(LaneView { inbox: lane.inbox.skip(1), ..lane })),
                    Receiving::Chunk(lane.inbox[0]),
                )
            } else if lane.linked {
                (self, Receiving::Wait)
            } else {
                (self, Receiving::End)
            },
            None => (self, Receiving::End),
        }
    }
}

} // verus!
