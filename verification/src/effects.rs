//! What each frame, and each call, does to a session: which lane it changes, and
//! in what, and that it changes nothing else.

use vstd::prelude::*;

use crate::buf::content;
use crate::mux::{frame_bytes, law_frame_reads_back, max_permits, Frame, FrameView};
use crate::session::{
    lemma_free_from, lemma_linked_wf, lemma_unlinked_wf, portion, reacts, receives, sends,
    started, window, LaneView, MuxError, MuxView, Outcome, Reaction, Receiving, RecvStep,
    SendStep, Sending,
};
use crate::stream::{
    flushes, reads, said_of, same_frame, FlushStep, Flushing, ReadStep, Reading,
};
use crate::wire::law_be32_round_trip;

verus! {

/// Whether two states of a session differ in one lane at most.
pub open spec fn same_but_lane(v: MuxView, w: MuxView, i: int) -> bool {
    &&& w.streams == v.streams
    &&& w.next_id == v.next_id
    &&& w.max_streams == v.max_streams
    &&& w.lanes.len() == v.lanes.len()
    &&& forall|k: int| 0 <= k < v.lanes.len() && k != i ==> (#[trigger] w.lanes[k]) == v.lanes[k]
}

/// Whether two states of a session differ in one stream and its lane at most.
pub open spec fn same_but_stream(v: MuxView, w: MuxView, id: u32) -> bool {
    &&& w.streams == v.streams.remove(id)
    &&& w.next_id == v.next_id
    &&& w.max_streams == v.max_streams
    &&& w.lanes.len() == v.lanes.len()
    &&& forall|k: int|
        0 <= k < v.lanes.len() && k != v.streams[id] ==> (#[trigger] w.lanes[k]) == v.lanes[k]
}

/// A new session has no stream, gives out ids from one on, and has the ceiling
/// that it was asked for, but at least one.
pub proof fn law_sessions_start_empty(max_streams: nat)
    ensures
        ({
            let v = started(max_streams);
            &&& v.streams == Map::<u32, usize>::empty()
            &&& v.lanes.len() == 0
            &&& v.next_id == 1
            &&& max_streams >= 1 ==> v.max_streams == max_streams
            &&& max_streams == 0 ==> v.max_streams == 1
        }),
{
}

/// The budget is spent exactly when there are as many streams as it allows.
pub proof fn law_budget_is_the_ceiling(v: MuxView)
    ensures
        v.streams.len() < v.max_streams ==> !v.full(),
        v.streams.len() >= v.max_streams ==> v.full(),
{
}

/// Data for a stream joins its inbox behind all that waits there, whole, while
/// fewer than 1024 chunks do; where they are as many, the stream ends and the
/// peer is told. Data for a stream that is gone, or that nobody reads, is
/// dropped. Nothing is sent otherwise, and no other lane changes.
pub proof fn law_data_joins_the_inbox(v: MuxView, id: u32, payload: Seq<u8>)
    requires
        v.wf(),
        id != 0,
    ensures
        ({
            let (w, outcome) = v.dispatched(frame_bytes(id, 1, payload));
            let i = v.streams[id] as int;
            let lane = v.lanes[i]->0;
            &&& !v.streams.contains_key(id) || !lane.reader ==> w == v && outcome is Nothing
            &&& v.streams.contains_key(id) && lane.reader && lane.inbox.len() < 1024 ==> {
                &&& outcome is Nothing
                &&& same_but_lane(v, w, i)
                &&& w.lanes[i] matches Some(after) && after.inbox == lane.inbox.push(payload)
                    && after.id == lane.id && after.credit == lane.credit && after.open == lane.open
                    && after.linked == lane.linked && after.reader == lane.reader && after.writer
                    == lane.writer
            }
            &&& v.streams.contains_key(id) && lane.reader && lane.inbox.len() == 1024 ==> {
                &&& outcome matches Outcome::Reply(frame) && frame.id == id && frame.kind == 2
                    && frame.payload.len() == 0
                &&& same_but_stream(v, w, id)
            }
        }),
{
    law_frame_reads_back(id, 1, payload);
    if v.streams.contains_key(id) {
        assert(v.lanes[v.streams[id] as int] is Some);
    }
}

/// A window frame of four bytes lets its stream send as many more bytes as they
/// say, the most significant first; one of another length, or for a stream that
/// is gone, does nothing.
pub proof fn law_window_raises_the_credit(v: MuxView, id: u32, payload: Seq<u8>)
    requires
        v.wf(),
        id != 0,
    ensures
        ({
            let (w, outcome) = v.dispatched(frame_bytes(id, 3, payload));
            let i = v.streams[id] as int;
            let lane = v.lanes[i]->0;
            &&& outcome is Nothing
            &&& payload.len() != 4 || !v.streams.contains_key(id) ==> w == v
            &&& payload.len() == 4 && v.streams.contains_key(id) ==> {
                &&& same_but_lane(v, w, i)
                &&& w.lanes[i] matches Some(after) && after.credit == lane.credit + payload[0]
                    * 16777216 + payload[1] * 65536 + payload[2] * 256 + payload[3] && after.inbox
                    == lane.inbox && after.id == lane.id && after.open == lane.open && after.linked
                    == lane.linked && after.reader == lane.reader && after.writer == lane.writer
            }
        }),
{
    law_frame_reads_back(id, 3, payload);
    if v.streams.contains_key(id) {
        assert(v.lanes[v.streams[id] as int] is Some);
    }
}

/// A close frame ends its stream, and only it, whatever it carries; nothing is
/// answered.
pub proof fn law_close_ends_its_stream(v: MuxView, id: u32, payload: Seq<u8>)
    requires
        v.wf(),
        id != 0,
    ensures
        ({
            let (w, outcome) = v.dispatched(frame_bytes(id, 2, payload));
            &&& outcome is Nothing
            &&& !v.streams.contains_key(id) ==> w == v
            &&& v.streams.contains_key(id) ==> same_but_stream(v, w, id) && w == v.unlinked(
                id,
                true,
            )
        }),
{
    law_frame_reads_back(id, 2, payload);
    if v.streams.contains_key(id) {
        assert(v.lanes[v.streams[id] as int] is Some);
    }
}

/// An open frame opens a stream under its id while there are fewer streams than
/// the ceiling, and is answered with a close frame otherwise.
pub proof fn law_open_takes_a_free_lane(v: MuxView, id: u32, payload: Seq<u8>)
    requires
        v.wf(),
        id != 0,
        v.lanes.len() <= usize::MAX,
    ensures
        ({
            let (w, outcome) = v.dispatched(frame_bytes(id, 0, payload));
            &&& v.streams.len() >= v.max_streams ==> w == v && (outcome matches Outcome::Reply(
                frame,
            ) && frame.id == id && frame.kind == 2 && frame.payload.len() == 0)
            &&& v.streams.len() < v.max_streams ==> {
                &&& outcome matches Outcome::Opened { id: opened, lane } && opened == id
                    && w.streams == v.streams.insert(id, lane as usize) && is_new(w, lane, id)
                &&& w.next_id == v.next_id
                &&& w.max_streams == v.max_streams
            }
        }),
{
    law_frame_reads_back(id, 0, payload);
    if v.streams.len() < v.max_streams {
        lemma_linked_wf(v, id);
        lemma_unlinked_wf(v, id, false);
        assert(v.linked(id).streams =~= v.streams.insert(id, v.next_lane(id) as usize));
    }
}

/// Whether a lane is that of a stream that was just opened: a whole window of
/// credit, nothing in the inbox, and both halves held.
pub open spec fn is_new(v: MuxView, i: int, id: u32) -> bool {
    &&& v.lane(i) matches Some(lane)
    &&& lane.id == id
    &&& lane.credit == 262144
    &&& lane.open
    &&& lane.inbox.len() == 0
    &&& lane.linked
    &&& lane.reader
    &&& lane.writer
}

/// Opening a stream from this side gives it the next id and a free lane, and
/// moves on to the id behind it; over the ceiling nothing happens.
pub proof fn law_offers_take_the_next_id(v: MuxView)
    requires
        v.wf(),
        v.lanes.len() <= usize::MAX,
    ensures
        v.streams.len() >= v.max_streams ==> v.offered() == v,
        v.streams.len() < v.max_streams ==> {
            let lane = v.next_lane(v.next_id);
            &&& v.offered().streams == v.streams.insert(v.next_id, lane as usize)
            &&& is_new(v.offered(), lane, v.next_id)
            &&& v.offered().max_streams == v.max_streams
            &&& v.next_id < u32::MAX ==> v.offered().next_id == v.next_id + 1
            &&& v.next_id == u32::MAX ==> v.offered().next_id == 0
        },
{
    if v.streams.len() < v.max_streams {
        let id = v.next_id;
        lemma_linked_wf(v, id);
        lemma_unlinked_wf(v, id, false);
        assert(v.linked(id).streams =~= v.streams.insert(id, v.next_lane(id) as usize));
        assert(v.offered().lanes == v.linked(id).lanes);
    }
}

/// A new stream's lane was free: it is no other stream's, and none that a half
/// still holds.
pub proof fn law_new_lanes_were_free(v: MuxView, id: u32)
    requires
        v.wf(),
        !v.streams.contains_key(id),
    ensures
        0 <= v.next_lane(id) <= v.lanes.len(),
        v.lane(v.next_lane(id)) is None,
        forall|k: int| 0 <= k < v.next_lane(id) ==> (#[trigger] v.lanes[k]) is Some,
        forall|k: int|
            0 <= k < v.lanes.len() && k != v.next_lane(id) ==> (#[trigger] v.linked(id).lanes[k])
                == v.lanes[k],
{
    lemma_free_from(v.lanes, 0);
}

/// Frames of any other kind are passed over.
pub proof fn law_other_kinds_are_passed_over(v: MuxView, id: u32, kind: u8, payload: Seq<u8>)
    requires
        id != 0,
        kind > 3,
    ensures
        v.dispatched(frame_bytes(id, kind, payload)) == (v, Outcome::Nothing),
{
    law_frame_reads_back(id, kind, payload);
}

/// Bytes too short for a head break the link, and change nothing.
pub proof fn law_short_frames_break_the_link(v: MuxView, bytes: Seq<u8>)
    requires
        bytes.len() < 8,
    ensures
        v.dispatched(bytes) == (v, Outcome::Short),
{
}

/// A frame for stream 0 is answered with an empty data frame for stream 0.
pub proof fn law_keepalives_are_answered(v: MuxView, kind: u8, payload: Seq<u8>)
    ensures
        ({
            let (w, outcome) = v.dispatched(frame_bytes(0, kind, payload));
            &&& w == v
            &&& outcome matches Outcome::Reply(frame) && frame.id == 0 && frame.kind == 1
                && frame.payload.len() == 0
        }),
{
    law_frame_reads_back(0, kind, payload);
}

/// A stream that ends leaves its lane to whoever holds a half of it: what waits
/// in the inbox stays, and so does the credit, and only where the sender is to
/// fail is the lane closed to it. A lane that nobody holds is free.
pub proof fn law_ended_streams_keep_their_inbox(v: MuxView, id: u32, close_gate: bool)
    requires
        v.wf(),
        v.streams.contains_key(id),
    ensures
        ({
            let w = v.unlinked(id, close_gate);
            let i = v.streams[id] as int;
            let lane = v.lanes[i]->0;
            &&& same_but_stream(v, w, id)
            &&& !lane.reader && !lane.writer <==> w.lanes[i] is None
            &&& lane.reader || lane.writer ==> (w.lanes[i] matches Some(after) && !after.linked
                && after.open == !close_gate && after.inbox == lane.inbox && after.credit
                == lane.credit && after.id == lane.id && after.reader == lane.reader && after.writer
                == lane.writer)
        }),
{
    assert(v.lanes[v.streams[id] as int] is Some);
}

/// Ending what is no stream does nothing.
pub proof fn law_ending_nothing_changes_nothing(v: MuxView, id: u32, close_gate: bool)
    requires
        !v.streams.contains_key(id),
    ensures
        v.unlinked(id, close_gate) == v,
{
}

/// When the link ends, every stream's lane is closed, and what waits in its inbox
/// stays for whoever reads it.
pub proof fn law_the_end_of_a_link_keeps_the_inboxes(v: MuxView, i: int)
    requires
        v.wf(),
        0 <= i < v.lanes.len(),
    ensures
        ({
            let w = v.ended();
            &&& w.streams == Map::<u32, usize>::empty()
            &&& w.lanes.len() == v.lanes.len()
            &&& w.next_id == v.next_id
            &&& w.max_streams == v.max_streams
            &&& v.lanes[i] is None ==> w.lanes[i] is None
            &&& v.lanes[i] matches Some(lane) ==> {
                &&& !lane.linked ==> w.lanes[i] == v.lanes[i]
                &&& lane.linked && !lane.reader && !lane.writer ==> w.lanes[i] is None
                &&& lane.linked && (lane.reader || lane.writer) ==> (w.lanes[i] matches Some(after)
                    && !after.linked && !after.open && after.inbox == lane.inbox && after.credit
                    == lane.credit && after.id == lane.id && after.reader == lane.reader
                    && after.writer == lane.writer)
            }
        }),
{
}

/// Letting go of a send half changes only who holds the lane; one that nobody
/// holds is free.
pub proof fn law_dropped_send_halves(v: MuxView, i: int)
    requires
        v.lane(i) is Some,
    ensures
        ({
            let w = v.without_writer(i);
            let lane = v.lane(i)->0;
            &&& same_but_lane(v, w, i)
            &&& !lane.linked && !lane.reader <==> w.lanes[i] is None
            &&& w.lanes[i] matches Some(after) ==> after == LaneView { writer: false, ..lane }
        }),
{
}

/// Letting go of a receive half empties the inbox too.
pub proof fn law_dropped_receive_halves(v: MuxView, i: int)
    requires
        v.lane(i) is Some,
    ensures
        ({
            let w = v.without_reader(i);
            let lane = v.lane(i)->0;
            &&& same_but_lane(v, w, i)
            &&& !lane.linked && !lane.writer <==> w.lanes[i] is None
            &&& w.lanes[i] matches Some(after) ==> after.inbox.len() == 0 && after == LaneView {
                reader: false,
                inbox: after.inbox,
                ..lane
            }
        }),
{
}

/// Letting go of a half of a lane that is free does nothing.
pub proof fn law_dropping_a_free_lane_changes_nothing(v: MuxView, i: int)
    requires
        v.lane(i) is None,
    ensures
        v.without_writer(i) == v,
        v.without_reader(i) == v,
{
}

/// A frame goes out exactly where there is something to send, the lane is open
/// and the credit covers the frame; it costs as much credit as it carries, which
/// is all of the data, but at most 16384 bytes. Otherwise nothing changes.
pub proof fn law_a_frame_costs_what_it_carries(v: MuxView, i: int, data: Seq<u8>)
    ensures
        ({
            let (w, how) = v.sending(i, data);
            let n = if data.len() < 16384 {
                data.len() as int
            } else {
                16384
            };
            &&& portion(data) == n
            &&& how is Done <==> data.len() == 0
            &&& how is Broken <==> data.len() > 0 && (v.lane(i) is None || !(v.lane(i)->0).open)
            &&& how is Wait <==> data.len() > 0 && v.lane(i) is Some && (v.lane(i)->0).open && (
            v.lane(i)->0).credit < n
            &&& how is Frame <==> data.len() > 0 && v.lane(i) is Some && (v.lane(i)->0).open && (
            v.lane(i)->0).credit >= n
            &&& !(how is Frame) ==> w == v
            &&& how is Frame ==> {
                &&& same_but_lane(v, w, i)
                &&& w.lanes[i] matches Some(after) && after.credit == (v.lane(i)->0).credit - n
                    && after == LaneView { credit: after.credit, ..v.lane(i)->0 }
            }
        }),
{
}

/// The frame that goes out is a data frame of the stream, with the front of the
/// data as its payload.
pub proof fn law_a_frame_carries_the_front(step: SendStep, id: u32, data: Seq<u8>, owed: Sending)
    requires
        sends(step, id, data, owed),
    ensures
        step is Frame <==> owed is Frame,
        step is Done <==> owed is Done,
        step is Wait <==> owed is Wait,
        step is Broken <==> owed is Broken,
        step matches SendStep::Frame(frame) ==> {
            &&& frame@.id == id
            &&& frame@.kind == 1
            &&& frame@.payload == data.take(
                if data.len() < 16384 {
                    data.len() as int
                } else {
                    16384
                },
            )
        },
{
}

/// A reader gets the oldest chunk, waits while there is none and the stream
/// lives, and comes to the end when neither is so.
pub proof fn law_the_oldest_chunk_is_read(v: MuxView, i: int)
    ensures
        ({
            let (w, how) = v.receiving(i);
            &&& v.lane(i) is None ==> how is End
            &&& v.lane(i) matches Some(lane) ==> {
                &&& lane.inbox.len() > 0 ==> (how matches Receiving::Chunk(chunk) && chunk
                    == lane.inbox[0] && same_but_lane(v, w, i) && (w.lanes[i] matches Some(after)
                    && after.inbox == lane.inbox.drop_first() && after == LaneView {
                    inbox: after.inbox,
                    ..lane
                }))
                &&& lane.inbox.len() == 0 && lane.linked ==> how is Wait
                &&& lane.inbox.len() == 0 && !lane.linked ==> how is End
            }
            &&& !(how is Chunk) ==> w == v
        }),
{
    if let Some(lane) = v.lane(i) {
        if lane.inbox.len() > 0 {
            assert(lane.inbox.skip(1) =~= lane.inbox.drop_first());
        }
    }
}

/// A window frame says how many bytes it hands back, in four bytes, the most
/// significant first; what it hands back is what its reader may send more.
pub proof fn law_window_frames_say_how_much(id: u32, bytes: u32)
    ensures
        ({
            let frame = window(id, bytes);
            &&& frame.id == id
            &&& frame.kind == 3
            &&& frame.payload.len() == 4
            &&& frame.payload[0] * 16777216 + frame.payload[1] * 65536 + frame.payload[2] * 256
                + frame.payload[3] == bytes
        }),
{
    law_be32_round_trip(bytes);
}

/// What is left to do after a frame is what the session owes, and nothing else:
/// an error for a frame that is too short, the very frame that is owed, or the
/// halves of the very stream that was opened.
pub proof fn law_reactions_are_what_is_owed(reaction: Result<Reaction, MuxError>, owed: Outcome)
    requires
        reacts(reaction, owed),
    ensures
        owed is Short <==> reaction is Err,
        owed is Nothing <==> (reaction matches Ok(Reaction::Nothing)),
        owed matches Outcome::Reply(said) ==> (reaction matches Ok(Reaction::Reply(frame)) && frame@
            == said),
        owed matches Outcome::Opened { id, lane } ==> (reaction matches Ok(
            Reaction::Opened(tx, rx),
        ) && tx.spec_id() == id && tx.lane() == lane && rx.lane() == lane),
{
}

/// What a reader gets is the very chunk that is owed, or a wait, or the end.
pub proof fn law_readers_get_what_is_owed(step: RecvStep, owed: Receiving)
    requires
        receives(step, owed),
    ensures
        owed matches Receiving::Chunk(said) ==> (step matches RecvStep::Chunk(chunk) && content(
            chunk,
        ) == said),
        owed is Wait <==> step is Wait,
        owed is End <==> step is End,
{
}

/// What a byte stream hands out, sends or offers is the very thing that is owed.
pub proof fn law_byte_streams_do_what_is_owed(
    read: ReadStep,
    reading: Reading,
    flush: FlushStep,
    flushing: Flushing,
    frame: Option<Frame>,
    credit: Option<FrameView>,
)
    requires
        reads(read, reading),
        flushes(flush, flushing),
        same_frame(frame, credit),
    ensures
        reading matches Reading::Ready(said) ==> (read matches ReadStep::Ready(chunk) && content(
            chunk,
        ) == said),
        reading is Wait <==> read is Wait,
        reading is End <==> read is End,
        flushing matches Flushing::Frame(said) ==> (flush matches FlushStep::Frame(sent) && sent@
            == said),
        flushing is Done <==> flush is Done,
        flushing is Wait <==> flush is Wait,
        flushing is Broken <==> flush is Broken,
        credit is Some <==> frame is Some,
        credit matches Some(said) ==> frame->0@ == said,
        said_of(read) == reading,
{
}

/// A credit pool holds an eighth of the machine's largest number at most, and a
/// frame fits it exactly where it does not raise a stream's credit past that.
pub proof fn law_credit_has_a_ceiling(v: MuxView, id: u32, kind: u8, payload: Seq<u8>)
    requires
        v.wf(),
    ensures
        max_permits() == usize::MAX / 8,
        v.credit_fits(frame_bytes(id, kind, payload)) <==> !(id != 0 && kind == 3 && payload.len()
            == 4 && v.streams.contains_key(id) && (v.lanes[v.streams[id] as int]->0).credit
            + payload[0] * 16777216 + payload[1] * 65536 + payload[2] * 256 + payload[3]
            > usize::MAX / 8),
{
    law_frame_reads_back(id, kind, payload);
}

} // verus!
