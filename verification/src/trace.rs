//! What holds of a session over any run: the budget, the flow control, and the
//! order in which a stream's bytes arrive.

use vstd::prelude::*;

use crate::mux::{control, frame_bytes, law_frame_reads_back, parse, INBOX_FRAMES};
use crate::session::{
    fresh, lemma_dispatched_wf, lemma_ended_wf, lemma_free_from, lemma_linked_wf,
    lemma_unlinked_wf, lemma_with_lane_wf, portion, LaneView, MuxView, Outcome, Receiving,
    Sending,
};
use crate::wire::{
    be32_value, KIND_CLOSE, KIND_DATA, KIND_OPEN, KIND_WINDOW, MAX_PAYLOAD, WINDOW,
};

verus! {

/// One call on a session or on a half of one of its streams.
pub enum Op {
    Open,
    Frame(Seq<u8>),
    Send { lane: int, data: Seq<u8> },
    Recv { lane: int },
    Close { id: u32 },
    CloseStream { id: u32 },
    DropTx { lane: int },
    DropRx { lane: int },
    Shutdown,
}

/// The session after a call.
pub open spec fn step(v: MuxView, op: Op) -> MuxView {
    match op {
        Op::Open => v.offered(),
        Op::Frame(bytes) => v.dispatched(bytes).0,
        Op::Send { lane, data } => v.sending(lane, data).0,
        Op::Recv { lane } => v.receiving(lane).0,
        Op::Close { id } => v.unlinked(id, false),
        Op::CloseStream { id } => v.unlinked(id, true),
        Op::DropTx { lane } => v.without_writer(lane),
        Op::DropRx { lane } => v.without_reader(lane),
        Op::Shutdown => v.ended(),
    }
}

/// Whether a call is possible: the lanes can be numbered, and a frame leaves
/// every credit pool within its limit.
pub open spec fn allowed(v: MuxView, op: Op) -> bool {
    &&& v.lanes.len() <= usize::MAX
    &&& op matches Op::Frame(bytes) ==> v.credit_fits(bytes)
}

/// The session after a run of calls.
pub open spec fn run(v: MuxView, ops: Seq<Op>) -> MuxView
    decreases ops.len(),
{
    if ops.len() == 0 {
        v
    } else {
        step(run(v, ops.drop_last()), ops.last())
    }
}

/// Whether every call of a run is possible where it comes.
pub open spec fn possible(v: MuxView, ops: Seq<Op>) -> bool
    decreases ops.len(),
{
    ops.len() == 0 || possible(v, ops.drop_last()) && allowed(run(v, ops.drop_last()), ops.last())
}

/// Bytes that a call sends on a lane.
pub open spec fn sent_by(v: MuxView, op: Op, i: int) -> nat {
    match op {
        Op::Send { lane, data } => if lane == i && v.sending(lane, data).1 is Frame {
            portion(data)
        } else {
            0
        },
        _ => 0,
    }
}

/// Credit that a call grants to a lane.
pub open spec fn granted_by(v: MuxView, op: Op, i: int) -> int {
    match op {
        Op::Frame(bytes) => match parse(bytes) {
            Some(frame) => if frame.id != 0 && frame.kind == KIND_WINDOW && frame.payload.len() == 4
                && v.streams.contains_key(frame.id) && v.streams[frame.id] == i {
                be32_value(frame.payload)
            } else {
                0
            },
            None => 0,
        },
        _ => 0,
    }
}

/// Chunks that a call puts into a lane's inbox: one or none.
pub open spec fn arrived_by(v: MuxView, op: Op, i: int) -> Seq<Seq<u8>> {
    match op {
        Op::Frame(bytes) => match parse(bytes) {
            Some(frame) => if frame.id != 0 && frame.kind == KIND_DATA && v.streams.contains_key(
                frame.id,
            ) && v.streams[frame.id] == i && v.lane(i)->0.inbox.len() < INBOX_FRAMES {
                seq![frame.payload]
            } else {
                Seq::empty()
            },
            None => Seq::empty(),
        },
        _ => Seq::empty(),
    }
}

/// Chunks that a call hands out of a lane's inbox: one or none.
pub open spec fn taken_by(v: MuxView, op: Op, i: int) -> Seq<Seq<u8>> {
    match op {
        Op::Recv { lane } => match (lane == i, v.receiving(lane).1) {
            (true, Receiving::Chunk(chunk)) => seq![chunk],
            _ => Seq::empty(),
        },
        _ => Seq::empty(),
    }
}

/// Bytes that a run sends on a lane.
pub open spec fn sent(v: MuxView, ops: Seq<Op>, i: int) -> nat
    decreases ops.len(),
{
    if ops.len() == 0 {
        0
    } else {
        sent(v, ops.drop_last(), i) + sent_by(run(v, ops.drop_last()), ops.last(), i)
    }
}

/// Credit that a run grants to a lane.
pub open spec fn granted(v: MuxView, ops: Seq<Op>, i: int) -> int
    decreases ops.len(),
{
    if ops.len() == 0 {
        0
    } else {
        granted(v, ops.drop_last(), i) + granted_by(run(v, ops.drop_last()), ops.last(), i)
    }
}

/// Chunks that a run puts into a lane's inbox, oldest first.
pub open spec fn arrived(v: MuxView, ops: Seq<Op>, i: int) -> Seq<Seq<u8>>
    decreases ops.len(),
{
    if ops.len() == 0 {
        Seq::empty()
    } else {
        arrived(v, ops.drop_last(), i) + arrived_by(run(v, ops.drop_last()), ops.last(), i)
    }
}

/// Chunks that a run hands out of a lane's inbox, oldest first.
pub open spec fn taken(v: MuxView, ops: Seq<Op>, i: int) -> Seq<Seq<u8>>
    decreases ops.len(),
{
    if ops.len() == 0 {
        Seq::empty()
    } else {
        taken(v, ops.drop_last(), i) + taken_by(run(v, ops.drop_last()), ops.last(), i)
    }
}

/// Whether a run leaves the send half of a lane alone.
pub open spec fn keeps_writer(ops: Seq<Op>, i: int) -> bool {
    forall|k: int| 0 <= k < ops.len() ==> (#[trigger] ops[k]) != (Op::DropTx { lane: i })
}

/// Whether a run leaves the receive half of a lane alone.
pub open spec fn keeps_reader(ops: Seq<Op>, i: int) -> bool {
    forall|k: int| 0 <= k < ops.len() ==> (#[trigger] ops[k]) != (Op::DropRx { lane: i })
}

proof fn lemma_step_wf(v: MuxView, op: Op)
    requires
        v.wf(),
        allowed(v, op),
    ensures
        step(v, op).wf(),
        step(v, op).max_streams == v.max_streams,
{
    match op {
        Op::Open => if !v.full() {
            lemma_linked_wf(v, v.next_id);
        },
        Op::Frame(bytes) => lemma_dispatched_wf(v, bytes),
        Op::Send { lane, data } => if v.sending(lane, data).1 is Frame {
            let seen = v.lane(lane)->0;
            assert(v.lanes[lane] is Some);
            lemma_with_lane_wf(
                v,
                lane,
                LaneView { credit: seen.credit - portion(data), ..seen },
            );
        },
        Op::Recv { lane } => if v.receiving(lane).1 is Chunk {
            let seen = v.lane(lane)->0;
            assert(v.lanes[lane] is Some);
            lemma_with_lane_wf(v, lane, LaneView { inbox: seen.inbox.skip(1), ..seen });
        },
        Op::Close { id } => lemma_unlinked_wf(v, id, false),
        Op::CloseStream { id } => lemma_unlinked_wf(v, id, true),
        Op::DropTx { lane } => if let Some(seen) = v.lane(lane) {
            assert(v.lanes[lane] is Some);
            lemma_with_lane_wf(v, lane, LaneView { writer: false, ..seen });
        },
        Op::DropRx { lane } => if let Some(seen) = v.lane(lane) {
            assert(v.lanes[lane] is Some);
            lemma_with_lane_wf(
                v,
                lane,
                LaneView { reader: false, inbox: Seq::empty(), ..seen },
            );
        },
        Op::Shutdown => lemma_ended_wf(v),
    }
}

/// Whatever is called, in whatever order, and whatever the peer sends: there
/// are never more streams than the budget allows, no inbox is ever over its
/// limit, and every stream keeps a lane of its own.
pub proof fn law_budget_is_never_exceeded(v: MuxView, ops: Seq<Op>)
    requires
        v.wf(),
        possible(v, ops),
    ensures
        run(v, ops).wf(),
        run(v, ops).max_streams == v.max_streams,
        run(v, ops).streams.len() <= v.max_streams,
    decreases ops.len(),
{
    if ops.len() > 0 {
        law_budget_is_never_exceeded(v, ops.drop_last());
        lemma_step_wf(run(v, ops.drop_last()), ops.last());
    }
}

/// What one call does to a lane whose halves are held.
proof fn lemma_step_lane(v: MuxView, op: Op, i: int)
    requires
        v.wf(),
        allowed(v, op),
        v.lane(i) is Some,
        v.lane(i)->0.writer && op != (Op::DropTx { lane: i }) || v.lane(i)->0.reader && op != (
        Op::DropRx { lane: i }),
    ensures
        step(v, op).lane(i) is Some,
        step(v, op).lane(i)->0.id == v.lane(i)->0.id,
        op != (Op::DropTx { lane: i }) ==> step(v, op).lane(i)->0.writer == v.lane(i)->0.writer,
        op != (Op::DropRx { lane: i }) ==> step(v, op).lane(i)->0.reader == v.lane(i)->0.reader,
        step(v, op).lane(i)->0.credit == v.lane(i)->0.credit + granted_by(v, op, i) - sent_by(
            v,
            op,
            i,
        ),
        v.lane(i)->0.reader && op != (Op::DropRx { lane: i }) ==> taken_by(v, op, i) + step(
            v,
            op,
        ).lane(i)->0.inbox =~= v.lane(i)->0.inbox + arrived_by(v, op, i),
{
    let lane = v.lane(i)->0;
    assert(v.lanes[i] is Some);
    match op {
        Op::Open => if !v.full() {
            lemma_linked_lane(v, v.next_id, i);
        },
        Op::Frame(bytes) => {
            if let Some(frame) = parse(bytes) {
                lemma_unlinked_lane(v, frame.id, true, i);
                if v.streams.contains_key(frame.id) {
                    assert(v.lanes[v.streams[frame.id] as int] is Some);
                }
                if !v.full() {
                    lemma_linked_lane(v, frame.id, i);
                }
            }
        },
        Op::Close { id } => lemma_unlinked_lane(v, id, false, i),
        Op::CloseStream { id } => lemma_unlinked_lane(v, id, true, i),
        Op::Recv { lane: k } => {
            if k == i && lane.inbox.len() > 0 {
                assert(seq![lane.inbox[0]] + lane.inbox.skip(1) =~= lane.inbox);
            }
        },
        _ => {},
    }
}

/// Taking a stream out changes no lane but its own, and there only its link and
/// its gate.
proof fn lemma_unlinked_lane(v: MuxView, id: u32, close_gate: bool, i: int)
    requires
        v.wf(),
        v.lane(i) is Some,
        v.lane(i)->0.writer || v.lane(i)->0.reader,
    ensures
        v.unlinked(id, close_gate).lane(i) is Some,
        v.unlinked(id, close_gate).lane(i)->0 == (LaneView {
            linked: v.unlinked(id, close_gate).lane(i)->0.linked,
            open: v.unlinked(id, close_gate).lane(i)->0.open,
            ..v.lane(i)->0
        }),
        !(v.streams.contains_key(id) && v.streams[id] == i) ==> v.unlinked(id, close_gate).lane(i)
            == v.lane(i),
{
    assert(v.lanes[i] is Some);
    if v.streams.contains_key(id) {
        assert(v.lanes[v.streams[id] as int] is Some);
    }
}

/// A new stream changes no lane that a half of another stream holds, but for
/// the link of the one it displaces.
proof fn lemma_linked_lane(v: MuxView, id: u32, i: int)
    requires
        v.wf(),
        v.lanes.len() <= usize::MAX,
        v.lane(i) is Some,
        v.lane(i)->0.writer || v.lane(i)->0.reader,
    ensures
        v.linked(id).lane(i) == v.unlinked(id, false).lane(i),
        v.linked(id).lane(i) is Some,
        v.linked(id).lane(i)->0 == (LaneView {
            linked: v.linked(id).lane(i)->0.linked,
            open: v.linked(id).lane(i)->0.open,
            ..v.lane(i)->0
        }),
{
    lemma_unlinked_lane(v, id, false, i);
    lemma_unlinked_wf(v, id, false);
    lemma_free_from(v.unlinked(id, false).lanes, 0);
}

/// Flow control: while a stream's send half is held, its credit is what it was,
/// plus what the peer granted, less what was sent. So no more is ever sent than
/// the window and the grants allow.
pub proof fn law_credit_is_conserved(v: MuxView, ops: Seq<Op>, i: int)
    requires
        v.wf(),
        possible(v, ops),
        v.lane(i) is Some,
        v.lane(i)->0.writer,
        keeps_writer(ops, i),
    ensures
        run(v, ops).lane(i) is Some,
        run(v, ops).lane(i)->0.writer,
        run(v, ops).lane(i)->0.credit == v.lane(i)->0.credit + granted(v, ops, i) - sent(
            v,
            ops,
            i,
        ),
        sent(v, ops, i) <= v.lane(i)->0.credit + granted(v, ops, i),
    decreases ops.len(),
{
    assert(v.lanes[i] is Some);
    if ops.len() > 0 {
        let before = ops.drop_last();
        assert(keeps_writer(before, i)) by {
            assert forall|k: int| 0 <= k < before.len() implies (#[trigger] before[k]) != (
            Op::DropTx { lane: i }) by {
                assert(before[k] == ops[k]);
            }
        }
        assert(ops.last() == ops[ops.len() - 1]);
        law_credit_is_conserved(v, before, i);
        law_budget_is_never_exceeded(v, before);
        lemma_step_lane(run(v, before), ops.last(), i);
        lemma_step_wf(run(v, before), ops.last());
        assert(run(v, ops).lanes[i] is Some);
    }
}

/// A stream's chunks are handed out in the order in which they arrived, none
/// lost and none twice: while the receive half is held, what was handed out and
/// what still waits is what waited before and what arrived.
pub proof fn law_chunks_stay_in_order(v: MuxView, ops: Seq<Op>, i: int)
    requires
        v.wf(),
        possible(v, ops),
        v.lane(i) is Some,
        v.lane(i)->0.reader,
        keeps_reader(ops, i),
    ensures
        run(v, ops).lane(i) is Some,
        run(v, ops).lane(i)->0.reader,
        taken(v, ops, i) + run(v, ops).lane(i)->0.inbox == v.lane(i)->0.inbox + arrived(v, ops, i),
    decreases ops.len(),
{
    if ops.len() > 0 {
        let before = ops.drop_last();
        assert(keeps_reader(before, i)) by {
            assert forall|k: int| 0 <= k < before.len() implies (#[trigger] before[k]) != (
            Op::DropRx { lane: i }) by {
                assert(before[k] == ops[k]);
            }
        }
        assert(ops.last() == ops[ops.len() - 1]);
        law_chunks_stay_in_order(v, before, i);
        law_budget_is_never_exceeded(v, before);
        let w = run(v, before);
        lemma_step_lane(w, ops.last(), i);
        let out = taken_by(w, ops.last(), i);
        let inbox = run(v, ops).lane(i)->0.inbox;
        assert((taken(v, before, i) + out) + inbox =~= taken(v, before, i) + (out + inbox));
        assert(taken(v, before, i) + (w.lane(i)->0.inbox + arrived_by(w, ops.last(), i)) =~= (taken(
            v,
            before,
            i,
        ) + w.lane(i)->0.inbox) + arrived_by(w, ops.last(), i));
        assert((v.lane(i)->0.inbox + arrived(v, before, i)) + arrived_by(w, ops.last(), i)
            =~= v.lane(i)->0.inbox + (arrived(v, before, i) + arrived_by(w, ops.last(), i)));
    } else {
        assert(taken(v, ops, i) + v.lane(i)->0.inbox =~= v.lane(i)->0.inbox + arrived(v, ops, i));
    }
}

/// Streams stay separate: a frame, whatever it says, changes nothing of a
/// stream with another id.
pub proof fn law_streams_stay_separate(v: MuxView, bytes: Seq<u8>, other: u32)
    requires
        v.wf(),
        v.lanes.len() <= usize::MAX,
        v.streams.contains_key(other),
        parse(bytes) matches Some(frame) ==> frame.id != other,
    ensures
        v.dispatched(bytes).0.streams.contains_key(other),
        v.dispatched(bytes).0.streams[other] == v.streams[other],
        v.dispatched(bytes).0.lane(v.streams[other] as int) == v.lane(v.streams[other] as int),
{
    let i = v.streams[other] as int;
    assert(v.lanes[i] is Some);
    if let Some(frame) = parse(bytes) {
        if v.streams.contains_key(frame.id) {
            assert(v.lanes[v.streams[frame.id] as int] is Some);
        }
        lemma_unlinked_wf(v, frame.id, false);
        lemma_free_from(v.unlinked(frame.id, false).lanes, 0);
    }
}

/// A peer that writes past a stream's window loses that stream, and is told so;
/// every other stream stays as it was.
pub proof fn law_overflow_costs_one_stream(v: MuxView, id: u32, payload: Seq<u8>, other: u32)
    requires
        v.wf(),
        v.lanes.len() <= usize::MAX,
        id != 0,
        v.streams.contains_key(id),
        v.lane(v.streams[id] as int)->0.reader,
        v.lane(v.streams[id] as int)->0.inbox.len() == INBOX_FRAMES,
        v.streams.contains_key(other),
        other != id,
    ensures
        ({
            let (w, outcome) = v.dispatched(frame_bytes(id, KIND_DATA, payload));
            &&& outcome == Outcome::Reply(control(id, KIND_CLOSE))
            &&& !w.streams.contains_key(id)
            &&& w.streams.contains_key(other)
            &&& w.lane(w.streams[other] as int) == v.lane(v.streams[other] as int)
        }),
{
    law_frame_reads_back(id, KIND_DATA, payload);
    law_streams_stay_separate(v, frame_bytes(id, KIND_DATA, payload), other);
}

/// A keepalive is echoed, whatever its kind and payload, and changes nothing.
pub proof fn law_keepalive_is_echoed(v: MuxView, kind: u8, payload: Seq<u8>)
    ensures
        v.dispatched(frame_bytes(0, kind, payload)) == (
            v,
            Outcome::Reply(control(0, KIND_DATA)),
        ),
{
    law_frame_reads_back(0, kind, payload);
}

/// Over budget, this side opens nothing, and a stream that the peer opens is
/// refused.
pub proof fn law_full_link_opens_nothing(v: MuxView, id: u32, payload: Seq<u8>)
    requires
        v.full(),
        id != 0,
    ensures
        v.offered() == v,
        v.dispatched(frame_bytes(id, KIND_OPEN, payload)) == (
            v,
            Outcome::Reply(control(id, KIND_CLOSE)),
        ),
{
    law_frame_reads_back(id, KIND_OPEN, payload);
}

/// A stream that ends gives its slot of the budget back at once, whether the
/// peer closed it, this side did, or its connection was dropped.
pub proof fn law_closing_returns_the_slot(v: MuxView, id: u32, close_gate: bool)
    requires
        v.wf(),
        v.streams.contains_key(id),
    ensures
        v.unlinked(id, close_gate).streams.len() == v.streams.len() - 1,
        !v.unlinked(id, close_gate).full(),
        id != 0 ==> v.dispatched(frame_bytes(id, KIND_CLOSE, Seq::empty())).0 == v.unlinked(
            id,
            true,
        ),
{
    law_frame_reads_back(id, KIND_CLOSE, Seq::empty());
    assert(v.unlinked(id, close_gate).streams.dom() =~= v.streams.dom().remove(id));
}

/// When the link ends, so does every stream on it: what had arrived can still
/// be read, and then comes the end; a sender with anything left to send fails.
pub proof fn law_shutdown_ends_every_stream(v: MuxView, id: u32, data: Seq<u8>)
    requires
        v.wf(),
        v.streams.contains_key(id),
        data.len() > 0,
    ensures
        v.ended().streams.len() == 0,
        v.ended().sending(v.streams[id] as int, data).1 is Broken,
        ({
            let lane = v.lane(v.streams[id] as int)->0;
            let next = v.ended().receiving(v.streams[id] as int).1;
            lane.reader ==> next == (if lane.inbox.len() > 0 {
                Receiving::Chunk(lane.inbox[0])
            } else {
                Receiving::End
            })
        }),
{
    assert(v.lanes[v.streams[id] as int] is Some);
}

/// A stream that was just opened may send one whole window.
pub proof fn law_new_stream_may_send_a_window(v: MuxView)
    requires
        v.wf(),
        !v.full(),
        v.lanes.len() <= usize::MAX,
    ensures
        v.offered().streams.contains_key(v.next_id),
        v.offered().lane(v.next_lane(v.next_id)) == Some(fresh(v.next_id)),
        v.offered().streams.len() <= v.streams.len() + 1,
{
    lemma_linked_wf(v, v.next_id);
    lemma_unlinked_wf(v, v.next_id, false);
}

/// Streams that a run opens from this side.
pub open spec fn opens(v: MuxView, ops: Seq<Op>) -> nat
    decreases ops.len(),
{
    if ops.len() == 0 {
        0
    } else {
        opens(v, ops.drop_last()) + (if opens_at(v, ops, ops.len() - 1) {
            1nat
        } else {
            0
        })
    }
}

/// Whether a call of a run opens a stream from this side.
pub open spec fn opens_at(v: MuxView, ops: Seq<Op>, i: int) -> bool {
    0 <= i < ops.len() && ops[i] == Op::Open && !run(v, ops.take(i)).full()
}

/// The id that a call of a run gives to the stream it opens.
pub open spec fn id_at(v: MuxView, ops: Seq<Op>, i: int) -> u32 {
    run(v, ops.take(i)).next_id
}

/// Ids are given out one after the other.
proof fn lemma_next_id(v: MuxView, ops: Seq<Op>)
    requires
        v.next_id + opens(v, ops) <= u32::MAX + 1,
    ensures
        run(v, ops).next_id == (if v.next_id + opens(v, ops) <= u32::MAX {
            v.next_id + opens(v, ops)
        } else {
            0
        }),
    decreases ops.len(),
{
    if ops.len() > 0 {
        let before = ops.drop_last();
        assert(ops.take(ops.len() - 1) =~= before);
        lemma_next_id(v, before);
        let w = run(v, before);
        match ops.last() {
            Op::Frame(bytes) => {
                assert(step(w, ops.last()).next_id == w.next_id);
            },
            _ => {},
        }
    }
}

/// A shorter run opens no more streams, and fewer by one where it stops before
/// one that is opened.
proof fn lemma_opens_grow(v: MuxView, ops: Seq<Op>, i: int)
    requires
        0 <= i <= ops.len(),
    ensures
        opens(v, ops.take(i)) <= opens(v, ops),
        opens_at(v, ops, i) ==> opens(v, ops.take(i)) < opens(v, ops),
    decreases ops.len(),
{
    if i == ops.len() {
        assert(ops.take(i) =~= ops);
    } else {
        let before = ops.drop_last();
        assert(before.take(i) =~= ops.take(i));
        lemma_opens_grow(v, before, i);
        if i < before.len() {
            assert(before[i] == ops[i]);
        }
    }
}

/// No id is given out twice: over any run of a new session that opens fewer
/// streams than there are ids, the ids of any two streams that this side opened
/// differ, and none is that of the keepalive channel.
pub proof fn law_opened_ids_differ(v: MuxView, ops: Seq<Op>, i: int, k: int)
    requires
        v.next_id == 1,
        opens(v, ops) <= u32::MAX,
        i < k,
        opens_at(v, ops, i),
        opens_at(v, ops, k),
    ensures
        id_at(v, ops, i) != id_at(v, ops, k),
        id_at(v, ops, i) != 0,
        id_at(v, ops, k) != 0,
{
    let early = ops.take(i);
    let late = ops.take(k);
    lemma_opens_grow(v, ops, i);
    lemma_opens_grow(v, ops, k);
    assert(late.take(i) =~= early);
    assert(late[i] == ops[i]);
    lemma_opens_grow(v, late, i);
    lemma_next_id(v, early);
    lemma_next_id(v, late);
}

/// Opening a stream takes one slot of the budget, unless the peer opened a
/// stream under the next id itself; and a stream that could not be announced
/// gives its slot back.
pub proof fn law_opening_takes_one_slot(v: MuxView)
    requires
        v.wf(),
        !v.full(),
        v.lanes.len() <= usize::MAX,
        !v.streams.contains_key(v.next_id),
    ensures
        v.offered().streams.len() == v.streams.len() + 1,
        ({
            let lane = v.next_lane(v.next_id);
            v.offered().unlinked(v.next_id, false).without_writer(lane).without_reader(
                lane,
            ).streams == v.streams
        }),
{
    lemma_linked_wf(v, v.next_id);
    let w = v.offered();
    assert(w.streams.dom() =~= v.streams.dom().insert(v.next_id));
    assert(w.streams.remove(v.next_id) =~= v.streams);
}

/// The payloads of the frames that some data is sent in.
pub open spec fn pieces(data: Seq<u8>) -> Seq<Seq<u8>>
    decreases data.len(),
{
    if data.len() == 0 {
        Seq::empty()
    } else {
        seq![data.take(portion(data) as int)] + pieces(data.skip(portion(data) as int))
    }
}

/// Chunks, end to end.
pub open spec fn joined(chunks: Seq<Seq<u8>>) -> Seq<u8>
    decreases chunks.len(),
{
    if chunks.len() == 0 {
        Seq::empty()
    } else {
        chunks[0] + joined(chunks.skip(1))
    }
}

/// Cutting data into frames loses nothing and adds nothing, and every frame
/// carries something and fits.
pub proof fn law_pieces_add_up(data: Seq<u8>)
    ensures
        joined(pieces(data)) == data,
        forall|k: int|
            0 <= k < pieces(data).len() ==> 0 < (#[trigger] pieces(data)[k]).len() <= MAX_PAYLOAD,
    decreases data.len(),
{
    if data.len() > 0 {
        let n = portion(data) as int;
        let rest = pieces(data.skip(n));
        law_pieces_add_up(data.skip(n));
        assert(pieces(data).skip(1) =~= rest);
        assert(data.take(n) + data.skip(n) =~= data);
        assert forall|k: int| 0 <= k < pieces(data).len() implies 0 < (#[trigger] pieces(
            data,
        )[k]).len() <= MAX_PAYLOAD by {
            if k > 0 {
                assert(pieces(data)[k] == rest[k - 1]);
            }
        }
    }
}

/// What is handed out of some data, where sending it is tried on these states of
/// the session, one after the other: the payloads of the frames, and what is
/// left. Whatever else happens to the session in between is up to it.
pub open spec fn handed_out(sessions: Seq<MuxView>, i: int, data: Seq<u8>) -> (
    Seq<Seq<u8>>,
    Seq<u8>,
)
    decreases sessions.len(),
{
    if sessions.len() == 0 {
        (Seq::empty(), data)
    } else {
        match sessions[0].sending(i, data).1 {
            Sending::Frame => {
                let n = portion(data) as int;
                let (rest, left) = handed_out(sessions.skip(1), i, data.skip(n));
                (seq![data.take(n)] + rest, left)
            },
            _ => handed_out(sessions.skip(1), i, data),
        }
    }
}

/// However often a sender has to wait, the frames it sends carry its data, in
/// order and without loss: what they carry and what is left is the data, and
/// every frame carries something and fits. A frame goes out only where the
/// stream has credit for it.
pub proof fn law_waiting_loses_nothing(sessions: Seq<MuxView>, i: int, data: Seq<u8>)
    ensures
        ({
            let (sent, left) = handed_out(sessions, i, data);
            &&& joined(sent) + left == data
            &&& forall|k: int| 0 <= k < sent.len() ==> 0 < (#[trigger] sent[k]).len() <= MAX_PAYLOAD
        }),
    decreases sessions.len(),
{
    if sessions.len() == 0 {
        assert(joined(Seq::empty()) + data =~= data);
    } else {
        let rest = sessions.skip(1);
        match sessions[0].sending(i, data).1 {
            Sending::Frame => {
                let n = portion(data) as int;
                law_waiting_loses_nothing(rest, i, data.skip(n));
                let (later, left) = handed_out(rest, i, data.skip(n));
                let sent = seq![data.take(n)] + later;
                assert(sent.skip(1) =~= later);
                assert((data.take(n) + joined(later)) + left =~= data.take(n) + (joined(later)
                    + left));
                assert(data.take(n) + data.skip(n) =~= data);
                assert forall|k: int| 0 <= k < sent.len() implies 0 < (
                #[trigger] sent[k]).len() <= MAX_PAYLOAD by {
                    if k > 0 {
                        assert(sent[k] == later[k - 1]);
                    }
                }
            },
            _ => law_waiting_loses_nothing(rest, i, data),
        }
    }
}

/// A sender whose stream or link is gone fails, if it has anything left to send;
/// with nothing left it is done, whatever became of the stream.
pub proof fn law_gone_stream_fails_its_sender(v: MuxView, i: int, data: Seq<u8>)
    ensures
        v.sending(i, data).1 is Done <==> data.len() == 0,
        v.sending(i, data).1 is Broken <==> data.len() > 0 && !(v.lane(i) matches Some(lane)
            && lane.open),
{
}

/// From the moment it is opened, by either side, a stream never has sent more
/// than one window and what the peer has granted it.
pub proof fn law_a_window_and_the_grants_bound_what_is_sent(
    v: MuxView,
    id: u32,
    ops: Seq<Op>,
    i: int,
)
    requires
        v.wf(),
        v.lane(i) == Some(fresh(id)),
        possible(v, ops),
        keeps_writer(ops, i),
    ensures
        sent(v, ops, i) <= WINDOW + granted(v, ops, i),
{
    law_credit_is_conserved(v, ops, i);
}

/// The session after as much of some data is sent as can be, and the payloads
/// of the frames.
pub open spec fn send_run(v: MuxView, i: int, data: Seq<u8>) -> (MuxView, Seq<Seq<u8>>)
    decreases data.len(),
{
    match v.sending(i, data) {
        (w, Sending::Frame) => {
            let n = portion(data) as int;
            let (end, rest) = send_run(w, i, data.skip(n));
            (end, seq![data.take(n)] + rest)
        },
        (w, _) => (w, Seq::empty()),
    }
}

/// With credit for all of it, all of the data is sent, and costs as much credit
/// as it has bytes.
pub proof fn law_credit_suffices_for_its_bytes(v: MuxView, i: int, data: Seq<u8>)
    requires
        v.lane(i) is Some,
        v.lane(i)->0.open,
        v.lane(i)->0.credit >= data.len(),
    ensures
        send_run(v, i, data).1 == pieces(data),
        send_run(v, i, data).0.lane(i) == Some(
            LaneView { credit: v.lane(i)->0.credit - data.len(), ..v.lane(i)->0 },
        ),
    decreases data.len(),
{
    if data.len() > 0 {
        let n = portion(data) as int;
        law_credit_suffices_for_its_bytes(v.sending(i, data).0, i, data.skip(n));
    }
}

/// The calls that deliver payloads to a stream, one frame each.
pub open spec fn deliveries(id: u32, payloads: Seq<Seq<u8>>) -> Seq<Op> {
    payloads.map_values(|payload: Seq<u8>| Op::Frame(frame_bytes(id, KIND_DATA, payload)))
}

/// What the other end sends is what arrives: the frames of some data, taken one
/// after the other by a stream with room for them, leave exactly their payloads
/// in its inbox, behind what was there, and change nothing else of it.
pub proof fn law_sent_bytes_arrive(v: MuxView, id: u32, payloads: Seq<Seq<u8>>)
    requires
        v.wf(),
        v.lanes.len() <= usize::MAX,
        id != 0,
        v.streams.contains_key(id),
        v.lane(v.streams[id] as int)->0.reader,
        v.lane(v.streams[id] as int)->0.inbox.len() + payloads.len() <= INBOX_FRAMES,
    ensures
        ({
            let lane = v.lane(v.streams[id] as int)->0;
            let w = run(v, deliveries(id, payloads));
            &&& possible(v, deliveries(id, payloads))
            &&& w.streams == v.streams
            &&& w.lanes.len() == v.lanes.len()
            &&& w.lane(v.streams[id] as int) == Some(
                LaneView { inbox: lane.inbox + payloads, ..lane },
            )
        }),
    decreases payloads.len(),
{
    let i = v.streams[id] as int;
    let lane = v.lane(i)->0;
    assert(v.lanes[i] is Some);
    let ops = deliveries(id, payloads);
    if payloads.len() > 0 {
        let front = payloads.drop_last();
        law_sent_bytes_arrive(v, id, front);
        assert(ops.drop_last() =~= deliveries(id, front));
        law_budget_is_never_exceeded(v, deliveries(id, front));
        law_frame_reads_back(id, KIND_DATA, payloads.last());
        assert((lane.inbox + front).push(payloads.last()) =~= lane.inbox + payloads);
    } else {
        assert(lane.inbox + payloads =~= lane.inbox);
    }
}

} // verus!
