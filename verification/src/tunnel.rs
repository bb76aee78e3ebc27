//! A byte stream sealed with a finished Noise transport.

use bytes::{Bytes, BytesMut};
use snow::StatelessTransportState;
use vstd::prelude::*;

use crate::buf::{advance, as_slice, content, held, put_u16};
use crate::noise::{
    arrival, law_payloads_that_fit_are_sealed, law_prefixed_message_arrives,
    law_sealed_payloads_read_back, lemma_later_bytes_change_no_message, links, open, opened,
    opening, prefixed, seal, sealed, sealing, sends, Arrival, NoiseError,
};
use crate::trace::joined;
use crate::wire::{read_be16, TAG_LEN};

verus! {

/// Largest plaintext that fits one transport message.
pub const MAX_PLAIN: usize = 65519;

/// A byte stream sealed with a finished Noise transport: each message behind
/// its two-byte length.
pub struct NoiseStream {
    transport: StatelessTransportState,
    /// Sending nonce; one writer, so no lock.
    out_nonce: u64,
    /// Receiving nonce; one reader, so no lock.
    in_nonce: u64,
    /// Plaintext opened from the wire, waiting for the reader.
    plain: BytesMut,
    /// Ciphertext not opened yet.
    incoming: BytesMut,
    /// Sealed bytes still to hand to the carrier.
    outgoing: BytesMut,
}

/// What a sealed stream holds.
pub struct TunnelView {
    pub transport: StatelessTransportState,
    pub out_nonce: u64,
    pub in_nonce: u64,
    pub plain: Seq<u8>,
    pub incoming: Seq<u8>,
    pub outgoing: Seq<u8>,
}

impl View for NoiseStream {
    type V = TunnelView;

    closed spec fn view(&self) -> TunnelView {
        TunnelView {
            transport: self.transport,
            out_nonce: self.out_nonce,
            in_nonce: self.in_nonce,
            plain: held(self.plain),
            incoming: held(self.incoming),
            outgoing: held(self.outgoing),
        }
    }
}

/// Whether there is something to read.
pub enum Ready {
    Yes,
    /// Not without more ciphertext.
    NoMore,
    /// The stream is broken.
    Broken(NoiseError),
}

impl TunnelView {
    /// The stream once everything that a read needs is opened: messages are
    /// opened only while there is no plaintext in hand.
    pub open spec fn settled(self) -> (TunnelView, Ready)
        decreases self.incoming.len(),
    {
        if self.plain.len() > 0 {
            (self, Ready::Yes)
        } else {
            match arrival(self.incoming) {
                Arrival::Partial => (self, Ready::NoMore),
                Arrival::Short => (self, Ready::Broken(NoiseError::Short)),
                Arrival::Message(message) => {
                    let rest = self.incoming.skip(2 + message.len() as int);
                    match opened(self.transport, self.in_nonce, message) {
                        Ok(payload) => TunnelView {
                            incoming: rest,
                            plain: payload,
                            in_nonce: (self.in_nonce + 1) as u64,
                            ..self
                        }.settled(),
                        Err(error) => (
                            TunnelView { incoming: rest, ..self },
                            Ready::Broken(NoiseError::Refused(error)),
                        ),
                    }
                },
            }
        }
    }
}

/// A step of a read.
pub enum ReadStep {
    /// These bytes are next.
    Ready(Bytes),
    /// Nothing to read without more ciphertext.
    NeedInput,
}

/// A step of a write.
pub enum WriteStep {
    /// That many bytes were sealed.
    Taken(usize),
    /// Sealed bytes still wait for the carrier.
    Wait,
}

/// As much of the plaintext as there is room for.
pub open spec fn share(plain: Seq<u8>, room: nat) -> nat {
    if plain.len() < room {
        plain.len()
    } else {
        room
    }
}

/// How much of some data one message takes.
pub open spec fn one_message(data: Seq<u8>) -> Seq<u8> {
    data.take(share(data, MAX_PLAIN as nat) as int)
}

/// How a write goes on.
pub enum Writing {
    /// So many bytes were sealed.
    Taken(nat),
    Wait,
    Broken(NoiseError),
}

impl TunnelView {
    /// What a write does: its front is sealed as one message, once everything
    /// sealed before has left.
    pub open spec fn writing(self, data: Seq<u8>) -> (TunnelView, Writing) {
        if self.outgoing.len() > 0 {
            (self, Writing::Wait)
        } else {
            match sealed(self.transport, self.out_nonce, one_message(data)) {
                Ok(message) => (
                    TunnelView {
                        out_nonce: (self.out_nonce + 1) as u64,
                        outgoing: prefixed(message),
                        ..self
                    },
                    Writing::Taken(one_message(data).len()),
                ),
                Err(error) => (self, Writing::Broken(NoiseError::Refused(error))),
            }
        }
    }
}

impl NoiseStream {
    /// Wrap a stream whose handshake has just completed.
    pub fn new(transport: StatelessTransportState) -> (stream: Self)
        ensures
            stream@ == (TunnelView {
                transport,
                out_nonce: 0,
                in_nonce: 0,
                plain: Seq::empty(),
                incoming: Seq::empty(),
                outgoing: Seq::empty(),
            }),
    {
        NoiseStream {
            transport,
            out_nonce: 0,
            in_nonce: 0,
            plain: BytesMut::new(),
            incoming: BytesMut::new(),
            outgoing: BytesMut::new(),
        }
    }

    /// Open one complete message, if it is all there.
    fn open_ready(&mut self) -> (opened_one: Result<bool, NoiseError>)
        requires
            old(self)@.plain.len() == 0,
        ensures
            match arrival(old(self)@.incoming) {
                Arrival::Partial => opened_one == Ok::<bool, NoiseError>(false) && final(self)@
                    == old(self)@,
                Arrival::Short => opened_one == Err::<bool, NoiseError>(NoiseError::Short)
                    && final(self)@ == old(self)@,
                Arrival::Message(message) => match opened(
                    old(self)@.transport,
                    old(self)@.in_nonce,
                    message,
                ) {
                    Ok(payload) => opened_one == Ok::<bool, NoiseError>(true) && final(self)@ == (
                    TunnelView {
                        incoming: old(self)@.incoming.skip(2 + message.len() as int),
                        plain: payload,
                        in_nonce: (old(self)@.in_nonce + 1) as u64,
                        ..old(self)@
                    }),
                    Err(error) => opened_one == Err::<bool, NoiseError>(NoiseError::Refused(error))
                        && final(self)@ == (TunnelView {
                        incoming: old(self)@.incoming.skip(2 + message.len() as int),
                        ..old(self)@
                    }),
                },
            },
    {
        let have: usize = self.incoming.len();
        if have < 2 {
            return Ok(false);
        }
        let len: usize = read_be16(as_slice(&self.incoming)[0], as_slice(&self.incoming)[1]) as usize;
        if len < TAG_LEN {
            return Err(NoiseError::Short);
        }
        if have < 2 + len {
            return Ok(false);
        }
        let ghost before = held(self.incoming);
        advance(&mut self.incoming, 2);
        let message: BytesMut = self.incoming.split_to(len);
        assert(held(message) =~= before.subrange(2, 2 + len));
        assert(held(self.incoming) =~= before.skip(2 + len));
        match open(&self.transport, self.in_nonce, as_slice(&message), len - TAG_LEN) {
            Ok(payload) => {
                self.in_nonce = self.in_nonce + 1;
                self.plain = payload;
                Ok(true)
            },
            Err(error) => Err(NoiseError::Refused(error)),
        }
    }

    /// Read at most `room` bytes.
    ///
    /// A message may already be complete in hand: the carrier can go quiet on a
    /// message boundary. That message is drained before more ciphertext is asked
    /// for, or the reader would stall with data in hand.
    pub fn poll_read(&mut self, room: usize) -> (step: Result<ReadStep, NoiseError>)
        ensures
            final(self)@ == called(old(self)@, TunnelCall::Read(room as nat)).0,
            ({
                let (settled, ready) = old(self)@.settled();
                match ready {
                    Ready::Yes => {
                        let n = share(settled.plain, room as nat) as int;
                        &&& step matches Ok(ReadStep::Ready(chunk)) && content(chunk)
                            == settled.plain.take(n)
                        &&& final(self)@ == (TunnelView { plain: settled.plain.skip(n), ..settled })
                    },
                    Ready::NoMore => step == Ok::<ReadStep, NoiseError>(ReadStep::NeedInput)
                        && final(self)@ == settled,
                    Ready::Broken(error) => step == Err::<ReadStep, NoiseError>(error)
                        && final(self)@ == settled,
                }
            }),
    {
        while self.plain.is_empty()
            invariant
                self@.settled() == old(self)@.settled(),
            decreases self@.incoming.len(),
        {
            match self.open_ready() {
                Ok(true) => {},
                Ok(false) => return Ok(ReadStep::NeedInput),
                Err(error) => return Err(error),
            }
        }
        let n: usize = if self.plain.len() < room { self.plain.len() } else { room };
        let chunk = self.plain.split_to(n);
        Ok(ReadStep::Ready(chunk.freeze()))
    }

    /// Take ciphertext from the carrier.
    pub fn receive(&mut self, bytes: &[u8])
        ensures
            final(self)@ == called(old(self)@, TunnelCall::Receive(bytes@)).0,
            final(self)@ == (TunnelView { incoming: old(self)@.incoming + bytes@, ..old(self)@ }),
    {
        self.incoming.extend_from_slice(bytes);
    }

    /// Seal the front of `data` as one message, once everything sealed before
    /// has left.
    pub fn poll_write(&mut self, data: &[u8]) -> (step: Result<WriteStep, NoiseError>)
        ensures
            final(self)@ == old(self)@.writing(data@).0,
            match old(self)@.writing(data@).1 {
                Writing::Taken(n) => step == Ok::<WriteStep, NoiseError>(
                    WriteStep::Taken(n as usize),
                ),
                Writing::Wait => step == Ok::<WriteStep, NoiseError>(WriteStep::Wait),
                Writing::Broken(error) => step == Err::<WriteStep, NoiseError>(error),
            },
            if old(self)@.outgoing.len() > 0 {
                step == Ok::<WriteStep, NoiseError>(WriteStep::Wait) && final(self)@ == old(self)@
            } else {
                match sealed(old(self)@.transport, old(self)@.out_nonce, one_message(data@)) {
                    Ok(message) => {
                        &&& step == Ok::<WriteStep, NoiseError>(
                            WriteStep::Taken(one_message(data@).len() as usize),
                        )
                        &&& final(self)@ == (TunnelView {
                            out_nonce: (old(self)@.out_nonce + 1) as u64,
                            outgoing: prefixed(message),
                            ..old(self)@
                        })
                    },
                    Err(error) => step == Err::<WriteStep, NoiseError>(NoiseError::Refused(error))
                        && final(self)@ == old(self)@,
                }
            },
    {
        if !self.outgoing.is_empty() {
            return Ok(WriteStep::Wait);
        }
        let take: usize = if data.len() < MAX_PLAIN { data.len() } else { MAX_PLAIN };
        let plain = vstd::slice::slice_subrange(data, 0, take);
        assert(plain@ =~= one_message(data@));
        match seal(&self.transport, self.out_nonce, plain, take + TAG_LEN) {
            Ok(message) => {
                put_u16(&mut self.outgoing, message.len() as u16);
                self.outgoing.extend_from_slice(message.as_slice());
                assert(held(self.outgoing) =~= prefixed(message@));
                self.out_nonce = self.out_nonce + 1;
                Ok(WriteStep::Taken(take))
            },
            Err(error) => Err(NoiseError::Refused(error)),
        }
    }

    /// Sealed bytes that the carrier has still to take.
    pub fn staged(&self) -> (bytes: &[u8])
        ensures
            bytes@ == self@.outgoing,
    {
        as_slice(&self.outgoing)
    }

    /// The carrier took `n` of the staged bytes.
    pub fn drained(&mut self, n: usize)
        requires
            n <= old(self)@.outgoing.len(),
        ensures
            final(self)@ == (TunnelView {
                outgoing: old(self)@.outgoing.skip(n as int),
                ..old(self)@
            }),
    {
        advance(&mut self.outgoing, n);
    }
}

/// A reader asks for more ciphertext only where no complete message is in hand,
/// however the bytes were cut on their way.
pub proof fn law_complete_messages_are_read_first(v: TunnelView)
    ensures
        v.settled().1 is NoMore ==> v.settled().0.plain.len() == 0 && arrival(
            v.settled().0.incoming,
        ) is Partial,
        v.settled().1 is Yes <==> v.settled().0.plain.len() > 0,
    decreases v.incoming.len(),
{
    if v.plain.len() == 0 {
        if let Arrival::Message(message) = arrival(v.incoming) {
            if let Ok(payload) = opened(v.transport, v.in_nonce, message) {
                law_complete_messages_are_read_first(
                    TunnelView {
                        incoming: v.incoming.skip(2 + message.len() as int),
                        plain: payload,
                        in_nonce: (v.in_nonce + 1) as u64,
                        ..v
                    },
                );
            }
        }
    }
}

/// What one end writes is what the other end reads: a message written at `a`
/// and received at `b`, which is caught up and counts alike, is the plaintext
/// that `b` has in hand next, whatever follows it on the carrier.
pub proof fn law_written_bytes_are_read(
    a: TunnelView,
    b: TunnelView,
    data: Seq<u8>,
    later: Seq<u8>,
)
    requires
        links(a.transport, b.transport),
        a.out_nonce == b.in_nonce,
        0 < data.len() <= MAX_PLAIN,
        sealed(a.transport, a.out_nonce, data) is Ok,
        b.plain.len() == 0,
        b.incoming == prefixed(sealed(a.transport, a.out_nonce, data)->Ok_0) + later,
    ensures
        b.settled().1 is Yes,
        b.settled().0 == (TunnelView {
            plain: data,
            incoming: later,
            in_nonce: (b.in_nonce + 1) as u64,
            ..b
        }),
{
    let message = sealed(a.transport, a.out_nonce, data)->Ok_0;
    law_prefixed_message_arrives(message, later);
    reveal_with_fuel(TunnelView::settled, 2);
}

/// The messages that some data is written in.
pub open spec fn messages(data: Seq<u8>) -> Seq<Seq<u8>>
    decreases data.len(),
{
    if data.len() == 0 {
        Seq::empty()
    } else {
        seq![one_message(data)] + messages(data.skip(one_message(data).len() as int))
    }
}

/// Cutting data into messages loses nothing and adds nothing, and every message
/// carries something and fits.
pub proof fn law_messages_add_up(data: Seq<u8>)
    ensures
        joined(messages(data)) == data,
        forall|i: int|
            0 <= i < messages(data).len() ==> 0 < (#[trigger] messages(data)[i]).len() <= MAX_PLAIN,
    decreases data.len(),
{
    if data.len() > 0 {
        let n = one_message(data).len() as int;
        let rest = messages(data.skip(n));
        law_messages_add_up(data.skip(n));
        assert(messages(data).skip(1) =~= rest);
        assert(one_message(data) + data.skip(n) =~= data);
        assert forall|i: int| 0 <= i < messages(data).len() implies 0 < (#[trigger] messages(
            data,
        )[i]).len() <= MAX_PLAIN by {
            if i > 0 {
                assert(messages(data)[i] == rest[i - 1]);
            }
        }
    }
}

/// The stream after some data was written, each message as soon as the one before
/// it has left, and all bytes that went to the carrier; `None` where a message is
/// refused.
pub open spec fn written_all(v: TunnelView, parts: Seq<Seq<u8>>) -> Option<(TunnelView, Seq<u8>)>
    decreases parts.len(),
{
    if parts.len() == 0 {
        Some((v, Seq::empty()))
    } else {
        match sealed(v.transport, v.out_nonce, parts[0]) {
            Ok(message) => match written_all(
                TunnelView { out_nonce: (v.out_nonce + 1) as u64, ..v },
                parts.skip(1),
            ) {
                Some((end, later)) => Some((end, prefixed(message) + later)),
                None => None,
            },
            Err(_) => None,
        }
    }
}

/// What a run of writes puts on the carrier is its messages, sealed one after the
/// other.
proof fn lemma_written_is_sealed(v: TunnelView, parts: Seq<Seq<u8>>)
    ensures
        match written_all(v, parts) {
            Some((_, bytes)) => sealing(v.transport, v.out_nonce, parts) == Some(bytes),
            None => sealing(v.transport, v.out_nonce, parts) is None,
        },
    decreases parts.len(),
{
    if parts.len() > 0 {
        lemma_written_is_sealed(
            TunnelView { out_nonce: (v.out_nonce + 1) as u64, ..v },
            parts.skip(1),
        );
    }
}

/// One call on the reading side of a sealed stream.
pub enum TunnelCall {
    /// The carrier delivered these bytes.
    Receive(Seq<u8>),
    /// A read of at most so many bytes.
    Read(nat),
}

/// The stream after a call, and the bytes that the call hands to the reader.
pub open spec fn called(v: TunnelView, call: TunnelCall) -> (TunnelView, Seq<u8>) {
    match call {
        TunnelCall::Receive(bytes) => (
            TunnelView { incoming: v.incoming + bytes, ..v },
            Seq::empty(),
        ),
        TunnelCall::Read(room) => match v.settled() {
            (settled, Ready::Yes) => {
                let n = share(settled.plain, room) as int;
                (
                    TunnelView { plain: settled.plain.skip(n), ..settled },
                    settled.plain.take(n),
                )
            },
            (settled, _) => (settled, Seq::empty()),
        },
    }
}

/// The stream after a run of calls, and all bytes that the run hands to the
/// reader.
pub open spec fn called_all(v: TunnelView, calls: Seq<TunnelCall>) -> (TunnelView, Seq<u8>)
    decreases calls.len(),
{
    if calls.len() == 0 {
        (v, Seq::empty())
    } else {
        let (next, first) = called(v, calls[0]);
        let (end, rest) = called_all(next, calls.skip(1));
        (end, first + rest)
    }
}

/// The bytes that a run of calls takes from the carrier.
pub open spec fn received(calls: Seq<TunnelCall>) -> Seq<u8>
    decreases calls.len(),
{
    if calls.len() == 0 {
        Seq::empty()
    } else {
        (match calls[0] {
            TunnelCall::Receive(bytes) => bytes,
            TunnelCall::Read(_) => Seq::empty(),
        }) + received(calls.skip(1))
    }
}

/// What a stream has for its reader, once so many more bytes are there: the
/// plaintext in hand, and that of every message that is all there.
pub open spec fn to_come(v: TunnelView, later: Seq<u8>) -> Seq<u8> {
    v.plain + joined(opening(v.transport, v.in_nonce, v.incoming + later).0)
}

/// Whether no message of a stream is refused, once so many more bytes are there.
pub open spec fn clean(v: TunnelView, later: Seq<u8>) -> bool {
    arrival(opening(v.transport, v.in_nonce, v.incoming + later).1) is Partial
}

/// Opening messages early changes nothing of what is to come.
proof fn lemma_settled(v: TunnelView, later: Seq<u8>)
    requires
        clean(v, later),
    ensures
        !(v.settled().1 is Broken),
        clean(v.settled().0, later),
        to_come(v.settled().0, later) == to_come(v, later),
    decreases v.incoming.len(),
{
    if v.plain.len() == 0 && !(arrival(v.incoming) is Partial) {
        lemma_later_bytes_change_no_message(v.incoming, later);
        if let Arrival::Message(message) = arrival(v.incoming) {
            let n = 2 + message.len() as int;
            assert((v.incoming + later).skip(n) =~= v.incoming.skip(n) + later);
            if let Ok(payload) = opened(v.transport, v.in_nonce, message) {
                let next = TunnelView {
                    incoming: v.incoming.skip(n),
                    plain: payload,
                    in_nonce: (v.in_nonce + 1) as u64,
                    ..v
                };
                let rest = opening(next.transport, next.in_nonce, next.incoming + later).0;
                assert((seq![payload] + rest).skip(1) =~= rest);
                assert(to_come(v, later) =~= to_come(next, later));
                lemma_settled(next, later);
            }
        }
    }
}

/// What a call hands out comes off the front of what is to come.
proof fn lemma_called(v: TunnelView, call: TunnelCall, later: Seq<u8>)
    requires
        clean(v, received(seq![call]) + later),
    ensures
        clean(called(v, call).0, later),
        called(v, call).1 + to_come(called(v, call).0, later) == to_come(
            v,
            received(seq![call]) + later,
        ),
{
    reveal_with_fuel(received, 2);
    assert(seq![call].skip(1) =~= Seq::empty());
    let (next, first) = called(v, call);
    match call {
        TunnelCall::Receive(bytes) => {
            assert(received(seq![call]) =~= bytes);
            assert(next.incoming + later =~= v.incoming + (bytes + later));
            assert(first + to_come(next, later) =~= to_come(next, later));
        },
        TunnelCall::Read(room) => {
            assert(received(seq![call]) + later =~= later);
            lemma_settled(v, later);
            let settled = v.settled().0;
            if v.settled().1 is Yes {
                let n = share(settled.plain, room) as int;
                let rest = joined(
                    opening(settled.transport, settled.in_nonce, settled.incoming + later).0,
                );
                assert(settled.plain.take(n) + (settled.plain.skip(n) + rest) =~= settled.plain
                    + rest);
            } else {
                assert(first + to_come(next, later) =~= to_come(next, later));
            }
        },
    }
}

/// How reads are cut does not matter, neither those from the carrier nor those of
/// the reader.
proof fn lemma_called_all(v: TunnelView, calls: Seq<TunnelCall>)
    requires
        clean(v, received(calls)),
    ensures
        ({
            let (end, handed) = called_all(v, calls);
            &&& clean(end, Seq::empty())
            &&& handed + to_come(end, Seq::empty()) == to_come(v, received(calls))
        }),
    decreases calls.len(),
{
    if calls.len() == 0 {
        assert(Seq::<u8>::empty() + to_come(v, Seq::empty()) =~= to_come(v, Seq::empty()));
    } else {
        let rest = calls.skip(1);
        let (next, first) = called(v, calls[0]);
        reveal_with_fuel(received, 2);
        assert(seq![calls[0]].skip(1) =~= Seq::empty());
        assert(received(seq![calls[0]]) + received(rest) =~= received(calls));
        lemma_called(v, calls[0], received(rest));
        lemma_called_all(next, rest);
        let (end, handed) = called_all(next, rest);
        assert(first + (handed + to_come(end, Seq::empty())) =~= (first + handed) + to_come(
            end,
            Seq::empty(),
        ));
    }
}

/// What one end writes is what the other end reads, over any run: however the
/// writer's data falls into messages, and however the carrier and the reader cut
/// their reads, what the reader was handed, and what it will still be handed, is
/// what was written, in order and without loss.
pub proof fn law_tunnel_may_be_cut_anywhere(
    a: TunnelView,
    b: TunnelView,
    parts: Seq<Seq<u8>>,
    calls: Seq<TunnelCall>,
)
    requires
        links(a.transport, b.transport),
        a.out_nonce == b.in_nonce,
        a.out_nonce + parts.len() <= u64::MAX,
        written_all(a, parts) is Some,
        b.plain.len() == 0,
        b.incoming.len() == 0,
        received(calls) == (written_all(a, parts)->0).1,
    ensures
        ({
            let (end, handed) = called_all(b, calls);
            &&& !(end.settled().1 is Broken)
            &&& handed + to_come(end, Seq::empty()) == joined(parts)
        }),
{
    lemma_written_is_sealed(a, parts);
    law_sealed_payloads_read_back(a.transport, b.transport, a.out_nonce, parts);
    assert(b.incoming + received(calls) =~= received(calls));
    assert(to_come(b, received(calls)) =~= joined(parts));
    lemma_called_all(b, calls);
    lemma_settled(called_all(b, calls).0, Seq::empty());
}

/// A transport that sends lets every run of data through, as long as its nonces
/// last.
pub proof fn law_data_is_not_refused(v: TunnelView, data: Seq<u8>)
    requires
        sends(v.transport),
        v.out_nonce + messages(data).len() <= u64::MAX,
    ensures
        written_all(v, messages(data)) is Some,
{
    law_messages_add_up(data);
    law_payloads_that_fit_are_sealed(v.transport, v.out_nonce, messages(data));
    lemma_written_is_sealed(v, messages(data));
}

/// A write takes the front of its data, all of it, but at most 65519 bytes: that
/// front, sealed under the next nonce, is what waits for the carrier, behind its
/// length in two bytes. While sealed bytes wait, nothing is taken.
pub proof fn law_writes_seal_the_front(v: TunnelView, data: Seq<u8>)
    ensures
        ({
            let n = if data.len() < 65519 {
                data.len() as int
            } else {
                65519
            };
            let front = data.take(n);
            let (after, how) = v.writing(data);
            &&& one_message(data) == front
            &&& v.outgoing.len() > 0 ==> after == v && how is Wait
            &&& v.outgoing.len() == 0 ==> match sealed(v.transport, v.out_nonce, front) {
                Ok(message) => {
                    &&& how == Writing::Taken(n as nat)
                    &&& after.outgoing.len() == 2 + message.len()
                    &&& message.len() <= 65535 ==> after.outgoing[0] * 256 + after.outgoing[1]
                        == message.len()
                    &&& after.outgoing.skip(2) == message
                    &&& v.out_nonce < u64::MAX ==> after.out_nonce == v.out_nonce + 1
                    &&& after.transport == v.transport
                    &&& after.in_nonce == v.in_nonce
                    &&& after.plain == v.plain
                    &&& after.incoming == v.incoming
                },
                Err(error) => after == v && how == Writing::Broken(NoiseError::Refused(error)),
            }
        }),
{
    if v.outgoing.len() == 0 {
        if let Ok(message) = sealed(v.transport, v.out_nonce, one_message(data)) {
            assert(prefixed(message).skip(2) =~= message);
        }
    }
}

/// A read fills as much of its room as the plaintext in hand allows, and keeps
/// the rest; what the carrier delivers joins what came before it.
pub proof fn law_reads_of_a_tunnel_fill_their_room(v: TunnelView, room: nat, bytes: Seq<u8>)
    ensures
        v.plain.len() > 0 ==> {
            let n = if v.plain.len() < room {
                v.plain.len() as int
            } else {
                room as int
            };
            let (after, out) = called(v, TunnelCall::Read(room));
            &&& out == v.plain.take(n)
            &&& after == TunnelView { plain: v.plain.skip(n), ..v }
        },
        called(v, TunnelCall::Receive(bytes)).0 == (TunnelView {
            incoming: v.incoming + bytes,
            ..v
        }),
        called(v, TunnelCall::Receive(bytes)).1.len() == 0,
{
}

/// What a read needs is opened from the front: nothing while plaintext is in
/// hand or no whole message is, and otherwise the front message, under the next
/// nonce; a message too short for its tag, or one that is refused, breaks the
/// stream.
pub proof fn law_messages_are_opened_from_the_front(v: TunnelView)
    ensures
        v.plain.len() > 0 ==> v.settled() == (v, Ready::Yes),
        v.plain.len() == 0 ==> {
            let s = v.incoming;
            let n = s[0] * 256 + s[1];
            &&& s.len() < 2 ==> v.settled() == (v, Ready::NoMore)
            &&& s.len() >= 2 && n < 16 ==> v.settled() == (v, Ready::Broken(NoiseError::Short))
            &&& s.len() >= 2 && n >= 16 && s.len() < 2 + n ==> v.settled() == (v, Ready::NoMore)
            &&& s.len() >= 2 && n >= 16 && s.len() >= 2 + n ==> match opened(
                v.transport,
                v.in_nonce,
                s.subrange(2, 2 + n),
            ) {
                Ok(payload) => v.settled() == (TunnelView {
                    incoming: s.skip(2 + n),
                    plain: payload,
                    in_nonce: (v.in_nonce + 1) as u64,
                    ..v
                }).settled(),
                Err(error) => v.settled() == (
                    TunnelView { incoming: s.skip(2 + n), ..v },
                    Ready::Broken(NoiseError::Refused(error)),
                ),
            }
        },
{
}

} // verus!
