//! The Noise handshakes of a bridge link and of a device tunnel, and the codec
//! that carries mux frames over a finished one.
//!
//! Transport state is `snow::StatelessTransportState`, whose seal and open take
//! an explicit nonce. Each direction owns its own counter, so the two
//! directions never share a lock and never contend.

use std::sync::Arc;

use bytes::{Bytes, BytesMut};
use snow::{HandshakeState, StatelessTransportState};
use vstd::prelude::*;

use crate::buf::{advance, as_slice, chunk_slice, content, held, put_u16};
use crate::crypto::{derive_public, x25519_public};
use crate::mux::{frame_bytes, law_frame_reads_back, parse, put_head, Frame, FrameView};
use crate::state::constant_time_eq;
use crate::trace::joined;
use crate::wire::{
    be16, be16_value, law_be16_round_trip, read_be16, FRAME_HEAD, MAX_HANDSHAKE_MSG,
    MAX_NOISE_MSG, NOISE_IK, NOISE_XX, TAG_LEN,
};

verus! {

/// `snow::StatelessTransportState`: the two cipher keys of a finished handshake.
#[verifier::external_type_specification]
#[verifier::external_body]
pub struct ExStatelessTransportState(StatelessTransportState);

/// `snow::HandshakeState`: a handshake under way.
#[verifier::external_type_specification]
#[verifier::external_body]
pub struct ExHandshakeState(HandshakeState);

/// `snow::Error`: why a Noise operation failed.
#[verifier::external_type_specification]
#[verifier::external_body]
pub struct ExSnowError(snow::Error);

/// Why a Noise link cannot go on.
#[derive(Debug)]
pub enum NoiseError {
    /// A message that would not fit its length prefix.
    TooLarge,
    /// A message too short to hold a tag.
    Short,
    /// A handshake message over `MAX_HANDSHAKE_MSG`.
    HandshakeTooLarge,
    /// The peer finished a handshake without naming its static key.
    NoStaticKey,
    /// The peer's static key is not 32 bytes.
    BadStaticKey,
    /// The peer proved another static key than the one it was dialled for.
    UnexpectedStaticKey,
    /// A private key that is not 32 bytes.
    PrivateKeyLength,
    /// The cryptography refused.
    Refused(snow::Error),
}

/// What `StatelessTransportState::write_message` seals a payload to.
pub uninterp spec fn sealed(
    transport: StatelessTransportState,
    nonce: u64,
    payload: Seq<u8>,
) -> Result<Seq<u8>, snow::Error>;

/// What `StatelessTransportState::read_message` opens a message to.
pub uninterp spec fn opened(
    transport: StatelessTransportState,
    nonce: u64,
    message: Seq<u8>,
) -> Result<Seq<u8>, snow::Error>;

/// The responder that `snow::Builder` builds.
pub uninterp spec fn responder(
    suite: Seq<char>,
    private: Seq<u8>,
    prologue: Seq<u8>,
) -> Result<HandshakeState, snow::Error>;

/// The initiator that `snow::Builder` builds.
pub uninterp spec fn initiator(
    suite: Seq<char>,
    private: Seq<u8>,
    remote: Seq<u8>,
    prologue: Seq<u8>,
) -> Result<HandshakeState, snow::Error>;

/// The initiator that `snow::Builder` builds where the peer's key is not known
/// beforehand.
pub uninterp spec fn caller(
    suite: Seq<char>,
    private: Seq<u8>,
    prologue: Seq<u8>,
) -> Result<HandshakeState, snow::Error>;

/// What `HandshakeState::read_message` makes of a message: the handshake after
/// it, and the payload it carried.
pub uninterp spec fn handshake_read(
    handshake: HandshakeState,
    message: Seq<u8>,
    room: nat,
) -> (HandshakeState, Result<Seq<u8>, snow::Error>);

/// What `HandshakeState::write_message` makes of a payload with the randomness
/// that it draws: the handshake after it, and the message.
pub uninterp spec fn handshake_written(
    handshake: HandshakeState,
    payload: Seq<u8>,
    room: nat,
    drawn: Seq<u8>,
) -> (HandshakeState, Result<Seq<u8>, snow::Error>);

/// The private and the public key that `snow::Builder::generate_keypair` makes
/// for a suite with the randomness that it draws.
pub uninterp spec fn keypair_made(suite: Seq<char>, drawn: Seq<u8>) -> Result<
    (Seq<u8>, Seq<u8>),
    snow::Error,
>;

/// What `HandshakeState::get_remote_static` gives.
pub uninterp spec fn remote_static(handshake: HandshakeState) -> Option<Seq<u8>>;

/// What `HandshakeState::into_stateless_transport_mode` gives.
pub uninterp spec fn transport_mode(handshake: HandshakeState) -> Result<
    StatelessTransportState,
    snow::Error,
>;

/// A result with its bytes taken by their view.
pub open spec fn viewed(result: Result<Vec<u8>, snow::Error>) -> Result<Seq<u8>, snow::Error> {
    match result {
        Ok(bytes) => Ok(bytes@),
        Err(error) => Err(error),
    }
}

/// A key pair with its keys taken by their views.
pub open spec fn pair_viewed(result: Result<(Vec<u8>, Vec<u8>), snow::Error>) -> Result<
    (Seq<u8>, Seq<u8>),
    snow::Error,
> {
    match result {
        Ok(pair) => Ok((pair.0@, pair.1@)),
        Err(error) => Err(error),
    }
}

/// A result with its buffer taken as the bytes it holds.
pub open spec fn buffered(result: Result<BytesMut, snow::Error>) -> Result<Seq<u8>, snow::Error> {
    match result {
        Ok(buffer) => Ok(held(buffer)),
        Err(error) => Err(error),
    }
}

/// `StatelessTransportState::write_message` into a buffer of `room` bytes. A
/// sealed message is its payload plus one tag; a payload that does not fit a
/// Noise message, and the last nonce, are refused.
#[verifier::external_body]
pub(crate) fn seal(
    transport: &StatelessTransportState,
    nonce: u64,
    payload: &[u8],
    room: usize,
) -> (message: Result<Vec<u8>, snow::Error>)
    requires
        payload@.len() + TAG_LEN <= room,
    ensures
        viewed(message) == sealed(*transport, nonce, payload@),
        message matches Ok(bytes) ==> {
            &&& bytes@.len() == payload@.len() + TAG_LEN
            &&& bytes@.len() <= MAX_NOISE_MSG
            &&& nonce < u64::MAX
        },
{
    let mut out = vec![0u8; room];
    let n = transport.write_message(nonce, payload, &mut out)?;
    out.truncate(n);
    Ok(out)
}

/// `StatelessTransportState::read_message` into a buffer of `room` bytes. An
/// opened message is one tag shorter; a message without room for a tag, and
/// the last nonce, are refused.
///
/// That a message which was altered, or sealed under another nonce, is refused
/// rests on the strength of the cipher; nothing is claimed of it here.
#[verifier::external_body]
pub(crate) fn open(
    transport: &StatelessTransportState,
    nonce: u64,
    message: &[u8],
    room: usize,
) -> (payload: Result<BytesMut, snow::Error>)
    requires
        message@.len() <= room + TAG_LEN,
    ensures
        buffered(payload) == opened(*transport, nonce, message@),
        payload matches Ok(bytes) ==> {
            &&& held(bytes).len() + TAG_LEN == message@.len()
            &&& nonce < u64::MAX
        },
{
    let mut out = BytesMut::zeroed(room);
    let n = transport.read_message(nonce, message, &mut out)?;
    out.truncate(n);
    Ok(out)
}

/// `snow::Builder::build_responder` for a suite, a static key and a prologue.
/// It panics on a key longer than an X25519 key.
#[verifier::external_body]
fn build_responder(suite: &str, private: &[u8], prologue: &[u8]) -> (handshake: Result<
    HandshakeState,
    snow::Error,
>)
    requires
        private@.len() <= 32,
    ensures
        handshake == responder(suite@, private@, prologue@),
{
    snow::Builder::new(suite.parse()?)
        .local_private_key(private)
        .prologue(prologue)
        .build_responder()
}

/// `snow::Builder::build_initiator` for a suite, a static key, the peer's
/// static key and a prologue. It panics on a key longer than an X25519 key.
#[verifier::external_body]
fn build_initiator(suite: &str, private: &[u8], remote: &[u8], prologue: &[u8]) -> (handshake:
    Result<HandshakeState, snow::Error>)
    requires
        private@.len() <= 32,
        remote@.len() <= 32,
    ensures
        handshake == initiator(suite@, private@, remote@, prologue@),
{
    snow::Builder::new(suite.parse()?)
        .local_private_key(private)
        .remote_public_key(remote)
        .prologue(prologue)
        .build_initiator()
}

/// `snow::Builder::build_initiator` for a suite, a static key and a prologue. It
/// panics on a key longer than an X25519 key.
#[verifier::external_body]
fn build_caller(suite: &str, private: &[u8], prologue: &[u8]) -> (handshake: Result<
    HandshakeState,
    snow::Error,
>)
    requires
        private@.len() <= 32,
    ensures
        handshake == caller(suite@, private@, prologue@),
{
    snow::Builder::new(suite.parse()?)
        .local_private_key(private)
        .prologue(prologue)
        .build_initiator()
}

/// `HandshakeState::read_message` into a buffer of `room` bytes.
#[verifier::external_body]
fn read_message(handshake: &mut HandshakeState, message: &[u8], room: usize) -> (payload: Result<
    Vec<u8>,
    snow::Error,
>)
    ensures
        (*final(handshake), viewed(payload)) == handshake_read(
            *old(handshake),
            message@,
            room as nat,
        ),
{
    let mut out = vec![0u8; room];
    let n = handshake.read_message(message, &mut out)?;
    out.truncate(n);
    Ok(out)
}

/// `HandshakeState::write_message` into a buffer of `room` bytes. The message and
/// the handshake after it follow from the handshake, the payload, the room and
/// the randomness that a fresh ephemeral key is drawn from; which randomness
/// that is, is not told. The message fits the room. The bound leaves out a
/// buffer that could not hold two keys and two tags beside the payload, on which
/// the call panics; it also panics where the system has no randomness to give.
#[verifier::external_body]
fn write_message(handshake: &mut HandshakeState, payload: &[u8], room: usize) -> (message: Result<
    Vec<u8>,
    snow::Error,
>)
    requires
        payload@.len() + 96 <= room,
    ensures
        exists|drawn: Seq<u8>|
            (*final(handshake), viewed(message)) == #[trigger] handshake_written(
                *old(handshake),
                payload@,
                room as nat,
                drawn,
            ),
        message matches Ok(bytes) ==> bytes@.len() <= room,
{
    let mut out = vec![0u8; room];
    let n = handshake.write_message(payload, &mut out)?;
    out.truncate(n);
    Ok(out)
}

/// `HandshakeState::get_remote_static`: the peer's static key, once known.
#[verifier::external_body]
fn get_remote_static(handshake: &HandshakeState) -> (key: Option<Vec<u8>>)
    ensures
        key is Some <==> remote_static(*handshake) is Some,
        key matches Some(bytes) ==> remote_static(*handshake) == Some(bytes@),
{
    handshake.get_remote_static().map(|key| key.to_vec())
}

/// `HandshakeState::into_stateless_transport_mode`: the transport of a finished
/// handshake. A finished handshake has both cipher keys, and `Noise_XX` and
/// `Noise_IK` are not one-way, so a transport of one of these seals whatever fits
/// a message, until its nonces run out.
#[verifier::external_body]
fn into_transport(handshake: HandshakeState) -> (transport: Result<
    StatelessTransportState,
    snow::Error,
>)
    ensures
        transport == transport_mode(handshake),
        two_way(handshake) && transport is Ok ==> sends(transport->Ok_0),
{
    handshake.into_stateless_transport_mode()
}

/// `snow::Builder::generate_keypair` for an X25519 suite: a fresh private key,
/// its public key behind it. The pair follows from the suite and the randomness
/// that it is drawn from; which randomness that is, is not told. Both keys are
/// 32 bytes, and the public key is the private key's. The call panics where the
/// system has no randomness to give.
#[verifier::external_body]
fn fresh_keypair(suite: &str) -> (pair: Result<(Vec<u8>, Vec<u8>), snow::Error>)
    ensures
        exists|drawn: Seq<u8>| pair_viewed(pair) == #[trigger] keypair_made(suite@, drawn),
        pair matches Ok(keys) ==> {
            &&& keys.0@.len() == 32
            &&& keys.1@.len() == 32
            &&& keys.1@ == x25519_public(keys.0@)
        },
{
    let pair = snow::Builder::new(suite.parse()?).generate_keypair()?;
    Ok((pair.private, pair.public))
}

/// Whether a transport seals every payload that fits a message, under every
/// nonce but the last, to the payload plus one tag.
pub open spec fn sends(transport: StatelessTransportState) -> bool {
    forall|nonce: u64, payload: Seq<u8>|
        #![trigger sealed(transport, nonce, payload)]
        nonce < u64::MAX && payload.len() + TAG_LEN <= MAX_NOISE_MSG ==> (sealed(
            transport,
            nonce,
            payload,
        ) matches Ok(message) && message.len() == payload.len() + TAG_LEN)
}

/// A call on a handshake: a message is read, or one is written with the
/// randomness that is drawn for it.
pub enum Move {
    Read { message: Seq<u8> },
    Write { payload: Seq<u8>, drawn: Seq<u8> },
}

/// A handshake after a call.
pub open spec fn moved_on(handshake: HandshakeState, call: Move) -> HandshakeState {
    match call {
        Move::Read { message } => handshake_read(
            handshake,
            message,
            MAX_HANDSHAKE_MSG as nat,
        ).0,
        Move::Write { payload, drawn } => handshake_written(
            handshake,
            payload,
            MAX_HANDSHAKE_MSG as nat,
            drawn,
        ).0,
    }
}

/// A handshake after a run of calls.
pub open spec fn walked(handshake: HandshakeState, calls: Seq<Move>) -> HandshakeState
    decreases calls.len(),
{
    if calls.len() == 0 {
        handshake
    } else {
        moved_on(walked(handshake, calls.drop_last()), calls.last())
    }
}

/// Whether a handshake was just built for `Noise_XX` or `Noise_IK`, as either
/// side.
pub open spec fn built(handshake: HandshakeState, private: Seq<u8>, remote: Seq<u8>, prologue: Seq<
    u8,
>) -> bool {
    ||| responder(NOISE_XX@, private, prologue) == Ok::<HandshakeState, snow::Error>(handshake)
    ||| caller(NOISE_XX@, private, prologue) == Ok::<HandshakeState, snow::Error>(handshake)
    ||| responder(NOISE_IK@, private, prologue) == Ok::<HandshakeState, snow::Error>(handshake)
    ||| initiator(NOISE_IK@, private, remote, prologue) == Ok::<HandshakeState, snow::Error>(
        handshake,
    )
}

/// Whether a handshake came from such a start.
pub open spec fn comes_from(handshake: HandshakeState, start: HandshakeState, calls: Seq<Move>) -> bool {
    handshake == walked(start, calls)
}

/// Whether a handshake is one of `Noise_XX` or `Noise_IK`, at any point: both
/// sides of these send.
pub open spec fn two_way(handshake: HandshakeState) -> bool {
    exists|start: HandshakeState, calls: Seq<Move>, private: Seq<u8>, remote: Seq<u8>, prologue: Seq<
        u8,
    >|
        #[trigger] built(start, private, remote, prologue) && #[trigger] comes_from(
            handshake,
            start,
            calls,
        )
}

/// A handshake that was just built is one of these.
proof fn lemma_built_is_two_way(
    handshake: HandshakeState,
    private: Seq<u8>,
    remote: Seq<u8>,
    prologue: Seq<u8>,
)
    requires
        built(handshake, private, remote, prologue),
    ensures
        two_way(handshake),
{
    assert(comes_from(handshake, handshake, Seq::empty()));
}

/// A call leaves a handshake one of these.
proof fn lemma_stays_two_way(handshake: HandshakeState, call: Move)
    requires
        two_way(handshake),
    ensures
        two_way(moved_on(handshake, call)),
{
    let (start, calls, private, remote, prologue) = choose|
        start: HandshakeState,
        calls: Seq<Move>,
        private: Seq<u8>,
        remote: Seq<u8>,
        prologue: Seq<u8>,
    |
        #[trigger] built(start, private, remote, prologue) && #[trigger] comes_from(
            handshake,
            start,
            calls,
        );
    assert(calls.push(call).drop_last() =~= calls);
    assert(comes_from(moved_on(handshake, call), start, calls.push(call)));
}

/// Whatever `a` seals, `b` opens, and a sealed message is its payload plus one
/// tag: the two are the ends of one handshake, seen in one direction.
///
/// That the transports of a finished handshake are so linked is the handshake's
/// own promise. No function here establishes it: it is what the laws of the link
/// and of the tunnel start from.
pub open spec fn links(a: StatelessTransportState, b: StatelessTransportState) -> bool {
    forall|nonce: u64, payload: Seq<u8>|
        #![trigger sealed(a, nonce, payload)]
        sealed(a, nonce, payload) matches Ok(message) ==> {
            &&& opened(b, nonce, message) == Ok::<Seq<u8>, snow::Error>(payload)
            &&& message.len() == payload.len() + TAG_LEN
            &&& message.len() <= MAX_NOISE_MSG
        }
}

/// A message behind its two-byte length.
pub open spec fn prefixed(message: Seq<u8>) -> Seq<u8> {
    be16(message.len() as u16) + message
}

/// Seals mux frames onto the bridge link. Owns the sending nonce.
pub struct NoiseEncoder {
    transport: Arc<StatelessTransportState>,
    nonce: u64,
    /// Reused plaintext staging buffer.
    scratch: Vec<u8>,
}

/// Opens mux frames arriving from the bridge. Owns the receiving nonce.
pub struct NoiseDecoder {
    transport: Arc<StatelessTransportState>,
    nonce: u64,
}

impl NoiseEncoder {
    /// The keys this half seals with.
    pub closed spec fn transport(&self) -> StatelessTransportState {
        *self.transport
    }

    /// Messages sealed so far, and the nonce of the next one.
    pub closed spec fn nonce(&self) -> u64 {
        self.nonce
    }

    /// Append one sealed frame to `dst`, length first.
    pub fn encode(&mut self, frame: Frame, dst: &mut BytesMut) -> (outcome: Result<(), NoiseError>)
        ensures
            final(self).transport() == old(self).transport(),
            ({
                let (bytes, nonce, how) = encoded(
                    old(self).transport(),
                    old(self).nonce(),
                    frame.id,
                    frame.kind,
                    content(frame.payload),
                );
                &&& held(*final(dst)) == held(*old(dst)) + bytes
                &&& final(self).nonce() == nonce
                &&& outcome == how
            }),
            outcome is Ok <==> seals(
                old(self).transport(),
                old(self).nonce(),
                frame_bytes(frame.id, frame.kind, content(frame.payload)),
            ),
            ({
                let plain = frame_bytes(frame.id, frame.kind, content(frame.payload));
                let room = (plain.len() + TAG_LEN) as nat;
                if room > MAX_NOISE_MSG {
                    &&& outcome == Err::<(), NoiseError>(NoiseError::TooLarge)
                    &&& held(*final(dst)) == held(*old(dst))
                    &&& final(self).nonce() == old(self).nonce()
                } else {
                    match sealed(old(self).transport(), old(self).nonce(), plain) {
                        Ok(message) => {
                            &&& outcome == Ok::<(), NoiseError>(())
                            &&& message.len() == room
                            &&& held(*final(dst)) == held(*old(dst)) + prefixed(message)
                            &&& final(self).nonce() == old(self).nonce() + 1
                        },
                        Err(error) => {
                            &&& outcome == Err::<(), NoiseError>(NoiseError::Refused(error))
                            &&& held(*final(dst)) == held(*old(dst)) + prefixed(
                                Seq::new(room, |i: int| 0u8),
                            )
                            &&& final(self).nonce() == old(self).nonce()
                        },
                    }
                }
            }),
    {
        let ghost plain = frame_bytes(frame.id, frame.kind, content(frame.payload));
        let payload = chunk_slice(&frame.payload);
        if payload.len() > MAX_NOISE_MSG - TAG_LEN - FRAME_HEAD {
            return Err(NoiseError::TooLarge);
        }
        self.scratch.clear();
        put_head(&mut self.scratch, frame.id, frame.kind, payload.len() as u16);
        self.scratch.extend_from_slice(payload);
        assert(self.scratch@ =~= plain);
        let room: usize = self.scratch.len() + TAG_LEN;
        put_u16(dst, room as u16);
        match seal(&self.transport, self.nonce, self.scratch.as_slice(), room) {
            Ok(message) => {
                dst.extend_from_slice(message.as_slice());
                self.nonce = self.nonce + 1;
                assert(held(*dst) =~= held(*old(dst)) + prefixed(message@));
                Ok(())
            },
            Err(error) => {
                let blank: Vec<u8> = vec![0u8; room];
                dst.extend_from_slice(blank.as_slice());
                assert(held(*dst) =~= held(*old(dst)) + prefixed(Seq::new(room as nat, |i: int| 0u8)));
                Err(NoiseError::Refused(error))
            },
        }
    }
}

/// What an encoder does with a frame: the bytes that it puts on the link, the
/// nonce that comes next, and how it went.
pub open spec fn encoded(
    transport: StatelessTransportState,
    nonce: u64,
    id: u32,
    kind: u8,
    payload: Seq<u8>,
) -> (Seq<u8>, int, Result<(), NoiseError>) {
    let plain = frame_bytes(id, kind, payload);
    let room = (plain.len() + TAG_LEN) as nat;
    if room > MAX_NOISE_MSG {
        (Seq::empty(), nonce as int, Err(NoiseError::TooLarge))
    } else {
        match sealed(transport, nonce, plain) {
            Ok(message) => (prefixed(message), nonce + 1, Ok(())),
            Err(error) => (
                prefixed(Seq::new(room, |i: int| 0u8)),
                nonce as int,
                Err(NoiseError::Refused(error)),
            ),
        }
    }
}

/// Whether a frame's bytes are sealed under a nonce: they fit, and the cipher
/// takes them.
pub open spec fn seals(transport: StatelessTransportState, nonce: u64, plain: Seq<u8>) -> bool {
    plain.len() + TAG_LEN <= MAX_NOISE_MSG && sealed(transport, nonce, plain) is Ok
}

/// The nonce that an encoder has after a run of frames, from a nonce on: each one
/// that is sealed uses one up, and one that is refused none.
pub open spec fn nonce_after(
    transport: StatelessTransportState,
    nonce: u64,
    plains: Seq<Seq<u8>>,
) -> int
    decreases plains.len(),
{
    if plains.len() == 0 {
        nonce as int
    } else {
        let before = nonce_after(transport, nonce, plains.drop_last());
        if seals(transport, before as u64, plains.last()) {
            before + 1
        } else {
            before
        }
    }
}

/// Nonces only grow, and never past one for each frame.
proof fn lemma_nonces_grow(
    transport: StatelessTransportState,
    nonce: u64,
    plains: Seq<Seq<u8>>,
    i: int,
)
    requires
        0 <= i <= plains.len(),
    ensures
        nonce <= nonce_after(transport, nonce, plains.take(i)) <= nonce + i,
        nonce_after(transport, nonce, plains.take(i)) <= nonce_after(transport, nonce, plains),
        i < plains.len() && seals(
            transport,
            nonce_after(transport, nonce, plains.take(i)) as u64,
            plains[i],
        ) ==> nonce_after(transport, nonce, plains.take(i)) < nonce_after(
            transport,
            nonce,
            plains,
        ),
    decreases plains.len(),
{
    if i == plains.len() {
        assert(plains.take(i) =~= plains);
        if i > 0 {
            let front = plains.drop_last();
            lemma_nonces_grow(transport, nonce, front, front.len() as int);
            assert(front.take(front.len() as int) =~= front);
        }
    } else {
        let front = plains.drop_last();
        assert(front.take(i) =~= plains.take(i));
        lemma_nonces_grow(transport, nonce, front, i);
        if i < front.len() {
            assert(front[i] == plains[i]);
        }
    }
}

/// No nonce seals two frames: in any run of frames through one encoder, two that
/// are sealed have different nonces.
pub proof fn law_no_nonce_seals_two_frames(
    transport: StatelessTransportState,
    nonce: u64,
    plains: Seq<Seq<u8>>,
    i: int,
    k: int,
)
    requires
        nonce + plains.len() <= u64::MAX,
        0 <= i < k < plains.len(),
        seals(transport, nonce_after(transport, nonce, plains.take(i)) as u64, plains[i]),
        seals(transport, nonce_after(transport, nonce, plains.take(k)) as u64, plains[k]),
    ensures
        nonce_after(transport, nonce, plains.take(i)) as u64 != nonce_after(
            transport,
            nonce,
            plains.take(k),
        ) as u64,
{
    lemma_nonces_grow(transport, nonce, plains, i);
    lemma_nonces_grow(transport, nonce, plains, k);
    let late = plains.take(k);
    assert(late.take(i) =~= plains.take(i));
    assert(late[i] == plains[i]);
    lemma_nonces_grow(transport, nonce, late, i);
}

/// A transport that sends refuses only what does not fit a message: a frame with
/// at most 65511 payload bytes is sealed, to 24 bytes more, under every nonce but
/// the last, and no longer frame ever is.
pub proof fn law_every_frame_that_fits_is_sealed(
    transport: StatelessTransportState,
    nonce: u64,
    id: u32,
    kind: u8,
    payload: Seq<u8>,
)
    requires
        sends(transport),
        nonce < u64::MAX,
    ensures
        seals(transport, nonce, frame_bytes(id, kind, payload)) <==> payload.len() <= 65511,
        payload.len() <= 65511 ==> (sealed(
            transport,
            nonce,
            frame_bytes(id, kind, payload),
        ) matches Ok(message) && message.len() == payload.len() + 24),
{
    assert(frame_bytes(id, kind, payload).len() == payload.len() + 8);
}

/// The nonce of a frame is the number of frames before it, where all of them fit.
pub proof fn law_nonce_counts_the_frames(
    transport: StatelessTransportState,
    nonce: u64,
    plains: Seq<Seq<u8>>,
)
    requires
        sends(transport),
        nonce + plains.len() <= u64::MAX,
        forall|i: int|
            0 <= i < plains.len() ==> (#[trigger] plains[i]).len() + TAG_LEN <= MAX_NOISE_MSG,
    ensures
        nonce_after(transport, nonce, plains) == nonce + plains.len(),
    decreases plains.len(),
{
    if plains.len() > 0 {
        let front = plains.drop_last();
        assert forall|i: int| 0 <= i < front.len() implies (#[trigger] front[i]).len() + TAG_LEN
            <= MAX_NOISE_MSG by {
            assert(front[i] == plains[i]);
        }
        law_nonce_counts_the_frames(transport, nonce, front);
        assert(plains[plains.len() - 1].len() + TAG_LEN <= MAX_NOISE_MSG);
    }
}

/// What the front of a sealed stream holds.
pub enum Arrival {
    /// Not a whole message yet.
    Partial,
    /// A length that leaves no room for a tag.
    Short,
    /// A whole message.
    Message(Seq<u8>),
}

/// Read one length-prefixed message off the front of `s`.
pub open spec fn arrival(s: Seq<u8>) -> Arrival {
    if s.len() < 2 {
        Arrival::Partial
    } else if be16_value(s) < TAG_LEN {
        Arrival::Short
    } else if s.len() < 2 + be16_value(s) {
        Arrival::Partial
    } else {
        Arrival::Message(s.subrange(2, 2 + be16_value(s)))
    }
}

/// What a decoder does with the bytes that have arrived: those that it leaves, the
/// nonce that comes next, and the plaintext, if a message was all there.
pub open spec fn decoding(transport: StatelessTransportState, nonce: u64, s: Seq<u8>) -> (
    Seq<u8>,
    int,
    Result<Option<Seq<u8>>, NoiseError>,
) {
    match arrival(s) {
        Arrival::Partial => (s, nonce as int, Ok(None)),
        Arrival::Short => (s, nonce as int, Err(NoiseError::Short)),
        Arrival::Message(message) => match opened(transport, nonce, message) {
            Ok(plain) => (s.skip(2 + message.len() as int), nonce + 1, Ok(Some(plain))),
            Err(error) => (
                s.skip(2 + message.len() as int),
                nonce as int,
                Err(NoiseError::Refused(error)),
            ),
        },
    }
}

impl NoiseDecoder {
    /// The keys this half opens with.
    pub closed spec fn transport(&self) -> StatelessTransportState {
        *self.transport
    }

    /// Messages opened so far, and the nonce of the next one.
    pub closed spec fn nonce(&self) -> u64 {
        self.nonce
    }

    /// Take one message out of `src` and open it, once it is all there.
    pub fn decode(&mut self, src: &mut BytesMut) -> (outcome: Result<Option<Bytes>, NoiseError>)
        ensures
            final(self).transport() == old(self).transport(),
            ({
                let (rest, nonce, how) = decoding(
                    old(self).transport(),
                    old(self).nonce(),
                    held(*old(src)),
                );
                &&& held(*final(src)) == rest
                &&& final(self).nonce() == nonce
                &&& match how {
                    Ok(Some(plain)) => outcome matches Ok(Some(chunk)) && content(chunk) == plain,
                    Ok(None) => outcome == Ok::<Option<Bytes>, NoiseError>(None),
                    Err(error) => outcome == Err::<Option<Bytes>, NoiseError>(error),
                }
            }),
            match arrival(held(*old(src))) {
                Arrival::Partial => {
                    &&& outcome == Ok::<Option<Bytes>, NoiseError>(None)
                    &&& held(*final(src)) == held(*old(src))
                    &&& final(self).nonce() == old(self).nonce()
                },
                Arrival::Short => {
                    &&& outcome == Err::<Option<Bytes>, NoiseError>(NoiseError::Short)
                    &&& held(*final(src)) == held(*old(src))
                    &&& final(self).nonce() == old(self).nonce()
                },
                Arrival::Message(message) => {
                    &&& held(*final(src)) == held(*old(src)).skip(2 + message.len() as int)
                    &&& match opened(old(self).transport(), old(self).nonce(), message) {
                        Ok(plain) => {
                            &&& outcome matches Ok(Some(chunk)) && content(chunk) == plain
                            &&& plain.len() + TAG_LEN == message.len()
                            &&& final(self).nonce() == old(self).nonce() + 1
                        },
                        Err(error) => {
                            &&& outcome == Err::<Option<Bytes>, NoiseError>(
                                NoiseError::Refused(error),
                            )
                            &&& final(self).nonce() == old(self).nonce()
                        },
                    }
                },
            },
    {
        let have: usize = src.len();
        if have < 2 {
            return Ok(None);
        }
        let len: usize = read_be16(as_slice(src)[0], as_slice(src)[1]) as usize;
        if len < TAG_LEN {
            return Err(NoiseError::Short);
        }
        if have < 2 + len {
            return Ok(None);
        }
        advance(src, 2);
        let message: BytesMut = src.split_to(len);
        assert(held(message) =~= held(*old(src)).subrange(2, 2 + len));
        assert(held(*src) =~= held(*old(src)).skip(2 + len));
        match open(&self.transport, self.nonce, as_slice(&message), len - TAG_LEN) {
            Ok(plain) => {
                self.nonce = self.nonce + 1;
                Ok(Some(plain.freeze()))
            },
            Err(error) => Err(NoiseError::Refused(error)),
        }
    }
}

/// Split one finished handshake into the two halves of the link.
pub fn codecs(transport: StatelessTransportState) -> (halves: (NoiseDecoder, NoiseEncoder))
    ensures
        halves.0.transport() == transport,
        halves.0.nonce() == 0,
        halves.1.transport() == transport,
        halves.1.nonce() == 0,
{
    let transport: Arc<StatelessTransportState> = Arc::new(transport);
    (
        NoiseDecoder { transport: transport.clone(), nonce: 0 },
        NoiseEncoder { transport, nonce: 0, scratch: Vec::new() },
    )
}

/// The length of the handshake message that a head announces.
pub open spec fn announced(head: Seq<u8>) -> Result<usize, NoiseError> {
    if be16_value(head) > MAX_HANDSHAKE_MSG {
        Err(NoiseError::HandshakeTooLarge)
    } else {
        Ok(be16_value(head) as usize)
    }
}

/// A handshake message on the wire, if it may go there.
pub open spec fn framed(body: Seq<u8>) -> Option<Seq<u8>> {
    if body.len() > MAX_HANDSHAKE_MSG {
        None
    } else {
        Some(prefixed(body))
    }
}

/// Check the announced length of a handshake message.
///
/// The length is attacker-controlled, so it is checked against the handshake
/// ceiling *before* allocating.
pub fn read_frame(head: [u8; 2]) -> (length: Result<usize, NoiseError>)
    ensures
        length == announced(head@),
        length == (if be16_value(head@) > MAX_HANDSHAKE_MSG {
            Err(NoiseError::HandshakeTooLarge)
        } else {
            Ok(be16_value(head@) as usize)
        }),
{
    let length: usize = read_be16(head[0], head[1]) as usize;
    if length > MAX_HANDSHAKE_MSG {
        return Err(NoiseError::HandshakeTooLarge);
    }
    Ok(length)
}

/// Put a handshake message behind its two-byte length.
pub fn write_frame(body: &[u8]) -> (frame: Result<Vec<u8>, NoiseError>)
    ensures
        match frame {
            Ok(bytes) => framed(body@) == Some(bytes@),
            Err(_) => framed(body@) is None,
        },
        match frame {
            Ok(bytes) => body@.len() <= MAX_HANDSHAKE_MSG && bytes@ == prefixed(body@),
            Err(error) => body@.len() > MAX_HANDSHAKE_MSG && error == NoiseError::HandshakeTooLarge,
        },
{
    if body.len() > MAX_HANDSHAKE_MSG {
        return Err(NoiseError::HandshakeTooLarge);
    }
    let n: u16 = body.len() as u16;
    let mut out: Vec<u8> = Vec::new();
    out.push((n / 0x100) as u8);
    out.push((n % 0x100) as u8);
    out.extend_from_slice(body);
    assert(out@ =~= prefixed(body@));
    Ok(out)
}

/// Exactly 32 bytes as a key, and nothing else.
pub fn key32(bytes: &[u8]) -> (key: Option<[u8; 32]>)
    ensures
        key is Some <==> bytes@.len() == 32,
        key matches Some(k) ==> k@ == bytes@,
{
    if bytes.len() != 32 {
        return None;
    }
    let mut key: [u8; 32] = [0u8; 32];
    let mut i: usize = 0;
    while i < 32
        invariant
            i <= 32,
            bytes@.len() == 32,
            forall|j: int| 0 <= j < i ==> key@[j] == bytes@[j],
        decreases 32 - i,
    {
        key[i] = bytes[i];
        i += 1;
    }
    assert(key@ =~= bytes@);
    Some(key)
}

/// What becomes of a handshake message that was just written: framed, or the
/// error.
pub fn flight(written: Result<Vec<u8>, snow::Error>) -> (frame: Result<Vec<u8>, NoiseError>)
    ensures
        match written {
            Ok(body) => if body@.len() > MAX_HANDSHAKE_MSG {
                frame == Err::<Vec<u8>, NoiseError>(NoiseError::HandshakeTooLarge)
            } else {
                frame matches Ok(bytes) && bytes@ == prefixed(body@)
            },
            Err(error) => frame == Err::<Vec<u8>, NoiseError>(NoiseError::Refused(error)),
        },
{
    match written {
        Ok(body) => write_frame(body.as_slice()),
        Err(error) => Err(NoiseError::Refused(error)),
    }
}

/// Whether a handshake wrote a payload with this randomness: it is now what
/// writing leaves, and the frame is the message behind its length, or why there
/// is none.
pub open spec fn wrote(
    before: HandshakeState,
    payload: Seq<u8>,
    drawn: Seq<u8>,
    after: HandshakeState,
    frame: Result<Vec<u8>, NoiseError>,
) -> bool {
    let (state, written) = handshake_written(before, payload, MAX_HANDSHAKE_MSG as nat, drawn);
    &&& after == state
    &&& match written {
        Ok(body) => {
            &&& body.len() <= MAX_HANDSHAKE_MSG
            &&& frame matches Ok(bytes) && bytes@ == prefixed(body)
        },
        Err(error) => frame == Err::<Vec<u8>, NoiseError>(NoiseError::Refused(error)),
    }
}

/// Write the next message of a handshake, and frame it.
fn write_flight(handshake: &mut HandshakeState, payload: &[u8]) -> (frame: Result<
    Vec<u8>,
    NoiseError,
>)
    requires
        payload@.len() + 96 <= MAX_HANDSHAKE_MSG,
    ensures
        exists|drawn: Seq<u8>| #[trigger]
            wrote(*old(handshake), payload@, drawn, *final(handshake), frame),
        two_way(*old(handshake)) ==> two_way(*final(handshake)),
{
    let ghost before = *handshake;
    let written = write_message(handshake, payload, MAX_HANDSHAKE_MSG);
    let ghost said = viewed(written);
    let frame = flight(written);
    proof {
        let drawn = choose|drawn: Seq<u8>|
            (*handshake, said) == #[trigger] handshake_written(
                before,
                payload@,
                MAX_HANDSHAKE_MSG as nat,
                drawn,
            );
        assert(wrote(before, payload@, drawn, *handshake, frame));
        if two_way(before) {
            lemma_stays_two_way(before, Move::Write { payload: payload@, drawn });
        }
    }
    frame
}

/// Read a message of a handshake.
fn read_flight(handshake: &mut HandshakeState, message: &[u8]) -> (payload: Result<
    Vec<u8>,
    snow::Error,
>)
    ensures
        (*final(handshake), viewed(payload)) == handshake_read(
            *old(handshake),
            message@,
            MAX_HANDSHAKE_MSG as nat,
        ),
        two_way(*old(handshake)) ==> two_way(*final(handshake)),
{
    let ghost before = *handshake;
    let payload = read_message(handshake, message, MAX_HANDSHAKE_MSG);
    proof {
        if two_way(before) {
            lemma_stays_two_way(before, Move::Read { message: message@ });
        }
    }
    payload
}

/// The transport that a handshake ends in.
pub open spec fn moved(handshake: HandshakeState) -> Result<StatelessTransportState, NoiseError> {
    match transport_mode(handshake) {
        Ok(transport) => Ok(transport),
        Err(error) => Err(NoiseError::Refused(error)),
    }
}

/// Turn a finished handshake into its transport.
fn move_on(handshake: HandshakeState) -> (transport: Result<StatelessTransportState, NoiseError>)
    ensures
        transport == moved(handshake),
        two_way(handshake) && transport is Ok ==> sends(transport->Ok_0),
{
    match into_transport(handshake) {
        Ok(transport) => Ok(transport),
        Err(error) => Err(NoiseError::Refused(error)),
    }
}

/// The peer's static key and the transport that a handshake ends in.
pub open spec fn concluded(handshake: HandshakeState) -> Result<
    (Seq<u8>, StatelessTransportState),
    NoiseError,
> {
    match remote_static(handshake) {
        None => Err(NoiseError::NoStaticKey),
        Some(key) => if key.len() != 32 {
            Err(NoiseError::BadStaticKey)
        } else {
            match moved(handshake) {
                Ok(transport) => Ok((key, transport)),
                Err(error) => Err(error),
            }
        },
    }
}

/// Whether `result` is what `spec` says, its key taken by its view.
pub open spec fn concludes(
    result: Result<([u8; 32], StatelessTransportState), NoiseError>,
    spec: Result<(Seq<u8>, StatelessTransportState), NoiseError>,
) -> bool {
    match result {
        Ok(pair) => spec == Ok::<(Seq<u8>, StatelessTransportState), NoiseError>(
            (pair.0@, pair.1),
        ),
        Err(error) => spec == Err::<(Seq<u8>, StatelessTransportState), NoiseError>(error),
    }
}

/// End a handshake: the key the peer proved, and the transport.
fn conclude(handshake: HandshakeState) -> (result: Result<
    ([u8; 32], StatelessTransportState),
    NoiseError,
>)
    ensures
        concludes(result, concluded(handshake)),
        two_way(handshake) && result is Ok ==> sends(result->Ok_0.1),
{
    let remote = match get_remote_static(&handshake) {
        Some(key) => key,
        None => return Err(NoiseError::NoStaticKey),
    };
    let key = match key32(remote.as_slice()) {
        Some(key) => key,
        None => return Err(NoiseError::BadStaticKey),
    };
    match move_on(handshake) {
        Ok(transport) => Ok((key, transport)),
        Err(error) => Err(error),
    }
}

/// What the last message of a bridge's handshake comes to.
pub open spec fn proved(read: (HandshakeState, Result<Seq<u8>, snow::Error>)) -> Result<
    (Seq<u8>, StatelessTransportState),
    NoiseError,
> {
    match read {
        (_, Err(error)) => Err(NoiseError::Refused(error)),
        (state, Ok(_)) => concluded(state),
    }
}

/// The proxy's side of a bridge's Noise_XX handshake.
///
/// XX carries the initiator's static key in message 3, authenticated by the
/// handshake itself, so the key it ends with is proof of possession: no
/// challenge, no signature, no registration step.
pub struct XxResponder {
    handshake: HandshakeState,
}

impl XxResponder {
    /// The handshake so far.
    pub closed spec fn state(&self) -> HandshakeState {
        self.handshake
    }

    /// Wait for a bridge's first message.
    pub fn new(private_key: &[u8], prologue: &[u8]) -> (responder: Result<Self, NoiseError>)
        requires
            private_key@.len() <= 32,
        ensures
            match self::responder(NOISE_XX@, private_key@, prologue@) {
                Ok(state) => {
                    &&& responder matches Ok(r) && r.state() == state
                    &&& two_way(state)
                },
                Err(error) => responder == Err::<Self, NoiseError>(NoiseError::Refused(error)),
            },
    {
        match build_responder(NOISE_XX, private_key, prologue) {
            Ok(handshake) => {
                proof {
                    lemma_built_is_two_way(handshake, private_key@, Seq::empty(), prologue@);
                }
                Ok(XxResponder { handshake })
            },
            Err(error) => Err(NoiseError::Refused(error)),
        }
    }

    /// Take the first message and give the framed second one. A first message
    /// that the handshake refuses is answered with its error; one that it
    /// takes, with what it writes next, framed, or the error of writing it.
    pub fn reply(&mut self, message: &[u8]) -> (frame: Result<Vec<u8>, NoiseError>)
        ensures
            two_way(old(self).state()) ==> two_way(final(self).state()),
            match handshake_read(old(self).state(), message@, MAX_HANDSHAKE_MSG as nat) {
                (state, Err(error)) => {
                    &&& frame == Err::<Vec<u8>, NoiseError>(NoiseError::Refused(error))
                    &&& final(self).state() == state
                },
                (state, Ok(_)) => exists|drawn: Seq<u8>| #[trigger]
                    wrote(state, Seq::empty(), drawn, final(self).state(), frame),
            },
    {
        match read_flight(&mut self.handshake, message) {
            Ok(_) => {},
            Err(error) => return Err(NoiseError::Refused(error)),
        }
        let nothing: [u8; 0] = [];
        let ghost before = self.state();
        let frame = write_flight(&mut self.handshake, &nothing);
        proof {
            assert(nothing@ =~= Seq::empty());
            let drawn = choose|drawn: Seq<u8>| #[trigger]
                wrote(before, nothing@, drawn, self.handshake, frame);
            let read = handshake_read(old(self).state(), message@, MAX_HANDSHAKE_MSG as nat);
            assert(wrote(read.0, Seq::empty(), drawn, self.state(), frame));
        }
        frame
    }

    /// Take the third message: the key the bridge proved, and the transport.
    pub fn finish(self, message: &[u8]) -> (result: Result<
        ([u8; 32], StatelessTransportState),
        NoiseError,
    >)
        ensures
            two_way(self.state()) && result is Ok ==> sends(result->Ok_0.1),
            concludes(
                result,
                proved(handshake_read(self.state(), message@, MAX_HANDSHAKE_MSG as nat)),
            ),
            match handshake_read(self.state(), message@, MAX_HANDSHAKE_MSG as nat) {
                (_, Err(error)) => concludes(result, Err(NoiseError::Refused(error))),
                (state, Ok(_)) => concludes(result, concluded(state)),
            },
    {
        let mut handshake = self.handshake;
        match read_flight(&mut handshake, message) {
            Ok(_) => conclude(handshake),
            Err(error) => Err(NoiseError::Refused(error)),
        }
    }
}

/// A bridge's side of its Noise_XX handshake with the proxy.
pub struct XxInitiator {
    handshake: HandshakeState,
}

impl XxInitiator {
    /// The handshake so far.
    pub closed spec fn state(&self) -> HandshakeState {
        self.handshake
    }

    /// Prove the static key `private_key`.
    pub fn new(private_key: &[u8], prologue: &[u8]) -> (initiator: Result<Self, NoiseError>)
        requires
            private_key@.len() <= 32,
        ensures
            match caller(NOISE_XX@, private_key@, prologue@) {
                Ok(state) => {
                    &&& initiator matches Ok(i) && i.state() == state
                    &&& two_way(state)
                },
                Err(error) => initiator == Err::<Self, NoiseError>(NoiseError::Refused(error)),
            },
    {
        match build_caller(NOISE_XX, private_key, prologue) {
            Ok(handshake) => {
                proof {
                    lemma_built_is_two_way(handshake, private_key@, Seq::empty(), prologue@);
                }
                Ok(XxInitiator { handshake })
            },
            Err(error) => Err(NoiseError::Refused(error)),
        }
    }

    /// The next framed message of this side. Whether it can be written rests
    /// with the handshake.
    pub fn next(&mut self) -> (frame: Result<Vec<u8>, NoiseError>)
        ensures
            two_way(old(self).state()) ==> two_way(final(self).state()),
            exists|drawn: Seq<u8>| #[trigger]
                wrote(old(self).state(), Seq::empty(), drawn, final(self).state(), frame),
    {
        let nothing: [u8; 0] = [];
        let ghost before = self.state();
        let frame = write_flight(&mut self.handshake, &nothing);
        proof {
            assert(nothing@ =~= Seq::empty());
            let drawn = choose|drawn: Seq<u8>| #[trigger]
                wrote(before, nothing@, drawn, self.handshake, frame);
            assert(wrote(before, Seq::empty(), drawn, self.state(), frame));
        }
        frame
    }

    /// Take the proxy's message.
    pub fn take(&mut self, message: &[u8]) -> (outcome: Result<(), NoiseError>)
        ensures
            two_way(old(self).state()) ==> two_way(final(self).state()),
            final(self).state() == handshake_read(
                old(self).state(),
                message@,
                MAX_HANDSHAKE_MSG as nat,
            ).0,
            outcome == (match handshake_read(
                old(self).state(),
                message@,
                MAX_HANDSHAKE_MSG as nat,
            ).1 {
                Ok(_) => Ok(()),
                Err(error) => Err(NoiseError::Refused(error)),
            }),
    {
        match read_flight(&mut self.handshake, message) {
            Ok(_) => Ok(()),
            Err(error) => Err(NoiseError::Refused(error)),
        }
    }

    /// The transport of the finished handshake.
    pub fn finish(self) -> (transport: Result<StatelessTransportState, NoiseError>)
        ensures
            two_way(self.state()) && transport is Ok ==> sends(transport->Ok_0),
            transport == moved(self.state()),
    {
        move_on(self.handshake)
    }
}

/// A device's side of a Noise_IK handshake with the bridge it is paired to.
pub struct IkInitiator {
    handshake: HandshakeState,
    bridge: [u8; 32],
}

impl IkInitiator {
    /// The handshake so far.
    pub closed spec fn state(&self) -> HandshakeState {
        self.handshake
    }

    /// The static key the bridge must prove.
    pub closed spec fn bridge(&self) -> Seq<u8> {
        self.bridge@
    }

    /// Address the bridge whose static key is `bridge`.
    pub fn new(private_key: &[u8], bridge: [u8; 32], prologue: &[u8]) -> (initiator: Result<
        Self,
        NoiseError,
    >)
        requires
            private_key@.len() <= 32,
        ensures
            match self::initiator(NOISE_IK@, private_key@, bridge@, prologue@) {
                Ok(state) => {
                    &&& initiator matches Ok(i) && i.state() == state && i.bridge() == bridge@
                    &&& two_way(state)
                },
                Err(error) => initiator == Err::<Self, NoiseError>(NoiseError::Refused(error)),
            },
    {
        match build_initiator(NOISE_IK, private_key, &bridge, prologue) {
            Ok(handshake) => {
                proof {
                    lemma_built_is_two_way(handshake, private_key@, bridge@, prologue@);
                }
                Ok(IkInitiator { handshake, bridge })
            },
            Err(error) => Err(NoiseError::Refused(error)),
        }
    }

    /// The framed first message, carrying `payload`: the pairing token on first
    /// contact, nothing afterwards. A payload that leaves no room for the
    /// handshake is refused.
    pub fn first(&mut self, payload: &[u8]) -> (frame: Result<Vec<u8>, NoiseError>)
        ensures
            two_way(old(self).state()) ==> two_way(final(self).state()),
            final(self).bridge() == old(self).bridge(),
            payload@.len() + 96 > MAX_HANDSHAKE_MSG ==> frame == Err::<Vec<u8>, NoiseError>(
                NoiseError::HandshakeTooLarge,
            ) && final(self).state() == old(self).state(),
            payload@.len() + 96 <= MAX_HANDSHAKE_MSG ==> exists|drawn: Seq<u8>| #[trigger]
                wrote(old(self).state(), payload@, drawn, final(self).state(), frame),
    {
        if payload.len() > MAX_HANDSHAKE_MSG - 96 {
            return Err(NoiseError::HandshakeTooLarge);
        }
        let ghost before = self.state();
        let frame = write_flight(&mut self.handshake, payload);
        proof {
            let drawn = choose|drawn: Seq<u8>| #[trigger]
                wrote(before, payload@, drawn, self.handshake, frame);
            assert(wrote(before, payload@, drawn, self.state(), frame));
        }
        frame
    }

    /// Take the bridge's answer: the transport, if it proved the key it was
    /// dialled for.
    pub fn finish(self, message: &[u8]) -> (result: Result<StatelessTransportState, NoiseError>)
        ensures
            result == answered(
                handshake_read(self.state(), message@, MAX_HANDSHAKE_MSG as nat),
                self.bridge(),
            ),
            two_way(self.state()) && result is Ok ==> sends(result->Ok_0),
            match handshake_read(self.state(), message@, MAX_HANDSHAKE_MSG as nat) {
                (_, Err(error)) => result == Err::<StatelessTransportState, NoiseError>(
                    NoiseError::Refused(error),
                ),
                (state, Ok(_)) => match remote_static(state) {
                    None => result == Err::<StatelessTransportState, NoiseError>(
                        NoiseError::NoStaticKey,
                    ),
                    Some(key) => if key != self.bridge() {
                        result == Err::<StatelessTransportState, NoiseError>(
                            NoiseError::UnexpectedStaticKey,
                        )
                    } else {
                        result == moved(state)
                    },
                },
            },
    {
        let mut handshake = self.handshake;
        match read_flight(&mut handshake, message) {
            Ok(_) => {},
            Err(error) => return Err(NoiseError::Refused(error)),
        }
        match get_remote_static(&handshake) {
            Some(key) => if !constant_time_eq(key.as_slice(), &self.bridge) {
                return Err(NoiseError::UnexpectedStaticKey);
            },
            None => return Err(NoiseError::NoStaticKey),
        }
        move_on(handshake)
    }
}

/// What the answer to a dialled bridge comes to: a transport only where the bridge
/// proved the key that it was dialled for.
pub open spec fn answered(
    read: (HandshakeState, Result<Seq<u8>, snow::Error>),
    bridge: Seq<u8>,
) -> Result<StatelessTransportState, NoiseError> {
    match read {
        (_, Err(error)) => Err(NoiseError::Refused(error)),
        (state, Ok(_)) => match remote_static(state) {
            None => Err(NoiseError::NoStaticKey),
            Some(key) => if key != bridge {
                Err(NoiseError::UnexpectedStaticKey)
            } else {
                moved(state)
            },
        },
    }
}

/// What a device's first message comes to: its key, and what the message carried.
pub open spec fn accepted(read: (HandshakeState, Result<Seq<u8>, snow::Error>)) -> Result<
    (Seq<u8>, Seq<u8>),
    NoiseError,
> {
    match read {
        (_, Err(error)) => Err(NoiseError::Refused(error)),
        (state, Ok(payload)) => match remote_static(state) {
            None => Err(NoiseError::NoStaticKey),
            Some(key) => if key.len() != 32 {
                Err(NoiseError::BadStaticKey)
            } else {
                Ok((key, payload))
            },
        },
    }
}

/// A bridge's side of a device's Noise_IK handshake.
pub struct IkResponder {
    handshake: HandshakeState,
}

impl IkResponder {
    /// The handshake so far.
    pub closed spec fn state(&self) -> HandshakeState {
        self.handshake
    }

    /// Wait for a device's first message.
    pub fn new(private_key: &[u8], prologue: &[u8]) -> (responder: Result<Self, NoiseError>)
        requires
            private_key@.len() <= 32,
        ensures
            match self::responder(NOISE_IK@, private_key@, prologue@) {
                Ok(state) => {
                    &&& responder matches Ok(r) && r.state() == state
                    &&& two_way(state)
                },
                Err(error) => responder == Err::<Self, NoiseError>(NoiseError::Refused(error)),
            },
    {
        match build_responder(NOISE_IK, private_key, prologue) {
            Ok(handshake) => {
                proof {
                    lemma_built_is_two_way(handshake, private_key@, Seq::empty(), prologue@);
                }
                Ok(IkResponder { handshake })
            },
            Err(error) => Err(NoiseError::Refused(error)),
        }
    }

    /// Take the first message: the device's static key and what the message
    /// carried, the pairing token on first contact.
    pub fn accept(&mut self, message: &[u8]) -> (device: Result<([u8; 32], Vec<u8>), NoiseError>)
        ensures
            two_way(old(self).state()) ==> two_way(final(self).state()),
            final(self).state() == handshake_read(
                old(self).state(),
                message@,
                MAX_HANDSHAKE_MSG as nat,
            ).0,
            match accepted(
                handshake_read(old(self).state(), message@, MAX_HANDSHAKE_MSG as nat),
            ) {
                Ok((key, payload)) => device matches Ok(pair) && pair.0@ == key && pair.1@
                    == payload,
                Err(error) => device == Err::<([u8; 32], Vec<u8>), NoiseError>(error),
            },
            match handshake_read(old(self).state(), message@, MAX_HANDSHAKE_MSG as nat) {
                (_, Err(error)) => device == Err::<([u8; 32], Vec<u8>), NoiseError>(
                    NoiseError::Refused(error),
                ),
                (state, Ok(payload)) => match remote_static(state) {
                    None => device == Err::<([u8; 32], Vec<u8>), NoiseError>(
                        NoiseError::NoStaticKey,
                    ),
                    Some(key) => if key.len() != 32 {
                        device == Err::<([u8; 32], Vec<u8>), NoiseError>(NoiseError::BadStaticKey)
                    } else {
                        device matches Ok(pair) && pair.0@ == key && pair.1@ == payload
                    },
                },
            },
    {
        let payload = match read_flight(&mut self.handshake, message) {
            Ok(payload) => payload,
            Err(error) => return Err(NoiseError::Refused(error)),
        };
        match get_remote_static(&self.handshake) {
            Some(remote) => match key32(remote.as_slice()) {
                Some(key) => Ok((key, payload)),
                None => Err(NoiseError::BadStaticKey),
            },
            None => Err(NoiseError::NoStaticKey),
        }
    }

    /// The framed second message. Whether it can be written rests with the
    /// handshake.
    pub fn answer(&mut self) -> (frame: Result<Vec<u8>, NoiseError>)
        ensures
            two_way(old(self).state()) ==> two_way(final(self).state()),
            exists|drawn: Seq<u8>| #[trigger]
                wrote(old(self).state(), Seq::empty(), drawn, final(self).state(), frame),
    {
        let nothing: [u8; 0] = [];
        let ghost before = self.state();
        let frame = write_flight(&mut self.handshake, &nothing);
        proof {
            assert(nothing@ =~= Seq::empty());
            let drawn = choose|drawn: Seq<u8>| #[trigger]
                wrote(before, nothing@, drawn, self.handshake, frame);
            assert(wrote(before, Seq::empty(), drawn, self.state(), frame));
        }
        frame
    }

    /// The transport of the finished handshake.
    pub fn finish(self) -> (transport: Result<StatelessTransportState, NoiseError>)
        ensures
            two_way(self.state()) && transport is Ok ==> sends(transport->Ok_0),
            transport == moved(self.state()),
    {
        move_on(self.handshake)
    }
}

/// Whether a key pair is what was made, its keys taken by their views.
pub open spec fn made_pair(
    pair: Result<(Vec<u8>, Vec<u8>), NoiseError>,
    made: Result<(Seq<u8>, Seq<u8>), snow::Error>,
) -> bool {
    match made {
        Ok(keys) => pair matches Ok(own) && (own.0@, own.1@) == keys,
        Err(error) => pair == Err::<(Vec<u8>, Vec<u8>), NoiseError>(NoiseError::Refused(error)),
    }
}

/// Generate an X25519 static key pair: the private key, then its public key.
/// Which pair it is rests with the system's randomness; where the system has
/// none to give, the call panics.
pub fn generate_keypair() -> (pair: Result<(Vec<u8>, Vec<u8>), NoiseError>)
    ensures
        exists|drawn: Seq<u8>| made_pair(pair, #[trigger] keypair_made(NOISE_XX@, drawn)),
        pair matches Ok(keys) ==> {
            &&& keys.0@.len() == 32
            &&& keys.1@.len() == 32
            &&& keys.1@ == x25519_public(keys.0@)
        },
{
    let drawn_pair = fresh_keypair(NOISE_XX);
    let ghost said = pair_viewed(drawn_pair);
    let pair = match drawn_pair {
        Ok(pair) => Ok(pair),
        Err(error) => Err(NoiseError::Refused(error)),
    };
    proof {
        let drawn = choose|drawn: Seq<u8>| said == #[trigger] keypair_made(NOISE_XX@, drawn);
        assert(made_pair(pair, keypair_made(NOISE_XX@, drawn)));
    }
    pair
}

/// Derive the public key of a stored private key.
pub fn public_key_of(private_key: &[u8]) -> (public: Result<[u8; 32], NoiseError>)
    ensures
        match public {
            Ok(key) => private_key@.len() == 32 && key@ == x25519_public(private_key@),
            Err(error) => private_key@.len() != 32 && error == NoiseError::PrivateKeyLength,
        },
{
    match key32(private_key) {
        Some(bytes) => Ok(derive_public(bytes)),
        None => Err(NoiseError::PrivateKeyLength),
    }
}

/// A message behind its length is read off the front of a stream as that
/// message, whatever follows it.
pub proof fn law_prefixed_message_arrives(message: Seq<u8>, later: Seq<u8>)
    requires
        TAG_LEN <= message.len() <= MAX_NOISE_MSG,
    ensures
        arrival(prefixed(message) + later) == Arrival::Message(message),
        (prefixed(message) + later).skip(2 + message.len() as int) == later,
{
    let s = prefixed(message) + later;
    law_be16_round_trip(message.len() as u16);
    assert(s[0] == be16(message.len() as u16)[0] && s[1] == be16(message.len() as u16)[1]);
    assert(s.subrange(2, 2 + message.len() as int) =~= message);
    assert(s.skip(2 + message.len() as int) =~= later);
}

/// A message that has not all arrived is waited for: no strict prefix of it is
/// taken for a message, or for an error.
pub proof fn law_partial_message_is_waited_for(message: Seq<u8>, have: int)
    requires
        TAG_LEN <= message.len() <= MAX_NOISE_MSG,
        0 <= have < prefixed(message).len(),
    ensures
        arrival(prefixed(message).take(have)) is Partial,
{
    law_be16_round_trip(message.len() as u16);
    let s = prefixed(message).take(have);
    if have >= 2 {
        assert(s[0] == be16(message.len() as u16)[0] && s[1] == be16(message.len() as u16)[1]);
    }
}

/// What an encoder puts on the link for a run of payloads, from a nonce on;
/// nothing, if one of them cannot be sealed.
pub open spec fn sealing(
    transport: StatelessTransportState,
    nonce: u64,
    payloads: Seq<Seq<u8>>,
) -> Option<Seq<u8>>
    decreases payloads.len(),
{
    if payloads.len() == 0 {
        Some(Seq::empty())
    } else {
        match (
            sealed(transport, nonce, payloads[0]),
            sealing(transport, (nonce + 1) as u64, payloads.skip(1)),
        ) {
            (Ok(message), Some(rest)) => Some(prefixed(message) + rest),
            _ => None,
        }
    }
}

/// What a decoder takes off the front of a link, from a nonce on: the payloads
/// of the messages that are all there and open, and the bytes that are left.
pub open spec fn opening(transport: StatelessTransportState, nonce: u64, s: Seq<u8>) -> (
    Seq<Seq<u8>>,
    Seq<u8>,
)
    decreases s.len(),
{
    match arrival(s) {
        Arrival::Message(message) => match opened(transport, nonce, message) {
            Ok(payload) => {
                let (later, left) = opening(
                    transport,
                    (nonce + 1) as u64,
                    s.skip(2 + message.len() as int),
                );
                (seq![payload] + later, left)
            },
            Err(_) => (Seq::empty(), s),
        },
        _ => (Seq::empty(), s),
    }
}

/// A transport that sends puts every run of payloads that fit on the link, as
/// long as its nonces last.
pub proof fn law_payloads_that_fit_are_sealed(
    transport: StatelessTransportState,
    nonce: u64,
    payloads: Seq<Seq<u8>>,
)
    requires
        sends(transport),
        nonce + payloads.len() <= u64::MAX,
        forall|i: int|
            0 <= i < payloads.len() ==> (#[trigger] payloads[i]).len() + TAG_LEN <= MAX_NOISE_MSG,
    ensures
        sealing(transport, nonce, payloads) is Some,
    decreases payloads.len(),
{
    if payloads.len() > 0 {
        let rest = payloads.skip(1);
        assert forall|i: int| 0 <= i < rest.len() implies (#[trigger] rest[i]).len() + TAG_LEN
            <= MAX_NOISE_MSG by {
            assert(rest[i] == payloads[i + 1]);
        }
        assert(sealed(transport, nonce, payloads[0]) is Ok);
        law_payloads_that_fit_are_sealed(transport, (nonce + 1) as u64, rest);
    }
}

/// Everything that goes onto a link comes off it: whatever payloads one end
/// seals, the other end opens, all of them and in order, with nothing left over,
/// as long as the two count alike and their keys belong together.
pub proof fn law_sealed_payloads_read_back(
    a: StatelessTransportState,
    b: StatelessTransportState,
    nonce: u64,
    payloads: Seq<Seq<u8>>,
)
    requires
        links(a, b),
        sealing(a, nonce, payloads) is Some,
        nonce + payloads.len() <= u64::MAX,
    ensures
        opening(b, nonce, sealing(a, nonce, payloads)->0) == (payloads, Seq::<u8>::empty()),
    decreases payloads.len(),
{
    let s = sealing(a, nonce, payloads)->0;
    if payloads.len() > 0 {
        let message = sealed(a, nonce, payloads[0])->Ok_0;
        let rest = sealing(a, (nonce + 1) as u64, payloads.skip(1))->0;
        law_prefixed_message_arrives(message, rest);
        law_sealed_payloads_read_back(a, b, (nonce + 1) as u64, payloads.skip(1));
        assert(seq![payloads[0]] + payloads.skip(1) =~= payloads);
        assert(opening(b, nonce, s).0 =~= payloads);
    } else {
        assert(opening(b, nonce, s).0 =~= payloads);
    }
}

/// What a decoder takes off a link whose bytes come in pieces: after each piece it
/// takes out what is all there, and keeps the rest for the next one.
pub open spec fn opening_pieces(
    transport: StatelessTransportState,
    nonce: u64,
    left: Seq<u8>,
    pieces: Seq<Seq<u8>>,
) -> (Seq<Seq<u8>>, Seq<u8>)
    decreases pieces.len(),
{
    if pieces.len() == 0 {
        (Seq::empty(), left)
    } else {
        let (first, kept) = opening(transport, nonce, left + pieces[0]);
        let (later, end) = opening_pieces(
            transport,
            (nonce + first.len()) as u64,
            kept,
            pieces.skip(1),
        );
        (first + later, end)
    }
}

/// A message that is all there is the same message however much follows it.
pub(crate) proof fn lemma_later_bytes_change_no_message(s: Seq<u8>, later: Seq<u8>)
    requires
        !(arrival(s) is Partial),
    ensures
        arrival(s + later) == arrival(s),
{
    let all = s + later;
    assert(all[0] == s[0] && all[1] == s[1]);
    if arrival(s) is Message {
        let n = be16_value(s);
        assert(all.subrange(2, 2 + n) =~= s.subrange(2, 2 + n));
    }
}

/// Where no message is refused, taking messages out early changes nothing.
proof fn lemma_opening_splits(
    transport: StatelessTransportState,
    nonce: u64,
    s: Seq<u8>,
    later: Seq<u8>,
)
    requires
        arrival(opening(transport, nonce, s + later).1) is Partial,
        nonce + s.len() <= u64::MAX,
    ensures
        ({
            let (first, kept) = opening(transport, nonce, s);
            let (rest, end) = opening(transport, (nonce + first.len()) as u64, kept + later);
            &&& first.len() <= s.len()
            &&& opening(transport, nonce, s + later) == (first + rest, end)
            &&& first.len() + kept.len() <= s.len()
        }),
    decreases s.len(),
{
    let all = s + later;
    if arrival(s) is Partial {
        assert(opening(transport, nonce, s).0 =~= Seq::empty());
        let (rest, end) = opening(transport, nonce, all);
        assert(Seq::<Seq<u8>>::empty() + rest =~= rest);
    } else {
        lemma_later_bytes_change_no_message(s, later);
        if let Arrival::Message(message) = arrival(s) {
            let n = 2 + message.len() as int;
            if let Ok(payload) = opened(transport, nonce, message) {
                assert(all.skip(n) =~= s.skip(n) + later);
                lemma_opening_splits(transport, (nonce + 1) as u64, s.skip(n), later);
                let (first, kept) = opening(transport, (nonce + 1) as u64, s.skip(n));
                let (rest, end) = opening(
                    transport,
                    (nonce + 1 + first.len()) as u64,
                    kept + later,
                );
                assert((seq![payload] + first) + rest =~= seq![payload] + (first + rest));
            }
        }
    }
}

/// Bytes that come in pieces open as they do in one.
proof fn lemma_opening_in_pieces(
    transport: StatelessTransportState,
    nonce: u64,
    left: Seq<u8>,
    pieces: Seq<Seq<u8>>,
)
    requires
        arrival(opening(transport, nonce, left + joined(pieces)).1) is Partial,
        pieces.len() == 0 ==> arrival(left) is Partial,
        nonce + left.len() + joined(pieces).len() <= u64::MAX,
    ensures
        opening_pieces(transport, nonce, left, pieces) == opening(
            transport,
            nonce,
            left + joined(pieces),
        ),
    decreases pieces.len(),
{
    if pieces.len() == 0 {
        assert(left + joined(pieces) =~= left);
        assert(opening(transport, nonce, left).0 =~= Seq::empty());
    } else {
        let rest = pieces.skip(1);
        let here = left + pieces[0];
        assert(left + (pieces[0] + joined(rest)) =~= here + joined(rest));
        lemma_opening_splits(transport, nonce, here, joined(rest));
        let (first, kept) = opening(transport, nonce, here);
        if rest.len() == 0 {
            assert(here + joined(rest) =~= here);
            assert(kept + joined(rest) =~= kept);
        }
        lemma_opening_in_pieces(transport, (nonce + first.len()) as u64, kept, rest);
    }
}

/// Where the pieces of a link fall does not matter: whatever payloads one end
/// seals, and however their bytes are cut on the way, the other end, opening what
/// is all there after each piece, gets all of them, in order, with nothing left
/// over.
pub proof fn law_link_may_be_cut_anywhere(
    a: StatelessTransportState,
    b: StatelessTransportState,
    nonce: u64,
    payloads: Seq<Seq<u8>>,
    pieces: Seq<Seq<u8>>,
)
    requires
        links(a, b),
        sealing(a, nonce, payloads) == Some(joined(pieces)),
        nonce + payloads.len() <= u64::MAX,
        nonce + joined(pieces).len() <= u64::MAX,
    ensures
        opening_pieces(b, nonce, Seq::empty(), pieces) == (payloads, Seq::<u8>::empty()),
{
    law_sealed_payloads_read_back(a, b, nonce, payloads);
    assert(Seq::<u8>::empty() + joined(pieces) =~= joined(pieces));
    lemma_opening_in_pieces(b, nonce, Seq::empty(), pieces);
}

/// A mux frame that one end of a link encodes is the frame that the other end
/// decodes.
pub proof fn law_encoded_frame_decodes(
    a: StatelessTransportState,
    b: StatelessTransportState,
    nonce: u64,
    id: u32,
    kind: u8,
    payload: Seq<u8>,
    later: Seq<u8>,
)
    requires
        links(a, b),
        sealed(a, nonce, frame_bytes(id, kind, payload)) is Ok,
    ensures
        ({
            let message = sealed(a, nonce, frame_bytes(id, kind, payload))->Ok_0;
            &&& arrival(prefixed(message) + later) == Arrival::Message(message)
            &&& opened(b, nonce, message) matches Ok(plain) && parse(plain) == Some(
                FrameView { id, kind, payload },
            )
        }),
{
    let message = sealed(a, nonce, frame_bytes(id, kind, payload))->Ok_0;
    law_prefixed_message_arrives(message, later);
    law_frame_reads_back(id, kind, payload);
}

/// Every frame that fits crosses the link: it is sealed, to 24 bytes more than its
/// payload, and the other end opens it under the same nonce to exactly its bytes.
pub proof fn law_every_frame_that_fits_crosses_the_link(
    a: StatelessTransportState,
    b: StatelessTransportState,
    nonce: u64,
    id: u32,
    kind: u8,
    payload: Seq<u8>,
)
    requires
        links(a, b),
        sends(a),
        nonce < u64::MAX,
        payload.len() <= 65511,
    ensures
        sealed(a, nonce, frame_bytes(id, kind, payload)) matches Ok(message) && {
            &&& message.len() == payload.len() + 24
            &&& opened(b, nonce, message) == Ok::<Seq<u8>, snow::Error>(
                frame_bytes(id, kind, payload),
            )
        },
{
    law_every_frame_that_fits_is_sealed(a, nonce, id, kind, payload);
}

impl NoiseError {
    /// The error in words; for what the cryptography refused, nothing of its
    /// own.
    pub fn message(&self) -> (text: &'static str)
        ensures
            text@ == (match *self {
                NoiseError::TooLarge => "noise message too large"@,
                NoiseError::Short => "short noise message"@,
                NoiseError::HandshakeTooLarge => "handshake message too large"@,
                NoiseError::NoStaticKey => "bridge sent no static key"@,
                NoiseError::BadStaticKey => "bad static key length"@,
                NoiseError::UnexpectedStaticKey => "bridge proved an unexpected static key"@,
                NoiseError::PrivateKeyLength => "private key must be 32 bytes"@,
                NoiseError::Refused(_) => ""@,
            }),
    {
        match self {
            NoiseError::TooLarge => "noise message too large",
            NoiseError::Short => "short noise message",
            NoiseError::HandshakeTooLarge => "handshake message too large",
            NoiseError::NoStaticKey => "bridge sent no static key",
            NoiseError::BadStaticKey => "bad static key length",
            NoiseError::UnexpectedStaticKey => "bridge proved an unexpected static key",
            NoiseError::PrivateKeyLength => "private key must be 32 bytes",
            NoiseError::Refused(_) => "",
        }
    }
}

/// Where each part of a message on the wire stands: its length in two bytes, the
/// more significant first, and then the message, all of it.
pub proof fn law_message_layout(message: Seq<u8>)
    ensures
        prefixed(message).len() == 2 + message.len(),
        message.len() <= 65535 ==> prefixed(message)[0] * 256 + prefixed(message)[1]
            == message.len(),
        prefixed(message).skip(2) == message,
{
    assert(prefixed(message).skip(2) =~= message);
}

/// What is taken of the bytes that have arrived: nothing until two are there and
/// as many behind them as they say; a message that could not hold its tag is an
/// error at once; and otherwise exactly the bytes that the length covers.
pub proof fn law_messages_are_read_by_their_length(s: Seq<u8>)
    ensures
        ({
            let n = s[0] * 256 + s[1];
            &&& s.len() < 2 ==> arrival(s) is Partial
            &&& s.len() >= 2 && n < 16 ==> arrival(s) is Short
            &&& s.len() >= 2 && n >= 16 && s.len() < 2 + n ==> arrival(s) is Partial
            &&& s.len() >= 2 && n >= 16 && s.len() >= 2 + n ==> (arrival(s) matches Arrival::Message(
                message,
            ) && message == s.subrange(2, 2 + n))
        }),
{
}

/// A handshake message may be up to 1024 bytes long: its head says so exactly, a
/// longer one is refused from its head alone, and none is ever written.
pub proof fn law_handshake_messages_have_a_ceiling(a: u8, b: u8, body: Seq<u8>)
    ensures
        a * 256 + b <= 1024 ==> announced(seq![a, b]) == Ok::<usize, NoiseError>(
            (a * 256 + b) as usize,
        ),
        a * 256 + b > 1024 ==> announced(seq![a, b]) == Err::<usize, NoiseError>(
            NoiseError::HandshakeTooLarge,
        ),
        body.len() > 1024 ==> framed(body) is None,
        body.len() <= 1024 ==> (framed(body) matches Some(frame) && frame.len() == 2 + body.len()
            && frame[0] * 256 + frame[1] == body.len() && frame.skip(2) == body),
{
    if body.len() <= 1024 {
        assert(prefixed(body).skip(2) =~= body);
    }
}

/// What an encoder puts on the link for a frame: its head and all of its payload,
/// sealed under the encoder's nonce, behind the length of the sealed message; the
/// nonce moves on by one. A frame of more than 65511 payload bytes leaves the
/// link as it was, and so does one that is refused leave the nonce.
pub proof fn law_frames_are_sealed_whole(
    transport: StatelessTransportState,
    nonce: u64,
    id: u32,
    kind: u8,
    payload: Seq<u8>,
)
    ensures
        ({
            let (bytes, next, how) = encoded(transport, nonce, id, kind, payload);
            let plain = frame_bytes(id, kind, payload);
            &&& payload.len() > 65511 ==> bytes.len() == 0 && next == nonce && how == Err::<
                (),
                NoiseError,
            >(NoiseError::TooLarge)
            &&& payload.len() <= 65511 ==> match sealed(transport, nonce, plain) {
                Ok(message) => {
                    &&& how is Ok
                    &&& next == nonce + 1
                    &&& bytes.len() == 2 + message.len()
                    &&& bytes.skip(2) == message
                    &&& message.len() <= 65535 ==> bytes[0] * 256 + bytes[1] == message.len()
                },
                Err(error) => next == nonce && how == Err::<(), NoiseError>(
                    NoiseError::Refused(error),
                ) && bytes.len() == payload.len() + 26,
            }
        }),
{
    let plain = frame_bytes(id, kind, payload);
    assert(plain.len() == payload.len() + 8);
    if let Ok(message) = sealed(transport, nonce, plain) {
        assert(prefixed(message).skip(2) =~= message);
    }
}

/// A dialled bridge is believed only if it proved the very key that it was
/// dialled for.
pub proof fn law_only_the_dialled_bridge_answers(
    read: (HandshakeState, Result<Seq<u8>, snow::Error>),
    bridge: Seq<u8>,
)
    ensures
        answered(read, bridge) is Ok ==> read.1 is Ok && remote_static(read.0) == Some(bridge),
        read.1 is Ok && remote_static(read.0) == Some(bridge) ==> match transport_mode(read.0) {
            Ok(transport) => answered(read, bridge) == Ok::<StatelessTransportState, NoiseError>(
                transport,
            ),
            Err(error) => answered(read, bridge) == Err::<StatelessTransportState, NoiseError>(
                NoiseError::Refused(error),
            ),
        },
        read.1 is Ok && remote_static(read.0) is None ==> answered(read, bridge) == Err::<
            StatelessTransportState,
            NoiseError,
        >(NoiseError::NoStaticKey),
        (read.1 is Ok && remote_static(read.0) is Some && remote_static(read.0) != Some(bridge))
            ==> answered(read, bridge) == Err::<StatelessTransportState, NoiseError>(
            NoiseError::UnexpectedStaticKey,
        ),
        read.1 matches Err(error) ==> answered(read, bridge) == Err::<
            StatelessTransportState,
            NoiseError,
        >(NoiseError::Refused(error)),
{
}

/// A handshake ends with the key that the peer proved, as it is, and the
/// handshake's own transport; without a 32-byte key it ends in an error.
pub proof fn law_handshakes_end_with_the_proved_key(handshake: HandshakeState)
    ensures
        concluded(handshake) matches Ok((key, transport)) ==> {
            &&& remote_static(handshake) == Some(key)
            &&& key.len() == 32
            &&& transport_mode(handshake) == Ok::<StatelessTransportState, snow::Error>(transport)
        },
        remote_static(handshake) is None ==> concluded(handshake) == Err::<
            (Seq<u8>, StatelessTransportState),
            NoiseError,
        >(NoiseError::NoStaticKey),
        remote_static(handshake) matches Some(key) ==> {
            &&& key.len() != 32 ==> concluded(handshake) == Err::<
                (Seq<u8>, StatelessTransportState),
                NoiseError,
            >(NoiseError::BadStaticKey)
            &&& key.len() == 32 ==> (concluded(handshake) is Ok <==> transport_mode(
                handshake,
            ) is Ok)
        },
{
}

/// The frame that a handshake puts on the wire is the whole message that it wrote,
/// behind its length; where it wrote none, the error comes back.
pub proof fn law_handshakes_send_what_they_write(
    before: HandshakeState,
    payload: Seq<u8>,
    drawn: Seq<u8>,
    after: HandshakeState,
    frame: Result<Vec<u8>, NoiseError>,
)
    requires
        wrote(before, payload, drawn, after, frame),
    ensures
        ({
            let (state, written) = handshake_written(before, payload, 1024, drawn);
            &&& after == state
            &&& written matches Ok(body) ==> (frame matches Ok(bytes) && bytes@.len() == 2
                + body.len() && bytes@[0] * 256 + bytes@[1] == body.len() && bytes@.skip(2) == body)
            &&& written matches Err(error) ==> frame == Err::<Vec<u8>, NoiseError>(
                NoiseError::Refused(error),
            )
        }),
{
    let (_, written) = handshake_written(before, payload, 1024, drawn);
    if let Ok(body) = written {
        assert(prefixed(body).skip(2) =~= body);
    }
}

/// What a handshake ends with is what it concluded: the same key, byte for byte,
/// and the same transport, or the same error.
pub proof fn law_results_are_what_was_concluded(
    result: Result<([u8; 32], StatelessTransportState), NoiseError>,
    spec: Result<(Seq<u8>, StatelessTransportState), NoiseError>,
)
    requires
        concludes(result, spec),
    ensures
        result is Ok <==> spec is Ok,
        result matches Ok(pair) ==> pair.0@ == (spec->Ok_0).0 && pair.1 == (spec->Ok_0).1,
        result matches Err(error) ==> spec->Err_0 == error,
{
}

/// What a decoder takes of the bytes that have arrived: nothing while a message is
/// not all there; otherwise the message and its length, and no byte behind them.
/// What it hands out is the whole plaintext, and the nonce moves on by one.
pub proof fn law_messages_are_opened_whole(
    transport: StatelessTransportState,
    nonce: u64,
    s: Seq<u8>,
)
    ensures
        ({
            let n = s[0] * 256 + s[1];
            let (rest, next, how) = decoding(transport, nonce, s);
            &&& s.len() < 2 || n >= 16 && s.len() < 2 + n ==> rest == s && next == nonce && how
                == Ok::<Option<Seq<u8>>, NoiseError>(None)
            &&& s.len() >= 2 && n < 16 ==> rest == s && next == nonce && how == Err::<
                Option<Seq<u8>>,
                NoiseError,
            >(NoiseError::Short)
            &&& s.len() >= 2 && n >= 16 && s.len() >= 2 + n ==> {
                &&& rest == s.skip(2 + n)
                &&& match opened(transport, nonce, s.subrange(2, 2 + n)) {
                    Ok(plain) => next == nonce + 1 && how == Ok::<Option<Seq<u8>>, NoiseError>(
                        Some(plain),
                    ),
                    Err(error) => next == nonce && how == Err::<Option<Seq<u8>>, NoiseError>(
                        NoiseError::Refused(error),
                    ),
                }
            }
        }),
{
}

/// A device is known by the key that its first message proved, and what that
/// message carried is handed on whole; a message that the handshake refuses, or
/// that proved no 32-byte key, is an error.
pub proof fn law_devices_are_known_by_their_key(
    read: (HandshakeState, Result<Seq<u8>, snow::Error>),
)
    ensures
        accepted(read) matches Ok((key, payload)) ==> {
            &&& read.1 == Ok::<Seq<u8>, snow::Error>(payload)
            &&& remote_static(read.0) == Some(key)
            &&& key.len() == 32
        },
        accepted(read) is Ok <==> read.1 is Ok && remote_static(read.0) is Some && (remote_static(
            read.0,
        )->0).len() == 32,
        read.1 matches Err(error) ==> accepted(read) == Err::<(Seq<u8>, Seq<u8>), NoiseError>(
            NoiseError::Refused(error),
        ),
{
}

/// A bridge is known by the key that its last message proved, and by nothing else.
pub proof fn law_bridges_are_known_by_their_key(
    read: (HandshakeState, Result<Seq<u8>, snow::Error>),
)
    ensures
        proved(read) matches Ok((key, transport)) ==> {
            &&& read.1 is Ok
            &&& remote_static(read.0) == Some(key)
            &&& key.len() == 32
            &&& transport_mode(read.0) == Ok::<StatelessTransportState, snow::Error>(transport)
        },
        read.1 is Ok && remote_static(read.0) is Some && (remote_static(read.0)->0).len() == 32
            && transport_mode(read.0) is Ok ==> proved(read) is Ok,
        read.1 matches Err(error) ==> proved(read) == Err::<
            (Seq<u8>, StatelessTransportState),
            NoiseError,
        >(NoiseError::Refused(error)),
{
}

} // verus!
