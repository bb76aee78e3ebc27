//! The proxy as a phone: one Noise_IK tunnel per (bridge, device), pooled.
//!
//! A tunnel is an ordinary mux stream carrying a Noise_IK handshake and then
//! plain HTTP/1.1. Pooling matters because IK costs a round trip and a few DHs;
//! a request that reuses a live tunnel costs neither.

use bytes::Bytes;
use dashmap::DashMap;
use vstd::prelude::*;

use crate::buf::content;
use crate::mux::{control, Frame};
use crate::noise::{initiator, two_way, IkInitiator, NoiseError};
use crate::routing::{head_bytes, leads_to, Table};
use crate::session::{MuxSession, StreamRx, StreamTx};
use crate::state::{DeviceHandle, HandleView};
use crate::table::{entries, get, insert, new_table};
use crate::text::same_text;
use crate::wire::{KIND_OPEN, MAGIC_CLIENT, NOISE_IK, VERSION};

pub use crate::routing::preamble;

verus! {

/// Idle tunnels are closed after this many nanoseconds, so a quiet proxy holds
/// no bridge stream slots.
pub const IDLE_NANOS: u64 = 60_000_000_000;

/// A body buffered before the edge spills it; bounds one request's memory.
pub const MAX_BODY: usize = 67_108_864;

/// Whether a value asks for plain tunnels.
pub open spec fn plain_asked(value: Option<Seq<char>>) -> bool {
    value == Some("1"@)
}

/// Whether to drop the inner Noise_IK layer (experiment only), by the value of
/// `DSH_TUNNEL_PLAIN`.
///
/// The mux link is already Noise_XX between these same two processes, so once
/// the proxy holds both keys the IK layer is a second AEAD pass over every byte
/// that protects nothing the XX link does not. Measuring it is the only way to
/// price removing it.
pub fn plain_tunnels(value: Option<String>) -> (plain: bool)
    ensures
        plain == plain_asked(
            match value {
                Some(text) => Some(text@),
                None => None,
            },
        ),
        plain == (value matches Some(text) && text@ == "1"@),
{
    match value {
        Some(text) => same_text(text.as_str(), "1"),
        None => false,
    }
}

/// Why a tunnel cannot be opened.
#[derive(PartialEq, Eq, Structural, Clone, Copy, Debug)]
pub enum TunnelError {
    /// No link is registered under the route's key.
    NotConnected,
    /// The link's stream budget is spent.
    AtStreamLimit,
}

impl TunnelError {
    /// The error in words.
    pub fn message(&self) -> (text: &'static str)
        ensures
            text@ == (match *self {
                TunnelError::NotConnected => "bridge is not connected"@,
                TunnelError::AtStreamLimit => "bridge is at its stream limit"@,
            }),
    {
        match self {
            TunnelError::NotConnected => "bridge is not connected",
            TunnelError::AtStreamLimit => "bridge is at its stream limit",
        }
    }
}

/// The link that a route's bridge is connected by.
pub open spec fn link_for(links: Map<Seq<u8>, u64>, route: HandleView) -> Result<u64, TunnelError> {
    match leads_to(links, route.bridge_key) {
        Some(link) => Ok(link),
        None => Err(TunnelError::NotConnected),
    }
}

/// The link that carries a route's tunnels.
pub fn link_of(table: &Table, route: &DeviceHandle) -> (link: Result<u64, TunnelError>)
    ensures
        link == link_for(table@, route@),
        link == (match leads_to(table@, route.bridge_key@) {
            Some(link) => Ok(link),
            None => Err(TunnelError::NotConnected),
        }),
{
    match table.lookup(&route.bridge_key) {
        Some(link) => Ok(link),
        None => Err(TunnelError::NotConnected),
    }
}

/// Reserve a stream for a tunnel on its link. The caller sends what
/// `start_tunnel` gives, in order.
pub fn reserve(session: &mut MuxSession) -> (halves: Result<(StreamTx, StreamRx), TunnelError>)
    requires
        old(session).wf(),
    ensures
        final(session).wf(),
        final(session)@ == old(session)@.offered(),
        match halves {
            Ok(pair) => {
                &&& !old(session)@.full()
                &&& pair.0.spec_id() == old(session)@.next_id
                &&& pair.0.lane() == old(session)@.next_lane(old(session)@.next_id)
                &&& pair.1.lane() == pair.0.lane()
            },
            Err(error) => old(session)@.full() && error == TunnelError::AtStreamLimit,
        },
{
    match session.try_open_stream() {
        Some(halves) => Ok(halves),
        None => Err(TunnelError::AtStreamLimit),
    }
}

/// Address a route's bridge: the preamble, and the handshake that has it as its
/// prologue. The two are one buffer, so that what is written is what is mixed in.
pub fn dial(route: &DeviceHandle) -> (dialled: Result<(Vec<u8>, IkInitiator), NoiseError>)
    requires
        route.private_key@.len() <= 32,
    ensures
        ({
            let head = head_bytes(MAGIC_CLIENT@, VERSION, route.bridge_key@);
            match initiator(NOISE_IK@, route.private_key@, route.bridge_key@, head) {
                Ok(state) => dialled matches Ok(pair) && pair.0@ == head && pair.1.state() == state
                    && pair.1.bridge() == route.bridge_key@ && two_way(state),
                Err(error) => dialled == Err::<(Vec<u8>, IkInitiator), NoiseError>(
                    NoiseError::Refused(error),
                ),
            }
        }),
{
    let head = preamble(&route.bridge_key);
    match IkInitiator::new(route.private_key.as_slice(), route.bridge_key, head.as_slice()) {
        Ok(handshake) => Ok((head, handshake)),
        Err(error) => Err(error),
    }
}

/// What a bridge gets first on a new tunnel, in order: the frame that opens the
/// stream, the stream's first bytes, and then, unless the tunnel is plain, the
/// messages of a handshake.
pub struct TunnelStart {
    /// The frame that opens the stream.
    pub open: Frame,
    /// The stream's first bytes.
    pub first: Bytes,
    /// The handshake that follows. Its first message carries the first payload.
    pub handshake: Option<IkInitiator>,
}

/// Whether a tunnel on a stream starts as a route asks: with the preamble that
/// names its bridge, and with a handshake for that bridge that has the preamble
/// as its prologue.
pub open spec fn starts(
    id: u32,
    route: HandleView,
    plain: bool,
    start: Result<TunnelStart, NoiseError>,
) -> bool {
    let head = head_bytes(MAGIC_CLIENT@, VERSION, route.bridge_key);
    let dialled = initiator(NOISE_IK@, route.private_key, route.bridge_key, head);
    if !plain && dialled is Err {
        start == Err::<TunnelStart, NoiseError>(NoiseError::Refused(dialled->Err_0))
    } else {
        &&& start matches Ok(start)
        &&& start.open@ == control(id, KIND_OPEN)
        &&& content(start.first) == head
        &&& plain <==> start.handshake is None
        &&& !plain ==> {
            &&& start.handshake->0.state() == dialled->Ok_0
            &&& start.handshake->0.bridge() == route.bridge_key
            &&& two_way(dialled->Ok_0)
        }
    }
}

/// Start a tunnel to a route's bridge on a stream that was reserved for it.
pub fn start_tunnel(tx: &StreamTx, route: &DeviceHandle, plain: bool) -> (start: Result<
    TunnelStart,
    NoiseError,
>)
    requires
        route.private_key@.len() <= 32,
    ensures
        starts(tx.spec_id(), route@, plain, start),
{
    let (head, handshake) = if plain {
        (preamble(&route.bridge_key), None)
    } else {
        match dial(route) {
            Ok((head, handshake)) => (head, Some(handshake)),
            Err(error) => return Err(error),
        }
    };
    Ok(TunnelStart { open: tx.announce(), first: Bytes::copy_from_slice(head.as_slice()), handshake })
}

/// One idle keep-alive HTTP/1.1 connection riding a tunnel. The connection goes
/// by a number of the caller's; `created` is when it was parked.
#[derive(Clone, Copy)]
pub struct Conn {
    pub id: u64,
    pub created: u64,
}

/// Whether an idle connection may still be handed out.
pub open spec fn usable(conn: Conn, now: u64, closed: Seq<u64>) -> bool {
    &&& now - conn.created < IDLE_NANOS
    &&& !closed.contains(conn.id)
}

/// How many connections stay when one is borrowed: those before the last that
/// is still usable. Nothing is, where none is.
pub open spec fn kept_idle(idle: Seq<Conn>, now: u64, closed: Seq<u64>) -> Option<nat>
    decreases idle.len(),
{
    if idle.len() == 0 {
        None
    } else if usable(idle.last(), now, closed) {
        Some((idle.len() - 1) as nat)
    } else {
        kept_idle(idle.drop_last(), now, closed)
    }
}

/// A stable pool key for one installation on one bridge.
pub open spec fn route_key(bridge_key: Seq<u8>, device_id: Seq<u8>) -> Seq<u8> {
    bridge_key + device_id
}

/// How many connections are parked, those of all installations together.
pub open spec fn parked(idle: Map<Seq<u8>, Seq<Conn>>) -> nat
    decreases idle.dom().len(),
    when idle.dom().finite()
{
    if idle.dom().len() == 0 {
        0
    } else {
        let key = idle.dom().choose();
        idle[key].len() + parked(idle.remove(key))
    }
}

/// An installation's connections are among those that are parked.
proof fn lemma_parked_remove(idle: Map<Seq<u8>, Seq<Conn>>, key: Seq<u8>)
    requires
        idle.dom().finite(),
        idle.contains_key(key),
    ensures
        parked(idle) == idle[key].len() + parked(idle.remove(key)),
    decreases idle.dom().len(),
{
    let first = idle.dom().choose();
    assert(idle.remove(first).dom() =~= idle.dom().remove(first));
    assert(idle.remove(key).dom() =~= idle.dom().remove(key));
    if first != key {
        lemma_parked_remove(idle.remove(first), key);
        lemma_parked_remove(idle.remove(key), first);
        assert(idle.remove(first).remove(key) =~= idle.remove(key).remove(first));
    }
}

/// What a change of one installation's connections does to the count.
proof fn lemma_parked_insert(idle: Map<Seq<u8>, Seq<Conn>>, key: Seq<u8>, list: Seq<Conn>)
    requires
        idle.dom().finite(),
    ensures
        idle.insert(key, list).dom().finite(),
        parked(idle.insert(key, list)) + (if idle.contains_key(key) {
            idle[key].len()
        } else {
            0
        }) == parked(idle) + list.len(),
{
    let after = idle.insert(key, list);
    assert(after.dom() =~= idle.dom().insert(key));
    lemma_parked_remove(after, key);
    assert(after.remove(key) =~= idle.remove(key));
    if idle.contains_key(key) {
        lemma_parked_remove(idle, key);
    } else {
        assert(idle.remove(key) =~= idle);
    }
}

/// What the pool holds.
#[verifier::ext_equal]
pub struct PoolView {
    /// The idle connections of each installation, oldest first.
    pub idle: Map<Seq<u8>, Seq<Conn>>,
    /// Ceiling on idle tunnels held for one installation.
    pub per_device: nat,
    /// Live tunnels, process-wide.
    pub live: nat,
}

impl PoolView {
    /// The idle connections of one installation.
    pub open spec fn list(self, key: Seq<u8>) -> Seq<Conn> {
        if self.idle.contains_key(key) {
            self.idle[key]
        } else {
            Seq::empty()
        }
    }

    /// No installation has more idle tunnels than its ceiling, which is at
    /// least one, and every idle tunnel is live.
    pub open spec fn wf(self) -> bool {
        &&& self.per_device >= 1
        &&& self.idle.dom().finite()
        &&& parked(self.idle) <= self.live
        &&& forall|key: Seq<u8>| #[trigger]
            self.idle.contains_key(key) ==> self.idle[key].len() <= self.per_device
    }

    /// The pool with one installation's idle connections changed.
    pub open spec fn with_list(self, key: Seq<u8>, list: Seq<Conn>) -> PoolView {
        PoolView { idle: self.idle.insert(key, list), ..self }
    }

    /// The tunnels that are live and not parked: those that are leased, and those
    /// that carry an upgrade.
    pub open spec fn held(self) -> int {
        self.live - parked(self.idle)
    }

    /// The connections that borrowing takes out besides the one it hands out.
    pub open spec fn stale(self, key: Seq<u8>, now: u64, closed: Seq<u64>) -> Seq<Conn> {
        match kept_idle(self.list(key), now, closed) {
            Some(n) => self.list(key).skip(n as int + 1),
            None => self.list(key),
        }
    }

    /// The pool once an installation has tried to borrow: the stale connections
    /// are gone, and are no longer live, and so is the one handed out, which is.
    pub open spec fn acquired(self, key: Seq<u8>, now: u64, closed: Seq<u64>) -> PoolView {
        let list = self.list(key);
        PoolView {
            live: (self.live - self.stale(key, now, closed).len()) as nat,
            ..self.with_list(
                key,
                match kept_idle(list, now, closed) {
                    Some(n) => list.take(n as int),
                    None => Seq::empty(),
                },
            )
        }
    }

    /// The pool with one more live tunnel, which is held.
    pub open spec fn grown(self) -> PoolView {
        PoolView { live: self.live + 1, ..self }
    }

    /// The pool with one live tunnel less, which was held.
    pub open spec fn shrunk(self) -> PoolView {
        PoolView { live: (self.live - 1) as nat, ..self }
    }

    /// The pool once a lease ended: its connection is parked, or no longer live.
    pub open spec fn ended(self, lease: Lease, now: u64, is_closed: bool) -> PoolView {
        if parks(self, lease, is_closed) {
            self.with_list(
                lease.key(),
                self.list(lease.key()).push(Conn { id: lease.conn()->0, created: now }),
            )
        } else {
            self.shrunk()
        }
    }
}

/// What borrowing leaves, and what it hands out or finds stale, is what there was.
proof fn lemma_kept_idle(idle: Seq<Conn>, now: u64, closed: Seq<u64>)
    ensures
        kept_idle(idle, now, closed) matches Some(n) ==> n < idle.len(),
    decreases idle.len(),
{
    if idle.len() > 0 && !usable(idle.last(), now, closed) {
        lemma_kept_idle(idle.drop_last(), now, closed);
    }
}

/// Borrowing keeps the pool well formed: what it takes out was parked, and the
/// tunnel it lends is held from then on.
proof fn lemma_acquired(pool: PoolView, key: Seq<u8>, now: u64, closed: Seq<u64>)
    requires
        pool.wf(),
    ensures
        pool.stale(key, now, closed).len() <= parked(pool.idle),
        pool.acquired(key, now, closed).wf(),
        pool.acquired(key, now, closed).held() == pool.held() + (if kept_idle(
            pool.list(key),
            now,
            closed,
        ) is Some {
            1int
        } else {
            0
        }),
{
    let list = pool.list(key);
    let left = match kept_idle(list, now, closed) {
        Some(n) => list.take(n as int),
        None => Seq::empty(),
    };
    lemma_kept_idle(list, now, closed);
    lemma_parked_insert(pool.idle, key, left);
    if pool.idle.contains_key(key) {
        lemma_parked_remove(pool.idle, key);
    }
    let after = pool.acquired(key, now, closed);
    assert forall|k: Seq<u8>| #[trigger] after.idle.contains_key(k) implies after.idle[k].len()
        <= after.per_device by {
        if k != key {
            assert(pool.idle.contains_key(k));
        } else if pool.idle.contains_key(key) {
            assert(pool.idle[key].len() <= pool.per_device);
        }
    }
}

/// Ending a lease keeps the pool well formed: the tunnel is held no longer.
proof fn lemma_ended(pool: PoolView, lease: Lease, now: u64, is_closed: bool)
    requires
        pool.wf(),
        pool.held() > 0,
    ensures
        pool.ended(lease, now, is_closed).wf(),
        pool.ended(lease, now, is_closed).held() == pool.held() - 1,
{
    let key = lease.key();
    let after = pool.ended(lease, now, is_closed);
    if parks(pool, lease, is_closed) {
        let list = pool.list(key).push(Conn { id: lease.conn()->0, created: now });
        lemma_parked_insert(pool.idle, key, list);
        assert forall|k: Seq<u8>| #[trigger] after.idle.contains_key(k) implies after.idle[k].len()
            <= after.per_device by {
            if k != key {
                assert(pool.idle.contains_key(k));
            }
        }
    }
}

/// Tunnels keyed by bridge+device, each with a small idle pool.
pub struct Pool {
    slots: DashMap<Vec<u8>, u64>,
    lists: Vec<Vec<Conn>>,
    per_device: usize,
    live: usize,
    /// How many of the live tunnels are idle.
    parked: usize,
}

/// The list that each key has.
closed spec fn lists_by_key(slots: Map<Seq<u8>, u64>, lists: Seq<Vec<Conn>>) -> Map<
    Seq<u8>,
    Seq<Conn>,
> {
    slots.map_values(|slot: u64| lists[slot as int]@)
}

impl View for Pool {
    type V = PoolView;

    closed spec fn view(&self) -> PoolView {
        PoolView {
            idle: lists_by_key(entries(self.slots), self.lists@),
            per_device: self.per_device as nat,
            live: self.live as nat,
        }
    }
}

/// A tunnel checked out of the pool.
///
/// However a request ends, after the last byte or when a client hangs up early,
/// it ends by handing the lease back.
pub struct Lease {
    /// The connection, unless it was discarded.
    conn: Option<u64>,
    /// The installation whose list this lease goes back to.
    key: Vec<u8>,
    /// Whether this tunnel may be parked for reuse when the lease ends.
    reusable: bool,
}

impl Lease {
    /// The connection to send on, unless it was discarded.
    pub closed spec fn conn(&self) -> Option<u64> {
        self.conn
    }

    /// The installation whose list this lease goes back to.
    pub closed spec fn key(&self) -> Seq<u8> {
        self.key@
    }

    /// Whether this tunnel may be parked for reuse.
    pub closed spec fn reusable(&self) -> bool {
        self.reusable
    }

    /// The connection to send on.
    pub fn sender(&self) -> (conn: u64)
        requires
            self.conn() is Some,
        ensures
            self.conn() == Some(conn),
    {
        self.conn.unwrap()
    }

    /// Whether the connection was discarded.
    pub fn discarded(&self) -> (gone: bool)
        ensures
            gone == (self.conn() is None),
    {
        self.conn.is_none()
    }

    /// Drop the connection instead of returning it (a poisoned keep-alive).
    pub fn discard(&mut self)
        ensures
            final(self).conn() is None,
            final(self).key() == old(self).key(),
            final(self).reusable() == old(self).reusable(),
    {
        self.conn = None;
    }

    /// Close this tunnel when the lease ends rather than parking it.
    ///
    /// A bulk transfer leaves a tunnel holding large buffers and a bridge
    /// stream slot for as long as the idle timeout. Those are worth keeping for
    /// a chatty RPC connection and not for a one-off file, so bulk routes take
    /// a tunnel and give it back to the operating system.
    pub fn close_when_done(&mut self)
        ensures
            !final(self).reusable(),
            final(self).conn() == old(self).conn(),
            final(self).key() == old(self).key(),
    {
        self.reusable = false;
    }
}

impl Pool {
    /// The pool's invariant.
    pub open spec fn wf(&self) -> bool {
        self@.wf() && self.lists_apart() && self.counted()
    }

    /// Whether the idle tunnels are counted.
    pub closed spec fn counted(&self) -> bool {
        self.parked == parked(self@.idle)
    }

    /// Whether every installation has a list of its own.
    pub closed spec fn lists_apart(&self) -> bool {
        &&& forall|key: Seq<u8>| #[trigger]
            entries(self.slots).contains_key(key) ==> entries(self.slots)[key] < self.lists@.len()
        &&& forall|a: Seq<u8>, b: Seq<u8>|
            #![trigger entries(self.slots)[a], entries(self.slots)[b]]
            entries(self.slots).contains_key(a) && entries(self.slots).contains_key(b)
                && entries(self.slots)[a] == entries(self.slots)[b] ==> a == b
    }

    /// An empty pool, with a ceiling of at least one tunnel per installation.
    pub fn new(per_device: usize) -> (pool: Self)
        ensures
            pool.wf(),
            pool@ == (PoolView {
                idle: Map::empty(),
                per_device: if per_device == 0 {
                    1
                } else {
                    per_device as nat
                },
                live: 0,
            }),
    {
        let per_device: usize = if per_device == 0 { 1 } else { per_device };
        let pool = Pool { slots: new_table(), lists: Vec::new(), per_device, live: 0, parked: 0 };
        assert(pool@.idle =~= Map::empty());
        pool
    }

    /// Live tunnels.
    pub fn live(&self) -> (n: usize)
        ensures
            n == self@.live,
    {
        self.live
    }

    /// Live tunnels that are not idle.
    pub fn held(&self) -> (n: usize)
        requires
            self.wf(),
        ensures
            n == self@.held(),
    {
        self.live - self.parked
    }

    /// A stable pool key for one installation on one bridge.
    fn key(route: &DeviceHandle) -> (key: Vec<u8>)
        ensures
            key@ == route_key(route.bridge_key@, route.device_id@),
    {
        let mut key: Vec<u8> = Vec::new();
        key.extend_from_slice(&route.bridge_key);
        key.extend_from_slice(&route.device_id);
        assert(key@ =~= route_key(route.bridge_key@, route.device_id@));
        key
    }

    /// The list of an installation, made if there is none.
    fn slot(&mut self, key: &[u8]) -> (slot: usize)
        requires
            old(self).wf(),
        ensures
            final(self).wf(),
            final(self)@ == old(self)@.with_list(key@, old(self)@.list(key@)),
            final(self).parked == old(self).parked,
            entries(final(self).slots).contains_key(key@),
            entries(final(self).slots)[key@] == slot,
            slot < final(self).lists@.len(),
    {
        proof {
            lemma_parked_insert(self@.idle, key@, self@.list(key@));
        }
        match get(&self.slots, key) {
            Some(slot) => {
                assert(entries(self.slots).contains_key(key@));
                assert(slot < self.lists.len());
                assert(self@.idle =~= old(self)@.with_list(key@, old(self)@.list(key@)).idle);
                slot as usize
            },
            None => {
                let slot: usize = self.lists.len();
                let list: Vec<Conn> = Vec::new();
                self.lists.push(list);
                insert(&mut self.slots, key, slot as u64);
                proof {
                    assert forall|k: Seq<u8>| #[trigger] entries(self.slots).contains_key(k)
                        && k != key@ implies entries(old(self).slots).contains_key(k)
                        && entries(self.slots)[k] == entries(old(self).slots)[k] by {}
                    assert(list@ =~= Seq::empty());
                    assert(self@.idle =~= old(self)@.with_list(key@, old(self)@.list(key@)).idle);
                    assert forall|k: Seq<u8>| #[trigger]
                        self@.idle.contains_key(k) implies self@.idle[k].len()
                        <= self@.per_device by {
                        if k != key@ {
                            assert(old(self)@.idle.contains_key(k));
                        }
                    }
                }
                slot
            },
        }
    }

    /// Put a list in the place of an installation's, and count anew what is live
    /// and what is idle.
    fn put(&mut self, key: &[u8], slot: usize, list: Vec<Conn>, live: usize, idle: usize)
        requires
            old(self).wf(),
            idle == parked(old(self)@.with_list(key@, list@).idle),
            idle <= live,
            entries(old(self).slots).contains_key(key@),
            entries(old(self).slots)[key@] == slot,
            slot < old(self).lists@.len(),
            list@.len() <= old(self)@.per_device,
        ensures
            final(self).wf(),
            final(self)@ == (PoolView { live: live as nat, ..old(self)@.with_list(key@, list@) }),
    {
        self.lists[slot] = list;
        self.live = live;
        self.parked = idle;
        proof {
            lemma_parked_insert(old(self)@.idle, key@, list@);
            assert(self@.idle =~= old(self)@.with_list(key@, list@).idle);
            assert forall|k: Seq<u8>| #[trigger] self@.idle.contains_key(k) implies self@.idle[k].len()
                <= self@.per_device by {
                if k != key@ {
                    assert(old(self)@.idle.contains_key(k));
                }
            }
        }
    }

    /// The idle connections of an installation, so that the caller can tell
    /// which of them are closed.
    pub fn idle_ids(&self, route: &DeviceHandle) -> (ids: Vec<u64>)
        requires
            self.wf(),
        ensures
            ids@ == ids_of(self@.list(route_key(route.bridge_key@, route.device_id@))),
    {
        let key = Self::key(route);
        match get(&self.slots, key.as_slice()) {
            Some(slot) => {
                assert(self@.idle.contains_key(key@));
                assert(entries(self.slots).contains_key(key@));
                assert(slot < self.lists.len());
                conn_ids(&self.lists[slot as usize])
            },
            None => {
                let ids: Vec<u64> = Vec::new();
                assert(ids@ =~= ids_of(Seq::empty()));
                ids
            },
        }
    }

    /// Borrow a pooled connection: the last one that is still fresh and not
    /// among `closed`. The stale ones found on the way are taken out, and come
    /// back to be closed. `None` means that a tunnel has to be opened.
    pub fn acquire(&mut self, route: &DeviceHandle, now: u64, closed: &Vec<u64>) -> (found: (
        Option<Lease>,
        Vec<u64>,
    ))
        requires
            old(self).wf(),
        ensures
            final(self).wf(),
            ({
                let key = route_key(route.bridge_key@, route.device_id@);
                let list = old(self)@.list(key);
                &&& final(self)@ == old(self)@.acquired(key, now, closed@)
                &&& found.1@ == ids_of(old(self)@.stale(key, now, closed@))
                &&& match kept_idle(list, now, closed@) {
                    Some(n) => found.0 matches Some(lease) && lease.conn() == Some(
                        list[n as int].id,
                    ) && lease.key() == key && lease.reusable(),
                    None => found.0 is None,
                }
            }),
    {
        let key = Self::key(route);
        let ghost list = old(self)@.list(key@);
        proof {
            lemma_acquired(self@, key@, now, closed@);
            lemma_parked_insert(self@.idle, key@, list);
        }
        let slot: usize = self.slot(key.as_slice());
        assert(self.lists@[slot as int]@ == self@.idle[key@]);
        let mut n: usize = self.lists[slot].len();
        let mut found: bool = false;
        assert(list.take(n as int) =~= list);
        while n > 0 && !found
            invariant
                n <= list.len(),
                slot < self.lists@.len(),
                list == self.lists@[slot as int]@,
                found ==> n > 0 && usable(list[n - 1], now, closed@),
                kept_idle(list, now, closed@) == kept_idle(list.take(n as int), now, closed@),
            decreases n + (if found { 0int } else { 1 }),
        {
            let conn: Conn = self.lists[slot][n - 1];
            assert(list.take(n as int).last() == conn);
            if now.saturating_sub(conn.created) < IDLE_NANOS && !listed(closed, conn.id) {
                found = true;
            } else {
                assert(list.take(n as int).drop_last() =~= list.take(n - 1));
                n = n - 1;
            }
        }
        let kept: usize = if found { n - 1 } else { 0 };
        let mut idle: Vec<Conn> = Vec::new();
        let mut stale: Vec<Conn> = Vec::new();
        let mut i: usize = 0;
        while i < self.lists[slot].len()
            invariant
                i <= list.len(),
                n <= list.len(),
                found ==> n > 0,
                kept == (if found { n - 1 } else { 0 }),
                slot < self.lists@.len(),
                list == self.lists@[slot as int]@,
                idle@ =~= list.take(if i < kept { i as int } else { kept as int }),
                stale@ =~= list.subrange(n as int, if i < n { n as int } else { i as int }),
                found || n == 0,
            decreases list.len() - i,
        {
            let conn: Conn = self.lists[slot][i];
            if i < kept {
                idle.push(conn);
            }
            if i >= n {
                stale.push(conn);
            }
            i += 1;
        }
        assert(idle@ =~= list.take(kept as int));
        assert(stale@ =~= list.skip(n as int));
        let lease: Option<Lease> = if found {
            let id: u64 = self.lists[slot][n - 1].id;
            let mut lease_key: Vec<u8> = Vec::new();
            lease_key.extend_from_slice(key.as_slice());
            assert(lease_key@ =~= key@);
            Some(Lease { conn: Some(id), key: lease_key, reusable: true })
        } else {
            None
        };
        let live: usize = self.live - stale.len();
        let taken: usize = if found { stale.len() + 1 } else { stale.len() };
        let left: usize = self.parked - taken;
        proof {
            if !found {
                assert(list.skip(0) =~= list);
                assert(idle@ =~= Seq::empty());
            }
            assert(self@.with_list(key@, idle@).idle =~= old(self)@.with_list(key@, idle@).idle);
        }
        self.put(key.as_slice(), slot, idle, live, left);
        assert(self@ =~= old(self)@.acquired(key@, now, closed@));
        let ids = conn_ids(&stale);
        (lease, ids)
    }

    /// A fresh tunnel for an installation carries this connection: it is live,
    /// and leased.
    pub fn opened(&mut self, route: &DeviceHandle, conn: u64) -> (lease: Lease)
        requires
            old(self).wf(),
            old(self)@.live < usize::MAX,
        ensures
            final(self).wf(),
            final(self)@ == old(self)@.grown(),
            lease.conn() == Some(conn),
            lease.key() == route_key(route.bridge_key@, route.device_id@),
            lease.reusable(),
    {
        self.live = self.live + 1;
        Lease { conn: Some(conn), key: Self::key(route), reusable: true }
    }

    /// A tunnel that was held, and carried an upgrade, is gone.
    pub fn finished(&mut self)
        requires
            old(self).wf(),
            old(self)@.held() > 0,
        ensures
            final(self).wf(),
            final(self)@ == old(self)@.shrunk(),
    {
        self.live = self.live - 1;
    }

    /// A lease ended: park its connection, or have it closed. It is parked
    /// unless it was discarded, is closed, is not to be reused, or finds its
    /// installation's list full; then it is no longer live, and the connection
    /// that is left, if any, comes back to be closed.
    pub fn finish(&mut self, lease: Lease, now: u64, is_closed: bool) -> (dropped: Option<u64>)
        requires
            old(self).wf(),
            old(self)@.held() > 0,
        ensures
            final(self).wf(),
            final(self)@ == old(self)@.ended(lease, now, is_closed),
            dropped == (if parks(old(self)@, lease, is_closed) {
                None
            } else {
                lease.conn()
            }),
    {
        proof {
            lemma_ended(self@, lease, now, is_closed);
        }
        let id: u64 = match lease.conn {
            Some(id) => id,
            None => {
                self.finished();
                return None;
            },
        };
        if is_closed || !lease.reusable {
            self.finished();
            return Some(id);
        }
        let slot: usize = self.slot(lease.key.as_slice());
        assert(self.lists@[slot as int]@ == self@.idle[lease.key@]);
        let cap: usize = self.per_device;
        if self.lists[slot].len() >= cap {
            assert(self@.idle =~= old(self)@.idle);
            self.finished();
            return Some(id);
        }
        let mut list: Vec<Conn> = Vec::new();
        let mut i: usize = 0;
        while i < self.lists[slot].len()
            invariant
                slot < self.lists@.len(),
                i <= self.lists@[slot as int]@.len(),
                list@ =~= self.lists@[slot as int]@.take(i as int),
            decreases self.lists@[slot as int]@.len() - i,
        {
            let conn: Conn = self.lists[slot][i];
            list.push(conn);
            i += 1;
        }
        assert(list@ =~= self.lists@[slot as int]@);
        list.push(Conn { id, created: now });
        proof {
            lemma_parked_insert(old(self)@.idle, lease.key@, list@);
            assert(self@.with_list(lease.key@, list@).idle =~= old(self)@.with_list(
                lease.key@,
                list@,
            ).idle);
        }
        let live: usize = self.live;
        let idle: usize = self.parked + 1;
        self.put(lease.key.as_slice(), slot, list, live, idle);
        assert(self@ =~= old(self)@.ended(lease, now, is_closed));
        None
    }
}

/// Whether the connection of a lease that ended is parked.
pub open spec fn parks(pool: PoolView, lease: Lease, is_closed: bool) -> bool {
    &&& lease.conn() is Some
    &&& !is_closed
    &&& lease.reusable()
    &&& pool.list(lease.key()).len() < pool.per_device
}

/// The numbers of some connections, in order.
pub open spec fn ids_of(conns: Seq<Conn>) -> Seq<u64> {
    conns.map_values(|conn: Conn| conn.id)
}

/// The numbers of some connections, in order.
fn conn_ids(conns: &Vec<Conn>) -> (ids: Vec<u64>)
    ensures
        ids@ == ids_of(conns@),
{
    let mut ids: Vec<u64> = Vec::new();
    let mut i: usize = 0;
    while i < conns.len()
        invariant
            i <= conns@.len(),
            ids@ =~= ids_of(conns@.take(i as int)),
        decreases conns@.len() - i,
    {
        ids.push(conns[i].id);
        i += 1;
    }
    assert(conns@.take(i as int) =~= conns@);
    ids
}

/// Whether a number is listed.
fn listed(ids: &Vec<u64>, id: u64) -> (found: bool)
    ensures
        found == ids@.contains(id),
{
    let mut i: usize = 0;
    while i < ids.len()
        invariant
            i <= ids@.len(),
            forall|k: int| 0 <= k < i ==> ids@[k] != id,
        decreases ids@.len() - i,
    {
        if ids[i] == id {
            return true;
        }
        i += 1;
    }
    false
}

/// What borrowing hands out is fresh, and everything that it leaves in the pool
/// was there before, in the same order.
pub proof fn law_only_fresh_connections_are_lent(idle: Seq<Conn>, now: u64, closed: Seq<u64>)
    ensures
        match kept_idle(idle, now, closed) {
            Some(n) => {
                &&& n < idle.len()
                &&& usable(idle[n as int], now, closed)
                &&& forall|k: int|
                    n < k < idle.len() ==> !usable(#[trigger] idle[k], now, closed)
            },
            None => forall|k: int|
                0 <= k < idle.len() ==> !usable(#[trigger] idle[k], now, closed),
        },
    decreases idle.len(),
{
    if idle.len() > 0 && !usable(idle.last(), now, closed) {
        law_only_fresh_connections_are_lent(idle.drop_last(), now, closed);
        assert forall|k: int|
            0 <= k < idle.len() - 1 implies idle[k] == #[trigger] idle.drop_last()[k] by {}
        match kept_idle(idle, now, closed) {
            Some(n) => {
                assert(idle.drop_last()[n as int] == idle[n as int]);
                assert forall|k: int| n < k < idle.len() implies !usable(
                    #[trigger] idle[k],
                    now,
                    closed,
                ) by {
                    if k < idle.len() - 1 {
                        assert(idle.drop_last()[k] == idle[k]);
                    }
                }
            },
            None => {
                assert forall|k: int| 0 <= k < idle.len() implies !usable(
                    #[trigger] idle[k],
                    now,
                    closed,
                ) by {
                    if k < idle.len() - 1 {
                        assert(idle.drop_last()[k] == idle[k]);
                    }
                }
            },
        }
    }
}

/// A tunnel that was parked is the next one that the same installation borrows,
/// while it is fresh and open.
pub proof fn law_parked_tunnel_is_reused(idle: Seq<Conn>, conn: Conn, now: u64, closed: Seq<u64>)
    requires
        usable(conn, now, closed),
    ensures
        kept_idle(idle.push(conn), now, closed) == Some(idle.len()),
        idle.push(conn).take(idle.len() as int) == idle,
{
    assert(idle.push(conn).take(idle.len() as int) =~= idle);
}

/// Installations do not share tunnels: two routes have one pool key only where
/// both the bridge and the device are the same.
pub proof fn law_routes_have_keys_of_their_own(
    bridge_a: Seq<u8>,
    device_a: Seq<u8>,
    bridge_b: Seq<u8>,
    device_b: Seq<u8>,
)
    requires
        bridge_a.len() == 32,
        bridge_b.len() == 32,
        route_key(bridge_a, device_a) == route_key(bridge_b, device_b),
    ensures
        bridge_a == bridge_b,
        device_a == device_b,
{
    let a = route_key(bridge_a, device_a);
    let b = route_key(bridge_b, device_b);
    assert(a.take(32) =~= bridge_a && b.take(32) =~= bridge_b);
    assert(a.skip(32) =~= device_a && b.skip(32) =~= device_b);
}

/// One call on a pool.
pub enum PoolCall {
    /// An installation borrows.
    Acquire { key: Seq<u8>, now: u64, closed: Seq<u64> },
    /// A tunnel was opened.
    Opened,
    /// A lease ended.
    Finish { lease: Lease, now: u64, is_closed: bool },
    /// A tunnel that carried an upgrade is gone.
    Finished,
}

/// The pool after a call.
pub open spec fn pool_step(pool: PoolView, call: PoolCall) -> PoolView {
    match call {
        PoolCall::Acquire { key, now, closed } => pool.acquired(key, now, closed),
        PoolCall::Opened => pool.grown(),
        PoolCall::Finish { lease, now, is_closed } => pool.ended(lease, now, is_closed),
        PoolCall::Finished => pool.shrunk(),
    }
}

/// The pool after a run of calls.
pub open spec fn pool_run(pool: PoolView, calls: Seq<PoolCall>) -> PoolView
    decreases calls.len(),
{
    if calls.len() == 0 {
        pool
    } else {
        pool_step(pool_run(pool, calls.drop_last()), calls.last())
    }
}

/// What a call adds to the tunnels that are out: one that is opened or lent, or
/// one that is handed back or gone.
pub open spec fn out_by(pool: PoolView, call: PoolCall) -> int {
    match call {
        PoolCall::Acquire { key, now, closed } => if kept_idle(
            pool.list(key),
            now,
            closed,
        ) is Some {
            1
        } else {
            0
        },
        PoolCall::Opened => 1,
        PoolCall::Finish { .. } => -1,
        PoolCall::Finished => -1,
    }
}

/// The tunnels that a run has handed out and not seen again.
pub open spec fn out(pool: PoolView, calls: Seq<PoolCall>) -> int
    decreases calls.len(),
{
    if calls.len() == 0 {
        0
    } else {
        out(pool, calls.drop_last()) + out_by(pool_run(pool, calls.drop_last()), calls.last())
    }
}

/// Whether only tunnels that are out come back or end.
pub open spec fn orderly(pool: PoolView, calls: Seq<PoolCall>) -> bool
    decreases calls.len(),
{
    calls.len() == 0 || {
        &&& orderly(pool, calls.drop_last())
        &&& calls.last() is Finish || calls.last() is Finished ==> pool.held() + out(
            pool,
            calls.drop_last(),
        ) > 0
    }
}

/// The count of live tunnels is that of the tunnels that are held or parked: over
/// any run of calls in which only tunnels that are out come back, it is what was
/// held before, what the run has handed out and not seen again, and what is
/// parked. So an end always finds a tunnel to count down, and what is stale was
/// always counted.
pub proof fn law_live_is_what_is_held_or_parked(pool: PoolView, calls: Seq<PoolCall>)
    requires
        pool.wf(),
        orderly(pool, calls),
    ensures
        pool_run(pool, calls).wf(),
        pool_run(pool, calls).held() == pool.held() + out(pool, calls),
        pool_run(pool, calls).live == pool.held() + out(pool, calls) + parked(
            pool_run(pool, calls).idle,
        ),
    decreases calls.len(),
{
    if calls.len() > 0 {
        let before = calls.drop_last();
        law_live_is_what_is_held_or_parked(pool, before);
        let here = pool_run(pool, before);
        match calls.last() {
            PoolCall::Acquire { key, now, closed } => lemma_acquired(here, key, now, closed),
            PoolCall::Finish { lease, now, is_closed } => lemma_ended(here, lease, now, is_closed),
            _ => {},
        }
    }
}

/// Only the value `1` asks for plain tunnels.
pub proof fn law_plain_tunnels_are_asked_for_by_one(value: Seq<char>)
    ensures
        plain_asked(Some(value)) <==> value.len() == 1 && value[0] == '1',
        !plain_asked(None),
{
    reveal_strlit("1");
    if value.len() == 1 && value[0] == '1' {
        assert(value =~= "1"@);
    }
}

/// A route's tunnels go over the link of its own bridge, whatever the device.
pub proof fn law_tunnels_go_over_their_bridges_link(links: Map<Seq<u8>, u64>, route: HandleView)
    ensures
        links.contains_key(route.bridge_key) ==> link_for(links, route) == Ok::<u64, TunnelError>(
            links[route.bridge_key],
        ),
        !links.contains_key(route.bridge_key) ==> link_for(links, route) == Err::<
            u64,
            TunnelError,
        >(TunnelError::NotConnected),
{
}

/// What a bridge gets first on a new tunnel: the stream is opened under its id,
/// and its first 37 bytes are a phone's preamble for the route's bridge. Unless
/// the tunnel is plain, a Noise_IK handshake follows, with the route's private
/// key, to the route's bridge, and with these same 37 bytes as its prologue.
pub proof fn law_tunnels_start_with_their_preamble(
    id: u32,
    route: HandleView,
    plain: bool,
    start: TunnelStart,
    i: int,
)
    requires
        starts(id, route, plain, Ok::<TunnelStart, NoiseError>(start)),
        route.bridge_key.len() == 32,
        0 <= i < 32,
    ensures
        ({
            let head = content(start.first);
            &&& start.open@.id == id
            &&& start.open@.kind == 0
            &&& start.open@.payload.len() == 0
            &&& head.len() == 37
            &&& head[0] == 0x44 && head[1] == 0x53 && head[2] == 0x48 && head[3] == 0x43
            &&& head[4] == 1
            &&& head[5 + i] == route.bridge_key[i]
            &&& start.handshake is None <==> plain
            &&& start.handshake matches Some(handshake) ==> {
                &&& handshake.bridge() == route.bridge_key
                &&& initiator(
                    "Noise_IK_25519_ChaChaPoly_SHA256"@,
                    route.private_key,
                    route.bridge_key,
                    head,
                ) == Ok::<_, snow::Error>(handshake.state())
            }
        }),
{
}

/// An idle connection may be handed out for a minute after it was parked, and
/// not once it is known to be closed.
pub proof fn law_connections_stay_fresh_for_a_minute(conn: Conn, now: u64, closed: Seq<u64>)
    ensures
        usable(conn, now, closed) <==> now < conn.created + 60_000_000_000 && forall|k: int|
            0 <= k < closed.len() ==> (#[trigger] closed[k]) != conn.id,
{
}

/// Borrowing hands out the last connection that may be: those before it stay,
/// those behind it are taken out and are no longer live, and no other
/// installation's connections change.
pub proof fn law_borrowing_takes_the_last_usable(
    pool: PoolView,
    key: Seq<u8>,
    now: u64,
    closed: Seq<u64>,
    i: int,
    other: Seq<u8>,
)
    requires
        0 <= i < pool.list(key).len(),
        usable(pool.list(key)[i], now, closed),
        forall|k: int|
            i < k < pool.list(key).len() ==> !usable(#[trigger] pool.list(key)[k], now, closed),
        other != key,
        pool.wf(),
    ensures
        ({
            let list = pool.list(key);
            let after = pool.acquired(key, now, closed);
            &&& kept_idle(list, now, closed) == Some(i as nat)
            &&& after.list(key) == list.take(i)
            &&& pool.stale(key, now, closed) == list.skip(i + 1)
            &&& after.live == pool.live - (list.len() - i - 1)
            &&& after.list(other) == pool.list(other)
            &&& after.per_device == pool.per_device
        }),
{
    law_only_fresh_connections_are_lent(pool.list(key), now, closed);
    lemma_acquired(pool, key, now, closed);
    if pool.idle.contains_key(key) {
        lemma_parked_remove(pool.idle, key);
    }
}

/// Where none may be handed out, all of the installation's connections are taken
/// out and are no longer live.
pub proof fn law_stale_connections_are_taken_out(
    pool: PoolView,
    key: Seq<u8>,
    now: u64,
    closed: Seq<u64>,
    other: Seq<u8>,
)
    requires
        forall|k: int|
            0 <= k < pool.list(key).len() ==> !usable(#[trigger] pool.list(key)[k], now, closed),
        other != key,
        pool.wf(),
    ensures
        ({
            let list = pool.list(key);
            let after = pool.acquired(key, now, closed);
            &&& kept_idle(list, now, closed) is None
            &&& after.list(key).len() == 0
            &&& pool.stale(key, now, closed) == list
            &&& after.live == pool.live - list.len()
            &&& after.list(other) == pool.list(other)
            &&& after.per_device == pool.per_device
        }),
{
    law_only_fresh_connections_are_lent(pool.list(key), now, closed);
    lemma_acquired(pool, key, now, closed);
}

/// A lease that ends parks its connection behind those that wait, under the time
/// of its end, where the connection is there and open, may be reused, and finds
/// room; then it stays live. Otherwise one tunnel less is live, and nothing is
/// parked.
pub proof fn law_leases_park_their_connection(
    pool: PoolView,
    lease: Lease,
    now: u64,
    is_closed: bool,
    other: Seq<u8>,
)
    requires
        other != lease.key(),
        pool.live > 0,
    ensures
        ({
            let list = pool.list(lease.key());
            let after = pool.ended(lease, now, is_closed);
            let parked_now = lease.conn() is Some && !is_closed && lease.reusable() && list.len()
                < pool.per_device;
            &&& parks(pool, lease, is_closed) <==> parked_now
            &&& parked_now ==> after.live == pool.live && after.list(lease.key()).len() == list.len()
                + 1 && after.list(lease.key()).drop_last() == list && after.list(
                lease.key(),
            ).last().created == now && lease.conn() == Some(after.list(lease.key()).last().id)
            &&& !parked_now ==> after.live == pool.live - 1 && after.list(lease.key()) == list
            &&& after.list(other) == pool.list(other)
            &&& after.per_device == pool.per_device
        }),
{
    let list = pool.list(lease.key());
    if parks(pool, lease, is_closed) {
        assert(list.push(Conn { id: lease.conn()->0, created: now }).drop_last() =~= list);
    }
}

/// A tunnel that is opened is one more that is live, and one that is gone one
/// less; neither changes what is parked.
pub proof fn law_tunnels_are_counted_one_by_one(pool: PoolView)
    ensures
        pool.grown().live == pool.live + 1,
        pool.live > 0 ==> pool.shrunk().live == pool.live - 1,
        pool.grown().idle == pool.idle && pool.shrunk().idle == pool.idle,
        pool.grown().per_device == pool.per_device && pool.shrunk().per_device == pool.per_device,
{
}

/// A list of connections is told by their numbers, one for one and in order.
pub proof fn law_connections_go_by_their_numbers(conns: Seq<Conn>, i: int)
    requires
        0 <= i < conns.len(),
    ensures
        ids_of(conns).len() == conns.len(),
        ids_of(conns)[i] == conns[i].id,
{
}

} // verus!
