//! Who is let in: the ceilings on bridge links and on clients, process-wide and
//! per peer address.

use dashmap::DashMap;
use vstd::prelude::*;

use crate::mux::max_permits;
use crate::table::{entries, get, insert, new_table, remove};

verus! {

/// Connections currently held per peer address.
pub struct PeerSlots {
    counts: DashMap<Vec<u8>, u64>,
}

/// How many slots a peer address holds.
pub open spec fn held_by(counts: Map<Seq<u8>, u64>, ip: Seq<u8>) -> u64 {
    if counts.contains_key(ip) {
        counts[ip]
    } else {
        0
    }
}

/// The counts after a claim, and whether the claim was granted. A refused peer
/// is in the table too, with the count that it had.
pub open spec fn claimed(counts: Map<Seq<u8>, u64>, ip: Seq<u8>, max: u64) -> (
    Map<Seq<u8>, u64>,
    bool,
) {
    let n = held_by(counts, ip);
    if n >= max {
        (counts.insert(ip, n), false)
    } else {
        (counts.insert(ip, (n + 1) as u64), true)
    }
}

/// The counts after a slot was given back. The key is reclaimed once the last
/// holder let go, so the table tracks live peers rather than every address the
/// process has ever seen.
pub open spec fn released(counts: Map<Seq<u8>, u64>, ip: Seq<u8>) -> Map<Seq<u8>, u64> {
    if held_by(counts, ip) <= 1 {
        counts.remove(ip)
    } else {
        counts.insert(ip, (counts[ip] - 1) as u64)
    }
}

impl View for PeerSlots {
    type V = Map<Seq<u8>, u64>;

    closed spec fn view(&self) -> Map<Seq<u8>, u64> {
        entries(self.counts)
    }
}

impl PeerSlots {
    /// No peer holds anything.
    pub fn new() -> (slots: Self)
        ensures
            slots@ == Map::<Seq<u8>, u64>::empty(),
    {
        PeerSlots { counts: new_table() }
    }

    /// Claim a slot for the octets of an address; refused when the peer already
    /// holds its share.
    pub fn claim(&mut self, ip: &[u8], max: usize) -> (granted: bool)
        ensures
            final(self)@ == claimed(old(self)@, ip@, max as u64).0,
            granted == claimed(old(self)@, ip@, max as u64).1,
    {
        let n: u64 = match get(&self.counts, ip) {
            Some(n) => n,
            None => 0,
        };
        if n >= max as u64 {
            insert(&mut self.counts, ip, n);
            return false;
        }
        insert(&mut self.counts, ip, n + 1);
        true
    }

    /// Give a slot back.
    pub fn release(&mut self, ip: &[u8])
        ensures
            final(self)@ == released(old(self)@, ip@),
    {
        let n: u64 = match get(&self.counts, ip) {
            Some(n) => n,
            None => 0,
        };
        if n <= 1 {
            remove(&mut self.counts, ip);
        } else {
            insert(&mut self.counts, ip, n - 1);
        }
    }
}

/// No peer address ever holds more than its share: every claim and every
/// release keeps all counts within the limit.
pub proof fn law_share_is_never_exceeded(
    counts: Map<Seq<u8>, u64>,
    ip: Seq<u8>,
    other: Seq<u8>,
    max: u64,
)
    requires
        held_by(counts, other) <= max,
    ensures
        held_by(claimed(counts, ip, max).0, other) <= max,
        held_by(released(counts, ip), other) <= max,
{
}

/// A claim is granted exactly while the peer holds less than its share, and
/// changes no other peer's count; nor does a release.
pub proof fn law_peers_are_counted_apart(
    counts: Map<Seq<u8>, u64>,
    ip: Seq<u8>,
    other: Seq<u8>,
    max: u64,
)
    requires
        other != ip,
    ensures
        claimed(counts, ip, max).1 <==> held_by(counts, ip) < max,
        held_by(claimed(counts, ip, max).0, other) == held_by(counts, other),
        held_by(released(counts, ip), other) == held_by(counts, other),
{
}

/// Giving back what was just granted undoes the claim, so the table does not
/// grow with peers long gone.
pub proof fn law_release_undoes_a_claim(counts: Map<Seq<u8>, u64>, ip: Seq<u8>, max: u64)
    requires
        claimed(counts, ip, max).1,
        counts.contains_key(ip) ==> counts[ip] > 0,
    ensures
        released(claimed(counts, ip, max).0, ip) == counts,
{
    assert(released(claimed(counts, ip, max).0, ip) =~= counts);
}

/// Bridge admission: a process-wide budget, then the peer's share.
pub struct BridgeDoor {
    /// Links that the process may still take.
    free: usize,
    max_bridges: usize,
    max_per_ip: usize,
    peers: PeerSlots,
}

/// What the door holds.
#[verifier::ext_equal]
pub struct DoorView {
    pub free: nat,
    pub max_bridges: nat,
    pub max_per_ip: u64,
    pub peers: Map<Seq<u8>, u64>,
}

impl View for BridgeDoor {
    type V = DoorView;

    closed spec fn view(&self) -> DoorView {
        DoorView {
            free: self.free as nat,
            max_bridges: self.max_bridges as nat,
            max_per_ip: self.max_per_ip as u64,
            peers: self.peers@,
        }
    }
}

/// One admitted bridge link, until it is handed back.
pub struct BridgeSlot {
    ip: Vec<u8>,
}

impl BridgeSlot {
    /// The address that holds the slot.
    pub closed spec fn ip(&self) -> Seq<u8> {
        self.ip@
    }
}

impl DoorView {
    /// No more is free than there ever was.
    pub open spec fn wf(self) -> bool {
        self.free <= self.max_bridges <= max_permits()
    }

    /// The door after a bridge asked to come in, and whether it may. The
    /// process-wide budget is asked first; without it the peer is not counted.
    pub open spec fn entered(self, ip: Seq<u8>) -> (DoorView, bool) {
        if self.free == 0 {
            (self, false)
        } else {
            let (peers, granted) = claimed(self.peers, ip, self.max_per_ip);
            (
                DoorView {
                    free: if granted {
                        (self.free - 1) as nat
                    } else {
                        self.free
                    },
                    peers,
                    ..self
                },
                granted,
            )
        }
    }

    /// The door after a bridge left.
    pub open spec fn left(self, ip: Seq<u8>) -> DoorView {
        DoorView {
            free: if self.free < self.max_bridges {
                self.free + 1
            } else {
                self.free
            },
            peers: released(self.peers, ip),
            ..self
        }
    }
}

impl BridgeDoor {
    /// A door that nobody has passed yet.
    pub fn new(max_bridges: usize, max_per_ip: usize) -> (door: Self)
        requires
            max_bridges <= max_permits(),
        ensures
            door@.wf(),
            door@ == (DoorView {
                free: max_bridges as nat,
                max_bridges: max_bridges as nat,
                max_per_ip: max_per_ip as u64,
                peers: Map::empty(),
            }),
    {
        BridgeDoor { free: max_bridges, max_bridges, max_per_ip, peers: PeerSlots::new() }
    }

    /// Ask for a slot. This comes before any cryptography: a rejected bridge
    /// costs one packet, and the slot is held for the whole link.
    pub fn enter(&mut self, ip: &[u8]) -> (slot: Option<BridgeSlot>)
        requires
            old(self)@.wf(),
        ensures
            final(self)@.wf(),
            final(self)@ == old(self)@.entered(ip@).0,
            slot is Some <==> old(self)@.entered(ip@).1,
            slot matches Some(slot) ==> slot.ip() == ip@,
    {
        if self.free == 0 {
            return None;
        }
        let max: usize = self.max_per_ip;
        if !self.peers.claim(ip, max) {
            return None;
        }
        self.free = self.free - 1;
        let mut octets: Vec<u8> = Vec::new();
        octets.extend_from_slice(ip);
        assert(octets@ =~= ip@);
        Some(BridgeSlot { ip: octets })
    }

    /// Give a slot back.
    pub fn leave(&mut self, slot: BridgeSlot)
        requires
            old(self)@.wf(),
        ensures
            final(self)@.wf(),
            final(self)@ == old(self)@.left(slot.ip()),
    {
        if self.free < self.max_bridges {
            self.free = self.free + 1;
        }
        self.peers.release(slot.ip.as_slice());
    }
}

/// A bridge is let in exactly when the process has a slot left and its address
/// holds less than its share; one that leaves puts everything back.
pub proof fn law_leaving_undoes_entering(door: DoorView, ip: Seq<u8>)
    requires
        door.wf(),
        door.peers.contains_key(ip) ==> door.peers[ip] > 0,
    ensures
        door.entered(ip).1 <==> door.free > 0 && held_by(door.peers, ip) < door.max_per_ip,
        door.entered(ip).1 ==> door.entered(ip).0.left(ip) == door,
{
    if door.entered(ip).1 {
        law_release_undoes_a_claim(door.peers, ip, door.max_per_ip);
        assert(door.entered(ip).0.left(ip) =~= door);
    }
}

/// A granted claim adds one to the peer's count, a refused one nothing, and a
/// release takes one away, down to none.
pub proof fn law_slots_are_counted_one_by_one(counts: Map<Seq<u8>, u64>, ip: Seq<u8>, max: u64)
    ensures
        held_by(counts, ip) == (if counts.contains_key(ip) {
            counts[ip]
        } else {
            0
        }),
        held_by(counts, ip) < max ==> claimed(counts, ip, max).1 && held_by(
            claimed(counts, ip, max).0,
            ip,
        ) == held_by(counts, ip) + 1,
        held_by(counts, ip) >= max ==> !claimed(counts, ip, max).1 && held_by(
            claimed(counts, ip, max).0,
            ip,
        ) == held_by(counts, ip),
        held_by(counts, ip) > 0 ==> held_by(released(counts, ip), ip) == held_by(counts, ip) - 1,
        held_by(counts, ip) == 0 ==> held_by(released(counts, ip), ip) == 0,
        held_by(counts, ip) <= 1 ==> !released(counts, ip).contains_key(ip),
{
}

/// The door lets one link in for each slot: a slot is used up by every bridge
/// that comes in and by no other, and comes back with every one that leaves; the
/// two ceilings never change.
pub proof fn law_doors_count_their_slots(door: DoorView, ip: Seq<u8>)
    requires
        door.wf(),
    ensures
        ({
            let (after, admitted) = door.entered(ip);
            &&& admitted <==> door.free > 0 && held_by(door.peers, ip) < door.max_per_ip
            &&& admitted ==> after.free == door.free - 1 && held_by(after.peers, ip) == held_by(
                door.peers,
                ip,
            ) + 1
            &&& !admitted ==> after.free == door.free && held_by(after.peers, ip) == held_by(
                door.peers,
                ip,
            )
            &&& after.max_bridges == door.max_bridges && after.max_per_ip == door.max_per_ip
        }),
        ({
            let after = door.left(ip);
            &&& door.free < door.max_bridges ==> after.free == door.free + 1
            &&& held_by(door.peers, ip) > 0 ==> held_by(after.peers, ip) == held_by(door.peers, ip)
                - 1
            &&& after.max_bridges == door.max_bridges && after.max_per_ip == door.max_per_ip
        }),
{
}

} // verus!
