//! What a connection is, and which bridge link a key leads to.

use dashmap::DashMap;
use vstd::prelude::*;

use crate::table::{entries, get, insert, new_table, remove};
use crate::wire::{HEAD_LEN, MAGIC_BRIDGE, MAGIC_CLIENT, VERSION};

verus! {

/// A connection that does not deliver its preamble within this many seconds is
/// not a client of ours.
pub const PREAMBLE_TIMEOUT_SECS: u64 = 5;

/// First byte of a TLS ClientHello record.
pub const TLS_HANDSHAKE: u8 = 0x16;

/// What the first byte of a connection says.
#[derive(PartialEq, Eq, Structural, Clone, Copy, Debug)]
pub enum Opening {
    /// A TLS client: terminate it and serve HTTP/1.1.
    Tls,
    /// A plaintext preamble may follow.
    Preamble,
}

/// What a connection with this first byte is.
pub open spec fn opens_with(first: u8) -> Opening {
    if first == TLS_HANDSHAKE {
        Opening::Tls
    } else {
        Opening::Preamble
    }
}

/// Decide from its first byte what a connection is.
pub fn sniff(first: u8) -> (opening: Opening)
    ensures
        opening == opens_with(first),
        opening == (if first == 0x16 {
            Opening::Tls
        } else {
            Opening::Preamble
        }),
{
    if first == TLS_HANDSHAKE {
        Opening::Tls
    } else {
        Opening::Preamble
    }
}

/// Who speaks, by the preamble.
pub enum Greeting {
    /// A bridge; a Noise_XX handshake follows.
    Bridge,
    /// A mobile client, and the key of the bridge that it addresses.
    Client([u8; 32]),
    /// Anyone else gets nothing back: an unknown speaker learns nothing.
    Nobody,
}

/// A preamble: magic(4) + ver(1) + key(32).
pub open spec fn head_bytes(magic: Seq<u8>, version: u8, key: Seq<u8>) -> Seq<u8> {
    magic + seq![version] + key
}

/// Whether a preamble says what a greeting stands for.
pub open spec fn greets(head: Seq<u8>, greeting: Greeting) -> bool {
    match greeting {
        Greeting::Bridge => head[4] == VERSION && head.take(4) == MAGIC_BRIDGE@,
        Greeting::Client(key) => head[4] == VERSION && head.take(4) == MAGIC_CLIENT@ && key@
            == head.skip(5),
        Greeting::Nobody => head[4] != VERSION || head.take(4) != MAGIC_BRIDGE@ && head.take(4)
            != MAGIC_CLIENT@,
    }
}

/// Whether four bytes are a magic.
fn is_magic(head: &[u8; 37], magic: [u8; 4]) -> (same: bool)
    ensures
        same == (head@.take(4) == magic@),
{
    let same: bool = head[0] == magic[0] && head[1] == magic[1] && head[2] == magic[2] && head[3]
        == magic[3];
    proof {
        if same {
            assert(head@.take(4) =~= magic@);
        } else {
            let first = head@.take(4);
            assert(first[0] != magic@[0] || first[1] != magic@[1] || first[2] != magic@[2]
                || first[3] != magic@[3]);
        }
    }
    same
}

/// Read a preamble.
pub fn greeting(head: &[u8; 37]) -> (greeting: Greeting)
    ensures
        greets(head@, greeting),
{
    if head[4] != VERSION {
        return Greeting::Nobody;
    }
    if is_magic(head, MAGIC_BRIDGE) {
        return Greeting::Bridge;
    }
    if is_magic(head, MAGIC_CLIENT) {
        let mut key: [u8; 32] = [0u8; 32];
        let mut i: usize = 0;
        while i < 32
            invariant
                i <= 32,
                forall|k: int| 0 <= k < i ==> key@[k] == head@[5 + k],
            decreases 32 - i,
        {
            key[i] = head[5 + i];
            i += 1;
        }
        assert(key@ =~= head@.skip(5));
        return Greeting::Client(key);
    }
    Greeting::Nobody
}

/// A greeting is decided by the preamble alone: no preamble greets as two
/// different speakers, or for two bridges.
pub proof fn law_a_preamble_says_one_thing(head: Seq<u8>, a: Greeting, b: Greeting)
    requires
        head.len() == HEAD_LEN,
        greets(head, a),
        greets(head, b),
    ensures
        a is Bridge <==> b is Bridge,
        a is Nobody <==> b is Nobody,
        a matches Greeting::Client(key) ==> (b matches Greeting::Client(other) && key@ == other@),
{
    assert(MAGIC_BRIDGE@[3] != MAGIC_CLIENT@[3]);
}

/// The 37-byte preamble a bridge expects from a phone.
///
/// It is also the Noise prologue, so it must be written and mixed in exactly as
/// one buffer.
pub fn preamble(bridge_key: &[u8; 32]) -> (head: Vec<u8>)
    ensures
        head@ == head_bytes(MAGIC_CLIENT@, VERSION, bridge_key@),
        head@.len() == HEAD_LEN,
{
    let mut head: Vec<u8> = Vec::new();
    head.extend_from_slice(&MAGIC_CLIENT);
    head.push(VERSION);
    head.extend_from_slice(bridge_key);
    assert(head@ =~= head_bytes(MAGIC_CLIENT@, VERSION, bridge_key@));
    head
}

/// The 37-byte preamble of a bridge that dials out. What stands in the place of a
/// key is not read: the handshake that follows proves the bridge's key.
pub fn bridge_preamble(key: &[u8; 32]) -> (head: Vec<u8>)
    ensures
        head@ == head_bytes(MAGIC_BRIDGE@, VERSION, key@),
        head@.len() == HEAD_LEN,
{
    let mut head: Vec<u8> = Vec::new();
    head.extend_from_slice(&MAGIC_BRIDGE);
    head.push(VERSION);
    head.extend_from_slice(key);
    assert(head@ =~= head_bytes(MAGIC_BRIDGE@, VERSION, key@));
    head
}

/// A bridge's preamble is understood as a bridge's, whatever key it names.
pub proof fn law_bridge_preamble_greets_as_a_bridge(key: Seq<u8>, greeting: Greeting)
    requires
        key.len() == 32,
        greets(head_bytes(MAGIC_BRIDGE@, VERSION, key), greeting),
    ensures
        greeting is Bridge,
{
    let head = head_bytes(MAGIC_BRIDGE@, VERSION, key);
    assert(head.take(4) =~= MAGIC_BRIDGE@);
    assert(MAGIC_BRIDGE@[3] != MAGIC_CLIENT@[3]);
}

/// A phone's preamble is understood as what it says: a client of the bridge
/// whose key it names, and of no other.
pub proof fn law_preamble_names_its_bridge(key: Seq<u8>, greeting: Greeting)
    requires
        key.len() == 32,
        greets(head_bytes(MAGIC_CLIENT@, VERSION, key), greeting),
    ensures
        greeting matches Greeting::Client(addressed) && addressed@ == key,
{
    let head = head_bytes(MAGIC_CLIENT@, VERSION, key);
    assert(head.take(4) =~= MAGIC_CLIENT@);
    assert(head.skip(5) =~= key);
    assert(MAGIC_BRIDGE@[3] != MAGIC_CLIENT@[3]);
}

/// Which live bridge link each routing key leads to. A link goes by a number of
/// the caller's that no two links share.
pub struct Table {
    links: DashMap<Vec<u8>, u64>,
}

impl View for Table {
    type V = Map<Seq<u8>, u64>;

    closed spec fn view(&self) -> Map<Seq<u8>, u64> {
        entries(self.links)
    }
}

/// The link that a key leads to.
pub open spec fn leads_to(links: Map<Seq<u8>, u64>, key: Seq<u8>) -> Option<u64> {
    if links.contains_key(key) {
        Some(links[key])
    } else {
        None
    }
}

/// The table after a link ended: its entry is gone, unless a later link has
/// replaced it.
pub open spec fn unregistered(links: Map<Seq<u8>, u64>, key: Seq<u8>, link: u64) -> Map<
    Seq<u8>,
    u64,
> {
    if leads_to(links, key) == Some(link) {
        links.remove(key)
    } else {
        links
    }
}

impl Table {
    /// No bridge is connected.
    pub fn new() -> (table: Self)
        ensures
            table@ == Map::<Seq<u8>, u64>::empty(),
    {
        Table { links: new_table() }
    }

    /// Register a link under the key that its handshake proved. A link that had
    /// the key before is displaced, and comes back to be shut down: it is no
    /// longer addressable, and left open it would keep a socket whose
    /// keepalives still flow but which no phone can ever reach.
    pub fn register(&mut self, key: &[u8; 32], link: u64) -> (displaced: Option<u64>)
        ensures
            final(self)@ == old(self)@.insert(key@, link),
            displaced == leads_to(old(self)@, key@),
    {
        insert(&mut self.links, key, link)
    }

    /// A link ended. Only drop the entry if a later link has not replaced it.
    pub fn unregister(&mut self, key: &[u8; 32], link: u64)
        ensures
            final(self)@ == unregistered(old(self)@, key@, link),
    {
        if let Some(current) = get(&self.links, key) {
            if current == link {
                remove(&mut self.links, key);
            }
        }
    }

    /// The link that a key leads to, if its bridge is connected.
    pub fn lookup(&self, key: &[u8; 32]) -> (link: Option<u64>)
        ensures
            link == leads_to(self@, key@),
    {
        get(&self.links, key)
    }
}

/// The latest registration of a key wins, and stays when the link that it
/// displaced ends; its own end leaves the key unknown.
pub proof fn law_latest_registration_wins(
    links: Map<Seq<u8>, u64>,
    key: Seq<u8>,
    first: u64,
    second: u64,
)
    requires
        first != second,
    ensures
        ({
            let both = links.insert(key, first).insert(key, second);
            &&& leads_to(both, key) == Some(second)
            &&& leads_to(unregistered(both, key, first), key) == Some(second)
            &&& leads_to(unregistered(both, key, second), key) is None
        }),
{
}

/// Bridges come and go without touching each other's routes.
pub proof fn law_routes_are_separate(
    links: Map<Seq<u8>, u64>,
    key: Seq<u8>,
    link: u64,
    other: Seq<u8>,
)
    requires
        other != key,
    ensures
        leads_to(links.insert(key, link), other) == leads_to(links, other),
        leads_to(unregistered(links, key, link), other) == leads_to(links, other),
{
}

/// A connection is taken for TLS exactly when its first byte is 22, the type of a
/// TLS handshake record; no preamble starts with it.
pub proof fn law_tls_opens_with_a_handshake_record(first: u8, version: u8, key: Seq<u8>)
    ensures
        opens_with(first) == Opening::Tls <==> first == 22,
        opens_with(head_bytes(MAGIC_CLIENT@, version, key)[0]) == Opening::Preamble,
        opens_with(head_bytes(MAGIC_BRIDGE@, version, key)[0]) == Opening::Preamble,
{
}

/// Where each part of a preamble stands: the magic in the first four bytes, the
/// version in the fifth, and the key in the 32 behind it.
pub proof fn law_preamble_layout(key: Seq<u8>, i: int)
    requires
        key.len() == 32,
        0 <= i < 32,
    ensures
        ({
            let phone = head_bytes(MAGIC_CLIENT@, VERSION, key);
            let bridge = head_bytes(MAGIC_BRIDGE@, VERSION, key);
            &&& phone.len() == 37 && bridge.len() == 37
            &&& phone.take(4) == seq![0x44u8, 0x53, 0x48, 0x43]
            &&& bridge.take(4) == seq![0x44u8, 0x53, 0x48, 0x42]
            &&& phone[4] == 1 && bridge[4] == 1
            &&& phone[5 + i] == key[i] && bridge[5 + i] == key[i]
        }),
{
    assert(head_bytes(MAGIC_CLIENT@, VERSION, key).take(4) =~= seq![0x44u8, 0x53, 0x48, 0x43]);
    assert(head_bytes(MAGIC_BRIDGE@, VERSION, key).take(4) =~= seq![0x44u8, 0x53, 0x48, 0x42]);
}

/// Who speaks is decided by the first five bytes alone: `DSHB` and version 1 is a
/// bridge, `DSHC` and version 1 a client of the bridge that the other 32 bytes
/// name, and anything else nobody.
pub proof fn law_preambles_are_read_by_place(head: Seq<u8>, greeting: Greeting)
    requires
        head.len() == 37,
        greets(head, greeting),
    ensures
        ({
            let ours = head[0] == 0x44 && head[1] == 0x53 && head[2] == 0x48 && head[4] == 1;
            &&& greeting is Bridge <==> ours && head[3] == 0x42
            &&& greeting is Client <==> ours && head[3] == 0x43
            &&& greeting matches Greeting::Client(key) ==> key@ == head.subrange(5, 37)
        }),
{
    let first = head.take(4);
    assert(MAGIC_BRIDGE@ =~= seq![0x44u8, 0x53, 0x48, 0x42]);
    assert(MAGIC_CLIENT@ =~= seq![0x44u8, 0x53, 0x48, 0x43]);
    assert(first[0] == head[0] && first[1] == head[1] && first[2] == head[2] && first[3] == head[3]);
    if head[0] == 0x44 && head[1] == 0x53 && head[2] == 0x48 {
        if head[3] == 0x42 {
            assert(first =~= MAGIC_BRIDGE@);
        }
        if head[3] == 0x43 {
            assert(first =~= MAGIC_CLIENT@);
        }
    }
    assert(head.skip(5) =~= head.subrange(5, 37));
}

/// A key leads to the link that it was last registered for; one that ends is
/// taken out only where the key still leads to it.
pub proof fn law_links_leave_only_their_own_route(
    links: Map<Seq<u8>, u64>,
    key: Seq<u8>,
    link: u64,
)
    ensures
        leads_to(links, key) is Some <==> links.contains_key(key),
        links.contains_key(key) ==> leads_to(links, key) == Some(links[key]),
        links.contains_key(key) && links[key] == link ==> unregistered(links, key, link)
            == links.remove(key),
        !(links.contains_key(key) && links[key] == link) ==> unregistered(links, key, link)
            == links,
{
}

} // verus!
