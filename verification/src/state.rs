//! Paired-device registry and bearer tokens.
//!
//! With TLS terminating here, the proxy holds one X25519 device key per paired
//! installation: the key is what a bridge whitelists, so the bridge's existing
//! device list, 180-day expiry and revocation keep working unchanged. A client
//! never holds that key: it holds a bearer token, and only the token's hash is
//! stored, so a leaked state file is not a set of usable credentials.
//!
//! Where the records are kept between two runs, and whether they are, is the
//! caller's.

use vstd::prelude::*;
use vstd::utf8::encode_utf8;

use crate::crypto::{
    base64url_bytes, base64url_text, decode_base64url, encode_base64url, random_bytes, sha256,
    sha256_digest, x25519_public, MAX_DIGEST_INPUT,
};
use crate::noise::{key32, public_key_of};

verus! {

/// Compare two short byte strings without leaking where they differ: fixed
/// work, no early exit.
pub fn constant_time_eq(a: &[u8], b: &[u8]) -> (same: bool)
    ensures
        same == (a@ == b@),
{
    if a.len() != b.len() {
        return false;
    }
    let mut difference: u8 = 0;
    let mut i: usize = 0;
    assert(a@.take(0) =~= b@.take(0));
    while i < a.len()
        invariant
            i <= a@.len(),
            a@.len() == b@.len(),
            difference == 0 <==> a@.take(i as int) == b@.take(i as int),
        decreases a@.len() - i,
    {
        let left: u8 = a[i];
        let right: u8 = b[i];
        let before: u8 = difference;
        difference = difference | (left ^ right);
        assert((before | (left ^ right)) == 0 <==> before == 0 && left == right) by (bit_vector);
        assert(a@.take(i + 1) =~= a@.take(i as int).push(left));
        assert(b@.take(i + 1) =~= b@.take(i as int).push(right));
        assert(a@.take(i + 1).take(i as int) =~= a@.take(i as int));
        assert(b@.take(i + 1).take(i as int) =~= b@.take(i as int));
        assert(a@.take(i + 1)[i as int] == left && b@.take(i + 1)[i as int] == right);
        i += 1;
    }
    assert(a@.take(i as int) =~= a@ && b@.take(i as int) =~= b@);
    difference == 0
}

/// Everything one request needs to address and authenticate a bridge.
#[derive(Clone)]
pub struct DeviceHandle {
    /// Routing key, and the bridge's static public key.
    pub bridge_key: [u8; 32],
    /// The device's static public key; the bridge's whitelist entry.
    pub device_id: [u8; 32],
    /// The device's static private key, held only by the proxy.
    pub private_key: Vec<u8>,
    /// Label shown on the Mac's device list.
    pub name: String,
}

/// What a device handle says.
pub struct HandleView {
    pub bridge_key: Seq<u8>,
    pub device_id: Seq<u8>,
    pub private_key: Seq<u8>,
    pub name: Seq<char>,
}

impl View for DeviceHandle {
    type V = HandleView;

    open spec fn view(&self) -> HandleView {
        HandleView {
            bridge_key: self.bridge_key@,
            device_id: self.device_id@,
            private_key: self.private_key@,
            name: self.name@,
        }
    }
}

/// One pairing, as it is kept: keys and hash in URL-safe base64.
pub struct Record {
    pub bridge_key: String,
    pub device_id: String,
    pub private_key: String,
    /// SHA-256 of the bearer token. The token itself is not stored.
    pub token_hash: String,
    pub name: String,
    pub created_at: u64,
}

/// What a record says.
pub struct RecordView {
    pub bridge_key: Seq<char>,
    pub device_id: Seq<char>,
    pub private_key: Seq<char>,
    pub token_hash: Seq<char>,
    pub name: Seq<char>,
    pub created_at: u64,
}

impl View for Record {
    type V = RecordView;

    open spec fn view(&self) -> RecordView {
        RecordView {
            bridge_key: self.bridge_key@,
            device_id: self.device_id@,
            private_key: self.private_key@,
            token_hash: self.token_hash@,
            name: self.name@,
            created_at: self.created_at,
        }
    }
}

/// Why a device is not admitted, or a key not read.
#[derive(Debug)]
pub enum StateError {
    /// A private key that is not 32 bytes.
    PrivateKeyLength,
    /// The system has no randomness to give.
    NoRandomness,
    /// A text that is not URL-safe base64.
    NotBase64,
    /// A key that is not 32 bytes.
    KeyLength,
}

impl StateError {
    /// The error in words.
    pub fn message(&self) -> (text: &'static str)
        ensures
            text@ == (match *self {
                StateError::PrivateKeyLength => "private key must be 32 bytes"@,
                StateError::NoRandomness => "system randomness unavailable"@,
                StateError::NotBase64 => "not base64url"@,
                StateError::KeyLength => "expected a 32-byte key"@,
            }),
    {
        match self {
            StateError::PrivateKeyLength => "private key must be 32 bytes",
            StateError::NoRandomness => "system randomness unavailable",
            StateError::NotBase64 => "not base64url",
            StateError::KeyLength => "expected a 32-byte key",
        }
    }
}

/// The hash of a token.
pub open spec fn token_digest(token: Seq<char>) -> Seq<u8> {
    sha256_digest(encode_utf8(token))
}

/// Hash a token. Tokens are 256-bit, so a plain hash needs no salt or stretch.
pub fn hash_token(token: &str) -> (hash: Vec<u8>)
    requires
        encode_utf8(token@).len() <= MAX_DIGEST_INPUT,
    ensures
        hash@ == token_digest(token@),
        hash@.len() == 32,
{
    sha256(token.as_bytes())
}

/// A token is 32 bytes in URL-safe base64.
pub open spec fn is_token(token: Seq<char>) -> bool {
    exists|secret: Seq<u8>| secret.len() == 32 && token == #[trigger] base64url_text(secret)
}

/// The token that 32 drawn bytes make.
pub fn token_of(secret: Option<[u8; 32]>) -> (token: Result<String, StateError>)
    ensures
        match secret {
            Some(secret) => token matches Ok(text) && text@ == base64url_text(secret@)
                && text@.len() > 0 && encode_utf8(text@).len() == 43,
            None => token == Err::<String, StateError>(StateError::NoRandomness),
        },
{
    match secret {
        Some(secret) => Ok(encode_base64url(&secret)),
        None => Err(StateError::NoRandomness),
    }
}

/// A fresh token. Whether there is one, and which, rests with the system's
/// randomness.
pub fn random_token() -> (token: Result<String, StateError>)
    ensures
        match token {
            Ok(text) => is_token(text@) && text@.len() > 0 && encode_utf8(text@).len() == 43,
            Err(error) => error == StateError::NoRandomness,
        },
{
    let secret = random_bytes();
    let token = token_of(secret);
    assert(secret matches Some(s) ==> s@.len() == 32 && token->Ok_0@ == base64url_text(s@));
    token
}

/// What a 32-byte key in URL-safe base64 spells.
pub open spec fn key_of(text: Seq<char>) -> Result<Seq<u8>, StateError> {
    match base64url_bytes(text) {
        None => Err(StateError::NotBase64),
        Some(bytes) => if bytes.len() == 32 {
            Ok(bytes)
        } else {
            Err(StateError::KeyLength)
        },
    }
}

/// Read a 32-byte key.
pub fn decode32(text: &str) -> (key: Result<[u8; 32], StateError>)
    ensures
        match key {
            Ok(bytes) => key_of(text@) == Ok::<Seq<u8>, StateError>(bytes@),
            Err(error) => key_of(text@) == Err::<Seq<u8>, StateError>(error),
        },
{
    match decode_base64url(text) {
        Some(bytes) => match key32(bytes.as_slice()) {
            Some(key) => Ok(key),
            None => Err(StateError::KeyLength),
        },
        None => Err(StateError::NotBase64),
    }
}

/// What a record lets its token's bearer use, if its keys can be read.
pub open spec fn handle_of(record: RecordView) -> Option<HandleView> {
    match (
        key_of(record.bridge_key),
        key_of(record.device_id),
        base64url_bytes(record.private_key),
    ) {
        (Ok(bridge_key), Ok(device_id), Some(private_key)) => Some(
            HandleView { bridge_key, device_id, private_key, name: record.name },
        ),
        _ => None,
    }
}

/// What the bearer of a token with this hash may use: what the first record
/// with the hash says. A hash that cannot be read ends the search.
pub open spec fn resolved(records: Seq<RecordView>, hash: Seq<u8>) -> Option<HandleView>
    decreases records.len(),
{
    if records.len() == 0 {
        None
    } else {
        match base64url_bytes(records[0].token_hash) {
            None => None,
            Some(stored) => if stored == hash {
                handle_of(records[0])
            } else {
                resolved(records.skip(1), hash)
            },
        }
    }
}

/// Whether a record is of the same installation.
pub open spec fn same_pair(
    record: RecordView,
    bridge_key: Seq<char>,
    device_id: Seq<char>,
) -> bool {
    record.bridge_key == bridge_key && record.device_id == device_id
}

/// The records of every other installation, in order.
pub open spec fn others(
    records: Seq<RecordView>,
    bridge_key: Seq<char>,
    device_id: Seq<char>,
) -> Seq<RecordView>
    decreases records.len(),
{
    if records.len() == 0 {
        records
    } else {
        let front = others(records.drop_last(), bridge_key, device_id);
        if same_pair(records.last(), bridge_key, device_id) {
            front
        } else {
            front.push(records.last())
        }
    }
}

/// The record of a device whose bearer token is `token`.
pub open spec fn record_of(
    bridge_key: Seq<u8>,
    private_key: Seq<u8>,
    token: Seq<char>,
    name: Seq<char>,
    created_at: u64,
) -> RecordView {
    RecordView {
        bridge_key: base64url_text(bridge_key),
        device_id: base64url_text(x25519_public(private_key)),
        private_key: base64url_text(private_key),
        token_hash: base64url_text(token_digest(token)),
        name,
        created_at,
    }
}

/// One admission of a device, as it was asked for, with the token it was given.
pub struct Issued {
    pub bridge_key: Seq<u8>,
    pub private_key: Seq<u8>,
    pub token: Seq<char>,
    pub name: Seq<char>,
    pub created_at: u64,
}

impl Issued {
    /// The record that it leaves.
    pub open spec fn record(self) -> RecordView {
        record_of(self.bridge_key, self.private_key, self.token, self.name, self.created_at)
    }

    /// What its token's bearer may use.
    pub open spec fn handle(self) -> HandleView {
        HandleView {
            bridge_key: self.bridge_key,
            device_id: x25519_public(self.private_key),
            private_key: self.private_key,
            name: self.name,
        }
    }

    /// The installation: the bridge, and the device's public key.
    pub open spec fn installation(self) -> (Seq<u8>, Seq<u8>) {
        (self.bridge_key, x25519_public(self.private_key))
    }

    /// Whether its record says all of this: every admission's does.
    pub open spec fn reads_back(self) -> bool {
        &&& self.private_key.len() == 32
        &&& handle_of(self.record()) == Some(self.handle())
        &&& base64url_bytes(self.record().token_hash) == Some(token_digest(self.token))
    }
}

/// The records once a device is admitted: its record last, and no other of the
/// same installation.
pub open spec fn admitted(records: Seq<RecordView>, record: RecordView) -> Seq<RecordView> {
    others(records, record.bridge_key, record.device_id).push(record)
}

/// Whether every record's hash can be read, and none is this one.
pub open spec fn unclaimed(records: Seq<RecordView>, hash: Seq<u8>) -> bool {
    forall|i: int|
        0 <= i < records.len() ==> (base64url_bytes(
            (#[trigger] records[i]).token_hash,
        ) matches Some(stored) && stored != hash)
}

/// The set of paired installations.
pub struct Registry {
    records: Vec<Record>,
}

impl View for Registry {
    type V = Seq<RecordView>;

    closed spec fn view(&self) -> Seq<RecordView> {
        self.records@.map_values(|record: Record| record@)
    }
}

impl Registry {
    /// Open the registry with the records that were kept.
    pub fn open(records: Vec<Record>) -> (registry: Self)
        ensures
            registry@ == records@.map_values(|record: Record| record@),
    {
        Registry { records }
    }

    /// The records to keep.
    pub fn records(&self) -> (records: &Vec<Record>)
        ensures
            records@.map_values(|record: Record| record@) == self@,
    {
        &self.records
    }

    /// Drop every record of an installation.
    fn forget(&mut self, bridge_key: &String, device_id: &String)
        ensures
            final(self)@ == others(old(self)@, bridge_key@, device_id@),
    {
        let ghost before = self@;
        let ghost mut seen: int = 0;
        let mut i: usize = 0;
        assert(before.take(0) =~= Seq::empty());
        assert(before.skip(0) =~= before);
        while i < self.records.len()
            invariant
                0 <= seen <= before.len(),
                i <= self.records@.len(),
                i == others(before.take(seen), bridge_key@, device_id@).len(),
                self@ =~= others(before.take(seen), bridge_key@, device_id@) + before.skip(seen),
            decreases self.records@.len() - i,
        {
            let ghost now = self@;
            assert(now[i as int] == before[seen]);
            assert(before.take(seen + 1).drop_last() =~= before.take(seen));
            assert(before.take(seen + 1).last() == before[seen]);
            if self.records[i].bridge_key == *bridge_key && self.records[i].device_id == *device_id
            {
                self.records.remove(i);
                assert(self@ =~= now.remove(i as int));
            } else {
                i += 1;
            }
            proof {
                seen = seen + 1;
            }
        }
        assert(before.take(seen) =~= before);
    }

    /// Admit a device with a given token.
    ///
    /// Re-pairing the same installation replaces its old token rather than
    /// leaving a second live credential behind.
    pub fn enroll(
        &mut self,
        bridge_key: [u8; 32],
        private_key: &[u8],
        token: &str,
        name: String,
        created_at: u64,
    ) -> (outcome: Result<(), StateError>)
        requires
            encode_utf8(token@).len() <= MAX_DIGEST_INPUT,
        ensures
            match outcome {
                Ok(_) => {
                    let issued = Issued {
                        bridge_key: bridge_key@,
                        private_key: private_key@,
                        token: token@,
                        name: name@,
                        created_at,
                    };
                    let record = issued.record();
                    &&& issued.reads_back()
                    &&& final(self)@ == admitted(old(self)@, record)
                    &&& unclaimed(
                        others(old(self)@, record.bridge_key, record.device_id),
                        token_digest(token@),
                    ) ==> resolved(final(self)@, token_digest(token@)) == Some(issued.handle())
                },
                Err(error) => {
                    &&& private_key@.len() != 32
                    &&& error == StateError::PrivateKeyLength
                    &&& final(self)@ == old(self)@
                },
            },
    {
        let device_id = match public_key_of(private_key) {
            Ok(key) => key,
            Err(_) => return Err(StateError::PrivateKeyLength),
        };
        let record = Record {
            bridge_key: encode_base64url(&bridge_key),
            device_id: encode_base64url(&device_id),
            private_key: encode_base64url(private_key),
            token_hash: encode_base64url(hash_token(token).as_slice()),
            name,
            created_at,
        };
        self.forget(&record.bridge_key, &record.device_id);
        let ghost kept = self@;
        let ghost said = record@;
        self.records.push(record);
        proof {
            assert(self@ =~= kept.push(said));
            if unclaimed(kept, token_digest(token@)) {
                lemma_resolved_behind(kept, said, token_digest(token@));
            }
        }
        Ok(())
    }

    /// Admit a freshly handshaken device and mint its bearer token.
    ///
    /// Called only after the bridge itself accepted the device key, so the
    /// registry never vouches for a key the bridge has not whitelisted.
    pub fn issue(
        &mut self,
        bridge_key: [u8; 32],
        private_key: Vec<u8>,
        name: String,
        created_at: u64,
    ) -> (token: Result<String, StateError>)
        ensures
            match token {
                Ok(token) => {
                    let issued = Issued {
                        bridge_key: bridge_key@,
                        private_key: private_key@,
                        token: token@,
                        name: name@,
                        created_at,
                    };
                    let record = issued.record();
                    &&& issued.reads_back()
                    &&& is_token(token@)
                    &&& token@.len() > 0
                    &&& encode_utf8(token@).len() == 43
                    &&& final(self)@ == admitted(old(self)@, record)
                    &&& unclaimed(
                        others(old(self)@, record.bridge_key, record.device_id),
                        token_digest(token@),
                    ) ==> resolved(final(self)@, token_digest(token@)) == Some(issued.handle())
                },
                Err(error) => {
                    &&& final(self)@ == old(self)@
                    &&& error == StateError::PrivateKeyLength <==> private_key@.len() != 32
                    &&& error == StateError::NoRandomness <==> private_key@.len() == 32
                },
            },
    {
        if private_key.len() != 32 {
            return Err(StateError::PrivateKeyLength);
        }
        let token = match random_token() {
            Ok(token) => token,
            Err(_) => return Err(StateError::NoRandomness),
        };
        match self.enroll(bridge_key, private_key.as_slice(), token.as_str(), name, created_at) {
            Ok(_) => Ok(token),
            Err(error) => Err(error),
        }
    }

    /// Resolve a presented bearer token, or None when it is unknown.
    pub fn verify(&self, token: &str) -> (handle: Option<DeviceHandle>)
        requires
            encode_utf8(token@).len() <= MAX_DIGEST_INPUT,
        ensures
            match handle {
                Some(handle) => resolved(self@, token_digest(token@)) == Some(handle@),
                None => resolved(self@, token_digest(token@)) is None,
            },
    {
        self.verify_bytes(token.as_bytes())
    }

    /// Resolve a presented bearer token by its bytes.
    pub fn verify_bytes(&self, token: &[u8]) -> (handle: Option<DeviceHandle>)
        requires
            token@.len() <= MAX_DIGEST_INPUT,
        ensures
            match handle {
                Some(handle) => resolved(self@, sha256_digest(token@)) == Some(handle@),
                None => resolved(self@, sha256_digest(token@)) is None,
            },
    {
        let presented = sha256(token);
        let mut i: usize = 0;
        assert(self@.skip(0) =~= self@);
        while i < self.records.len()
            invariant
                i <= self.records@.len(),
                presented@ == sha256_digest(token@),
                resolved(self@, presented@) == resolved(self@.skip(i as int), presented@),
            decreases self.records@.len() - i,
        {
            let record = &self.records[i];
            assert(self@.skip(i as int)[0] == record@);
            assert(self@.skip(i as int).skip(1) =~= self@.skip(i + 1));
            let stored = decode_base64url(record.token_hash.as_str())?;
            // Linear and constant-time: the set is tiny, and the comparison
            // says nothing through its timing.
            if constant_time_eq(stored.as_slice(), presented.as_slice()) {
                let bridge_key = match decode32(record.bridge_key.as_str()) {
                    Ok(key) => key,
                    Err(_) => return None,
                };
                let device_id = match decode32(record.device_id.as_str()) {
                    Ok(key) => key,
                    Err(_) => return None,
                };
                let private_key = decode_base64url(record.private_key.as_str())?;
                let name = record.name.clone();
                return Some(DeviceHandle { bridge_key, device_id, private_key, name });
            }
            i += 1;
        }
        None
    }

    /// Number of paired installations.
    pub fn len(&self) -> (n: usize)
        ensures
            n == self@.len(),
    {
        self.records.len()
    }

    /// Whether nothing is paired.
    pub fn is_empty(&self) -> (b: bool)
        ensures
            b == (self@.len() == 0),
    {
        self.len() == 0
    }
}

/// A record behind records with other hashes is the one that its hash finds.
proof fn lemma_resolved_behind(records: Seq<RecordView>, record: RecordView, hash: Seq<u8>)
    requires
        unclaimed(records, hash),
        base64url_bytes(record.token_hash) == Some(hash),
    ensures
        resolved(records.push(record), hash) == handle_of(record),
    decreases records.len(),
{
    let all = records.push(record);
    if records.len() > 0 {
        assert(all[0] == records[0]);
        assert(all.skip(1) =~= records.skip(1).push(record));
        assert(unclaimed(records.skip(1), hash)) by {
            assert forall|i: int| 0 <= i < records.skip(1).len() implies (base64url_bytes(
                (#[trigger] records.skip(1)[i]).token_hash,
            ) matches Some(stored) && stored != hash) by {
                assert(records.skip(1)[i] == records[i + 1]);
            }
        }
        lemma_resolved_behind(records.skip(1), record, hash);
    }
}

/// Whatever is among the others was there before, and is of another
/// installation.
pub(crate) proof fn lemma_others(records: Seq<RecordView>, bridge_key: Seq<char>, device_id: Seq<char>)
    ensures
        forall|i: int|
            0 <= i < others(records, bridge_key, device_id).len() ==> {
                &&& records.contains(#[trigger] others(records, bridge_key, device_id)[i])
                &&& !same_pair(others(records, bridge_key, device_id)[i], bridge_key, device_id)
            },
    decreases records.len(),
{
    if records.len() > 0 {
        let front = records.drop_last();
        lemma_others(front, bridge_key, device_id);
        let kept = others(records, bridge_key, device_id);
        assert forall|i: int| 0 <= i < kept.len() implies {
            &&& records.contains(#[trigger] kept[i])
            &&& !same_pair(kept[i], bridge_key, device_id)
        } by {
            if i < others(front, bridge_key, device_id).len() {
                assert(kept[i] == others(front, bridge_key, device_id)[i]);
                let k = choose|k: int| 0 <= k < front.len() && front[k] == kept[i];
                assert(records[k] == kept[i]);
            } else {
                assert(records[records.len() - 1] == kept[i]);
            }
        }
    }
}

/// An installation has one record at most: whatever was admitted before, only
/// the last admission of the same installation is kept.
pub proof fn law_one_record_per_installation(records: Seq<RecordView>, record: RecordView, i: int)
    requires
        0 <= i < admitted(records, record).len(),
        same_pair(admitted(records, record)[i], record.bridge_key, record.device_id),
    ensures
        i == admitted(records, record).len() - 1,
        admitted(records, record)[i] == record,
{
    lemma_others(records, record.bridge_key, record.device_id);
}

/// Pairing again takes the old token away: a hash that only records of this
/// installation had resolves to nothing afterwards, unless it is the new
/// token's.
pub proof fn law_re_pairing_revokes_the_old_token(
    records: Seq<RecordView>,
    record: RecordView,
    hash: Seq<u8>,
)
    requires
        forall|i: int|
            0 <= i < records.len() && base64url_bytes((#[trigger] records[i]).token_hash) == Some(
                hash,
            ) ==> same_pair(records[i], record.bridge_key, record.device_id),
        base64url_bytes(record.token_hash) != Some(hash),
    ensures
        resolved(admitted(records, record), hash) is None,
{
    let kept = others(records, record.bridge_key, record.device_id);
    lemma_others(records, record.bridge_key, record.device_id);
    assert forall|i: int| 0 <= i < admitted(records, record).len() implies base64url_bytes(
        (#[trigger] admitted(records, record)[i]).token_hash,
    ) != Some(hash) by {
        if i < kept.len() {
            assert(admitted(records, record)[i] == kept[i]);
            let k = choose|k: int| 0 <= k < records.len() && records[k] == kept[i];
            assert(records[k] == kept[i]);
        }
    }
    lemma_unknown_hash(admitted(records, record), hash);
}

/// A hash that no record has resolves to nothing.
pub(crate) proof fn lemma_unknown_hash(records: Seq<RecordView>, hash: Seq<u8>)
    requires
        forall|i: int|
            0 <= i < records.len() ==> base64url_bytes((#[trigger] records[i]).token_hash) != Some(
                hash,
            ),
    ensures
        resolved(records, hash) is None,
    decreases records.len(),
{
    if records.len() > 0 {
        assert forall|i: int| 0 <= i < records.skip(1).len() implies base64url_bytes(
            (#[trigger] records.skip(1)[i]).token_hash,
        ) != Some(hash) by {
            assert(records.skip(1)[i] == records[i + 1]);
        }
        lemma_unknown_hash(records.skip(1), hash);
    }
}

/// A token is known by the digest of all of its text.
pub proof fn law_tokens_are_hashed_whole(token: Seq<char>)
    ensures
        token_digest(token) == sha256_digest(encode_utf8(token)),
{
}

/// What is kept of an admission: the two public keys and the private key, and the
/// digest of the token, each in base64url, and the name and the time as they were
/// given.
pub proof fn law_records_say_what_was_issued(issued: Issued)
    ensures
        issued.record().bridge_key == base64url_text(issued.bridge_key),
        issued.record().device_id == base64url_text(x25519_public(issued.private_key)),
        issued.record().private_key == base64url_text(issued.private_key),
        issued.record().token_hash == base64url_text(sha256_digest(encode_utf8(issued.token))),
        issued.record().name == issued.name,
        issued.record().created_at == issued.created_at,
        issued.handle().bridge_key == issued.bridge_key,
        issued.handle().device_id == x25519_public(issued.private_key),
        issued.handle().private_key == issued.private_key,
        issued.handle().name == issued.name,
{
}

/// A key is what its text spells, if that is 32 bytes.
pub proof fn law_keys_are_32_bytes(text: Seq<char>)
    ensures
        base64url_bytes(text) is None ==> key_of(text) == Err::<Seq<u8>, StateError>(
            StateError::NotBase64,
        ),
        base64url_bytes(text) matches Some(bytes) ==> {
            &&& bytes.len() == 32 ==> key_of(text) == Ok::<Seq<u8>, StateError>(bytes)
            &&& bytes.len() != 32 ==> key_of(text) == Err::<Seq<u8>, StateError>(
                StateError::KeyLength,
            )
        },
{
}

/// What a record lets a bearer use is what the record says: its own two keys, its
/// private key and its name; and nothing where one of them cannot be read.
pub proof fn law_handles_say_what_their_record_says(record: RecordView)
    ensures
        ({
            let bridge = base64url_bytes(record.bridge_key);
            let device = base64url_bytes(record.device_id);
            let private = base64url_bytes(record.private_key);
            let good = bridge is Some && (bridge->0).len() == 32 && device is Some && (
            device->0).len() == 32 && private is Some;
            &&& !good ==> handle_of(record) is None
            &&& good ==> (handle_of(record) matches Some(handle) && handle.bridge_key == bridge->0
                && handle.device_id == device->0 && handle.private_key == private->0 && handle.name
                == record.name)
        }),
{
}

/// The first record with a token's digest decides: those before it have other
/// digests, and those behind it are not asked.
pub proof fn law_the_first_match_decides(records: Seq<RecordView>, hash: Seq<u8>, i: int)
    requires
        0 <= i < records.len(),
        forall|k: int|
            0 <= k < i ==> (base64url_bytes((#[trigger] records[k]).token_hash) matches Some(stored)
                && stored != hash),
        base64url_bytes(records[i].token_hash) == Some(hash),
    ensures
        resolved(records, hash) == handle_of(records[i]),
    decreases records.len(),
{
    if i > 0 {
        assert(base64url_bytes(records[0].token_hash) is Some);
        let rest = records.skip(1);
        assert forall|k: int| 0 <= k < i - 1 implies (base64url_bytes(
            (#[trigger] rest[k]).token_hash,
        ) matches Some(stored) && stored != hash) by {
            assert(rest[k] == records[k + 1]);
        }
        law_the_first_match_decides(rest, hash, i - 1);
    }
}

/// A record whose digest cannot be read ends the search: no later one is asked.
pub proof fn law_an_unreadable_digest_ends_the_search(
    records: Seq<RecordView>,
    hash: Seq<u8>,
    i: int,
)
    requires
        0 <= i < records.len(),
        forall|k: int|
            0 <= k < i ==> (base64url_bytes((#[trigger] records[k]).token_hash) matches Some(stored)
                && stored != hash),
        base64url_bytes(records[i].token_hash) is None,
    ensures
        resolved(records, hash) is None,
    decreases records.len(),
{
    if i > 0 {
        assert(base64url_bytes(records[0].token_hash) is Some);
        let rest = records.skip(1);
        assert forall|k: int| 0 <= k < i - 1 implies (base64url_bytes(
            (#[trigger] rest[k]).token_hash,
        ) matches Some(stored) && stored != hash) by {
            assert(rest[k] == records[k + 1]);
        }
        law_an_unreadable_digest_ends_the_search(rest, hash, i - 1);
    }
}

/// A digest that no record has leads nowhere.
pub proof fn law_unknown_tokens_lead_nowhere(records: Seq<RecordView>, hash: Seq<u8>)
    requires
        forall|i: int|
            0 <= i < records.len() ==> base64url_bytes((#[trigger] records[i]).token_hash) != Some(
                hash,
            ),
    ensures
        resolved(records, hash) is None,
{
    lemma_unknown_hash(records, hash);
}

/// An admission takes out the records of its own installation, which has both
/// keys in common with it, and no other; the rest stay in their order, and its
/// record comes last.
pub proof fn law_admission_keeps_all_others(records: Seq<RecordView>, record: RecordView)
    ensures
        admitted(records, record) == records.filter(
            |r: RecordView| r.bridge_key != record.bridge_key || r.device_id != record.device_id,
        ).push(record),
{
    lemma_others_filter(records, record.bridge_key, record.device_id);
    let other = |r: RecordView|
        r.bridge_key != record.bridge_key || r.device_id != record.device_id;
    assert(others(records, record.bridge_key, record.device_id) == records.filter(other));
}

proof fn lemma_others_filter(records: Seq<RecordView>, bridge_key: Seq<char>, device_id: Seq<char>)
    ensures
        others(records, bridge_key, device_id) == records.filter(
            |r: RecordView| r.bridge_key != bridge_key || r.device_id != device_id,
        ),
    decreases records.len(),
{
    reveal(Seq::filter);
    let other = |r: RecordView| r.bridge_key != bridge_key || r.device_id != device_id;
    if records.len() > 0 {
        lemma_others_filter(records.drop_last(), bridge_key, device_id);
        assert(others(records, bridge_key, device_id) =~= records.filter(other));
    } else {
        assert(records.filter(other) =~= records);
    }
}

/// What a handle and a record say is what they hold, field for field.
pub proof fn law_handles_and_records_say_what_they_hold(handle: DeviceHandle, record: Record)
    ensures
        handle@.bridge_key == handle.bridge_key@,
        handle@.device_id == handle.device_id@,
        handle@.private_key == handle.private_key@,
        handle@.name == handle.name@,
        record@.bridge_key == record.bridge_key@,
        record@.device_id == record.device_id@,
        record@.private_key == record.private_key@,
        record@.token_hash == record.token_hash@,
        record@.name == record.name@,
        record@.created_at == record.created_at,
{
}

} // verus!
