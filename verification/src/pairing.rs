//! Pairing one installation: prove its fresh device key to the bridge, then
//! mint the bearer token it will use from now on.

use vstd::prelude::*;
use vstd::utf8::encode_utf8;

use crate::crypto::{
    base64url_bytes, base64url_text, decode_base64url, encode_base64url, x25519_public,
};
use crate::edge::Refusal;
use crate::noise::{generate_keypair, key32, keypair_made, made_pair, NoiseError};
use crate::reply::{fail, json, json_strings, pairs_said, Reply};
use crate::routing::{leads_to, Table};
use crate::state::{
    admitted, is_token, others, resolved, token_digest, unclaimed, DeviceHandle, HandleView,
    Issued, Registry,
};
use crate::text::{trim, trimmed};
use crate::wire::NOISE_XX;

verus! {

/// What a client asks to be paired with.
pub struct PairRequest {
    pub bridge_key: String,
    pub pairing_token: Option<String>,
    pub name: Option<String>,
}

/// A pairing that may be tried.
pub struct PairPlan {
    /// The bridge to pair with.
    pub bridge_key: [u8; 32],
    /// What rides the first message of the handshake; the bridge consumes it
    /// exactly once.
    pub token: Vec<u8>,
    /// The device's label.
    pub name: String,
}

/// What a pairing token spells: nothing where there is none or it is empty, and
/// an error where it is not base64url.
pub open spec fn token_bytes(token: Option<String>) -> Result<Seq<u8>, Refusal> {
    match token {
        Some(text) => if text@.len() == 0 {
            Ok(Seq::empty())
        } else {
            match base64url_bytes(text@) {
                Some(bytes) => Ok(bytes),
                None => Err(Refusal::TokenNotBase64),
            }
        },
        None => Ok(Seq::empty()),
    }
}

/// What is decided on a pairing request: each refusal with its reason, in the
/// order in which they are found.
pub open spec fn planned(
    request: Option<PairRequest>,
    links: Map<Seq<u8>, u64>,
    plan: Result<PairPlan, Refusal>,
) -> bool {
    match request {
        None => plan == Err::<PairPlan, Refusal>(Refusal::PairNotJson),
        Some(request) => match base64url_bytes(trimmed(request.bridge_key@)) {
            None => plan == Err::<PairPlan, Refusal>(Refusal::KeyNotBase64),
            Some(key) => if key.len() != 32 {
                plan == Err::<PairPlan, Refusal>(Refusal::KeyLength)
            } else {
                match token_bytes(request.pairing_token) {
                    Err(refusal) => plan == Err::<PairPlan, Refusal>(refusal),
                    Ok(token) => if leads_to(links, key) is None {
                        plan == Err::<PairPlan, Refusal>(Refusal::NotConnected)
                    } else {
                        plan matches Ok(plan) && plan.bridge_key@ == key && plan.token@ == token
                            && plan.name@ == (match request.name {
                            Some(name) => name@,
                            None => "phone"@,
                        })
                    },
                }
            },
        },
    }
}

/// Decide on a pairing request; `None` is a body that is not the expected JSON.
pub fn pair_begin(request: Option<PairRequest>, table: &Table) -> (plan: Result<PairPlan, Refusal>)
    ensures
        planned(request, table@, plan),
{
    let request = match request {
        Some(request) => request,
        None => return Err(Refusal::PairNotJson),
    };
    let bridge_bytes = match decode_base64url(trim(request.bridge_key.as_str())) {
        Some(bytes) => bytes,
        None => return Err(Refusal::KeyNotBase64),
    };
    let bridge_key = match key32(bridge_bytes.as_slice()) {
        Some(key) => key,
        None => return Err(Refusal::KeyLength),
    };
    let token = match pairing_token(request.pairing_token) {
        Ok(token) => token,
        Err(refusal) => return Err(refusal),
    };
    if table.lookup(&bridge_key).is_none() {
        return Err(Refusal::NotConnected);
    }
    let name = match request.name {
        Some(name) => name,
        None => "phone".to_owned(),
    };
    Ok(PairPlan { bridge_key, token, name })
}

/// Read a pairing token.
fn pairing_token(token: Option<String>) -> (bytes: Result<Vec<u8>, Refusal>)
    ensures
        match bytes {
            Ok(bytes) => token_bytes(token) == Ok::<Seq<u8>, Refusal>(bytes@),
            Err(refusal) => token_bytes(token) == Err::<Seq<u8>, Refusal>(refusal),
        },
{
    match token {
        Some(text) => if text.as_str().is_empty() {
            let none: Vec<u8> = Vec::new();
            Ok(none)
        } else {
            match decode_base64url(text.as_str()) {
                Some(bytes) => Ok(bytes),
                None => Err(Refusal::TokenNotBase64),
            }
        },
        None => {
            let none: Vec<u8> = Vec::new();
            Ok(none)
        },
    }
}

/// Whether a handle is the one of a new installation whose keys are these: the
/// private key, then its public key. Without a 32-byte public key there is none.
pub open spec fn handle_made(
    plan: PairPlan,
    keys: Option<(Seq<u8>, Seq<u8>)>,
    handle: Result<DeviceHandle, Refusal>,
) -> bool {
    match keys {
        Some((private, public)) if public.len() == 32 => handle matches Ok(handle) && handle@ == (
        HandleView {
            bridge_key: plan.bridge_key@,
            device_id: public,
            private_key: private,
            name: plan.name@,
        }),
        _ => handle == Err::<DeviceHandle, Refusal>(Refusal::NoDeviceKey),
    }
}

/// The handle of a new installation whose key pair was just made, the private key
/// first.
pub fn handle_from(plan: &PairPlan, pair: Result<(Vec<u8>, Vec<u8>), NoiseError>) -> (handle:
    Result<DeviceHandle, Refusal>)
    ensures
        handle_made(
            *plan,
            match pair {
                Ok(keys) => Some((keys.0@, keys.1@)),
                Err(_) => None,
            },
            handle,
        ),
{
    match pair {
        Ok((private_key, public_key)) => match key32(public_key.as_slice()) {
            Some(device_id) => Ok(
                DeviceHandle {
                    bridge_key: plan.bridge_key,
                    device_id,
                    private_key,
                    name: plan.name.clone(),
                },
            ),
            None => Err(Refusal::NoDeviceKey),
        },
        Err(_) => Err(Refusal::NoDeviceKey),
    }
}

/// The keys that were made, if any were.
pub open spec fn keys_made(made: Result<(Seq<u8>, Seq<u8>), snow::Error>) -> Option<
    (Seq<u8>, Seq<u8>),
> {
    match made {
        Ok(keys) => Some(keys),
        Err(_) => None,
    }
}

/// Make the device key of a new installation. Which key it is rests with the
/// system's randomness; where the system has none to give, the call panics.
pub fn device_key(plan: &PairPlan) -> (handle: Result<DeviceHandle, Refusal>)
    ensures
        exists|drawn: Seq<u8>|
            handle_made(*plan, keys_made(#[trigger] keypair_made(NOISE_XX@, drawn)), handle),
        handle matches Ok(handle) ==> {
            &&& handle.private_key@.len() == 32
            &&& handle.device_id@ == x25519_public(handle.private_key@)
        },
{
    let pair = generate_keypair();
    let ghost said = pair;
    let handle = handle_from(plan, pair);
    proof {
        let drawn = choose|drawn: Seq<u8>| made_pair(said, #[trigger] keypair_made(NOISE_XX@, drawn));
        assert(handle_made(*plan, keys_made(keypair_made(NOISE_XX@, drawn)), handle));
    }
    handle
}

/// The tunnel to the bridge could not be opened.
///
/// The handshake is the acceptance test: a pairing token that the bridge
/// rejects, or a device key it will not whitelist, fails right there and never
/// becomes a token.
pub fn pair_refused(error: &str) -> (reply: Reply)
    ensures
        reply.body@ == refused_body(error@),
        reply.status == 401,
        reply.body@ == json_strings(seq![("error"@, "bridge refused pairing: "@ + error@)]),
{
    let mut message: String = "bridge refused pairing: ".to_owned();
    message.append(error);
    fail(401, message.as_str())
}

/// What a new installation is told.
pub open spec fn paired_body(token: Seq<char>, handle: HandleView) -> Seq<char> {
    json_strings(
        seq![
            ("token"@, token),
            ("name"@, handle.name),
            ("deviceId"@, base64url_text(handle.device_id)),
        ],
    )
}

/// What a client is told whose bridge refused it.
pub open spec fn refused_body(error: Seq<char>) -> Seq<char> {
    json_strings(seq![("error"@, "bridge refused pairing: "@ + error)])
}

/// The installation is paired, and this is its bearer token.
pub fn paired(token: String, handle: &DeviceHandle) -> (reply: Reply)
    ensures
        reply.body@ == paired_body(token@, handle@),
        reply.status == 200,
        reply.body@ == json_strings(
            seq![
                ("token"@, token@),
                ("name"@, handle.name@),
                ("deviceId"@, base64url_text(handle.device_id@)),
            ],
        ),
{
    let mut fields: Vec<(String, String)> = Vec::new();
    let ghost text = token@;
    fields.push(("token".to_owned(), token));
    fields.push(("name".to_owned(), handle.name.clone()));
    fields.push(("deviceId".to_owned(), encode_base64url(&handle.device_id)));
    assert(pairs_said(fields@) =~= seq![
        ("token"@, text),
        ("name"@, handle.name@),
        ("deviceId"@, base64url_text(handle.device_id@)),
    ]);
    json(200, fields)
}

/// The tunnel to the bridge was tried: mint the token, unless the bridge refused
/// (`refused` is why). A refused device never becomes a record.
pub fn pair_finish(
    refused: Option<String>,
    registry: &mut Registry,
    handle: &DeviceHandle,
    created_at: u64,
) -> (outcome: Result<String, Reply>)
    ensures
        match (refused, outcome) {
            (Some(error), Ok(_)) => false,
            (Some(error), Err(reply)) => {
                &&& final(registry)@ == old(registry)@
                &&& reply.status == 401
                &&& reply.body@ == json_strings(
                    seq![("error"@, "bridge refused pairing: "@ + error@)],
                )
            },
            (None, Ok(token)) => {
                let issued = Issued {
                    bridge_key: handle.bridge_key@,
                    private_key: handle.private_key@,
                    token: token@,
                    name: handle.name@,
                    created_at,
                };
                let record = issued.record();
                &&& issued.reads_back()
                &&& is_token(token@)
                &&& token@.len() > 0
                &&& encode_utf8(token@).len() == 43
                &&& final(registry)@ == admitted(old(registry)@, record)
                // From here on the token leads to this bridge, as this device.
                &&& unclaimed(
                    others(old(registry)@, record.bridge_key, record.device_id),
                    token_digest(token@),
                ) ==> resolved(final(registry)@, token_digest(token@)) == Some(issued.handle())
            },
            (None, Err(reply)) => {
                &&& final(registry)@ == old(registry)@
                &&& reply.status == 500
                &&& reply.body@ == json_strings(
                    seq![
                        (
                            "error"@,
                            if handle.private_key@.len() == 32 {
                                "system randomness unavailable"@
                            } else {
                                "private key must be 32 bytes"@
                            },
                        ),
                    ],
                )
            },
        },
{
    if let Some(error) = refused {
        return Err(pair_refused(error.as_str()));
    }
    let mut private_key: Vec<u8> = Vec::new();
    private_key.extend_from_slice(handle.private_key.as_slice());
    assert(private_key@ =~= handle.private_key@);
    match registry.issue(handle.bridge_key, private_key, handle.name.clone(), created_at) {
        Ok(token) => Ok(token),
        Err(error) => Err(fail(500, error.message())),
    }
}

/// A pairing token rides to the bridge as the bytes that it spells: where the
/// token is the base64url text of `bytes`, and reads back as them, a plan that
/// comes of it carries `bytes` itself, all of them and in their order.
pub proof fn law_pairing_token_is_carried_whole(
    request: PairRequest,
    links: Map<Seq<u8>, u64>,
    plan: PairPlan,
    text: String,
    bytes: Seq<u8>,
)
    requires
        planned(Some(request), links, Ok::<PairPlan, Refusal>(plan)),
        request.pairing_token == Some(text),
        bytes.len() > 0,
        text@ == base64url_text(bytes),
        text@.len() > 0,
        base64url_bytes(base64url_text(bytes)) == Some(bytes),
    ensures
        plan.token@ == bytes,
        token_bytes(Some(text)) == Ok::<Seq<u8>, Refusal>(bytes),
{
}

/// When a pairing may be tried, and with what: a key that spells 32 bytes between
/// the whitespace around it, a token that spells any bytes or is left out, and a
/// link to that key. The plan is then made of exactly these, under the name that
/// the client gave, or `phone`.
pub proof fn law_plans_are_made_of_the_request(
    request: PairRequest,
    links: Map<Seq<u8>, u64>,
    plan: Result<PairPlan, Refusal>,
    key: Seq<u8>,
    token: Seq<u8>,
)
    requires
        planned(Some(request), links, plan),
        base64url_bytes(trimmed(request.bridge_key@)) == Some(key),
        key.len() == 32,
        request.pairing_token matches Some(text) && text@.len() > 0 ==> base64url_bytes(
            request.pairing_token->0@,
        ) == Some(token),
        request.pairing_token is None || request.pairing_token->0@.len() == 0 ==> token.len() == 0,
    ensures
        links.contains_key(key) <==> plan is Ok,
        !links.contains_key(key) ==> plan == Err::<PairPlan, Refusal>(Refusal::NotConnected),
        plan matches Ok(plan) ==> {
            &&& plan.bridge_key@ == key
            &&& plan.token@ == token
            &&& request.name matches Some(name) ==> plan.name@ == name@
            &&& request.name is None ==> plan.name@ == seq!['p', 'h', 'o', 'n', 'e']
        },
{
    reveal_strlit("phone");
    assert("phone"@ =~= seq!['p', 'h', 'o', 'n', 'e']);
    assert(token.len() == 0 ==> token =~= Seq::empty());
}

/// Each refusal comes for its own reason: no request, a key that is not base64url
/// or not 32 bytes long, and a token that is not base64url.
pub proof fn law_bad_requests_are_refused(
    request: Option<PairRequest>,
    links: Map<Seq<u8>, u64>,
    plan: Result<PairPlan, Refusal>,
)
    requires
        planned(request, links, plan),
    ensures
        request is None <==> plan == Err::<PairPlan, Refusal>(Refusal::PairNotJson),
        request matches Some(request) ==> {
            let key = base64url_bytes(trimmed(request.bridge_key@));
            &&& key is None <==> plan == Err::<PairPlan, Refusal>(Refusal::KeyNotBase64)
            &&& key is Some && (key->0).len() != 32 <==> plan == Err::<PairPlan, Refusal>(
                Refusal::KeyLength,
            )
            &&& key is Some && (key->0).len() == 32 && (request.pairing_token matches Some(text)
                && text@.len() > 0 && base64url_bytes(text@) is None) <==> plan == Err::<
                PairPlan,
                Refusal,
            >(Refusal::TokenNotBase64)
        },
{
}

/// The handle of a new installation holds the plan's bridge and name, the public
/// key as its id and the private key as it was made; there is one wherever the
/// public key has 32 bytes, and nowhere else.
pub proof fn law_handles_hold_the_keys_made(
    plan: PairPlan,
    private: Seq<u8>,
    public: Seq<u8>,
    handle: Result<DeviceHandle, Refusal>,
)
    requires
        handle_made(plan, Some((private, public)), handle),
    ensures
        handle is Ok <==> public.len() == 32,
        handle matches Ok(handle) ==> {
            &&& handle.bridge_key@ == plan.bridge_key@
            &&& handle.device_id@ == public
            &&& handle.private_key@ == private
            &&& handle.name@ == plan.name@
        },
        handle matches Err(refusal) ==> refusal == Refusal::NoDeviceKey,
{
}

/// Without keys there is no handle.
pub proof fn law_no_keys_no_handle(plan: PairPlan, handle: Result<DeviceHandle, Refusal>)
    requires
        handle_made(plan, None, handle),
    ensures
        handle == Err::<DeviceHandle, Refusal>(Refusal::NoDeviceKey),
{
}

/// A new installation is told its token, whole, its name, and its public key in
/// base64url; one that was refused, why, behind the same words each time.
pub proof fn law_replies_to_a_pairing(token: Seq<char>, handle: HandleView, error: Seq<char>)
    ensures
        paired_body(token, handle) == json_strings(
            seq![
                (seq!['t', 'o', 'k', 'e', 'n'], token),
                (seq!['n', 'a', 'm', 'e'], handle.name),
                (
                    seq!['d', 'e', 'v', 'i', 'c', 'e', 'I', 'd'],
                    base64url_text(handle.device_id),
                ),
            ],
        ),
        refused_body(error) == json_strings(
            seq![(seq!['e', 'r', 'r', 'o', 'r'], "bridge refused pairing: "@ + error)],
        ),
{
    reveal_strlit("token");
    reveal_strlit("name");
    reveal_strlit("deviceId");
    reveal_strlit("error");
    assert("token"@ =~= seq!['t', 'o', 'k', 'e', 'n']);
    assert("name"@ =~= seq!['n', 'a', 'm', 'e']);
    assert("deviceId"@ =~= seq!['d', 'e', 'v', 'i', 'c', 'e', 'I', 'd']);
    assert("error"@ =~= seq!['e', 'r', 'r', 'o', 'r']);
}

} // verus!
