//! The unified client edge: one HTTPS/WSS contract for every end user.
//!
//! Android, the WeChat mini-program and anything later all arrive here the same
//! way: TLS, then either the byte pipe of `/tunnel`, or `/pair` and then
//! `/api/<method>` and its upgrades with a bearer token. There is no branch on
//! client type; the only decision is which bridge the token addresses.

use hyper::header::{HeaderMap, HeaderValue};
use vstd::prelude::*;
use vstd::utf8::encode_utf8;

use crate::crypto::{
    base64_text, base64url_bytes, sha1_digest, sha256_digest, x25519_public, MAX_DIGEST_INPUT,
};
use crate::headers::{
    all_said, collected, count_names, fields, first_value, list_fields, lower_name, remove_field, set_field, values, Field, MAX_NAMES,
};
use crate::phone::Lease;
use crate::reply::{fail, json_strings, Reply};
use crate::state::{
    admitted, constant_time_eq, law_the_first_match_decides, others, resolved, token_digest,
    unclaimed, DeviceHandle, HandleView, Issued, RecordView, Registry,
};
use crate::text::{same_text, starts_with};
use crate::ws::{accept_bytes, accept_text, GUID};

verus! {

/// A byte of a header value that can be read as text.
pub open spec fn visible_byte(b: u8) -> bool {
    32 <= b < 127 || b == 9
}

/// Whether a header value can be read as text.
pub open spec fn visible(value: Seq<u8>) -> bool {
    forall|i: int| 0 <= i < value.len() ==> visible_byte(#[trigger] value[i])
}

/// An ASCII letter in lower case; any other byte as it is.
pub open spec fn lower_byte(b: u8) -> u8 {
    if 65 <= b <= 90 {
        (b + 32) as u8
    } else {
        b
    }
}

/// A text in lower case, ASCII letters only.
pub open spec fn lower(value: Seq<u8>) -> Seq<u8> {
    value.map_values(|b: u8| lower_byte(b))
}

/// Whether `part` occurs in `whole` at `at`.
pub open spec fn occurs_at(whole: Seq<u8>, part: Seq<u8>, at: int) -> bool {
    0 <= at && at + part.len() <= whole.len() && whole.subrange(at, at + part.len()) == part
}

/// `websocket`.
pub const WEBSOCKET: [u8; 9] = [0x77, 0x65, 0x62, 0x73, 0x6f, 0x63, 0x6b, 0x65, 0x74];

/// `upgrade`.
pub const UPGRADE: [u8; 7] = [0x75, 0x70, 0x67, 0x72, 0x61, 0x64, 0x65];

/// `close`.
pub const CLOSE: [u8; 5] = [0x63, 0x6c, 0x6f, 0x73, 0x65];

/// `Bearer `, with the space behind it.
pub const BEARER: [u8; 7] = [0x42, 0x65, 0x61, 0x72, 0x65, 0x72, 0x20];

/// Whether a header value can be read as text.
fn is_visible(value: &Vec<u8>) -> (readable: bool)
    ensures
        readable == visible(value@),
{
    let mut i: usize = 0;
    while i < value.len()
        invariant
            i <= value@.len(),
            forall|k: int| 0 <= k < i ==> visible_byte(#[trigger] value@[k]),
        decreases value@.len() - i,
    {
        let b: u8 = value[i];
        if !(32 <= b && b < 127 || b == 9) {
            assert(!visible_byte(value@[i as int]));
            return false;
        }
        i += 1;
    }
    true
}

/// Whether `part` occurs in the lower case of `whole` at `at`.
fn matches_at(whole: &Vec<u8>, part: &[u8], at: usize) -> (found: bool)
    requires
        at + part@.len() <= whole@.len(),
    ensures
        found == occurs_at(lower(whole@), part@, at as int),
{
    let mut i: usize = 0;
    while i < part.len()
        invariant
            i <= part@.len(),
            at + part@.len() <= whole@.len(),
            forall|k: int| 0 <= k < i ==> lower_byte(whole@[at + k]) == #[trigger] part@[k],
        decreases part@.len() - i,
    {
        assert(at + i < whole.len());
        let b: u8 = whole[at + i];
        let low: u8 = if 65 <= b && b <= 90 { b + 32 } else { b };
        if low != part[i] {
            assert(lower(whole@).subrange(at as int, at + part@.len())[i as int] != part@[i as int]);
            return false;
        }
        i += 1;
    }
    assert(lower(whole@).subrange(at as int, at + part@.len()) =~= part@);
    true
}

/// Whether a header value asks for a WebSocket.
pub open spec fn says_websocket(value: Seq<u8>) -> bool {
    visible(value) && lower(value) == WEBSOCKET@
}

/// Whether a header value names an upgrade.
pub open spec fn says_upgrade(value: Seq<u8>) -> bool {
    visible(value) && exists|at: int| occurs_at(lower(value), UPGRADE@, at)
}

/// Whether the first value of a field passes a test.
pub open spec fn first_is(
    map: Map<Seq<char>, Seq<Seq<u8>>>,
    name: Seq<char>,
    test: spec_fn(Seq<u8>) -> bool,
) -> bool {
    values(map, name).len() > 0 && test(values(map, name)[0])
}

/// Whether a request asks to switch protocols.
pub open spec fn asks_upgrade(map: Map<Seq<char>, Seq<Seq<u8>>>) -> bool {
    first_is(map, "upgrade"@, |value: Seq<u8>| says_websocket(value)) || first_is(
        map,
        "connection"@,
        |value: Seq<u8>| says_upgrade(value),
    )
}

/// The header names that the edge reads or removes are in lower case.
proof fn lemma_names()
    ensures
        lower_name("connection"@),
        lower_name("keep-alive"@),
        lower_name("proxy-authenticate"@),
        lower_name("proxy-authorization"@),
        lower_name("te"@),
        lower_name("trailer"@),
        lower_name("transfer-encoding"@),
        lower_name("upgrade"@),
        lower_name("host"@),
        lower_name("authorization"@),
        lower_name("sec-websocket-key"@),
{
    reveal_strlit("connection");
    reveal_strlit("keep-alive");
    reveal_strlit("proxy-authenticate");
    reveal_strlit("proxy-authorization");
    reveal_strlit("te");
    reveal_strlit("trailer");
    reveal_strlit("transfer-encoding");
    reveal_strlit("upgrade");
    reveal_strlit("host");
    reveal_strlit("authorization");
    reveal_strlit("sec-websocket-key");
}

/// Whether a header value asks for a WebSocket.
fn is_websocket(value: &Vec<u8>) -> (found: bool)
    ensures
        found == says_websocket(value@),
{
    proof {
        if lower(value@) == WEBSOCKET@ {
            assert(lower(value@).len() == 9);
        }
        if value@.len() == 9 {
            assert(lower(value@).subrange(0, 9) =~= lower(value@));
        }
    }
    is_visible(value) && value.len() == 9 && matches_at(value, &WEBSOCKET, 0)
}

/// Whether a header value names an upgrade.
fn names_upgrade(value: &Vec<u8>) -> (found: bool)
    ensures
        found == says_upgrade(value@),
{
    if !is_visible(value) || value.len() < 7 {
        return false;
    }
    let last: usize = value.len() - 7;
    let mut at: usize = 0;
    while at <= last
        invariant
            last + 7 == value@.len(),
            at <= last + 1,
            forall|k: int| 0 <= k < at ==> !occurs_at(lower(value@), UPGRADE@, k),
            visible(value@),
        decreases last + 1 - at,
    {
        if matches_at(value, &UPGRADE, at) {
            return true;
        }
        if at == last {
            return false;
        }
        at += 1;
    }
    false
}

/// Whether a request asks to switch protocols.
pub fn is_upgrade(headers: &HeaderMap<HeaderValue>) -> (upgrade: bool)
    ensures
        upgrade == asks_upgrade(fields(*headers)),
{
    proof {
        lemma_names();
    }
    if let Some(value) = first_value(headers, "upgrade") {
        if is_websocket(&value) {
            return true;
        }
    }
    if let Some(value) = first_value(headers, "connection") {
        return names_upgrade(&value);
    }
    false
}

/// The token that an `authorization` value presents.
pub open spec fn bearer(value: Seq<u8>) -> Option<Seq<u8>> {
    if visible(value) && value.len() >= 7 && value.take(7) == BEARER@ {
        Some(value.skip(7))
    } else {
        None
    }
}

/// What a request's bearer token lets it use.
pub open spec fn authorized(
    map: Map<Seq<char>, Seq<Seq<u8>>>,
    registry: Registry,
) -> Option<HandleView> {
    let presented = values(map, "authorization"@);
    if presented.len() == 0 {
        None
    } else {
        match bearer(presented[0]) {
            Some(token) => resolved(registry@, sha256_digest(token)),
            None => None,
        }
    }
}

/// Whether the token that a request presents, if it does, is short enough to be
/// hashed.
pub open spec fn hashable(map: Map<Seq<char>, Seq<Seq<u8>>>) -> bool {
    let presented = values(map, "authorization"@);
    presented.len() > 0 ==> (bearer(presented[0]) matches Some(token) ==> token.len()
        <= MAX_DIGEST_INPUT)
}

/// Whether the token that a request presents, if it does, is short enough to be
/// hashed.
pub fn is_hashable(headers: &HeaderMap<HeaderValue>) -> (fits: bool)
    ensures
        fits == hashable(fields(*headers)),
{
    proof {
        lemma_names();
    }
    match first_value(headers, "authorization") {
        Some(value) => !is_bearer(&value) || (value.len() - 7) as u64 <= MAX_DIGEST_INPUT,
        None => true,
    }
}

/// Resolve the bearer token to a device handle, if it is valid.
pub fn authenticate(headers: &HeaderMap<HeaderValue>, registry: &Registry) -> (handle: Option<
    DeviceHandle,
>)
    requires
        hashable(fields(*headers)),
    ensures
        match handle {
            Some(handle) => authorized(fields(*headers), *registry) == Some(handle@),
            None => authorized(fields(*headers), *registry) is None,
        },
{
    proof {
        lemma_names();
    }
    let value = first_value(headers, "authorization")?;
    if !is_bearer(&value) {
        return None;
    }
    let token = vstd::slice::slice_subrange(value.as_slice(), 7, value.len());
    assert(token@ =~= value@.skip(7));
    registry.verify_bytes(token)
}

/// Whether an `authorization` value presents a token.
fn is_bearer(value: &Vec<u8>) -> (presents: bool)
    ensures
        presents == (bearer(value@) is Some),
{
    if !is_visible(value) || value.len() < 7 {
        return false;
    }
    let mut i: usize = 0;
    while i < 7
        invariant
            i <= 7,
            value@.len() >= 7,
            forall|k: int| 0 <= k < i ==> value@[k] == #[trigger] BEARER@[k],
        decreases 7 - i,
    {
        if value[i] != BEARER[i] {
            assert(value@.take(7)[i as int] != BEARER@[i as int]);
            return false;
        }
        i += 1;
    }
    assert(value@.take(7) =~= BEARER@);
    true
}

/// Routes whose bodies are files rather than arguments.
pub open spec fn bulk(path: Seq<char>) -> bool {
    path == "/api/file"@ || path == "/api/session/uploadFileBinary"@
}

/// Routes whose bodies are files rather than arguments.
///
/// These are the bridge's own streaming routes. They are named here only to
/// decide tunnel lifetime: the proxy does not treat their contents differently,
/// and a route missing from this list still works, it just parks its tunnel for
/// reuse like an RPC call.
pub fn is_bulk(path: &str) -> (b: bool)
    ensures
        b == bulk(path@),
{
    same_text(path, "/api/file") || same_text(path, "/api/session/uploadFileBinary")
}

/// What to do with a request.
pub enum Decision {
    /// Pair an installation.
    Pair,
    /// Say that the proxy is up.
    Health,
    /// Answer the upgrade and splice the client onto the bridge that its
    /// preamble names. No token is asked for: the session inside is end to end.
    Tunnel,
    /// Refuse.
    Refuse(Refusal),
    /// Splice the upgrade onto a tunnel of its own.
    Upgrade(DeviceHandle),
    /// Forward the request into a tunnel.
    Forward(DeviceHandle),
}

/// Why the edge refuses.
#[derive(PartialEq, Eq, Structural, Clone, Copy, Debug)]
pub enum Refusal {
    PairTooLarge,
    PairNotJson,
    KeyNotBase64,
    KeyLength,
    TokenNotBase64,
    NotConnected,
    NoDeviceKey,
    Unauthorized,
    NoRoute,
    BadUpstream,
    BadUpgrade,
    UpgradeRefused,
}

impl Refusal {
    /// The status of the reply.
    pub open spec fn spec_status(self) -> u16 {
        match self {
            Refusal::PairTooLarge => 413,
            Refusal::PairNotJson => 400,
            Refusal::KeyNotBase64 => 400,
            Refusal::KeyLength => 400,
            Refusal::TokenNotBase64 => 400,
            Refusal::NotConnected => 503,
            Refusal::NoDeviceKey => 500,
            Refusal::Unauthorized => 401,
            Refusal::NoRoute => 404,
            Refusal::BadUpstream => 400,
            Refusal::BadUpgrade => 400,
            Refusal::UpgradeRefused => 502,
        }
    }

    /// The reply in words.
    pub open spec fn spec_message(self) -> Seq<char> {
        match self {
            Refusal::PairTooLarge => "pair body too large"@,
            Refusal::PairNotJson => "pair body is not the expected JSON"@,
            Refusal::KeyNotBase64 => "bridgeKey is not base64url"@,
            Refusal::KeyLength => "bridgeKey is not 32 bytes"@,
            Refusal::TokenNotBase64 => "pairingToken is not base64url"@,
            Refusal::NotConnected => "bridge is not connected"@,
            Refusal::NoDeviceKey => "could not generate a device key"@,
            Refusal::Unauthorized => "missing or unknown bearer token"@,
            Refusal::NoRoute => "no such route"@,
            Refusal::BadUpstream => "bad upstream request"@,
            Refusal::BadUpgrade => "bad upgrade request"@,
            Refusal::UpgradeRefused => "bridge did not accept the upgrade"@,
        }
    }

    /// The status of the reply.
    pub fn status(&self) -> (status: u16)
        ensures
            status == self.spec_status(),
    {
        match self {
            Refusal::PairTooLarge => 413,
            Refusal::PairNotJson => 400,
            Refusal::KeyNotBase64 => 400,
            Refusal::KeyLength => 400,
            Refusal::TokenNotBase64 => 400,
            Refusal::NotConnected => 503,
            Refusal::NoDeviceKey => 500,
            Refusal::Unauthorized => 401,
            Refusal::NoRoute => 404,
            Refusal::BadUpstream => 400,
            Refusal::BadUpgrade => 400,
            Refusal::UpgradeRefused => 502,
        }
    }

    /// The reply in words.
    pub fn message(&self) -> (text: &'static str)
        ensures
            text@ == self.spec_message(),
    {
        match self {
            Refusal::PairTooLarge => "pair body too large",
            Refusal::PairNotJson => "pair body is not the expected JSON",
            Refusal::KeyNotBase64 => "bridgeKey is not base64url",
            Refusal::KeyLength => "bridgeKey is not 32 bytes",
            Refusal::TokenNotBase64 => "pairingToken is not base64url",
            Refusal::NotConnected => "bridge is not connected",
            Refusal::NoDeviceKey => "could not generate a device key",
            Refusal::Unauthorized => "missing or unknown bearer token",
            Refusal::NoRoute => "no such route",
            Refusal::BadUpstream => "bad upstream request",
            Refusal::BadUpgrade => "bad upgrade request",
            Refusal::UpgradeRefused => "bridge did not accept the upgrade",
        }
    }
}

/// The reply to a request that is refused.
pub fn refuse(refusal: Refusal) -> (reply: Reply)
    ensures
        reply.status == refusal.spec_status(),
        reply.body@ == json_strings(seq![("error"@, refusal.spec_message())]),
{
    fail(refusal.status(), refusal.message())
}

/// What is decided on a request, by its method, its path and its header.
pub open spec fn decided(
    method: Seq<char>,
    path: Seq<char>,
    map: Map<Seq<char>, Seq<Seq<u8>>>,
    registry: Registry,
    decision: Decision,
) -> bool {
    if method == "POST"@ && path == "/pair"@ {
        decision is Pair
    } else if path == "/health"@ {
        decision is Health
    } else if method == "GET"@ && path == "/tunnel"@ && asks_upgrade(map) {
        decision is Tunnel
    } else {
        match authorized(map, registry) {
            None => decision == Decision::Refuse(Refusal::Unauthorized),
            Some(handle) => if !"/api/"@.is_prefix_of(path) {
                decision == Decision::Refuse(Refusal::NoRoute)
            } else if asks_upgrade(map) {
                decision matches Decision::Upgrade(route) && route@ == handle
            } else {
                decision matches Decision::Forward(route) && route@ == handle
            },
        }
    }
}

/// One request: authenticate, route, and either answer or forward.
pub fn handle(
    method: &str,
    path: &str,
    headers: &HeaderMap<HeaderValue>,
    registry: &Registry,
) -> (decision: Decision)
    requires
        hashable(fields(*headers)),
    ensures
        decided(method@, path@, fields(*headers), *registry, decision),
{
    if same_text(method, "POST") && same_text(path, "/pair") {
        return Decision::Pair;
    }
    if same_text(path, "/health") {
        return Decision::Health;
    }
    if same_text(method, "GET") && same_text(path, "/tunnel") && is_upgrade(headers) {
        return Decision::Tunnel;
    }
    let route = match authenticate(headers, registry) {
        Some(route) => route,
        None => return Decision::Refuse(Refusal::Unauthorized),
    };
    if !starts_with(path, "/api/") {
        return Decision::Refuse(Refusal::NoRoute);
    }
    // Any /api upgrade is spliced, whatever it is. The proxy deliberately knows
    // no route names: the bridge's own allowlist decides which sockets exist,
    // so adding one there needs no change here.
    if is_upgrade(headers) {
        return Decision::Upgrade(route);
    }
    Decision::Forward(route)
}

/// One request, whatever it presents: the decision, or `None` where its token is
/// too long to be hashed.
pub fn try_handle(
    method: &str,
    path: &str,
    headers: &HeaderMap<HeaderValue>,
    registry: &Registry,
) -> (decision: Option<Decision>)
    ensures
        match decision {
            Some(decision) => hashable(fields(*headers)) && decided(
                method@,
                path@,
                fields(*headers),
                *registry,
                decision,
            ),
            None => !hashable(fields(*headers)),
        },
{
    if is_hashable(headers) {
        Some(handle(method, path, headers, registry))
    } else {
        None
    }
}

/// Without a token that the registry knows, nothing behind the edge is reached:
/// no request is forwarded, and none is spliced onto a device's tunnel.
pub proof fn law_unknown_token_reaches_nothing(
    method: Seq<char>,
    path: Seq<char>,
    map: Map<Seq<char>, Seq<Seq<u8>>>,
    registry: Registry,
    decision: Decision,
)
    requires
        authorized(map, registry) is None,
        decided(method, path, map, registry, decision),
    ensures
        !(decision is Forward),
        !(decision is Upgrade),
{
}

/// The route names under `/api/` are the bridge's: two such paths are decided
/// alike, whatever they are, with the same header.
pub proof fn law_api_routes_are_not_told_apart(
    method: Seq<char>,
    a: Seq<char>,
    b: Seq<char>,
    map: Map<Seq<char>, Seq<Seq<u8>>>,
    registry: Registry,
    decision: Decision,
)
    requires
        "/api/"@.is_prefix_of(a),
        "/api/"@.is_prefix_of(b),
        decided(method, a, map, registry, decision),
    ensures
        decided(method, b, map, registry, decision),
{
    reveal_strlit("/api/");
    reveal_strlit("/pair");
    reveal_strlit("/health");
    reveal_strlit("/tunnel");
    assert("/api/"@[1] == 'a');
    assert("/pair"@[1] == 'p' && "/health"@[1] == 'h' && "/tunnel"@[1] == 't');
    assert(a[1] == 'a' && b[1] == 'a') by {
        assert("/api/"@ == a.subrange(0, 5));
        assert("/api/"@ == b.subrange(0, 5));
        assert(a.subrange(0, 5)[1] == a[1]);
        assert(b.subrange(0, 5)[1] == b[1]);
    }
}

/// Headers a proxy must not forward verbatim.
pub open spec fn hop_names() -> Set<Seq<char>> {
    set![
        "connection"@,
        "keep-alive"@,
        "proxy-authenticate"@,
        "proxy-authorization"@,
        "te"@,
        "trailer"@,
        "transfer-encoding"@,
        "upgrade"@,
        "host"@,
        "authorization"@,
    ]
}

/// Take out the headers that a proxy must not forward verbatim.
pub fn strip_hop(headers: &mut HeaderMap<HeaderValue>)
    ensures
        fields(*final(headers)) == fields(*old(headers)).remove_keys(hop_names()),
{
    proof {
        lemma_names();
    }
    remove_field(headers, "connection");
    remove_field(headers, "keep-alive");
    remove_field(headers, "proxy-authenticate");
    remove_field(headers, "proxy-authorization");
    remove_field(headers, "te");
    remove_field(headers, "trailer");
    remove_field(headers, "transfer-encoding");
    remove_field(headers, "upgrade");
    remove_field(headers, "host");
    remove_field(headers, "authorization");
    assert(fields(*headers) =~= fields(*old(headers)).remove_keys(hop_names()));
}

/// The header of an upgrade, as it is replayed: without what must not be, and
/// with the WebSocket handshake set.
pub open spec fn upgrade_fields(map: Map<Seq<char>, Seq<Seq<u8>>>) -> Map<
    Seq<char>,
    Seq<Seq<u8>>,
> {
    map.remove("host"@).remove("authorization"@).insert(
        "connection"@,
        seq![encode_utf8("Upgrade"@)],
    ).insert("upgrade"@, seq![encode_utf8("websocket"@)])
}

/// Strip only what must not be replayed, keeping the WebSocket handshake.
pub fn strip_hop_ws(headers: &mut HeaderMap<HeaderValue>)
    requires
        fields(*old(headers)).len() < MAX_NAMES,
    ensures
        fields(*final(headers)) == upgrade_fields(fields(*old(headers))),
{
    proof {
        lemma_names();
        reveal_strlit("connection");
        reveal_strlit("upgrade");
        reveal_strlit("Upgrade");
        reveal_strlit("websocket");
    }
    let ghost before = fields(*headers);
    remove_field(headers, "host");
    remove_field(headers, "authorization");
    proof {
        let rest = before.remove("host"@).remove("authorization"@);
        assert(before.dom().subset_of(rest.dom().insert("host"@).insert("authorization"@)));
        vstd::set_lib::lemma_len_subset(
            before.dom(),
            rest.dom().insert("host"@).insert("authorization"@),
        );
    }
    assert(before.remove("host"@).dom() =~= before.dom().remove("host"@));
    assert(fields(*headers).dom() =~= before.dom().remove("host"@).remove("authorization"@));
    let ghost middle = fields(*headers);
    set_field(headers, "connection", "Upgrade");
    assert(fields(*headers).dom() =~= middle.dom().insert("connection"@));
    set_field(headers, "upgrade", "websocket");
}

/// The header of a request, as it is replayed.
pub open spec fn request_fields(map: Map<Seq<char>, Seq<Seq<u8>>>) -> Map<
    Seq<char>,
    Seq<Seq<u8>>,
> {
    map.remove_keys(hop_names())
}

/// The fields that a request carries upstream. Only hop-by-hop headers are
/// taken out; everything else is the client's own and is replayed as it is, a
/// name that occurs several times with all of its values.
pub fn upstream_headers(headers: HeaderMap<HeaderValue>) -> (list: Vec<Field>)
    ensures
        collected(all_said(list@)) == request_fields(fields(headers)),
        collected(all_said(list@)) == fields(headers).remove_keys(hop_names()),
{
    let mut kept = headers;
    strip_hop(&mut kept);
    list_fields(&kept)
}

/// The fields that an upgrade carries upstream, a name that occurs several times
/// with all of its values.
pub fn upgrade_headers(headers: HeaderMap<HeaderValue>) -> (list: Vec<Field>)
    requires
        fields(headers).len() < MAX_NAMES,
    ensures
        collected(all_said(list@)) == upgrade_fields(fields(headers)),
{
    let mut kept = headers;
    strip_hop_ws(&mut kept);
    list_fields(&kept)
}

/// The fields that an upgrade carries upstream, or `None` where its header has
/// no room for the handshake.
pub fn try_upgrade_headers(headers: HeaderMap<HeaderValue>) -> (list: Option<Vec<Field>>)
    ensures
        match list {
            Some(list) => fields(headers).len() < MAX_NAMES && collected(all_said(list@))
                == upgrade_fields(fields(headers)),
            None => fields(headers).len() >= MAX_NAMES,
        },
{
    if count_names(&headers) < MAX_NAMES {
        Some(upgrade_headers(headers))
    } else {
        None
    }
}

/// A client's token stays at the edge: neither a request nor an upgrade carries
/// the `authorization` or the `host` of its client upstream.
pub proof fn law_token_never_reaches_the_bridge(map: Map<Seq<char>, Seq<Seq<u8>>>)
    ensures
        !map.remove_keys(hop_names()).contains_key("authorization"@),
        !map.remove_keys(hop_names()).contains_key("host"@),
        !upgrade_fields(map).contains_key("authorization"@),
        !upgrade_fields(map).contains_key("host"@),
{
    reveal_strlit("authorization");
    reveal_strlit("host");
    reveal_strlit("connection");
    reveal_strlit("upgrade");
    assert("authorization"@.len() == 13 && "host"@.len() == 4);
    assert("connection"@.len() == 10 && "upgrade"@.len() == 7);
}

/// Everything that is not hop by hop is replayed as it is: a request carries each
/// other name with exactly the values it came with, and so does an upgrade, but
/// for the two names of the handshake.
pub proof fn law_other_headers_are_replayed(map: Map<Seq<char>, Seq<Seq<u8>>>, name: Seq<char>)
    ensures
        !hop_names().contains(name) ==> values(map.remove_keys(hop_names()), name) == values(
            map,
            name,
        ),
        name != "host"@ && name != "authorization"@ && name != "connection"@ && name != "upgrade"@
            ==> values(upgrade_fields(map), name) == values(map, name),
{
}

/// A copy of some bytes.
fn copy(bytes: &Vec<u8>) -> (out: Vec<u8>)
    ensures
        out@ == bytes@,
{
    let mut out: Vec<u8> = Vec::new();
    out.extend_from_slice(bytes.as_slice());
    assert(out@ =~= bytes@);
    out
}

/// Headers of a bridge's response that end at the proxy.
pub open spec fn response_hop_names() -> Set<Seq<char>> {
    set!["connection"@, "transfer-encoding"@, "keep-alive"@]
}

/// The header of a bridge's response, as the client gets it.
pub open spec fn response_fields(map: Map<Seq<char>, Seq<Seq<u8>>>) -> Map<
    Seq<char>,
    Seq<Seq<u8>>,
> {
    map.remove_keys(response_hop_names())
}

/// The fields of a bridge's response, as the client gets them.
pub fn reply_headers(headers: &HeaderMap<HeaderValue>) -> (list: Vec<Field>)
    ensures
        collected(all_said(list@)) == response_fields(fields(*headers)),
        collected(all_said(list@)) == fields(*headers).remove_keys(response_hop_names()),
{
    let all = list_fields(headers);
    let ghost every = all_said(all@);
    let mut list: Vec<Field> = Vec::new();
    let mut i: usize = 0;
    assert(every.take(0) =~= Seq::empty());
    assert(all_said(list@) =~= Seq::empty());
    assert(collected(all_said(list@)) =~= collected(every.take(0)).remove_keys(
        response_hop_names(),
    ));
    while i < all.len()
        invariant
            i <= all@.len(),
            every == all_said(all@),
            collected(all_said(list@)) =~= collected(every.take(i as int)).remove_keys(
                response_hop_names(),
            ),
        decreases all@.len() - i,
    {
        let name: String = all[i].0.clone();
        let value: Vec<u8> = copy(&all[i].1);
        let ghost before = all_said(list@);
        let ghost map = collected(every.take(i as int));
        assert(every.take(i + 1).drop_last() =~= every.take(i as int));
        assert(every.take(i + 1).last() == (name@, value@));
        if !(same_text(name.as_str(), "connection") || same_text(name.as_str(), "transfer-encoding")
            || same_text(name.as_str(), "keep-alive")) {
            list.push((name, value));
            assert(all_said(list@) =~= before.push((name@, value@)));
            assert(all_said(list@).drop_last() =~= before);
            assert(values(map.remove_keys(response_hop_names()), name@) == values(map, name@));
        }
        i += 1;
    }
    assert(every.take(i as int) =~= every);
    list
}

/// All fields of a bridge's answer to an upgrade, as the client gets them.
pub fn switch_headers(headers: &HeaderMap<HeaderValue>) -> (list: Vec<Field>)
    ensures
        collected(all_said(list@)) == fields(*headers),
{
    list_fields(headers)
}

/// Whether a bridge's response ends its connection.
pub open spec fn ends_connection(map: Map<Seq<char>, Seq<Seq<u8>>>) -> bool {
    first_is(map, "connection"@, |value: Seq<u8>| value == CLOSE@)
}

/// Whether a tunnel may be reused behind a request.
pub open spec fn stays_reusable(reusable: bool, path: Seq<char>) -> bool {
    reusable && !bulk(path)
}

/// The connection that a lease has behind a response.
pub open spec fn left_of(conn: Option<u64>, map: Map<Seq<char>, Seq<Seq<u8>>>) -> Option<u64> {
    if ends_connection(map) {
        None
    } else {
        conn
    }
}

/// The request is about to go out on this lease: a bulk route does not park its
/// tunnel.
pub fn lend(lease: &mut Lease, path: &str)
    ensures
        final(lease).reusable() == stays_reusable(old(lease).reusable(), path@),
        final(lease).conn() == old(lease).conn(),
        final(lease).key() == old(lease).key(),
        final(lease).reusable() == (old(lease).reusable() && !bulk(path@)),
{
    if is_bulk(path) {
        lease.close_when_done();
    }
}

/// A response came back on this lease: a bridge that says `close` has already
/// ended the connection, so the lease is dropped rather than offered, a corpse,
/// to the next request.
pub fn answered(lease: &mut Lease, headers: &HeaderMap<HeaderValue>)
    ensures
        final(lease).conn() == left_of(old(lease).conn(), fields(*headers)),
        final(lease).conn() == (if ends_connection(fields(*headers)) {
            None
        } else {
            old(lease).conn()
        }),
        final(lease).key() == old(lease).key(),
        final(lease).reusable() == old(lease).reusable(),
{
    proof {
        lemma_names();
    }
    if let Some(value) = first_value(headers, "connection") {
        if constant_time_eq(value.as_slice(), &CLOSE) {
            lease.discard();
        }
    }
}

/// Where a request goes upstream.
pub open spec fn target_of(own: Option<Seq<char>>, upgrade: bool) -> Seq<char> {
    match own {
        Some(own) => own,
        None => if upgrade {
            "/api/remote.mux"@
        } else {
            "/"@
        },
    }
}

/// Where a request goes upstream: its own path and query.
pub fn target(path_and_query: Option<String>, upgrade: bool) -> (target: String)
    ensures
        target@ == target_of(
            match path_and_query {
                Some(own) => Some(own@),
                None => None,
            },
            upgrade,
        ),
        target@ == (match path_and_query {
            Some(own) => own@,
            None => if upgrade {
                "/api/remote.mux"@
            } else {
                "/"@
            },
        }),
{
    match path_and_query {
        Some(own) => own,
        None => if upgrade {
            "/api/remote.mux".to_owned()
        } else {
            "/".to_owned()
        },
    }
}

/// The `Sec-WebSocket-Accept` answer that a client's byte pipe is owed, if it
/// sent a key that can be read and hashed.
pub open spec fn pipe_answer(map: Map<Seq<char>, Seq<Seq<u8>>>) -> Option<Seq<char>> {
    let keys = values(map, "sec-websocket-key"@);
    if keys.len() > 0 && visible(keys[0]) && keys[0].len() + encode_utf8(GUID@).len()
        <= MAX_DIGEST_INPUT {
        Some(accept_text(keys[0]))
    } else {
        None
    }
}

/// Answer the upgrade of a client's byte pipe: the `Sec-WebSocket-Accept` value,
/// or the refusal of a request without a usable key.
pub fn accept_pipe(headers: &HeaderMap<HeaderValue>) -> (answer: Result<String, Refusal>)
    ensures
        match answer {
            Ok(text) => pipe_answer(fields(*headers)) == Some(text@),
            Err(refusal) => pipe_answer(fields(*headers)) is None && refusal
                == Refusal::BadUpgrade,
        },
{
    proof {
        lemma_names();
    }
    let guid: u64 = GUID.as_bytes().len() as u64;
    match first_value(headers, "sec-websocket-key") {
        Some(key) => if is_visible(&key) && guid <= MAX_DIGEST_INPUT && key.len() as u64
            <= MAX_DIGEST_INPUT - guid {
            Ok(accept_bytes(key.as_slice()))
        } else {
            Err(Refusal::BadUpgrade)
        },
        None => Err(Refusal::BadUpgrade),
    }
}

/// What a bridge's answer to an upgrade comes to.
pub open spec fn upgrade_refused(status: u16) -> bool {
    status != 101
}

/// A bridge answered an upgrade with this status: a refusal, unless it switched
/// protocols.
pub fn upgrade_answer(status: u16) -> (refusal: Option<Refusal>)
    ensures
        refusal is Some <==> upgrade_refused(status),
        refusal == (if status == 101 {
            None
        } else {
            Some(Refusal::UpgradeRefused)
        }),
{
    if status == 101 {
        None
    } else {
        Some(Refusal::UpgradeRefused)
    }
}

/// What comes back of a bridge's response: every name but the three that are hop
/// by hop, each with exactly the values that the bridge gave it, in order.
pub proof fn law_responses_keep_their_headers(map: Map<Seq<char>, Seq<Seq<u8>>>, name: Seq<char>)
    ensures
        ({
            let hop = name == "connection"@ || name == "transfer-encoding"@ || name
                == "keep-alive"@;
            &&& hop ==> !response_fields(map).contains_key(name) && !map.remove_keys(
                response_hop_names(),
            ).contains_key(name)
            &&& !hop ==> (response_fields(map).contains_key(name) <==> map.contains_key(name))
            &&& !hop ==> (map.remove_keys(response_hop_names()).contains_key(name)
                <==> map.contains_key(name))
            &&& !hop && map.contains_key(name) ==> response_fields(map)[name] == map[name]
                && map.remove_keys(response_hop_names())[name] == map[name]
        }),
{
}

/// What a request carries to its bridge: every name but the ten that end at the
/// edge, each with exactly the values that the client gave it, in order.
pub proof fn law_requests_keep_their_headers(map: Map<Seq<char>, Seq<Seq<u8>>>, name: Seq<char>)
    ensures
        ({
            let hop = name == "connection"@ || name == "keep-alive"@ || name
                == "proxy-authenticate"@ || name == "proxy-authorization"@ || name == "te"@ || name
                == "trailer"@ || name == "transfer-encoding"@ || name == "upgrade"@ || name
                == "host"@ || name == "authorization"@;
            &&& hop ==> !request_fields(map).contains_key(name) && !map.remove_keys(
                hop_names(),
            ).contains_key(name)
            &&& !hop ==> (request_fields(map).contains_key(name) <==> map.contains_key(name))
            &&& !hop ==> (map.remove_keys(hop_names()).contains_key(name) <==> map.contains_key(
                name,
            ))
            &&& !hop && map.contains_key(name) ==> request_fields(map)[name] == map[name]
                && map.remove_keys(hop_names())[name] == map[name]
        }),
{
}

/// What an upgrade carries to its bridge: the client's own header, each name with
/// all of its values, but for `host` and `authorization`, which stay at the edge,
/// and for `connection` and `upgrade`, which ask for a WebSocket.
pub proof fn law_upgrades_keep_their_headers(map: Map<Seq<char>, Seq<Seq<u8>>>, name: Seq<char>)
    ensures
        name == "host"@ || name == "authorization"@ ==> !upgrade_fields(map).contains_key(name),
        name == "connection"@ ==> upgrade_fields(map).contains_key(name) && upgrade_fields(
            map,
        )[name] == seq![encode_utf8("Upgrade"@)],
        name == "upgrade"@ ==> upgrade_fields(map).contains_key(name) && upgrade_fields(map)[name]
            == seq![encode_utf8("websocket"@)],
        name != "host"@ && name != "authorization"@ && name != "connection"@ && name != "upgrade"@
            ==> (upgrade_fields(map).contains_key(name) <==> map.contains_key(name)),
        name != "host"@ && name != "authorization"@ && name != "connection"@ && name != "upgrade"@
            && map.contains_key(name) ==> upgrade_fields(map)[name] == map[name],
{
    reveal_strlit("authorization");
    reveal_strlit("host");
    reveal_strlit("connection");
    reveal_strlit("upgrade");
    assert("authorization"@.len() == 13 && "host"@.len() == 4);
    assert("connection"@.len() == 10 && "upgrade"@.len() == 7);
}

/// A token is looked up whole: a request whose first `authorization` value is
/// `Bearer `, and then a token of visible ASCII, is authorized as exactly what the
/// registry knows under the digest of all of that token.
pub proof fn law_bearer_token_is_looked_up_whole(
    map: Map<Seq<char>, Seq<Seq<u8>>>,
    registry: Registry,
    token: Seq<u8>,
)
    requires
        map.contains_key("authorization"@),
        map["authorization"@].len() > 0,
        map["authorization"@][0] == seq![0x42u8, 0x65, 0x61, 0x72, 0x65, 0x72, 0x20] + token,
        forall|i: int| 0 <= i < token.len() ==> 32 <= (#[trigger] token[i]) < 127,
    ensures
        authorized(map, registry) == resolved(registry@, sha256_digest(token)),
        hashable(map) <==> token.len() <= 0x1fff_ffff_ffff_ffff,
{
    let value = map["authorization"@][0];
    assert(value.take(7) =~= BEARER@);
    assert(value.skip(7) =~= token);
    assert forall|i: int| 0 <= i < value.len() implies visible_byte(#[trigger] value[i]) by {
        if i >= 7 {
            assert(value[i] == token[i - 7]);
        }
    }
}

/// So a token that leads to a device in the registry leads a request that
/// presents it to that device.
pub proof fn law_issued_token_authorizes(
    map: Map<Seq<char>, Seq<Seq<u8>>>,
    registry: Registry,
    token: Seq<char>,
    handle: HandleView,
)
    requires
        map.contains_key("authorization"@),
        map["authorization"@].len() > 0,
        map["authorization"@][0] == seq![0x42u8, 0x65, 0x61, 0x72, 0x65, 0x72, 0x20] + encode_utf8(
            token,
        ),
        forall|i: int|
            0 <= i < encode_utf8(token).len() ==> 32 <= (#[trigger] encode_utf8(token)[i]) < 127,
        resolved(registry@, token_digest(token)) == Some(handle),
    ensures
        authorized(map, registry) == Some(handle),
{
    law_bearer_token_is_looked_up_whole(map, registry, encode_utf8(token));
}

/// Nothing else authorizes: no value, one that does not start with `Bearer `, or
/// one with a byte that is not text.
pub proof fn law_only_bearer_tokens_authorize(
    map: Map<Seq<char>, Seq<Seq<u8>>>,
    registry: Registry,
    at: int,
)
    requires
        ({
            ||| !map.contains_key("authorization"@)
            ||| map["authorization"@].len() == 0
            ||| map["authorization"@][0].len() < 7
            ||| 0 <= at < 7 && map["authorization"@][0][at] != seq![
                0x42u8,
                0x65,
                0x61,
                0x72,
                0x65,
                0x72,
                0x20,
            ][at]
            ||| 0 <= at < map["authorization"@][0].len() && map["authorization"@][0][at] != 9
                && !(32 <= map["authorization"@][0][at] < 127)
        }),
    ensures
        authorized(map, registry) is None,
        hashable(map),
{
    if map.contains_key("authorization"@) && map["authorization"@].len() > 0 {
        let value = map["authorization"@][0];
        if value.len() >= 7 && value.take(7) == BEARER@ && 0 <= at < 7 {
            assert(value.take(7)[at] == value[at]);
            assert(BEARER@ =~= seq![0x42u8, 0x65, 0x61, 0x72, 0x65, 0x72, 0x20]);
        }
        if 0 <= at < value.len() && value[at] != 9 && !(32 <= value[at] < 127) {
            assert(!visible_byte(value[at]));
        }
    }
}

/// Under `/api/` only the token and the upgrade count: whatever the method and
/// the rest of the path, a request with a known token is forwarded on that
/// token's route, or spliced onto it where it asks for an upgrade.
pub proof fn law_api_requests_take_their_tokens_route(
    method: Seq<char>,
    path: Seq<char>,
    map: Map<Seq<char>, Seq<Seq<u8>>>,
    registry: Registry,
    decision: Decision,
    handle: HandleView,
)
    requires
        decided(method, path, map, registry, decision),
        path.len() >= 5,
        path.take(5) == seq!['/', 'a', 'p', 'i', '/'],
        authorized(map, registry) == Some(handle),
    ensures
        !asks_upgrade(map) ==> (decision matches Decision::Forward(route) && route@ == handle),
        asks_upgrade(map) ==> (decision matches Decision::Upgrade(route) && route@ == handle),
{
    lemma_api_paths(path);
}

/// Without a known token, `/api/` is refused as unauthorized, whatever the method.
pub proof fn law_api_requests_need_a_token(
    method: Seq<char>,
    path: Seq<char>,
    map: Map<Seq<char>, Seq<Seq<u8>>>,
    registry: Registry,
    decision: Decision,
)
    requires
        decided(method, path, map, registry, decision),
        path.len() >= 5,
        path.take(5) == seq!['/', 'a', 'p', 'i', '/'],
        authorized(map, registry) is None,
    ensures
        decision == Decision::Refuse(Refusal::Unauthorized),
{
    lemma_api_paths(path);
}

/// The three routes of the edge itself, and every other path: a `POST` of `/pair`
/// pairs, `/health` is answered by any method, a `GET` of `/tunnel` that asks for
/// an upgrade is a byte pipe, none of them with a token; and what is neither of
/// these nor under `/api/` is no route, to those who have a token, and
/// unauthorized to all others.
pub proof fn law_routes_of_the_edge(
    method: Seq<char>,
    path: Seq<char>,
    map: Map<Seq<char>, Seq<Seq<u8>>>,
    registry: Registry,
    decision: Decision,
)
    requires
        decided(method, path, map, registry, decision),
    ensures
        path == "/pair"@ && method == "POST"@ <==> decision is Pair,
        path == "/health"@ <==> decision is Health,
        path == "/tunnel"@ && method == "GET"@ && asks_upgrade(map) <==> decision is Tunnel,
        !(decision is Pair) && !(decision is Health) && !(decision is Tunnel) && !(path.len() >= 5
            && path.take(5) == seq!['/', 'a', 'p', 'i', '/']) ==> decision == Decision::Refuse(
            if authorized(map, registry) is None {
                Refusal::Unauthorized
            } else {
                Refusal::NoRoute
            },
        ),
{
    reveal_strlit("/api/");
    reveal_strlit("/pair");
    reveal_strlit("/health");
    reveal_strlit("/tunnel");
    assert("/pair"@[1] == 'p' && "/health"@[1] == 'h' && "/tunnel"@[1] == 't');
    if "/api/"@.is_prefix_of(path) {
        assert(path.take(5) =~= "/api/"@);
        assert("/api/"@ =~= seq!['/', 'a', 'p', 'i', '/']);
    }
    if path.len() >= 5 && path.take(5) == seq!['/', 'a', 'p', 'i', '/'] {
        lemma_api_paths(path);
    }
}

/// A path under `/api/` is none of the edge's own.
proof fn lemma_api_paths(path: Seq<char>)
    requires
        path.len() >= 5,
        path.take(5) == seq!['/', 'a', 'p', 'i', '/'],
    ensures
        "/api/"@.is_prefix_of(path),
        path != "/pair"@,
        path != "/health"@,
        path != "/tunnel"@,
{
    reveal_strlit("/api/");
    reveal_strlit("/pair");
    reveal_strlit("/health");
    reveal_strlit("/tunnel");
    assert("/api/"@ =~= seq!['/', 'a', 'p', 'i', '/']);
    assert(path.take(5)[1] == path[1]);
    assert("/pair"@[1] == 'p' && "/health"@[1] == 'h' && "/tunnel"@[1] == 't');
    assert("/api/"@ =~= path.subrange(0, 5));
}

/// Which requests ask for an upgrade: those whose first `upgrade` value is
/// `websocket`, in any case of its letters, and those whose first `connection`
/// value has `upgrade` somewhere in it, in any case; a value with a byte that is
/// not text counts for nothing.
pub proof fn law_upgrades_are_asked_for_by_name(map: Map<Seq<char>, Seq<Seq<u8>>>)
    ensures
        asks_upgrade(map) <==> (map.contains_key("upgrade"@) && map["upgrade"@].len() > 0
            && is_text(map["upgrade"@][0]) && map["upgrade"@][0].len() == 9 && spells(
            map["upgrade"@][0],
            seq![0x77u8, 0x65, 0x62, 0x73, 0x6f, 0x63, 0x6b, 0x65, 0x74],
            0,
        )) || (map.contains_key("connection"@) && map["connection"@].len() > 0 && is_text(
            map["connection"@][0],
        ) && (exists|at: int| #[trigger] spells_upgrade(map["connection"@][0], at))),
{
    if map.contains_key("upgrade"@) && map["upgrade"@].len() > 0 {
        let value = map["upgrade"@][0];
        let word = seq![0x77u8, 0x65, 0x62, 0x73, 0x6f, 0x63, 0x6b, 0x65, 0x74];
        lemma_text(value);
        assert(WEBSOCKET@ =~= word);
        lemma_spells(value, word, 0);
        if value.len() == 9 {
            assert(lower(value).subrange(0, 9) =~= lower(value));
        }
    }
    if map.contains_key("connection"@) && map["connection"@].len() > 0 {
        let value = map["connection"@][0];
        let word = seq![0x75u8, 0x70, 0x67, 0x72, 0x61, 0x64, 0x65];
        lemma_text(value);
        assert(UPGRADE@ =~= word);
        if exists|at: int| occurs_at(lower(value), UPGRADE@, at) {
            let at = choose|at: int| occurs_at(lower(value), UPGRADE@, at);
            lemma_spells(value, word, at);
            assert(spells_upgrade(value, at));
        }
        if exists|at: int| #[trigger] spells_upgrade(value, at) {
            let at = choose|at: int| #[trigger] spells_upgrade(value, at);
            lemma_spells(value, word, at);
            assert(occurs_at(lower(value), UPGRADE@, at));
        }
    }
}

/// Whether every byte is a visible ASCII character, a space or a tab.
pub open spec fn is_text(value: Seq<u8>) -> bool {
    forall|i: int| 0 <= i < value.len() ==> 32 <= (#[trigger] value[i]) < 127 || value[i] == 9
}

/// Whether a word in lower-case letters stands at a place, in any case.
pub open spec fn spells(value: Seq<u8>, word: Seq<u8>, at: int) -> bool {
    &&& 0 <= at
    &&& at + word.len() <= value.len()
    &&& forall|i: int|
        0 <= i < word.len() ==> value[at + i] == (#[trigger] word[i]) || value[at + i] + 32 == word[i]
}

/// Whether the seven letters of `upgrade` stand at a place, in any case.
pub open spec fn spells_upgrade(value: Seq<u8>, at: int) -> bool {
    spells(value, seq![0x75u8, 0x70, 0x67, 0x72, 0x61, 0x64, 0x65], at)
}

proof fn lemma_text(value: Seq<u8>)
    ensures
        visible(value) <==> is_text(value),
{
    if visible(value) {
        assert forall|i: int| 0 <= i < value.len() implies 32 <= (#[trigger] value[i]) < 127
            || value[i] == 9 by {
            assert(visible_byte(value[i]));
        }
    }
}

proof fn lemma_spells(value: Seq<u8>, word: Seq<u8>, at: int)
    requires
        forall|i: int| 0 <= i < word.len() ==> 97 <= (#[trigger] word[i]) <= 122,
    ensures
        spells(value, word, at) <==> occurs_at(lower(value), word, at),
{
    if 0 <= at && at + word.len() <= value.len() {
        let part = lower(value).subrange(at, at + word.len());
        assert forall|i: int| 0 <= i < word.len() implies (part[i] == (#[trigger] word[i])
            <==> value[at + i] == word[i] || value[at + i] + 32 == word[i]) by {
            assert(part[i] == lower_byte(value[at + i]));
        }
        if spells(value, word, at) {
            assert(part =~= word);
        }
        if part == word {
            assert forall|i: int| 0 <= i < word.len() implies value[at + i] == (
            #[trigger] word[i]) || value[at + i] + 32 == word[i] by {
                assert(part[i] == word[i]);
            }
        }
    }
}

/// A response ends its connection exactly where its first `connection` value is
/// `close`, letter for letter.
pub proof fn law_close_ends_a_connection(map: Map<Seq<char>, Seq<Seq<u8>>>)
    ensures
        ends_connection(map) <==> map.contains_key("connection"@) && map["connection"@].len() > 0
            && map["connection"@][0] == seq![0x63u8, 0x6c, 0x6f, 0x73, 0x65],
{
    assert(CLOSE@ =~= seq![0x63u8, 0x6c, 0x6f, 0x73, 0x65]);
}

/// The two routes whose bodies are files, and no other.
pub proof fn law_bulk_routes(path: Seq<char>)
    ensures
        bulk(path) <==> path == "/api/file"@ || path == "/api/session/uploadFileBinary"@,
{
}

/// A request goes upstream under its own path and query, whatever they are; only
/// where it has none is there a default.
pub proof fn law_requests_keep_their_target(own: Seq<char>, upgrade: bool)
    ensures
        target_of(Some(own), upgrade) == own,
        target_of(None, false) == "/"@,
        target_of(None, true) == "/api/remote.mux"@,
{
}

/// Only a bridge that switches protocols has accepted an upgrade.
pub proof fn law_only_101_accepts_an_upgrade(status: u16)
    ensures
        upgrade_refused(status) <==> status != 101,
{
}

/// Each refusal has the status that its reason calls for: 4xx where the client is
/// at fault, 5xx where it is not.
pub proof fn law_refusals_have_their_status(refusal: Refusal)
    ensures
        refusal.spec_status() == 401 <==> refusal == Refusal::Unauthorized,
        refusal.spec_status() == 404 <==> refusal == Refusal::NoRoute,
        refusal.spec_status() == 413 <==> refusal == Refusal::PairTooLarge,
        refusal.spec_status() == 500 <==> refusal == Refusal::NoDeviceKey,
        refusal.spec_status() == 502 <==> refusal == Refusal::UpgradeRefused,
        refusal.spec_status() == 503 <==> refusal == Refusal::NotConnected,
        refusal.spec_status() == 400 <==> refusal == Refusal::PairNotJson || refusal
            == Refusal::KeyNotBase64 || refusal == Refusal::KeyLength || refusal
            == Refusal::TokenNotBase64 || refusal == Refusal::BadUpstream || refusal
            == Refusal::BadUpgrade,
{
}

/// A byte pipe is answered for its first key, whole, where that is text and short
/// enough to be hashed, and refused otherwise.
pub proof fn law_pipes_are_answered_for_their_key(map: Map<Seq<char>, Seq<Seq<u8>>>)
    ensures
        ({
            let keys = map["sec-websocket-key"@];
            pipe_answer(map) == (if map.contains_key("sec-websocket-key"@) && keys.len() > 0
                && is_text(keys[0]) && keys[0].len() + encode_utf8(
                "258EAFA5-E914-47DA-95CA-C5AB0DC85B11"@,
            ).len() <= 0x1fff_ffff_ffff_ffff {
                Some(
                    base64_text(
                        sha1_digest(
                            keys[0] + encode_utf8("258EAFA5-E914-47DA-95CA-C5AB0DC85B11"@),
                        ),
                    ),
                )
            } else {
                None
            })
        }),
{
    if map.contains_key("sec-websocket-key"@) && map["sec-websocket-key"@].len() > 0 {
        lemma_text(map["sec-websocket-key"@][0]);
    }
}

/// Each refusal says its own reason.
pub proof fn law_refusals_say_their_reason()
    ensures
        Refusal::PairTooLarge.spec_message() == "pair body too large"@,
        Refusal::PairNotJson.spec_message() == "pair body is not the expected JSON"@,
        Refusal::KeyNotBase64.spec_message() == "bridgeKey is not base64url"@,
        Refusal::KeyLength.spec_message() == "bridgeKey is not 32 bytes"@,
        Refusal::TokenNotBase64.spec_message() == "pairingToken is not base64url"@,
        Refusal::NotConnected.spec_message() == "bridge is not connected"@,
        Refusal::NoDeviceKey.spec_message() == "could not generate a device key"@,
        Refusal::Unauthorized.spec_message() == "missing or unknown bearer token"@,
        Refusal::NoRoute.spec_message() == "no such route"@,
        Refusal::BadUpstream.spec_message() == "bad upstream request"@,
        Refusal::BadUpgrade.spec_message() == "bad upgrade request"@,
        Refusal::UpgradeRefused.spec_message() == "bridge did not accept the upgrade"@,
{
}

/// A tunnel stays reusable behind every request but one for a file, and never
/// becomes so.
pub proof fn law_only_files_use_up_a_tunnel(path: Seq<char>)
    ensures
        !stays_reusable(false, path),
        stays_reusable(true, path) <==> path != "/api/file"@ && path
            != "/api/session/uploadFileBinary"@,
{
}

/// A response leaves its connection on the lease, unless it says `close`.
pub proof fn law_only_close_takes_the_connection(
    conn: Option<u64>,
    map: Map<Seq<char>, Seq<Seq<u8>>>,
)
    ensures
        ({
            let close = map.contains_key("connection"@) && map["connection"@].len() > 0
                && map["connection"@][0] == seq![0x63u8, 0x6c, 0x6f, 0x73, 0x65];
            &&& close ==> left_of(conn, map) is None
            &&& !close ==> left_of(conn, map) == conn
        }),
{
    law_close_ends_a_connection(map);
}

/// A token that was just issued, presented as a bearer token, gives the handle of
/// the very device that it was issued for: its bridge, its two keys and its name.
pub proof fn law_fresh_token_leads_to_its_device(
    map: Map<Seq<char>, Seq<Seq<u8>>>,
    registry: Registry,
    before: Seq<RecordView>,
    issued: Issued,
)
    requires
        issued.reads_back(),
        registry@ == admitted(before, issued.record()),
        unclaimed(
            others(before, issued.record().bridge_key, issued.record().device_id),
            token_digest(issued.token),
        ),
        map.contains_key("authorization"@),
        map["authorization"@].len() > 0,
        map["authorization"@][0] == seq![0x42u8, 0x65, 0x61, 0x72, 0x65, 0x72, 0x20] + encode_utf8(
            issued.token,
        ),
        forall|i: int|
            0 <= i < encode_utf8(issued.token).len() ==> 32 <= (#[trigger] encode_utf8(
                issued.token,
            )[i]) < 127,
    ensures
        authorized(map, registry) matches Some(handle) && {
            &&& handle.bridge_key == issued.bridge_key
            &&& handle.device_id == x25519_public(issued.private_key)
            &&& handle.private_key == issued.private_key
            &&& handle.name == issued.name
        },
{
    let record = issued.record();
    let hash = token_digest(issued.token);
    let kept = others(before, record.bridge_key, record.device_id);
    let all = admitted(before, record);
    assert forall|k: int| 0 <= k < all.len() - 1 implies (base64url_bytes(
        (#[trigger] all[k]).token_hash,
    ) matches Some(stored) && stored != hash) by {
        assert(all[k] == kept[k]);
    }
    law_the_first_match_decides(all, hash, all.len() - 1);
    law_issued_token_authorizes(map, registry, issued.token, issued.handle());
}

} // verus!
