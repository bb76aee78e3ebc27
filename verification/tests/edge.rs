//! The client edge: routing, headers, pairing and tunnel reuse.

use base64::engine::general_purpose::URL_SAFE_NO_PAD as B64;
use base64::Engine;
use hyper::header::{HeaderMap, HeaderName, HeaderValue};

use dsh_proxy::edge::{
    accept_pipe, answered, authenticate, handle, is_bulk, is_hashable, is_upgrade, lend, refuse,
    reply_headers, strip_hop, strip_hop_ws, switch_headers, target, try_handle, try_upgrade_headers,
    upgrade_answer, upgrade_headers, upstream_headers, Decision, Refusal,
};
use dsh_proxy::noise::{generate_keypair, public_key_of, IkResponder, NoiseError};
use dsh_proxy::pairing::{
    device_key, handle_from, pair_begin, pair_finish, paired, PairPlan, PairRequest,
};
use dsh_proxy::phone::{
    dial, link_of, plain_tunnels, preamble, reserve, start_tunnel, Pool, TunnelError, IDLE_NANOS,
    MAX_BODY,
};
use dsh_proxy::reply::{bad_gateway, fail, health, json};
use dsh_proxy::routing::Table;
use dsh_proxy::session::MuxSession;
use dsh_proxy::state::{DeviceHandle, Registry};
use dsh_proxy::wire::KIND_OPEN;

fn headers(fields: &[(&str, &str)]) -> HeaderMap {
    let mut map = HeaderMap::new();
    for (name, value) in fields {
        map.append(
            HeaderName::from_bytes(name.as_bytes()).unwrap(),
            HeaderValue::from_str(value).unwrap(),
        );
    }
    map
}

fn registry() -> Registry {
    let mut registry = Registry::open(Vec::new());
    registry.enroll([1u8; 32], &[4u8; 32], "good", "test".to_string(), 0).unwrap();
    registry
}

fn sorted(mut list: Vec<(String, Vec<u8>)>) -> Vec<(String, String)> {
    list.sort();
    list.into_iter().map(|(name, value)| (name, String::from_utf8(value).unwrap())).collect()
}

fn pair_of(name: &str, value: &str) -> (String, String) {
    (name.to_string(), value.to_string())
}

#[test]
fn requests_are_routed() {
    let registry = registry();
    let none = headers(&[]);
    let token = headers(&[("authorization", "Bearer good")]);
    let upgrade = headers(&[("upgrade", "websocket"), ("authorization", "Bearer good")]);
    let pipe = headers(&[("connection", "Upgrade"), ("upgrade", "websocket")]);

    assert!(matches!(handle("POST", "/pair", &none, &registry), Decision::Pair));
    assert!(matches!(handle("GET", "/health", &none, &registry), Decision::Health));
    assert!(matches!(handle("POST", "/health", &none, &registry), Decision::Health));
    assert!(matches!(handle("GET", "/tunnel", &pipe, &registry), Decision::Tunnel));
    for (method, path, map) in [
        ("GET", "/pair", &none),
        ("GET", "/tunnel", &none),
        ("POST", "/tunnel", &pipe),
        ("GET", "/api/echo", &none),
        ("GET", "/", &none),
    ] {
        assert!(matches!(
            handle(method, path, map, &registry),
            Decision::Refuse(Refusal::Unauthorized)
        ));
    }
    for path in ["/", "/api", "/other/api/", "/pair"] {
        assert!(matches!(
            handle("GET", path, &token, &registry),
            Decision::Refuse(Refusal::NoRoute)
        ));
    }
    match handle("POST", "/api/echo", &token, &registry) {
        Decision::Forward(route) => assert_eq!(route.bridge_key, [1u8; 32]),
        _ => panic!("not forwarded"),
    }
    match handle("GET", "/api/remote.mux", &upgrade, &registry) {
        Decision::Upgrade(route) => assert_eq!(route.name, "test"),
        _ => panic!("not spliced"),
    }
}

#[test]
fn unknown_token_is_refused() {
    let map = headers(&[("authorization", "Bearer not-a-real-token")]);
    match handle("POST", "/api/echo", &map, &registry()) {
        Decision::Refuse(refusal) => {
            let reply = refuse(refusal);
            assert_eq!(reply.status, 401);
            assert_eq!(reply.body, "{\"error\":\"missing or unknown bearer token\"}");
        }
        _ => panic!("not refused"),
    }
}

/// The proxy knows no socket route names.
#[test]
fn any_api_upgrade_is_spliced_not_just_the_known_one() {
    let map = headers(&[
        ("connection", "Upgrade"),
        ("upgrade", "websocket"),
        ("authorization", "Bearer good"),
    ]);
    assert!(matches!(
        handle("GET", "/api/rpc.mux", &map, &registry()),
        Decision::Upgrade(_)
    ));
}

#[test]
fn bearer_tokens_are_read_exactly() {
    let registry = registry();
    assert!(authenticate(&headers(&[("authorization", "Bearer good")]), &registry).is_some());
    for value in ["bearer good", "Bearergood", "Bearer  good", "Bearer ", "good", ""] {
        assert!(authenticate(&headers(&[("authorization", value)]), &registry).is_none());
    }
    // Only the first value counts.
    let two = headers(&[("authorization", "Bearer bad"), ("authorization", "Bearer good")]);
    assert!(authenticate(&two, &registry).is_none());
    let mut odd = HeaderMap::new();
    odd.insert("authorization", HeaderValue::from_bytes(b"Bearer \xff").unwrap());
    assert!(authenticate(&odd, &registry).is_none());
}

#[test]
fn upgrades_are_recognized() {
    for (name, value) in [
        ("upgrade", "websocket"),
        ("upgrade", "WebSocket"),
        ("connection", "upgrade"),
        ("connection", "keep-alive, Upgrade"),
        ("connection", "xUPGRADEx"),
    ] {
        assert!(is_upgrade(&headers(&[(name, value)])), "{name}: {value}");
    }
    for (name, value) in [
        ("upgrade", "h2c"),
        ("upgrade", "websockets"),
        ("upgrade", "websocke"),
        ("connection", "keep-alive"),
        ("connection", "upgrad"),
        ("connection", ""),
        ("other", "upgrade"),
    ] {
        assert!(!is_upgrade(&headers(&[(name, value)])), "{name}: {value}");
    }
    let mut odd = HeaderMap::new();
    odd.insert("connection", HeaderValue::from_bytes(b"upgrade \xff").unwrap());
    assert!(!is_upgrade(&odd));
}

#[test]
fn hop_headers_stay_behind() {
    let all = [
        "connection",
        "keep-alive",
        "proxy-authenticate",
        "proxy-authorization",
        "te",
        "trailer",
        "transfer-encoding",
        "upgrade",
        "host",
        "authorization",
        "content-type",
        "x-own",
    ];
    let fields: Vec<(&str, &str)> = all.iter().map(|name| (*name, "v")).collect();
    let mut map = headers(&fields);
    strip_hop(&mut map);
    let mut left: Vec<&str> = map.keys().map(|name| name.as_str()).collect();
    left.sort();
    assert_eq!(left, vec!["content-type", "x-own"]);
}

#[test]
fn a_request_carries_every_value_of_each_name() {
    let map = headers(&[
        ("host", "h"),
        ("x-a", "one"),
        ("x-b", "only"),
        ("x-a", "two"),
        ("authorization", "Bearer good"),
        ("x-a", "three"),
    ]);
    let list = upstream_headers(map);
    let kept: Vec<&[u8]> =
        list.iter().filter(|(name, _)| name == "x-a").map(|(_, value)| value.as_slice()).collect();
    assert_eq!(kept, vec![&b"one"[..], &b"two"[..], &b"three"[..]]);
    assert_eq!(
        sorted(list),
        vec![
            pair_of("x-a", "one"),
            pair_of("x-a", "three"),
            pair_of("x-a", "two"),
            pair_of("x-b", "only"),
        ]
    );
}

#[test]
fn a_byte_pipe_is_answered_for_its_key() {
    let key = headers(&[("sec-websocket-key", "dGhlIHNhbXBsZSBub25jZQ==")]);
    assert_eq!(accept_pipe(&key).unwrap(), "s3pPLMBiTxaQ9kYGzzhZRbK+xOo=");
    assert_eq!(accept_pipe(&headers(&[])).unwrap_err(), Refusal::BadUpgrade);
    let mut unreadable = HeaderMap::new();
    unreadable.insert("sec-websocket-key", HeaderValue::from_bytes(&[0xff]).unwrap());
    assert_eq!(accept_pipe(&unreadable).unwrap_err(), Refusal::BadUpgrade);
}

#[test]
fn an_upgrade_keeps_its_handshake() {
    let fields = [
        ("host", "h"),
        ("authorization", "Bearer good"),
        ("connection", "keep-alive, upgrade"),
        ("sec-websocket-key", "k"),
        ("te", "kept"),
        ("x-a", "one"),
        ("x-a", "two"),
    ];
    let mut map = headers(&fields);
    assert!(map.keys_len() < dsh_proxy::headers::MAX_NAMES);
    strip_hop_ws(&mut map);
    assert_eq!(map.get("connection").unwrap(), "Upgrade");
    assert_eq!(map.get("upgrade").unwrap(), "websocket");
    assert_eq!(
        sorted(upgrade_headers(headers(&fields))),
        vec![
            pair_of("connection", "Upgrade"),
            pair_of("sec-websocket-key", "k"),
            pair_of("te", "kept"),
            pair_of("upgrade", "websocket"),
            pair_of("x-a", "one"),
            pair_of("x-a", "two"),
        ]
    );
}

#[test]
fn a_header_without_room_is_told() {
    let mut many = HeaderMap::new();
    for i in 0..dsh_proxy::headers::MAX_NAMES {
        let name = HeaderName::from_bytes(format!("x-{i}").as_bytes()).unwrap();
        many.insert(name, HeaderValue::from_static("v"));
    }
    assert!(try_upgrade_headers(many.clone()).is_none());
    many.remove("x-0");
    let list = try_upgrade_headers(many).unwrap();
    assert_eq!(list.len(), dsh_proxy::headers::MAX_NAMES + 1);
}

#[test]
fn ordinary_tokens_can_be_hashed() {
    let map = headers(&[("authorization", "Bearer good")]);
    assert!(is_hashable(&map));
    assert!(is_hashable(&headers(&[])));
    assert!(matches!(
        try_handle("POST", "/api/echo", &map, &registry()),
        Some(Decision::Forward(_))
    ));
    assert!(matches!(
        try_handle("POST", "/api/echo", &headers(&[]), &registry()),
        Some(Decision::Refuse(Refusal::Unauthorized))
    ));
}

#[test]
fn a_response_keeps_every_value() {
    let map = headers(&[
        ("set-cookie", "a"),
        ("connection", "keep-alive"),
        ("set-cookie", "b"),
        ("transfer-encoding", "chunked"),
        ("keep-alive", "timeout=5"),
        ("content-length", "4"),
    ]);
    assert_eq!(
        sorted(reply_headers(&map)),
        vec![
            pair_of("content-length", "4"),
            pair_of("set-cookie", "a"),
            pair_of("set-cookie", "b"),
        ]
    );
    assert_eq!(switch_headers(&map).len(), 6);
}

#[test]
fn upstream_targets() {
    assert_eq!(target(Some("/api/x?y=1".to_string()), false), "/api/x?y=1");
    assert_eq!(target(None, false), "/");
    assert_eq!(target(None, true), "/api/remote.mux");
}

#[test]
fn an_upgrade_must_switch_protocols() {
    assert_eq!(upgrade_answer(101), None);
    for status in [100, 200, 404] {
        let refusal = upgrade_answer(status).unwrap();
        assert_eq!((refusal.status(), refusal.message()), (502, "bridge did not accept the upgrade"));
    }
}

#[test]
fn refusals_and_replies() {
    for (refusal, status, message) in [
        (Refusal::PairTooLarge, 413, "pair body too large"),
        (Refusal::PairNotJson, 400, "pair body is not the expected JSON"),
        (Refusal::KeyNotBase64, 400, "bridgeKey is not base64url"),
        (Refusal::KeyLength, 400, "bridgeKey is not 32 bytes"),
        (Refusal::TokenNotBase64, 400, "pairingToken is not base64url"),
        (Refusal::NotConnected, 503, "bridge is not connected"),
        (Refusal::NoDeviceKey, 500, "could not generate a device key"),
        (Refusal::NoRoute, 404, "no such route"),
        (Refusal::BadUpstream, 400, "bad upstream request"),
        (Refusal::BadUpgrade, 400, "bad upgrade request"),
    ] {
        assert_eq!((refusal.status(), refusal.message()), (status, message));
    }
    let quoted = fail(500, "say \"no\"");
    assert_eq!(quoted.body, "{\"error\":\"say \\\"no\\\"\"}");
    let up = health();
    assert_eq!((up.status, up.body.as_str()), (200, "{\"ok\":true}"));
    let down = bad_gateway("tunnel closed");
    assert_eq!((down.status, down.body.as_str()), (502, "{\"error\":\"tunnel closed\"}"));
    let empty = json(204, Vec::new());
    assert_eq!((empty.status, empty.body.as_str()), (204, "{}"));
}

fn request(bridge_key: &str, token: Option<&str>, name: Option<&str>) -> Option<PairRequest> {
    Some(PairRequest {
        bridge_key: bridge_key.to_string(),
        pairing_token: token.map(|text| text.to_string()),
        name: name.map(|text| text.to_string()),
    })
}

#[test]
fn pairing_requests_are_checked_in_order() {
    let mut table = Table::new();
    table.register(&[7u8; 32], 1);
    let key = B64.encode([7u8; 32]);
    let refused = |request| pair_begin(request, &table).err().unwrap();
    assert_eq!(refused(None), Refusal::PairNotJson);
    assert_eq!(refused(request("not base64!", Some("!"), None)), Refusal::KeyNotBase64);
    assert_eq!(refused(request(&B64.encode([7u8; 31]), Some("!"), None)), Refusal::KeyLength);
    assert_eq!(refused(request(&key, Some("!"), None)), Refusal::TokenNotBase64);
    assert_eq!(
        refused(request(&B64.encode([8u8; 32]), None, None)),
        Refusal::NotConnected
    );

    let spaced = format!("\u{3000} \u{85}{key}\u{a0}\t\n");
    let plan = pair_begin(request(&spaced, Some(&B64.encode([7u8; 32])), Some("mine")), &table)
        .unwrap_or_else(|_| panic!("refused"));
    assert_eq!(plan.bridge_key, [7u8; 32]);
    assert_eq!(plan.token, vec![7u8; 32]);
    assert_eq!(plan.name, "mine");
    let plan = pair_begin(request(&key, Some(""), None), &table).unwrap_or_else(|_| panic!("refused"));
    assert!(plan.token.is_empty());
    assert_eq!(plan.name, "phone");
}

#[test]
fn pairing_mints_a_token_that_reaches_the_bridge() {
    let mut table = Table::new();
    table.register(&[7u8; 32], 3);
    let mut registry = Registry::open(Vec::new());
    let plan = pair_begin(
        request(&B64.encode([7u8; 32]), Some(&B64.encode([7u8; 32])), Some("test")),
        &table,
    )
    .unwrap_or_else(|_| panic!("refused"));
    let route = device_key(&plan).unwrap_or_else(|_| panic!("no key"));
    assert_eq!(public_key_of(&route.private_key).unwrap(), route.device_id);
    let token = pair_finish(None, &mut registry, &route, 12).unwrap_or_else(|_| panic!("no token"));
    assert_eq!(token.len(), 43);
    let found = registry.verify(&token).unwrap();
    assert_eq!(link_of(&table, &found), Ok(3));
    assert_eq!(found.device_id, route.device_id);
    let reply = paired(token.clone(), &route);
    assert_eq!(reply.status, 200);
    let parsed: serde_json::Value = serde_json::from_str(&reply.body).unwrap();
    assert_eq!(parsed["token"].as_str(), Some(token.as_str()));
    assert_eq!(parsed["name"].as_str(), Some("test"));
    assert_eq!(parsed["deviceId"].as_str(), Some(B64.encode(route.device_id).as_str()));
}

#[test]
fn a_device_is_known_by_its_public_key() {
    let plan = PairPlan { bridge_key: [7u8; 32], token: Vec::new(), name: "mine".to_string() };
    let made = handle_from(&plan, Ok((vec![1u8; 32], vec![2u8; 32])));
    let made = made.unwrap_or_else(|_| panic!("no key"));
    assert_eq!(made.bridge_key, [7u8; 32]);
    assert_eq!(made.device_id, [2u8; 32]);
    assert_eq!(made.private_key, vec![1u8; 32]);
    assert_eq!(made.name, "mine");
    let short = handle_from(&plan, Ok((vec![1u8; 32], vec![2u8; 31])));
    assert_eq!(short.err().unwrap(), Refusal::NoDeviceKey);
    let none = handle_from(&plan, Err(NoiseError::Short));
    assert_eq!(none.err().unwrap(), Refusal::NoDeviceKey);
}

#[test]
fn a_refused_device_never_becomes_a_record() {
    let mut registry = Registry::open(Vec::new());
    let route = DeviceHandle {
        bridge_key: [7u8; 32],
        device_id: [1u8; 32],
        private_key: vec![1u8; 31],
        name: "x".to_string(),
    };
    let reply = pair_finish(Some("no".to_string()), &mut registry, &route, 0).err().unwrap();
    assert_eq!(
        (reply.status, reply.body.as_str()),
        (401, "{\"error\":\"bridge refused pairing: no\"}")
    );
    let reply = pair_finish(None, &mut registry, &route, 0).err().unwrap();
    assert_eq!(
        (reply.status, reply.body.as_str()),
        (500, "{\"error\":\"private key must be 32 bytes\"}")
    );
    assert!(registry.is_empty());
}

fn route(bridge: u8, device: u8) -> DeviceHandle {
    DeviceHandle {
        bridge_key: [bridge; 32],
        device_id: [device; 32],
        private_key: vec![0u8; 32],
        name: String::new(),
    }
}

/// An RPC call parks its tunnel for reuse; a bulk route does not, so an RPC
/// after a bulk call has to build a tunnel.
#[test]
fn bulk_routes_do_not_park_their_tunnel() {
    let mut pool = Pool::new(8);
    let device = route(1, 2);
    let mut opened = 0u64;
    let mut call = |pool: &mut Pool, path: &str| {
        let (found, stale) = pool.acquire(&device, 0, &Vec::new());
        assert!(stale.is_empty());
        let mut lease = match found {
            Some(lease) => lease,
            None => {
                opened += 1;
                pool.opened(&device, opened)
            }
        };
        lend(&mut lease, path);
        answered(&mut lease, &headers(&[("content-length", "1")]));
        pool.finish(lease, 0, false);
        opened
    };
    let after_first = call(&mut pool, "/api/session/echo");
    assert_eq!(call(&mut pool, "/api/session/echo"), after_first);
    assert_eq!(call(&mut pool, "/api/session/uploadFileBinary"), after_first);
    assert_eq!(pool.live(), 0);
    assert_eq!(call(&mut pool, "/api/session/echo"), after_first + 1);
    assert_eq!(pool.live(), 1);
    assert!(is_bulk("/api/file"));
    assert!(!is_bulk("/api/session.uploadFileBinary"));
    assert!(!is_bulk("/api/file/"));
}

#[test]
fn stale_and_closed_tunnels_are_not_lent() {
    let mut pool = Pool::new(8);
    let device = route(1, 2);
    for (id, parked) in [(1u64, 0u64), (2, 10), (3, IDLE_NANOS)] {
        let lease = pool.opened(&device, id);
        assert_eq!(lease.sender(), id);
        assert_eq!(pool.finish(lease, parked, false), None);
    }
    assert_eq!(pool.live(), 3);
    assert_eq!(pool.idle_ids(&device), vec![1, 2, 3]);
    // The last is closed, the second just fresh enough, the first too old.
    let (found, stale) = pool.acquire(&device, IDLE_NANOS + 9, &vec![3]);
    assert_eq!(found.unwrap().sender(), 2);
    assert_eq!(stale, vec![3]);
    assert_eq!(pool.idle_ids(&device), vec![1]);
    let (found, stale) = pool.acquire(&device, IDLE_NANOS, &Vec::new());
    assert!(found.is_none());
    assert_eq!(stale, vec![1]);
    assert_eq!(pool.live(), 1);
}

#[test]
fn installations_do_not_share_tunnels() {
    let mut pool = Pool::new(8);
    let lease = pool.opened(&route(1, 2), 9);
    pool.finish(lease, 0, false);
    for other in [route(1, 3), route(2, 2), route(2, 1)] {
        assert!(pool.acquire(&other, 0, &Vec::new()).0.is_none());
    }
    assert!(pool.acquire(&route(1, 2), 0, &Vec::new()).0.is_some());
}

#[test]
fn a_lease_that_cannot_be_parked_is_dropped() {
    let device = route(1, 2);
    // A ceiling of zero is one.
    let mut pool = Pool::new(0);
    let first = pool.opened(&device, 1);
    let second = pool.opened(&device, 2);
    assert_eq!(pool.finish(first, 0, false), None);
    assert_eq!(pool.finish(second, 0, false), Some(2));
    assert_eq!(pool.live(), 1);

    let mut closed = Pool::new(4);
    let lease = closed.opened(&device, 1);
    assert_eq!(closed.finish(lease, 0, true), Some(1));
    let mut lease = closed.opened(&device, 2);
    assert!(!lease.discarded());
    answered(&mut lease, &headers(&[("connection", "close")]));
    assert!(lease.discarded());
    assert_eq!(closed.finish(lease, 0, false), None);
    assert_eq!(closed.live(), 0);
    assert!(closed.idle_ids(&device).is_empty());

    // Only `close` itself ends a connection.
    let mut lease = closed.opened(&device, 3);
    answered(&mut lease, &headers(&[("connection", "Close")]));
    assert_eq!(closed.finish(lease, 0, false), None);
    assert_eq!(closed.idle_ids(&device), vec![3]);

    let _upgraded = closed.opened(&device, 4);
    assert_eq!((closed.live(), closed.held()), (2, 1));
    closed.finished();
    assert_eq!(closed.live(), 1);
}

/// Live tunnels are those that are out and those that are parked, whatever is
/// borrowed, returned, stale or gone.
#[test]
fn live_tunnels_are_held_or_parked() {
    let devices = [route(1, 2), route(1, 3)];
    let mut pool = Pool::new(2);
    let mut out = Vec::new();
    let mut next = 0u64;
    for round in 0..40u64 {
        let device = &devices[round as usize % 2];
        let now = round * IDLE_NANOS / 3;
        let closed: Vec<u64> = pool.idle_ids(device).into_iter().filter(|id| id % 5 == 0).collect();
        match pool.acquire(device, now, &closed).0 {
            Some(lease) => out.push(lease),
            None => {
                next += 1;
                out.push(pool.opened(device, next));
            }
        }
        if round % 4 == 3 {
            while out.len() > 1 {
                let lease = out.remove(0);
                pool.finish(lease, now, out.len() % 3 == 2);
            }
        }
        let parked: usize = devices.iter().map(|device| pool.idle_ids(device).len()).sum();
        assert_eq!(pool.held(), out.len());
        assert_eq!(pool.live(), out.len() + parked);
    }
}

fn dialled_route() -> (DeviceHandle, Vec<u8>) {
    let (bridge, bridge_key) = generate_keypair().unwrap();
    let (private_key, device_id) = generate_keypair().unwrap();
    let route = DeviceHandle {
        bridge_key: bridge_key.try_into().unwrap(),
        device_id: device_id.try_into().unwrap(),
        private_key,
        name: String::new(),
    };
    (route, bridge)
}

/// The preamble is both what is written and what the handshake mixes in.
#[test]
fn a_bridge_is_dialled_with_its_preamble() {
    let (route, bridge) = dialled_route();
    let (head, mut handshake) = dial(&route).unwrap_or_else(|_| panic!("not dialled"));
    assert_eq!(head, preamble(&route.bridge_key));
    let first = handshake.first(b"token").unwrap();
    let mut responder = IkResponder::new(&bridge, &head).unwrap();
    let (device, carried) = responder.accept(&first[2..]).unwrap();
    assert_eq!((device, carried), (route.device_id, b"token".to_vec()));
    let mut other = IkResponder::new(&bridge, b"another prologue").unwrap();
    assert!(matches!(other.accept(&first[2..]), Err(NoiseError::Refused(_))));
}

#[test]
fn a_tunnel_starts_with_its_stream_and_its_preamble() {
    let (route, bridge) = dialled_route();
    let mut session = MuxSession::start(2);
    let (tx, _rx) = reserve(&mut session).unwrap_or_else(|_| panic!("full"));
    let start = start_tunnel(&tx, &route, true).unwrap_or_else(|_| panic!("not started"));
    assert_eq!((start.open.id, start.open.kind), (1, KIND_OPEN));
    assert!(start.open.payload.is_empty());
    assert_eq!(&start.first[..], &preamble(&route.bridge_key)[..]);
    assert!(start.handshake.is_none());

    let start = start_tunnel(&tx, &route, false).unwrap_or_else(|_| panic!("not started"));
    assert_eq!(&start.first[..], &preamble(&route.bridge_key)[..]);
    let first = start.handshake.unwrap().first(b"token").unwrap();
    let mut responder = IkResponder::new(&bridge, &start.first).unwrap();
    assert_eq!(responder.accept(&first[2..]).unwrap().1, b"token".to_vec());
}

#[test]
fn tunnels_need_a_link_with_budget() {
    let table = Table::new();
    assert_eq!(link_of(&table, &route(1, 2)), Err(TunnelError::NotConnected));
    assert_eq!(TunnelError::NotConnected.message(), "bridge is not connected");
    let mut session = MuxSession::start(1);
    let (tx, _rx) = reserve(&mut session).unwrap_or_else(|_| panic!("full"));
    assert_eq!(tx.id(), 1);
    let error = reserve(&mut session).err().unwrap();
    assert_eq!(error.message(), "bridge is at its stream limit");
}

#[test]
fn plain_tunnels_are_asked_for_by_one() {
    assert!(plain_tunnels(Some("1".to_string())));
    for value in [None, Some(""), Some("0"), Some("11"), Some("true")] {
        assert!(!plain_tunnels(value.map(|text| text.to_string())));
    }
}

#[test]
fn a_phone_preamble() {
    let head = preamble(&[5u8; 32]);
    assert_eq!(head.len(), 37);
    assert_eq!(&head[..5], b"DSHC\x01");
    assert_eq!(&head[5..], &[5u8; 32]);
    assert_eq!(MAX_BODY, 64 * 1024 * 1024);
}
