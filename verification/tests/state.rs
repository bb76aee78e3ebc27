//! The pairing registry.

use base64::engine::general_purpose::URL_SAFE_NO_PAD as B64;
use base64::Engine;

use dsh_proxy::noise::{generate_keypair, public_key_of};
use dsh_proxy::state::{
    constant_time_eq, decode32, hash_token, random_token, token_of, Record, Registry, StateError,
};

fn record(token: &str) -> Record {
    Record {
        bridge_key: B64.encode([1u8; 32]),
        device_id: B64.encode([2u8; 32]),
        private_key: B64.encode([3u8; 32]),
        token_hash: B64.encode(hash_token(token)),
        name: "kept".to_string(),
        created_at: 5,
    }
}

#[test]
fn an_issued_token_verifies() {
    let mut registry = Registry::open(Vec::new());
    assert!(registry.is_empty());
    let (private, public) = generate_keypair().unwrap();
    let token = registry.issue([9u8; 32], private.clone(), "phone".to_string(), 77).unwrap();
    assert_eq!(token.len(), 43);
    assert_eq!(registry.len(), 1);
    let handle = registry.verify(&token).unwrap();
    assert_eq!(handle.bridge_key, [9u8; 32]);
    assert_eq!(handle.device_id.to_vec(), public);
    assert_eq!(handle.private_key, private);
    assert_eq!(handle.name, "phone");
    assert!(registry.verify_bytes(token.as_bytes()).is_some());
    assert!(registry.verify("not-a-real-token").is_none());
    assert!(registry.verify("").is_none());
    assert_eq!(registry.records()[0].created_at, 77);
}

#[test]
fn only_the_hash_of_a_token_is_kept() {
    let mut registry = Registry::open(Vec::new());
    let token = registry.issue([9u8; 32], vec![4u8; 32], "n".to_string(), 0).unwrap();
    let kept = &registry.records()[0];
    assert_eq!(kept.token_hash, B64.encode(hash_token(&token)));
    for text in [&kept.bridge_key, &kept.device_id, &kept.private_key, &kept.token_hash] {
        assert_ne!(text, &token);
    }
    assert_eq!(kept.private_key, B64.encode([4u8; 32]));
    assert_eq!(kept.device_id, B64.encode(public_key_of(&[4u8; 32]).unwrap()));
}

#[test]
fn pairing_again_replaces_the_old_token() {
    let mut registry = Registry::open(Vec::new());
    let first = registry.issue([1u8; 32], vec![4u8; 32], "a".to_string(), 0).unwrap();
    let other = registry.issue([2u8; 32], vec![4u8; 32], "b".to_string(), 0).unwrap();
    let second = registry.issue([1u8; 32], vec![4u8; 32], "c".to_string(), 0).unwrap();
    assert_eq!(registry.len(), 2);
    assert!(registry.verify(&first).is_none());
    assert_eq!(registry.verify(&other).unwrap().name, "b");
    assert_eq!(registry.verify(&second).unwrap().name, "c");
}

#[test]
fn a_bad_device_key_is_not_admitted() {
    let mut registry = Registry::open(Vec::new());
    let error = registry.issue([1u8; 32], vec![4u8; 31], "a".to_string(), 0).unwrap_err();
    assert!(matches!(error, StateError::PrivateKeyLength));
    assert_eq!(error.message(), "private key must be 32 bytes");
    assert_eq!(registry.len(), 0);
    assert_eq!(StateError::NoRandomness.message(), "system randomness unavailable");
}

#[test]
fn a_given_token_is_enrolled() {
    let mut registry = Registry::open(Vec::new());
    registry.enroll([1u8; 32], &[4u8; 32], "token", "a".to_string(), 3).unwrap();
    assert_eq!(registry.verify("token").unwrap().bridge_key, [1u8; 32]);
    assert!(matches!(
        registry.enroll([1u8; 32], b"short", "token", "a".to_string(), 3),
        Err(StateError::PrivateKeyLength)
    ));
}

#[test]
fn kept_records_are_used() {
    let registry = Registry::open(vec![record("one")]);
    let handle = registry.verify("one").unwrap();
    assert_eq!(
        (handle.bridge_key, handle.device_id, handle.private_key, handle.name.as_str()),
        ([1u8; 32], [2u8; 32], vec![3u8; 32], "kept")
    );
}

/// A hash that cannot be read ends the search; one behind the match does not.
#[test]
fn an_unreadable_hash_ends_the_search() {
    let mut broken = record("x");
    broken.token_hash = "not base64!".to_string();
    let registry = Registry::open(vec![record("one"), broken, record("two")]);
    assert!(registry.verify("one").is_some());
    assert!(registry.verify("two").is_none());
}

#[test]
fn unreadable_keys_resolve_to_nothing() {
    let mut bad_bridge = record("a");
    bad_bridge.bridge_key = B64.encode([1u8; 31]);
    let mut bad_device = record("b");
    bad_device.device_id = "%".to_string();
    let mut bad_private = record("c");
    bad_private.private_key = "%".to_string();
    let registry = Registry::open(vec![bad_bridge, bad_device, bad_private]);
    for token in ["a", "b", "c"] {
        assert!(registry.verify(token).is_none());
    }
}

#[test]
fn keys_are_32_bytes_of_base64url() {
    assert_eq!(decode32(&B64.encode([5u8; 32])).unwrap(), [5u8; 32]);
    let short = decode32(&B64.encode([5u8; 31])).unwrap_err();
    assert!(matches!(short, StateError::KeyLength));
    assert_eq!(short.message(), "expected a 32-byte key");
    assert!(matches!(decode32("+/"), Err(StateError::NotBase64)));
}

/// SHA-256 of "abc" (FIPS 180-2, appendix B.1).
#[test]
fn a_known_hash() {
    let hash = hash_token("abc");
    assert_eq!(&hash[..4], &[0xba, 0x78, 0x16, 0xbf]);
    assert_eq!(&hash[28..], &[0xf2, 0x00, 0x15, 0xad]);
    assert_eq!(hash.len(), 32);
}

#[test]
fn tokens_differ() {
    let first = random_token().unwrap();
    let second = random_token().unwrap();
    assert_ne!(first, second);
    assert_eq!(B64.decode(&first).unwrap().len(), 32);
}

#[test]
fn comparison_is_by_all_bytes() {
    assert!(constant_time_eq(b"", b""));
    assert!(constant_time_eq(b"same", b"same"));
    assert!(!constant_time_eq(b"same", b"sam"));
    assert!(!constant_time_eq(b"same", b"tame"));
    assert!(!constant_time_eq(b"same", b"samf"));
}

#[test]
fn a_token_is_its_secret_in_base64url() {
    let secret: [u8; 32] = std::array::from_fn(|i| 3 * i as u8);
    assert_eq!(token_of(Some(secret)).unwrap(), B64.encode(secret));
    assert_eq!(token_of(Some([0u8; 32])).unwrap(), "A".repeat(43));
    assert!(matches!(token_of(None), Err(StateError::NoRandomness)));
}

/// Over a run of pairings, exactly the tokens that were not replaced are known,
/// and the count is that of the installations.
#[test]
fn tokens_stand_until_they_are_replaced() {
    let mut registry = Registry::open(Vec::new());
    let run = [(1u8, 4u8), (2, 4), (1, 5), (1, 4), (2, 4), (2, 4)];
    let mut tokens = Vec::new();
    for (i, (bridge, device)) in run.iter().enumerate() {
        let token =
            registry.issue([*bridge; 32], vec![*device; 32], format!("{i}"), 0).unwrap();
        assert!(registry.issue([*bridge; 32], vec![*device; 33], "no".to_string(), 0).is_err());
        tokens.push(token);
    }
    assert_eq!(registry.len(), 3);
    for (i, token) in tokens.iter().enumerate() {
        let replaced = run[i + 1..].contains(&run[i]);
        match registry.verify(token) {
            Some(handle) => {
                assert!(!replaced);
                assert_eq!(handle.name, format!("{i}"));
                assert_eq!(handle.bridge_key, [run[i].0; 32]);
                assert_eq!(handle.private_key, vec![run[i].1; 32]);
                assert_eq!(handle.device_id, public_key_of(&[run[i].1; 32]).unwrap());
            }
            None => assert!(replaced),
        }
    }
}

/// Two private keys of one public key are one installation.
#[test]
fn an_installation_is_its_public_key() {
    let mut registry = Registry::open(Vec::new());
    let mut other = [8u8; 32];
    other[0] |= 1;
    assert_eq!(public_key_of(&[8u8; 32]).unwrap(), public_key_of(&other).unwrap());
    registry.enroll([1u8; 32], &[8u8; 32], "one", "a".to_string(), 0).unwrap();
    registry.enroll([1u8; 32], &other, "two", "b".to_string(), 0).unwrap();
    assert_eq!(registry.len(), 1);
    assert!(registry.verify("one").is_none());
    assert_eq!(registry.verify("two").unwrap().private_key, other.to_vec());
}
