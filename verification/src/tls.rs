//! The proxy's TLS identity.
//!
//! Every phone speaks HTTPS/WSS to the proxy, so the proxy owns the
//! certificate. Noise still runs inside, from the proxy to the bridge: TLS is
//! what the client sees, Noise is what the Mac proves, and neither the bridge
//! nor the client has to know about the other framing.

use rustls::pki_types::PrivateKeyDer;
use vstd::prelude::*;

verus! {

/// The one protocol that TLS advertises: `http/1.1`. A WebSocket upgrade is an
/// HTTP/1.1 mechanism, and RFC 8441 extended CONNECT is not something a
/// mini-program can use.
pub const ALPN: [u8; 8] = [0x68, 0x74, 0x74, 0x70, 0x2f, 0x31, 0x2e, 0x31];

/// The certificates of a PEM file as `rustls_pemfile::certs` finds them, in
/// DER, or its first error in words.
pub uninterp spec fn pem_certificates(pem: Seq<u8>) -> Result<Seq<Seq<u8>>, Seq<char>>;

/// The first private key of a PEM file as `rustls_pemfile::private_key` finds
/// it, with what it is wrapped in, in DER, or its error in words.
pub uninterp spec fn pem_key(pem: Seq<u8>) -> Result<Option<(KeyKind, Seq<u8>)>, Seq<char>>;

/// The certificate and the private key, both in DER, that
/// `rcgen::generate_simple_self_signed` makes for some names with the randomness
/// that it draws, or its error in words.
pub uninterp spec fn certificate_made(names: Seq<Seq<char>>, drawn: Seq<u8>) -> Result<
    (Seq<u8>, Seq<u8>),
    Seq<char>,
>;

/// Names by what they say.
pub open spec fn names_said(names: Seq<String>) -> Seq<Seq<char>> {
    names.map_values(|name: String| name@)
}

/// What certificate and key were made, by what they hold.
pub open spec fn made_bytes(made: Result<(Vec<u8>, Vec<u8>), String>) -> Result<
    (Seq<u8>, Seq<u8>),
    Seq<char>,
> {
    match made {
        Ok(pair) => Ok((pair.0@, pair.1@)),
        Err(error) => Err(error@),
    }
}

/// Byte strings by what they hold.
pub open spec fn chain_bytes(chain: Seq<Vec<u8>>) -> Seq<Seq<u8>> {
    chain.map_values(|der: Vec<u8>| der@)
}

/// What certificates were found, by what they hold.
pub open spec fn certificates_found(found: Result<Vec<Vec<u8>>, String>) -> Result<
    Seq<Seq<u8>>,
    Seq<char>,
> {
    match found {
        Ok(chain) => Ok(chain_bytes(chain@)),
        Err(error) => Err(error@),
    }
}

/// What a private key is wrapped in.
#[derive(PartialEq, Eq, Structural, Clone, Copy, Debug)]
pub enum KeyKind {
    /// An RSA key of its own.
    Pkcs1,
    /// An elliptic-curve key of its own.
    Sec1,
    /// A key of any kind, with its algorithm.
    Pkcs8,
    /// Something that is not told apart here.
    Other,
}

/// What key was found, by what it holds.
pub open spec fn key_found(found: Result<Option<(KeyKind, Vec<u8>)>, String>) -> Result<
    Option<(KeyKind, Seq<u8>)>,
    Seq<char>,
> {
    match found {
        Ok(Some(key)) => Ok(Some((key.0, key.1@))),
        Ok(None) => Ok(None),
        Err(error) => Err(error@),
    }
}

/// `rustls_pemfile::certs`, until the end or the first error.
#[verifier::external_body]
fn read_certificates(pem: &[u8]) -> (found: Result<Vec<Vec<u8>>, String>)
    ensures
        certificates_found(found) == pem_certificates(pem@),
{
    let mut rest = pem;
    rustls_pemfile::certs(&mut rest)
        .map(|found| found.map(|der| der.to_vec()))
        .collect::<std::io::Result<Vec<Vec<u8>>>>()
        .map_err(|error| error.to_string())
}

/// `rustls_pemfile::private_key`, with the variant of `PrivateKeyDer` that it
/// gives.
#[verifier::external_body]
fn read_key(pem: &[u8]) -> (found: Result<Option<(KeyKind, Vec<u8>)>, String>)
    ensures
        key_found(found) == pem_key(pem@),
{
    let mut rest = pem;
    let found = rustls_pemfile::private_key(&mut rest).map_err(|error| error.to_string())?;
    Ok(found.map(|key| match key {
        PrivateKeyDer::Pkcs1(der) => (KeyKind::Pkcs1, der.secret_pkcs1_der().to_vec()),
        PrivateKeyDer::Sec1(der) => (KeyKind::Sec1, der.secret_sec1_der().to_vec()),
        PrivateKeyDer::Pkcs8(der) => (KeyKind::Pkcs8, der.secret_pkcs8_der().to_vec()),
        other => (KeyKind::Other, other.secret_der().to_vec()),
    }))
}

/// `rcgen::generate_simple_self_signed`: a certificate for the names and its
/// PKCS#8 private key, both in DER, or the error in words. They follow from the
/// names and the randomness that the key and the signature are drawn from; which
/// randomness that is, is not told.
#[verifier::external_body]
fn generate(names: Vec<String>) -> (pair: Result<(Vec<u8>, Vec<u8>), String>)
    ensures
        exists|drawn: Seq<u8>|
            made_bytes(pair) == #[trigger] certificate_made(names_said(names@), drawn),
{
    rcgen::generate_simple_self_signed(names)
        .map(|made| (made.cert.der().to_vec(), made.signing_key.serialize_der()))
        .map_err(|error| error.to_string())
}

/// A certificate chain and its private key, in DER.
pub struct TlsIdentity {
    /// Leaf first.
    pub cert_chain: Vec<Vec<u8>>,
    /// The private key.
    pub key: Vec<u8>,
    /// What the private key is wrapped in.
    pub key_kind: KeyKind,
}

/// Why there is no identity.
#[derive(Debug)]
pub enum TlsError {
    /// A file cannot be read as PEM, or a certificate cannot be made.
    Failed(String),
    /// The certificate file holds no certificate.
    NoCertificates,
    /// The key file holds no private key.
    NoKey,
}

impl TlsError {
    /// The error in words.
    pub fn message(&self) -> (text: String)
        ensures
            text@ == (match *self {
                TlsError::Failed(error) => error@,
                TlsError::NoCertificates => "certificate file holds no certificates"@,
                TlsError::NoKey => "key file holds no private key"@,
            }),
    {
        match self {
            TlsError::Failed(error) => error.clone(),
            TlsError::NoCertificates => "certificate file holds no certificates".to_owned(),
            TlsError::NoKey => "key file holds no private key".to_owned(),
        }
    }
}

/// Whether an identity is a generated certificate alone, with its key, or the
/// error of generating them.
pub open spec fn fresh_from(
    made: Result<(Seq<u8>, Seq<u8>), Seq<char>>,
    identity: Result<TlsIdentity, TlsError>,
) -> bool {
    match made {
        Ok(pair) => identity matches Ok(identity) && chain_bytes(identity.cert_chain@)
            == seq![pair.0] && identity.key@ == pair.1 && identity.key_kind == KeyKind::Pkcs8,
        Err(text) => identity matches Err(TlsError::Failed(error)) && error@ == text,
    }
}

/// The identity that a generated certificate and its key make.
pub fn fresh_identity(made: Result<(Vec<u8>, Vec<u8>), String>) -> (identity: Result<
    TlsIdentity,
    TlsError,
>)
    ensures
        fresh_from(made_bytes(made), identity),
{
    match made {
        Ok((certificate, key)) => {
            let ghost der = certificate@;
            let mut cert_chain: Vec<Vec<u8>> = Vec::new();
            cert_chain.push(certificate);
            assert(chain_bytes(cert_chain@) =~= seq![der]);
            Ok(TlsIdentity { cert_chain, key, key_kind: KeyKind::Pkcs8 })
        },
        Err(error) => Err(TlsError::Failed(error)),
    }
}

/// Generate a self-signed identity for local development and tests: one
/// certificate for the names, and its key. Which certificate that is, and whether
/// there is one, rests with the names and with the system's randomness.
///
/// A deployment uses a real certificate via `load_pem`; this exists so the edge
/// is exercisable without one.
pub fn self_signed(names: Vec<String>) -> (identity: Result<TlsIdentity, TlsError>)
    ensures
        exists|drawn: Seq<u8>|
            fresh_from(#[trigger] certificate_made(names_said(names@), drawn), identity),
{
    let ghost said = names_said(names@);
    let made = generate(names);
    let ghost bytes = made_bytes(made);
    let identity = fresh_identity(made);
    proof {
        let drawn = choose|drawn: Seq<u8>| bytes == #[trigger] certificate_made(said, drawn);
        assert(fresh_from(certificate_made(said, drawn), identity));
    }
    identity
}

/// What a PEM certificate chain and a PEM private key make of an identity.
pub open spec fn loaded(
    certificates: Result<Seq<Seq<u8>>, Seq<char>>,
    key: Result<Option<(KeyKind, Seq<u8>)>, Seq<char>>,
    identity: Result<TlsIdentity, TlsError>,
) -> bool {
    match certificates {
        Err(text) => identity matches Err(TlsError::Failed(error)) && error@ == text,
        Ok(chain) => if chain.len() == 0 {
            identity matches Err(TlsError::NoCertificates)
        } else {
            match key {
                Err(text) => identity matches Err(TlsError::Failed(error)) && error@ == text,
                Ok(None) => identity matches Err(TlsError::NoKey),
                Ok(Some(key)) => identity matches Ok(identity) && chain_bytes(
                    identity.cert_chain@,
                ) == chain && identity.key_kind == key.0 && identity.key@ == key.1,
            }
        },
    }
}

/// Put an identity together from what the two files hold.
pub fn identity_of(
    certificates: Result<Vec<Vec<u8>>, String>,
    key: Result<Option<(KeyKind, Vec<u8>)>, String>,
) -> (identity: Result<TlsIdentity, TlsError>)
    ensures
        loaded(certificates_found(certificates), key_found(key), identity),
{
    let cert_chain = match certificates {
        Ok(chain) => chain,
        Err(error) => return Err(TlsError::Failed(error)),
    };
    if cert_chain.len() == 0 {
        return Err(TlsError::NoCertificates);
    }
    match key {
        Ok(Some((key_kind, key))) => Ok(TlsIdentity { cert_chain, key, key_kind }),
        Ok(None) => Err(TlsError::NoKey),
        Err(error) => Err(TlsError::Failed(error)),
    }
}

/// Read a PEM certificate chain and a PEM private key.
pub fn load_pem(cert_bytes: &[u8], key_bytes: &[u8]) -> (identity: Result<TlsIdentity, TlsError>)
    ensures
        loaded(pem_certificates(cert_bytes@), pem_key(key_bytes@), identity),
{
    let certificates = read_certificates(cert_bytes);
    let key = read_key(key_bytes);
    identity_of(certificates, key)
}

/// An identity is put together of exactly what the two files hold: the whole
/// chain in its order, and the key with its kind. A file that cannot be read, no
/// certificate and no key are told apart, the certificates first.
pub proof fn law_identities_hold_what_the_files_hold(
    certificates: Result<Seq<Seq<u8>>, Seq<char>>,
    key: Result<Option<(KeyKind, Seq<u8>)>, Seq<char>>,
    identity: Result<TlsIdentity, TlsError>,
    i: int,
)
    requires
        loaded(certificates, key, identity),
    ensures
        identity is Ok <==> certificates is Ok && certificates->Ok_0.len() > 0 && key is Ok
            && key->Ok_0 is Some,
        identity matches Ok(identity) ==> {
            &&& identity.cert_chain@.len() == certificates->Ok_0.len()
            &&& 0 <= i < identity.cert_chain@.len() ==> identity.cert_chain@[i]@
                == certificates->Ok_0[i]
            &&& key == Ok::<_, Seq<char>>(Some((identity.key_kind, identity.key@)))
        },
        certificates matches Err(text) ==> (identity matches Err(TlsError::Failed(error)) && error@
            == text),
        certificates is Ok && certificates->Ok_0.len() == 0 ==> (identity matches Err(
            TlsError::NoCertificates,
        )),
        certificates is Ok && certificates->Ok_0.len() > 0 ==> {
            &&& (key matches Ok(None)) ==> (identity matches Err(TlsError::NoKey))
            &&& key matches Err(text) ==> (identity matches Err(TlsError::Failed(error)) && error@
                == text)
        },
{
    if let Ok(made) = identity {
        let chain = chain_bytes(made.cert_chain@);
        assert(chain.len() == made.cert_chain@.len());
        if 0 <= i < made.cert_chain@.len() {
            assert(chain[i] == made.cert_chain@[i]@);
        }
    }
}

/// A generated identity is the one certificate, whole, and its key, in PKCS#8; an
/// error comes back in its own words.
pub proof fn law_fresh_identities_hold_what_was_made(
    made: Result<(Seq<u8>, Seq<u8>), Seq<char>>,
    identity: Result<TlsIdentity, TlsError>,
)
    requires
        fresh_from(made, identity),
    ensures
        made matches Ok(pair) ==> (identity matches Ok(identity) && identity.cert_chain@.len() == 1
            && identity.cert_chain@[0]@ == pair.0 && identity.key@ == pair.1 && identity.key_kind
            is Pkcs8),
        made matches Err(text) ==> (identity matches Err(TlsError::Failed(error)) && error@ == text),
{
    if let Ok(identity) = identity {
        let chain = chain_bytes(identity.cert_chain@);
        assert(chain.len() == identity.cert_chain@.len());
        if chain.len() > 0 {
            assert(chain[0] == identity.cert_chain@[0]@);
        }
    }
}

/// The one protocol that is offered to TLS clients is `http/1.1`.
pub proof fn law_clients_speak_http_1_1()
    ensures
        ALPN@ == seq![0x68u8, 0x74, 0x74, 0x70, 0x2f, 0x31, 0x2e, 0x31],
{
    assert(ALPN@ =~= seq![0x68u8, 0x74, 0x74, 0x70, 0x2f, 0x31, 0x2e, 0x31]);
}

} // verus!
