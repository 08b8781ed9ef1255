//! The trust store: the local identity, key fingerprints, device ids, and the
//! trusted peers read back from their rows.
use vstd::prelude::*;
use crate::network::crypto::{from_b64, to_b64, sha256_digest, base64_decode, sha256, CryptoError};
use crate::network::transfer::{to_hex, hex_text};
use crate::storage::{LocalDeviceRow, TrustedPeerRow};

verus! {

/// Errors raised by the trust store.
#[derive(Debug)]
pub enum TrustError {
    Db(String),
    KeyDecode(String),
}

/// The message an error displays.
pub open spec fn trust_error_text(e: TrustError) -> Seq<char> {
    match e {
        TrustError::Db(m) => "database error: "@ + m@,
        TrustError::KeyDecode(m) => "key decode error: "@ + m@,
    }
}

impl TrustError {
    /// The text shown for the error.
    pub fn message(&self) -> (s: String)
        ensures
            s@ == trust_error_text(*self),
    {
        match self {
            TrustError::Db(m) => {
                let mut s = String::from_str("database error: ");
                s.append(m.as_str());
                proof { reveal_strlit("database error: "); }
                s
            },
            TrustError::KeyDecode(m) => {
                let mut s = String::from_str("key decode error: ");
                s.append(m.as_str());
                proof { reveal_strlit("key decode error: "); }
                s
            },
        }
    }
}

/// The identity of this device kept in memory for the life of the process.
#[derive(Debug, Clone)]
pub struct LocalIdentity {
    pub device_id: u128,
    pub device_name: String,
    pub pubkey_b64: String,
    /// Raw private key bytes - never leave this process.
    pub privkey_bytes: [u8; 32],
}

/// A paired device as the trust store reports it.
#[derive(Debug, Clone)]
pub struct TrustedPeer {
    pub device_id: u128,
    pub device_name: String,
    pub pubkey_b64: String,
    pub fingerprint: String,
    pub paired_at: i64,
    pub last_seen: Option<i64>,
}

// ---------------------------------------------------------------------------
// Device ids

/// The UUID that `Uuid::parse_str` reads from a text (simple, hyphenated,
/// braced or URN form), as its 128-bit value; `None` when it is not one.
pub uninterp spec fn uuid_parse(text: Seq<char>) -> Option<u128>;

/// The hexadecimal digits of the low `n` nibbles of `v`, most significant first.
pub open spec fn hex_nibbles(v: nat, n: nat) -> Seq<char>
    decreases n,
{
    if n == 0 {
        Seq::empty()
    } else {
        hex_nibbles(v / 16, (n - 1) as nat).push(crate::network::transfer::hex_digit(v % 16))
    }
}

/// The hyphenated lowercase text of a UUID: 32 hex digits grouped 8-4-4-4-12.
pub open spec fn uuid_text(u: u128) -> Seq<char> {
    let h = hex_nibbles(u as nat, 32);
    h.subrange(0, 8) + seq!['-'] + h.subrange(8, 12) + seq!['-'] + h.subrange(12, 16) + seq!['-']
        + h.subrange(16, 20) + seq!['-'] + h.subrange(20, 32)
}

/// `Uuid::parse_str(text)` as a 128-bit value.
#[verifier::external_body]
pub(crate) fn parse_uuid(text: &str) -> (r: Result<u128, uuid::Error>)
    ensures
        match r {
            Ok(u) => uuid_parse(text@) == Some(u),
            Err(_) => uuid_parse(text@) is None,
        },
{
    uuid::Uuid::parse_str(text).map(|u| u.as_u128())
}

/// The `Display` text of a UUID parse error. Nothing is stated of it.
#[verifier::external_body]
fn uuid_error_text(e: &uuid::Error) -> (s: String) {
    e.to_string()
}

/// `Uuid::from_u128(u).to_string()`: the hyphenated lowercase form, which
/// parses back to the same value.
#[verifier::external_body]
pub fn uuid_to_string(u: u128) -> (s: String)
    ensures
        s@ == uuid_text(u),
        uuid_parse(s@) == Some(u),
{
    uuid::Uuid::from_u128(u).to_string()
}

/// A fresh random (version 4) UUID from `Uuid::new_v4`. Nothing is stated of it.
#[verifier::external_body]
pub fn new_uuid() -> (u: u128) {
    uuid::Uuid::new_v4().as_u128()
}

#[verifier::external_type_specification]
#[verifier::external_body]
pub struct ExUuidError(uuid::Error);

/// Read a device id; an unreadable id is a key-decode error.
pub fn device_id_from_text(text: &str) -> (r: Result<u128, TrustError>)
    ensures
        match r {
            Ok(u) => uuid_parse(text@) == Some(u),
            Err(e) => uuid_parse(text@) is None && e is KeyDecode,
        },
{
    match parse_uuid(text) {
        Ok(u) => Ok(u),
        Err(e) => Err(TrustError::KeyDecode(uuid_error_text(&e))),
    }
}

// ---------------------------------------------------------------------------
// Fingerprints

/// The fingerprint of a public key: the lowercase hex SHA-256 of its bytes.
pub open spec fn fingerprint_of(key: Seq<u8>) -> Seq<char> {
    hex_text(sha256(key))
}

/// Derive a hex SHA-256 fingerprint from a base64-encoded public key.
pub fn fingerprint(pubkey_b64: &str) -> (r: Result<String, TrustError>)
    ensures
        match r {
            Ok(f) => base64_decode(pubkey_b64@) matches Some(k) && f@ == fingerprint_of(k),
            Err(e) => base64_decode(pubkey_b64@) is None && e is KeyDecode,
        },
{
    match from_b64(pubkey_b64) {
        Ok(bytes) => {
            let digest = sha256_digest(bytes.as_slice());
            Ok(to_hex(digest.as_slice()))
        },
        Err(CryptoError::KeyDecode(m)) => Err(TrustError::KeyDecode(m)),
        Err(_) => Err(TrustError::KeyDecode(String::new())),
    }
}

proof fn lemma_hex_text_len(b: Seq<u8>)
    ensures
        hex_text(b).len() == 2 * b.len(),
        forall|i: int| 0 <= i < hex_text(b).len() ==> {
            let c = #[trigger] hex_text(b)[i];
            ('0' <= c <= '9') || ('a' <= c <= 'f')
        },
    decreases b.len(),
{
    if b.len() > 0 {
        lemma_hex_text_len(b.drop_last());
        let h = hex_text(b);
        let p = hex_text(b.drop_last());
        assert forall|i: int| 0 <= i < h.len() implies {
            let c = #[trigger] h[i];
            ('0' <= c <= '9') || ('a' <= c <= 'f')
        } by {
            if i < p.len() {
                assert(h[i] == p[i]);
            }
        }
    }
}

/// A fingerprint is 64 lowercase hex digits: two for each byte of the digest.
pub proof fn law_fingerprint_is_64_hex_digits(key: Seq<u8>)
    requires
        sha256(key).len() == 32,
    ensures
        fingerprint_of(key).len() == 64,
        forall|i: int| 0 <= i < 64 ==> {
            let c = #[trigger] fingerprint_of(key)[i];
            ('0' <= c <= '9') || ('a' <= c <= 'f')
        },
{
    lemma_hex_text_len(sha256(key));
}

// ---------------------------------------------------------------------------
// The local identity

/// The private key a stored base64 text holds, when it decodes to 32 bytes.
pub open spec fn stored_privkey(text: Seq<char>) -> Option<Seq<u8>> {
    match base64_decode(text) {
        Some(v) => if v.len() == 32 { Some(v) } else { None },
        None => None,
    }
}

/// Load the identity kept in the local device row: the private key must
/// decode to 32 bytes and the device id must be a UUID.
pub fn identity_from_row(row: LocalDeviceRow) -> (r: Result<LocalIdentity, TrustError>)
    ensures
        match r {
            Ok(id) => {
                &&& stored_privkey(row.privkey_b64@) == Some(id.privkey_bytes@)
                &&& uuid_parse(row.device_id@) == Some(id.device_id)
                &&& id.device_name == row.device_name
                &&& id.pubkey_b64 == row.pubkey_b64
            },
            Err(e) => e is KeyDecode && (stored_privkey(row.privkey_b64@) is None || uuid_parse(row.device_id@) is None),
        },
{
    let bytes = match from_b64(row.privkey_b64.as_str()) {
        Ok(b) => b,
        Err(CryptoError::KeyDecode(m)) => return Err(TrustError::KeyDecode(m)),
        Err(_) => return Err(TrustError::KeyDecode(String::new())),
    };
    let privkey_bytes = match crate::network::crypto::to_key32(&bytes) {
        Some(k) => k,
        None => return Err(TrustError::KeyDecode(String::from_str("private key wrong length"))),
    };
    let device_id = device_id_from_text(row.device_id.as_str())?;
    Ok(LocalIdentity {
        device_id,
        device_name: row.device_name,
        pubkey_b64: row.pubkey_b64,
        privkey_bytes,
    })
}

/// The X25519 public key of a private scalar, as `PublicKey::from` computes it.
pub uninterp spec fn x25519_public(privkey: Seq<u8>) -> Seq<u8>;

/// A fresh long-term keypair: `StaticSecret::random_from_rng(OsRng)`, its
/// bytes, and the bytes of its `PublicKey`. The private key is random; the
/// public key is the one that belongs to it.
#[verifier::external_body]
fn generate_static_keypair() -> (r: ([u8; 32], [u8; 32]))
    ensures
        r.1@ == x25519_public(r.0@),
{
    let secret = x25519_dalek::StaticSecret::random_from_rng(rand::rngs::OsRng);
    let public = x25519_dalek::PublicKey::from(&secret);
    (secret.to_bytes(), public.to_bytes())
}

/// The name a new device takes when the host name cannot be read: "device-"
/// and the first eight characters of its id.
pub open spec fn fallback_name(device_id: u128) -> Seq<char> {
    "device-"@ + uuid_text(device_id).take(8)
}

/// Create a new identity for a first run: a fresh keypair and device id, named
/// after the host when its name is known. Returns the identity and the row
/// that stores it.
pub fn fresh_identity(host_name: Option<String>) -> (r: (LocalIdentity, LocalDeviceRow))
    ensures
        r.0.pubkey_b64@ == r.1.pubkey_b64@,
        r.0.device_name@ == r.1.device_name@,
        r.1.device_id@ == uuid_text(r.0.device_id),
        base64_decode(r.1.privkey_b64@) == Some(r.0.privkey_bytes@),
        base64_decode(r.0.pubkey_b64@) == Some(x25519_public(r.0.privkey_bytes@)),
        match host_name {
            Some(h) => r.0.device_name@ == h@,
            None => r.0.device_name@ == fallback_name(r.0.device_id),
        },
{
    let (privkey_bytes, public) = generate_static_keypair();
    let pubkey_b64 = to_b64(&public);
    let privkey_b64 = to_b64(&privkey_bytes);
    let device_id = new_uuid();
    let id_text = uuid_to_string(device_id);
    let device_name = match host_name {
        Some(h) => h,
        None => {
            let chars = crate::text::chars_of(id_text.as_str());
            proof {
                assert(chars@.len() == 36) by {
                    lemma_uuid_text_len(device_id);
                }
            }
            let mut name = String::from_str("device-");
            let head = crate::text::string_from_chars(&chars.as_slice()[0..8]);
            name.append(head.as_str());
            proof {
                reveal_strlit("device-");
                assert(chars@.subrange(0, 8) =~= uuid_text(device_id).take(8));
            }
            name
        },
    };
    let row = LocalDeviceRow {
        device_id: id_text,
        device_name: device_name.clone(),
        pubkey_b64: pubkey_b64.clone(),
        privkey_b64,
    };
    (LocalIdentity { device_id, device_name, pubkey_b64, privkey_bytes }, row)
}

proof fn lemma_hex_nibbles_len(v: nat, n: nat)
    ensures
        hex_nibbles(v, n).len() == n,
    decreases n,
{
    if n > 0 {
        lemma_hex_nibbles_len(v / 16, (n - 1) as nat);
    }
}

proof fn lemma_uuid_text_len(u: u128)
    ensures
        uuid_text(u).len() == 36,
{
    lemma_hex_nibbles_len(u as nat, 32);
}

// ---------------------------------------------------------------------------
// Trusted peers

/// The trusted peers read from their rows, in row order; the first row whose
/// device id is not a UUID fails the whole read.
pub fn trusted_peers_from_rows(rows: Vec<TrustedPeerRow>) -> (r: Result<Vec<TrustedPeer>, TrustError>)
    ensures
        match r {
            Ok(peers) => {
                &&& peers@.len() == rows@.len()
                &&& forall|i: int| 0 <= i < rows@.len() ==> {
                    &&& uuid_parse((#[trigger] rows@[i]).device_id@) == Some(peers@[i].device_id)
                    &&& peers@[i].device_name == rows@[i].device_name
                    &&& peers@[i].pubkey_b64 == rows@[i].pubkey_b64
                    &&& peers@[i].fingerprint == rows@[i].fingerprint
                    &&& peers@[i].paired_at == rows@[i].paired_at
                    &&& peers@[i].last_seen == rows@[i].last_seen
                }
            },
            Err(e) => e is KeyDecode && exists|i: int| 0 <= i < rows@.len() && uuid_parse((#[trigger] rows@[i]).device_id@) is None,
        },
{
    let mut peers: Vec<TrustedPeer> = Vec::new();
    let mut i: usize = 0;
    while i < rows.len()
        invariant
            i <= rows@.len(),
            peers@.len() == i,
            forall|k: int| 0 <= k < i ==> {
                &&& uuid_parse((#[trigger] rows@[k]).device_id@) == Some(peers@[k].device_id)
                &&& peers@[k].device_name == rows@[k].device_name
                &&& peers@[k].pubkey_b64 == rows@[k].pubkey_b64
                &&& peers@[k].fingerprint == rows@[k].fingerprint
                &&& peers@[k].paired_at == rows@[k].paired_at
                &&& peers@[k].last_seen == rows@[k].last_seen
            },
        decreases rows@.len() - i,
    {
        let row = &rows[i];
        let device_id = device_id_from_text(row.device_id.as_str())?;
        peers.push(TrustedPeer {
            device_id,
            device_name: row.device_name.clone(),
            pubkey_b64: row.pubkey_b64.clone(),
            fingerprint: row.fingerprint.clone(),
            paired_at: row.paired_at,
            last_seen: row.last_seen,
        });
        i = i + 1;
    }
    Ok(peers)
}

} // verus!
