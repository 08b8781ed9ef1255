//! LAN networking: discovery, pairing, the session handshake that keys every
//! encrypted connection, transfers and their queue.
pub mod queue;
pub mod discovery;
pub mod manual_pair;
pub mod crypto;
pub mod peer;
pub mod transfer;

use vstd::prelude::*;
use crate::network::crypto::{
    CryptoError, MAX_FRAME_BYTES, from_b64, static_dh, session_key, to_b64, le_u32_value,
    read_frame_len, base64_decode, x25519_shared, hkdf_sha256, session_key_info,
};
use crate::storage::{TrustedPeerRow, find_trusted_peer};

verus! {

/// Errors raised while establishing or using an encrypted session.
#[derive(Debug)]
pub enum SessionError {
    Io(String),
    Json(String),
    Crypto(CryptoError),
    NotTrusted,
    Db(String),
}

/// Plaintext handshake packet sent first by the initiator.
#[derive(Debug)]
pub struct HandshakeInit {
    pub device_id: String,
}

/// Plaintext handshake reply from the responder.
#[derive(Debug)]
pub enum ServerHello {
    Hello { nonce_b64: String },
    Rejected,
}

/// The text carried by the error for a key or nonce of the wrong length.
pub open spec fn wrong_length_text() -> Seq<char> {
    "key/nonce wrong length"@
}

/// Copy a decoded key or nonce into a 32-byte array; any other length is a
/// key-decode error.
pub fn to_key32(v: Vec<u8>) -> (r: Result<[u8; 32], SessionError>)
    ensures
        match r {
            Ok(k) => v@.len() == 32 && k@ == v@,
            Err(e) => v@.len() != 32 && (e matches SessionError::Crypto(CryptoError::KeyDecode(m)) && m@ == wrong_length_text()),
        },
{
    match crate::network::crypto::to_key32(&v) {
        Some(k) => Ok(k),
        None => {
            let m = String::from_str("key/nonce wrong length");
            proof {
                reveal_strlit("key/nonce wrong length");
            }
            Err(SessionError::Crypto(CryptoError::KeyDecode(m)))
        },
    }
}

/// The payload length a 4-byte prefix declares, refused when it exceeds the
/// frame limit.
pub fn checked_frame_len(buf: &[u8; 4]) -> (r: Result<usize, SessionError>)
    ensures
        match r {
            Ok(n) => n == le_u32_value(buf@) && n <= MAX_FRAME_BYTES,
            Err(e) => le_u32_value(buf@) > MAX_FRAME_BYTES
                && e == SessionError::Crypto(CryptoError::FrameTooLarge(le_u32_value(buf@) as usize)),
        },
{
    let len = read_frame_len(buf);
    if len > MAX_FRAME_BYTES {
        return Err(SessionError::Crypto(CryptoError::FrameTooLarge(len)));
    }
    Ok(len)
}

/// The 32 bytes a base64 text decodes to, if it decodes to exactly 32 bytes.
pub open spec fn decoded32(text: Seq<char>) -> Option<Seq<u8>> {
    match base64_decode(text) {
        Some(v) => if v.len() == 32 { Some(v) } else { None },
        None => None,
    }
}

/// The session key both ends derive: HKDF over the static Diffie-Hellman
/// secret, salted with the session nonce.
pub open spec fn derived_session_key(privkey: Seq<u8>, peer_pubkey: Seq<u8>, nonce: Seq<u8>) -> Seq<u8> {
    hkdf_sha256(nonce, x25519_shared(privkey, peer_pubkey), session_key_info(), 32)
}

/// Decode a base64 key or nonce of exactly 32 bytes.
pub fn decode_key32(text: &str) -> (r: Result<[u8; 32], SessionError>)
    ensures
        match r {
            Ok(k) => decoded32(text@) == Some(k@),
            Err(e) => decoded32(text@) is None && e matches SessionError::Crypto(CryptoError::KeyDecode(_)),
        },
{
    match from_b64(text) {
        Ok(v) => to_key32(v),
        Err(e) => Err(SessionError::Crypto(e)),
    }
}

/// Derive the session key shared with a peer from our long-term private key,
/// the peer's long-term public key (base64) and the session nonce.
pub fn session_key_for(privkey: &[u8; 32], peer_pubkey_b64: &str, nonce: &[u8; 32]) -> (r: Result<[u8; 32], SessionError>)
    ensures
        match r {
            Ok(k) => decoded32(peer_pubkey_b64@) matches Some(pk) && k@ == derived_session_key(privkey@, pk, nonce@),
            Err(e) => decoded32(peer_pubkey_b64@) is None && e matches SessionError::Crypto(CryptoError::KeyDecode(_)),
        },
{
    let their_pub = decode_key32(peer_pubkey_b64)?;
    let shared = static_dh(privkey, &their_pub);
    match session_key(&shared, nonce) {
        Ok(k) => Ok(k),
        Err(e) => Err(SessionError::Crypto(e)),
    }
}

/// 32 random bytes from the operating system's generator
/// (`rand::rngs::OsRng::fill_bytes`). Nothing is stated of them.
#[verifier::external_body]
fn random_bytes32() -> (r: [u8; 32]) {
    let mut nonce = [0u8; 32];
    rand::RngCore::fill_bytes(&mut rand::rngs::OsRng, &mut nonce);
    nonce
}

/// Responder side of the handshake, once the initiator's device id is read:
/// refuse an untrusted device, otherwise draw a fresh nonce and derive the
/// session key from it. Returns the key and the nonce to send back.
pub fn server_session(
    peers: &[TrustedPeerRow],
    initiator_id: &str,
    privkey: &[u8; 32],
) -> (r: Result<([u8; 32], [u8; 32]), SessionError>)
    ensures
        match r {
            Ok((k, nonce)) => exists|i: int| #![trigger peers@[i]] {
                &&& 0 <= i < peers@.len()
                &&& peers@[i].device_id@ == initiator_id@
                &&& forall|j: int| 0 <= j < i ==> (#[trigger] peers@[j]).device_id@ != initiator_id@
                &&& (decoded32(peers@[i].pubkey_b64@) matches Some(pk) && k@ == derived_session_key(privkey@, pk, nonce@))
            },
            Err(SessionError::NotTrusted) => forall|j: int| 0 <= j < peers@.len() ==> (#[trigger] peers@[j]).device_id@ != initiator_id@,
            Err(e) => (e matches SessionError::Crypto(CryptoError::KeyDecode(_))) && exists|i: int| #![trigger peers@[i]] {
                &&& 0 <= i < peers@.len()
                &&& peers@[i].device_id@ == initiator_id@
                &&& forall|j: int| 0 <= j < i ==> (#[trigger] peers@[j]).device_id@ != initiator_id@
                &&& decoded32(peers@[i].pubkey_b64@) is None
            },
        },
{
    let idx = match find_trusted_peer(peers, initiator_id) {
        Some(i) => i,
        None => return Err(SessionError::NotTrusted),
    };
    let nonce = random_bytes32();
    let key = session_key_for(privkey, peers[idx].pubkey_b64.as_str(), &nonce)?;
    Ok((key, nonce))
}

/// The hello the responder sends for a nonce.
pub fn hello_for(nonce: &[u8; 32]) -> (h: ServerHello)
    ensures
        h matches ServerHello::Hello { nonce_b64 } && base64_decode(nonce_b64@) == Some(nonce@),
{
    ServerHello::Hello { nonce_b64: to_b64(nonce) }
}

/// Initiator side of the handshake, once the responder's hello is read: a
/// rejection means we are not trusted; otherwise the key is derived from the
/// nonce it carries.
pub fn client_session(
    hello: &ServerHello,
    privkey: &[u8; 32],
    peer_pubkey_b64: &str,
) -> (r: Result<[u8; 32], SessionError>)
    ensures
        match hello {
            ServerHello::Rejected => r matches Err(SessionError::NotTrusted),
            ServerHello::Hello { nonce_b64 } => match r {
                Ok(k) => decoded32(nonce_b64@) matches Some(n) && (decoded32(peer_pubkey_b64@) matches Some(pk)
                    && k@ == derived_session_key(privkey@, pk, n)),
                Err(e) => (decoded32(nonce_b64@) is None || decoded32(peer_pubkey_b64@) is None)
                    && e matches SessionError::Crypto(CryptoError::KeyDecode(_)),
            },
        },
{
    match hello {
        ServerHello::Rejected => Err(SessionError::NotTrusted),
        ServerHello::Hello { nonce_b64 } => {
            let nonce = decode_key32(nonce_b64.as_str())?;
            session_key_for(privkey, peer_pubkey_b64, &nonce)
        },
    }
}

} // verus!
