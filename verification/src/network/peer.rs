//! The pairing ceremony: the messages two devices exchange, and what each side
//! does with the message it receives.
use vstd::prelude::*;
use crate::network::crypto::{
    CryptoError, from_b64, to_b64, ephemeral_dh, generate_ephemeral, pairing_code, le_u32_value,
    read_frame_len, base64_decode, hkdf_sha256, pair_verify_salt, pairing_code_spec,
};
use crate::storage::TrustedPeerRow;
use crate::text::{decimal_string, decimal_text};
use crate::trust::TrustError;

verus! {

/// Largest pairing message accepted on the wire.
pub const MAX_PAIR_MSG: usize = 65536;

/// Wire messages exchanged during the pairing ceremony.
#[derive(Debug)]
pub enum PairMsg {
    PairRequest { device_id: String, device_name: String, pubkey_b64: String },
    PairAccept { device_id: String, device_name: String, pubkey_b64: String },
    PairRejected,
    PairConfirm { longterm_pubkey_b64: String },
    PairComplete { longterm_pubkey_b64: String },
}

/// Errors raised during the pairing ceremony.
#[derive(Debug)]
pub enum PairingError {
    Io(String),
    Json(String),
    Crypto(CryptoError),
    Rejected,
    Timeout,
    UnexpectedMsg(String),
    Db(String),
    Trust(TrustError),
    Emit(String),
}

/// What the initiator holds after the responder accepted: the ephemeral shared
/// secret, who the responder is, and the code both screens show.
pub struct PairingOffer {
    pub shared_secret: [u8; 32],
    pub peer_device_id: String,
    pub peer_name: String,
    pub peer_pubkey_b64: String,
    pub verify_code: String,
}

/// What the responder prepares for an incoming request: its own ephemeral
/// public key (base64), the shared secret, and the code to show.
pub struct ResponderKeys {
    pub shared_secret: [u8; 32],
    pub my_pubkey_b64: String,
    pub verify_code: String,
}

/// The code both sides show for a shared secret.
pub open spec fn verify_code_for(shared: Seq<u8>) -> Seq<char> {
    pairing_code_spec(hkdf_sha256(pair_verify_salt(), shared, Seq::empty(), 3))
}

/// The `Debug` text of a pairing message (`format!("{:?}")`). Nothing is
/// stated of it.
#[verifier::external_body]
fn msg_debug_text(msg: &PairMsg) -> (s: String) {
    format!("{:?}", msg)
}

/// Copy a decoded public key into a 32-byte array.
pub fn to_key32(v: Vec<u8>) -> (r: Result<[u8; 32], PairingError>)
    ensures
        match r {
            Ok(k) => v@.len() == 32 && k@ == v@,
            Err(e) => v@.len() != 32 && (e matches PairingError::UnexpectedMsg(m) && m@ == "public key wrong length"@),
        },
{
    match crate::network::crypto::to_key32(&v) {
        Some(k) => Ok(k),
        None => {
            let m = String::from_str("public key wrong length");
            proof {
                reveal_strlit("public key wrong length");
            }
            Err(PairingError::UnexpectedMsg(m))
        },
    }
}

/// The payload length a 4-byte prefix declares, refused past the pairing limit
/// with the message "frame too large: " and the length.
pub fn checked_pair_frame_len(buf: &[u8; 4]) -> (r: Result<usize, PairingError>)
    ensures
        match r {
            Ok(n) => n == le_u32_value(buf@) && n <= MAX_PAIR_MSG,
            Err(e) => le_u32_value(buf@) > MAX_PAIR_MSG
                && (e matches PairingError::UnexpectedMsg(m) && m@ == "frame too large: "@ + decimal_text(le_u32_value(buf@))),
        },
{
    let len = read_frame_len(buf);
    if len > MAX_PAIR_MSG {
        let mut m = String::from_str("frame too large: ");
        let digits = decimal_string(len as u64);
        m.append(digits.as_str());
        return Err(PairingError::UnexpectedMsg(m));
    }
    Ok(len)
}

/// Decode a peer's base64 ephemeral public key.
fn decode_pubkey(text: &str) -> (r: Result<[u8; 32], PairingError>)
    ensures
        match r {
            Ok(k) => base64_decode(text@) == Some(k@),
            Err(e) => match base64_decode(text@) {
                Some(v) => v.len() != 32 && (e matches PairingError::UnexpectedMsg(_)),
                None => e matches PairingError::Crypto(CryptoError::KeyDecode(_)),
            },
        },
{
    match from_b64(text) {
        Ok(v) => to_key32(v),
        Err(e) => Err(PairingError::Crypto(e)),
    }
}

/// The initiator's first message.
pub fn pair_request(device_id: &str, device_name: &str, my_pubkey: &[u8; 32]) -> (m: PairMsg)
    ensures
        m matches PairMsg::PairRequest { device_id: d, device_name: n, pubkey_b64: k }
            && d@ == device_id@ && n@ == device_name@ && base64_decode(k@) == Some(my_pubkey@),
{
    PairMsg::PairRequest {
        device_id: String::from_str(device_id),
        device_name: String::from_str(device_name),
        pubkey_b64: to_b64(my_pubkey),
    }
}

/// Initiator: act on the responder's reply to our request. An acceptance
/// carrying a valid 32-byte key yields the shared secret and the code to show;
/// a rejection is `Rejected`; anything else is unexpected.
pub fn accept_reply(secret: x25519_dalek::EphemeralSecret, reply: PairMsg) -> (r: Result<PairingOffer, PairingError>)
    ensures
        match reply {
            PairMsg::PairAccept { device_id, device_name, pubkey_b64 } => match r {
                Ok(o) => base64_decode(pubkey_b64@) matches Some(k) && k.len() == 32
                    && o.peer_device_id@ == device_id@ && o.peer_name@ == device_name@
                    && o.peer_pubkey_b64@ == pubkey_b64@
                    && o.verify_code@ == verify_code_for(o.shared_secret@),
                Err(e) => match base64_decode(pubkey_b64@) {
                    Some(k) => k.len() != 32 && (e matches PairingError::UnexpectedMsg(_)),
                    None => e matches PairingError::Crypto(CryptoError::KeyDecode(_)),
                },
            },
            PairMsg::PairRejected => r matches Err(PairingError::Rejected),
            _ => r matches Err(PairingError::UnexpectedMsg(_)),
        },
{
    match reply {
        PairMsg::PairAccept { device_id, device_name, pubkey_b64 } => {
            let their_pub = decode_pubkey(pubkey_b64.as_str())?;
            let shared_secret = ephemeral_dh(secret, &their_pub);
            let verify_code = pairing_code(&shared_secret);
            Ok(PairingOffer {
                shared_secret,
                peer_device_id: device_id,
                peer_name: device_name,
                peer_pubkey_b64: pubkey_b64,
                verify_code,
            })
        },
        PairMsg::PairRejected => Err(PairingError::Rejected),
        other => Err(PairingError::UnexpectedMsg(msg_debug_text(&other))),
    }
}

/// Initiator: the confirmation carrying our long-term public key.
pub fn pair_confirm(longterm_pubkey_b64: &str) -> (m: PairMsg)
    ensures
        m matches PairMsg::PairConfirm { longterm_pubkey_b64: k } && k@ == longterm_pubkey_b64@,
{
    PairMsg::PairConfirm { longterm_pubkey_b64: String::from_str(longterm_pubkey_b64) }
}

/// Initiator: the responder's long-term key from its completion message.
pub fn completion_key(reply: PairMsg) -> (r: Result<String, PairingError>)
    ensures
        match reply {
            PairMsg::PairComplete { longterm_pubkey_b64 } => r matches Ok(k) && k@ == longterm_pubkey_b64@,
            PairMsg::PairRejected => r matches Err(PairingError::Rejected),
            _ => r matches Err(PairingError::UnexpectedMsg(_)),
        },
{
    match reply {
        PairMsg::PairComplete { longterm_pubkey_b64 } => Ok(longterm_pubkey_b64),
        PairMsg::PairRejected => Err(PairingError::Rejected),
        other => Err(PairingError::UnexpectedMsg(msg_debug_text(&other))),
    }
}

/// Responder: the requester's id, name and ephemeral key from the first message.
pub fn request_fields(msg: PairMsg) -> (r: Result<(String, String, String), PairingError>)
    ensures
        match msg {
            PairMsg::PairRequest { device_id, device_name, pubkey_b64 } => r matches Ok((d, n, k))
                && d@ == device_id@ && n@ == device_name@ && k@ == pubkey_b64@,
            _ => r matches Err(PairingError::UnexpectedMsg(_)),
        },
{
    match msg {
        PairMsg::PairRequest { device_id, device_name, pubkey_b64 } => Ok((device_id, device_name, pubkey_b64)),
        other => Err(PairingError::UnexpectedMsg(msg_debug_text(&other))),
    }
}

/// Responder: decode the requester's ephemeral key, make our own ephemeral
/// keypair, and derive the shared secret and the code to show.
pub fn responder_keys(their_eph_b64: &str) -> (r: Result<ResponderKeys, PairingError>)
    ensures
        match r {
            Ok(k) => base64_decode(their_eph_b64@) matches Some(v) && v.len() == 32
                && k.verify_code@ == verify_code_for(k.shared_secret@)
                && (base64_decode(k.my_pubkey_b64@) matches Some(p) && p.len() == 32),
            Err(e) => match base64_decode(their_eph_b64@) {
                Some(v) => v.len() != 32 && (e matches PairingError::UnexpectedMsg(_)),
                None => e matches PairingError::Crypto(CryptoError::KeyDecode(_)),
            },
        },
{
    let their_eph = decode_pubkey(their_eph_b64)?;
    let (secret, my_pub) = generate_ephemeral();
    let shared_secret = ephemeral_dh(secret, &their_eph);
    let verify_code = pairing_code(&shared_secret);
    Ok(ResponderKeys { shared_secret, my_pubkey_b64: to_b64(&my_pub), verify_code })
}

/// What the responder sends once the user has decided: a rejection when the
/// request was refused, nothing (it then waits for the confirmation) when it
/// was accepted.
pub fn decision_reply(accepted: bool) -> (m: Option<PairMsg>)
    ensures
        accepted ==> m is None,
        !accepted ==> m matches Some(PairMsg::PairRejected),
{
    if accepted {
        None
    } else {
        Some(PairMsg::PairRejected)
    }
}

/// Responder: the initiator's long-term key from its confirmation.
pub fn confirmation_key(msg: PairMsg) -> (r: Result<String, PairingError>)
    ensures
        match msg {
            PairMsg::PairConfirm { longterm_pubkey_b64 } => r matches Ok(k) && k@ == longterm_pubkey_b64@,
            _ => r matches Err(PairingError::UnexpectedMsg(_)),
        },
{
    match msg {
        PairMsg::PairConfirm { longterm_pubkey_b64 } => Ok(longterm_pubkey_b64),
        other => Err(PairingError::UnexpectedMsg(msg_debug_text(&other))),
    }
}

/// The trust-store row recorded when pairing completes: never seen yet.
pub fn paired_row(device_id: String, device_name: String, pubkey_b64: String, fingerprint: String, paired_at: i64) -> (row: TrustedPeerRow)
    ensures
        row.device_id == device_id,
        row.device_name == device_name,
        row.pubkey_b64 == pubkey_b64,
        row.fingerprint == fingerprint,
        row.paired_at == paired_at,
        row.last_seen is None,
{
    TrustedPeerRow { device_id, device_name, pubkey_b64, fingerprint, paired_at, last_seen: None }
}

} // verus!
