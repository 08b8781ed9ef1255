//! What the user interface's commands decide before and after they reach the
//! stores and the network: identity summaries, setting values, the device
//! name rule, peer lookup, icons, remote results and the startup scan.
use vstd::prelude::*;
use crate::network::crypto::{to_b64, base64_encode, base64_decode};
use crate::search::engine::{SearchHit, ResultSource, ResultType, HitView, SourceView};
use crate::text::{chars_of, str_eq, trim, trimmed, parse_usize, parse_i64, unsigned_value, signed_value, to_lowercase, lowercase};
use crate::trust::{LocalIdentity, TrustedPeer, fingerprint, fingerprint_of, uuid_to_string, uuid_text, trust_error_text};

verus! {

/// Local device identity exposed to the UI (no private key material).
#[derive(Debug)]
pub struct LocalDeviceInfo {
    pub device_id: String,
    pub device_name: String,
    pub pubkey_b64: String,
    pub fingerprint: String,
}

/// Local identity fields exposed to the Settings page.
#[derive(Debug)]
pub struct LocalIdentityInfo {
    pub device_id: String,
    pub device_name: String,
    pub fingerprint: String,
}

/// Current state of the file index, for surfacing in Settings and the overlay.
#[derive(Debug)]
pub struct IndexStatus {
    pub indexed_dirs_count: usize,
    pub file_count: i64,
    pub tantivy_ready: bool,
    pub last_scan: Option<i64>,
}

/// The identity summary the UI shows, with the key fingerprint; an
/// undecodable public key fails with the error's message.
pub fn local_device_info(identity: &LocalIdentity) -> (r: Result<LocalDeviceInfo, String>)
    ensures
        match r {
            Ok(info) => {
                &&& info.device_id@ == uuid_text(identity.device_id)
                &&& info.device_name@ == identity.device_name@
                &&& info.pubkey_b64@ == identity.pubkey_b64@
                &&& base64_decode(identity.pubkey_b64@) matches Some(k) && info.fingerprint@ == fingerprint_of(k)
            },
            Err(m) => base64_decode(identity.pubkey_b64@) is None && m@.len() > 0,
        },
{
    let fp = match fingerprint(identity.pubkey_b64.as_str()) {
        Ok(f) => f,
        Err(e) => {
            let m = e.message();
            proof {
                reveal_strlit("key decode error: ");
                reveal_strlit("database error: ");
            }
            return Err(m);
        },
    };
    Ok(LocalDeviceInfo {
        device_id: uuid_to_string(identity.device_id),
        device_name: identity.device_name.clone(),
        pubkey_b64: identity.pubkey_b64.clone(),
        fingerprint: fp,
    })
}

/// The identity fields the Settings page shows.
pub fn local_identity_info(identity: &LocalIdentity) -> (r: Result<LocalIdentityInfo, String>)
    ensures
        match r {
            Ok(info) => {
                &&& info.device_id@ == uuid_text(identity.device_id)
                &&& info.device_name@ == identity.device_name@
                &&& base64_decode(identity.pubkey_b64@) matches Some(k) && info.fingerprint@ == fingerprint_of(k)
            },
            Err(m) => base64_decode(identity.pubkey_b64@) is None && m@.len() > 0,
        },
{
    let info = local_device_info(identity)?;
    Ok(LocalIdentityInfo { device_id: info.device_id, device_name: info.device_name, fingerprint: info.fingerprint })
}

/// Unicode control characters (general category Cc): U+0000..U+001F and U+007F..U+009F.
pub open spec fn is_control(c: char) -> bool {
    c <= '\u{1f}' || ('\u{7f}' <= c && c <= '\u{9f}')
}

/// The device name a rename stores, or why it is refused: the trimmed name
/// must have 1 to 64 characters and no control characters.
pub open spec fn device_name_verdict(name: Seq<char>) -> Result<Seq<char>, Seq<char>> {
    let t = trimmed(name);
    if t.len() == 0 || t.len() > 64 {
        Err("device name must be between 1 and 64 characters"@)
    } else if exists|i: int| 0 <= i < t.len() && is_control(#[trigger] t[i]) {
        Err("device name must not contain control characters"@)
    } else {
        Ok(t)
    }
}

/// Check a new device name and return it trimmed.
pub fn validate_device_name(name: &str) -> (r: Result<String, String>)
    ensures
        match r {
            Ok(n) => device_name_verdict(name@) == Ok::<Seq<char>, Seq<char>>(n@),
            Err(m) => device_name_verdict(name@) == Err::<Seq<char>, Seq<char>>(m@),
        },
{
    let t = trim(name);
    let chars = chars_of(t.as_str());
    if chars.len() == 0 || chars.len() > 64 {
        proof {
            reveal_strlit("device name must be between 1 and 64 characters");
        }
        return Err(String::from_str("device name must be between 1 and 64 characters"));
    }
    let mut i: usize = 0;
    while i < chars.len()
        invariant
            i <= chars@.len(),
            chars@ == t@,
            t@ == trimmed(name@),
            0 < chars@.len() <= 64,
            forall|k: int| 0 <= k < i ==> !is_control(#[trigger] chars@[k]),
        decreases chars@.len() - i,
    {
        let c = chars[i];
        if c <= '\u{1f}' || ('\u{7f}' <= c && c <= '\u{9f}') {
            proof {
                reveal_strlit("device name must not contain control characters");
                assert(is_control(chars@[i as int]));
            }
            return Err(String::from_str("device name must not contain control characters"));
        }
        i = i + 1;
    }
    Ok(t)
}

/// A boolean setting: on exactly when it is "true".
pub fn flag_setting(setting: Option<String>) -> (b: bool)
    ensures
        b == (setting matches Some(v) && v@ == "true"@),
{
    match setting {
        Some(v) => str_eq(v.as_str(), "true"),
        None => false,
    }
}

/// The result count setting: its number when it reads as one, 50 otherwise.
pub fn max_results_setting(setting: Option<String>) -> (n: usize)
    ensures
        match setting {
            Some(v) => match unsigned_value(v@) {
                Some(x) => if x <= usize::MAX { n == x } else { n == 50 },
                None => n == 50,
            },
            None => n == 50,
        },
{
    match setting {
        Some(v) => match parse_usize(v.as_str()) {
            Some(n) => n,
            None => 50,
        },
        None => 50,
    }
}

/// Seconds after which a completed full scan is considered stale.
pub const STALE_SCAN_SECS: i64 = 86400;

/// Whether startup walks the file system: when nothing is indexed yet, or
/// the last completed full scan (0 when unrecorded or unreadable) is at
/// least a day old.
pub fn needs_full_scan(file_count: i64, last_full_setting: Option<String>, now: i64) -> (b: bool)
    requires
        i64::MIN <= now - (match last_full_setting {
            Some(v) => match signed_value(v@) {
                Some(x) => if i64::MIN <= x <= i64::MAX { x } else { 0 },
                None => 0,
            },
            None => 0,
        }) <= i64::MAX,
    ensures
        b == (file_count == 0 || now - (match last_full_setting {
            Some(v) => match signed_value(v@) {
                Some(x) => if i64::MIN <= x <= i64::MAX { x } else { 0 },
                None => 0,
            },
            None => 0,
        }) >= STALE_SCAN_SECS),
{
    let last_full: i64 = match last_full_setting {
        Some(v) => match parse_i64(v.as_str()) {
            Some(x) => x,
            None => 0,
        },
        None => 0,
    };
    file_count == 0 || now - last_full >= STALE_SCAN_SECS
}

/// The position of the trusted peer whose device id reads as `device_id`.
pub fn trusted_peer_position(peers: &[TrustedPeer], device_id: &str) -> (r: Option<usize>)
    ensures
        match r {
            Some(i) => i < peers@.len() && uuid_text(peers@[i as int].device_id) == device_id@
                && forall|j: int| 0 <= j < i ==> uuid_text((#[trigger] peers@[j]).device_id) != device_id@,
            None => forall|j: int| 0 <= j < peers@.len() ==> uuid_text((#[trigger] peers@[j]).device_id) != device_id@,
        },
{
    let mut i: usize = 0;
    while i < peers.len()
        invariant
            i <= peers@.len(),
            forall|j: int| 0 <= j < i ==> uuid_text((#[trigger] peers@[j]).device_id) != device_id@,
        decreases peers@.len() - i,
    {
        let id = uuid_to_string(peers[i].device_id);
        if str_eq(id.as_str(), device_id) {
            return Some(i);
        }
        i = i + 1;
    }
    None
}

/// `s` ends with `p`.
pub open spec fn has_suffix(s: Seq<char>, p: Seq<char>) -> bool {
    p.len() <= s.len() && s.skip(s.len() - p.len()) == p
}

fn ends_with_text(s: &str, p: &str) -> (r: bool)
    ensures
        r == has_suffix(s@, p@),
{
    let a = chars_of(s);
    let b = chars_of(p);
    if b.len() > a.len() {
        return false;
    }
    let off = a.len() - b.len();
    let mut i: usize = 0;
    while i < b.len()
        invariant
            a@ == s@,
            b@ == p@,
            off + b@.len() == a@.len(),
            off + b.len() == a.len(),
            i <= b@.len(),
            forall|k: int| 0 <= k < i ==> a@[off + k] == b@[k],
        decreases b@.len() - i,
    {
        if a[off + i] != b[i] {
            proof {
                assert(a@.skip(off as int)[i as int] != b@[i as int]);
            }
            return false;
        }
        i = i + 1;
    }
    assert(a@.skip(off as int) =~= b@);
    true
}

/// Largest icon file the UI is sent, in bytes.
pub const MAX_APP_ICON_BYTES: u64 = 524288;

/// Largest icon file inlined into a search answer for a peer, in bytes.
pub const MAX_EMBEDDED_ICON_BYTES: u64 = 262144;

/// The media type of an icon file by its lowercased name: SVG or PNG; other
/// formats are refused.
pub fn app_icon_mime(icon_path: &str) -> (r: Result<String, String>)
    ensures
        has_suffix(lowercase(icon_path@), ".svg"@) ==> (r matches Ok(m) && m@ == "image/svg+xml"@),
        !has_suffix(lowercase(icon_path@), ".svg"@) && has_suffix(lowercase(icon_path@), ".png"@)
            ==> (r matches Ok(m) && m@ == "image/png"@),
        !has_suffix(lowercase(icon_path@), ".svg"@) && !has_suffix(lowercase(icon_path@), ".png"@)
            ==> (r matches Err(m) && m@ == "unsupported icon format"@),
{
    let lower = to_lowercase(icon_path);
    if ends_with_text(lower.as_str(), ".svg") {
        proof { reveal_strlit("image/svg+xml"); }
        Ok(String::from_str("image/svg+xml"))
    } else if ends_with_text(lower.as_str(), ".png") {
        proof { reveal_strlit("image/png"); }
        Ok(String::from_str("image/png"))
    } else {
        proof { reveal_strlit("unsupported icon format"); }
        Err(String::from_str("unsupported icon format"))
    }
}

/// An icon of `len` bytes may be sent when it is at most the limit.
pub fn app_icon_size_ok(len: u64) -> (r: Result<(), String>)
    ensures
        len <= MAX_APP_ICON_BYTES ==> r is Ok,
        len > MAX_APP_ICON_BYTES ==> (r matches Err(m) && m@ == "icon file too large"@),
{
    if len > MAX_APP_ICON_BYTES {
        proof { reveal_strlit("icon file too large"); }
        Err(String::from_str("icon file too large"))
    } else {
        Ok(())
    }
}

/// A data URI carrying bytes of a media type in base64.
pub fn data_uri(mime: &str, bytes: &[u8]) -> (s: String)
    ensures
        s@ == "data:"@ + mime@ + ";base64,"@ + base64_encode(bytes@),
{
    let mut s = String::from_str("data:");
    s.append(mime);
    s.append(";base64,");
    let b = to_b64(bytes);
    s.append(b.as_str());
    s
}

/// A hit received from a peer, shown as a file of that peer: its name, path
/// and score are kept, it launches nothing.
pub fn remote_hit(hit: SearchHit, device_name: String) -> (r: SearchHit)
    ensures
        r@ == (HitView {
            name: hit@.name,
            path: hit@.path,
            command: None,
            result_type: ResultType::File,
            source: SourceView::Remote(device_name@),
            score_key: hit@.score_key,
        }),
{
    SearchHit {
        name: hit.name,
        path: hit.path,
        command: None,
        result_type: ResultType::File,
        source: ResultSource::Remote { device_name },
        score_key: hit.score_key,
    }
}

} // verus!
