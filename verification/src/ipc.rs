//! The local integration surface for the clipboard companion: who may call
//! the loopback server, which peers it advertises, how a clip-send request is
//! checked, and how a received clip file is recognised.
use vstd::prelude::*;
use crate::network::discovery::{Ipv4, Peer};
use crate::paths::{path_extension, path_stem, file_name, name_extension, name_stem, path_file_name, split_name};
use crate::trust::{parse_uuid, uuid_parse, uuid_to_string, uuid_text};
use crate::text::str_eq;

verus! {

/// Loopback port the local server binds.
pub const IPC_PORT: u16 = 57321;

/// Loopback port of the companion's own listener, which clips are delivered to.
pub const SYNAPTCLIP_PORT: u16 = 57322;

/// The address a request came from.
#[derive(Debug, Clone, Copy)]
pub enum RemoteAddr {
    V4(Ipv4),
    /// An IPv6 address as its 128-bit value.
    V6(u128),
}

/// Whether an address is a loopback address (127.0.0.0/8, or ::1).
pub open spec fn is_loopback_addr(a: RemoteAddr) -> bool {
    match a {
        RemoteAddr::V4(ip) => ip@ / 16777216 == 127,
        RemoteAddr::V6(v) => v == 1,
    }
}

/// Only loopback callers are served; anyone else gets 403 Forbidden.
pub fn check_loopback(addr: RemoteAddr) -> (r: Result<(), u16>)
    ensures
        is_loopback_addr(addr) ==> r is Ok,
        !is_loopback_addr(addr) ==> r == Err::<(), u16>(403),
{
    let ok = match addr {
        RemoteAddr::V4(ip) => ip.is_loopback(),
        RemoteAddr::V6(v) => v == 1,
    };
    if ok {
        Ok(())
    } else {
        Err(403)
    }
}

/// Whether `ids` holds the text `x`.
pub open spec fn has_text(ids: Seq<String>, x: Seq<char>) -> bool {
    exists|i: int| 0 <= i < ids.len() && (#[trigger] ids[i])@ == x
}

fn holds_text(ids: &[String], x: &str) -> (r: bool)
    ensures
        r == has_text(ids@, x@),
{
    let mut i: usize = 0;
    while i < ids.len()
        invariant
            i <= ids@.len(),
            forall|k: int| 0 <= k < i ==> (#[trigger] ids@[k])@ != x@,
        decreases ids@.len() - i,
    {
        if str_eq(ids[i].as_str(), x) {
            return true;
        }
        i = i + 1;
    }
    false
}

/// A peer is advertised when it is online and trusted.
pub open spec fn advertised(p: Peer, trusted: Seq<String>) -> bool {
    has_text(trusted, uuid_text(p.device_id))
}

/// The online peers that are also trusted, by position, in order: only they
/// are advertised, since only they can be sent to.
pub fn trusted_online_peers(peers: &[Peer], trusted: &[String]) -> (r: Vec<usize>)
    ensures
        forall|k: int| 0 <= k < r@.len() ==> (#[trigger] r@[k]) < peers@.len() && advertised(peers@[r@[k] as int], trusted@),
        forall|a: int, b: int| 0 <= a < b < r@.len() ==> r@[a] < r@[b],
        forall|i: int| 0 <= i < peers@.len() && advertised(#[trigger] peers@[i], trusted@) ==> r@.contains(i as usize),
{
    let mut r: Vec<usize> = Vec::new();
    let mut i: usize = 0;
    while i < peers.len()
        invariant
            i <= peers@.len(),
            forall|k: int| 0 <= k < r@.len() ==> (#[trigger] r@[k]) < i && advertised(peers@[r@[k] as int], trusted@),
            forall|a: int, b: int| 0 <= a < b < r@.len() ==> r@[a] < r@[b],
            forall|j: int| 0 <= j < i && advertised(#[trigger] peers@[j], trusted@) ==> r@.contains(j as usize),
        decreases peers@.len() - i,
    {
        let id = uuid_to_string(peers[i].device_id);
        if holds_text(trusted, id.as_str()) {
            let ghost before = r@;
            r.push(i);
            proof {
                assert forall|j: int| 0 <= j < i + 1 && advertised(#[trigger] peers@[j], trusted@) implies r@.contains(j as usize) by {
                    if j < i {
                        let q = choose|q: int| 0 <= q < before.len() && before[q] == j as usize;
                        assert(r@[q] == j as usize);
                    } else {
                        assert(r@[before.len() as int] == i);
                    }
                }
            }
        }
        i = i + 1;
    }
    r
}

/// Why a clip-send request is refused: the HTTP status, the error code and
/// the message of the response body.
#[derive(Debug)]
pub struct ClipRejection {
    pub status: u16,
    pub error: String,
    pub message: String,
}

/// The position of the first online peer with this device id.
fn find_online(peers: &[Peer], id: u128) -> (r: Option<usize>)
    ensures
        match r {
            Some(i) => i < peers@.len() && peers@[i as int].device_id == id
                && forall|j: int| 0 <= j < i ==> (#[trigger] peers@[j]).device_id != id,
            None => forall|j: int| 0 <= j < peers@.len() ==> (#[trigger] peers@[j]).device_id != id,
        },
{
    let mut i: usize = 0;
    while i < peers.len()
        invariant
            i <= peers@.len(),
            forall|j: int| 0 <= j < i ==> (#[trigger] peers@[j]).device_id != id,
        decreases peers@.len() - i,
    {
        if peers[i].device_id == id {
            return Some(i);
        }
        i = i + 1;
    }
    None
}

fn rejection(status: u16, error: &str, message: &str) -> (r: ClipRejection)
    ensures
        r.status == status,
        r.error@ == error@,
        r.message@ == message@,
{
    ClipRejection { status, error: String::from_str(error), message: String::from_str(message) }
}

/// How a clip-send request is answered, in the order the checks run.
pub open spec fn clip_verdict(
    peer_id: Seq<char>,
    content: Seq<char>,
    content_type: Seq<char>,
    peers: Seq<Peer>,
    trusted: Seq<String>,
) -> Result<int, (u16, Seq<char>, Seq<char>)> {
    if content_type != "text"@ {
        Err((422u16, "unsupported_content_type"@, "Only content_type 'text' is supported in v1"@))
    } else if peer_id.len() == 0 || content.len() == 0 {
        Err((422u16, "missing_fields"@, "peer_id and content are required"@))
    } else {
        match uuid_parse(peer_id) {
            None => Err((404u16, "peer_not_found"@, "Invalid peer_id format"@)),
            Some(u) => if exists|i: int| 0 <= i < peers.len() && (#[trigger] peers[i]).device_id == u {
                let i = choose|i: int| 0 <= i < peers.len() && (#[trigger] peers[i]).device_id == u
                    && forall|j: int| 0 <= j < i ==> (#[trigger] peers[j]).device_id != u;
                if has_text(trusted, uuid_text(u)) {
                    Ok(i)
                } else {
                    Err((404u16, "peer_not_found"@, "Peer is not trusted. Pair the device first."@))
                }
            } else {
                Err((404u16, "peer_not_found"@, "No peer with that ID is currently online"@))
            },
        }
    }
}

/// Check a clip-send request and find its target among the online peers:
/// only text is accepted, the peer id and the content must be present, and
/// the peer must be online and trusted. Returns the target's position.
pub fn validate_clip_request(
    peer_id: &str,
    content: &str,
    content_type: &str,
    peers: &[Peer],
    trusted: &[String],
) -> (r: Result<usize, ClipRejection>)
    ensures
        match r {
            Ok(i) => clip_verdict(peer_id@, content@, content_type@, peers@, trusted@) == Ok::<int, (u16, Seq<char>, Seq<char>)>(i as int),
            Err(e) => clip_verdict(peer_id@, content@, content_type@, peers@, trusted@)
                == Err::<int, (u16, Seq<char>, Seq<char>)>((e.status, e.error@, e.message@)),
        },
{
    proof {
        reveal_strlit("text");
    }
    if !str_eq(content_type, "text") {
        return Err(rejection(422, "unsupported_content_type", "Only content_type 'text' is supported in v1"));
    }
    if peer_id.is_empty() || content.is_empty() {
        return Err(rejection(422, "missing_fields", "peer_id and content are required"));
    }
    let u = match parse_uuid(peer_id) {
        Ok(u) => u,
        Err(_) => return Err(rejection(404, "peer_not_found", "Invalid peer_id format")),
    };
    let i = match find_online(peers, u) {
        Some(i) => i,
        None => return Err(rejection(404, "peer_not_found", "No peer with that ID is currently online")),
    };
    proof {
        assert(0 <= i < peers@.len() && (peers@[i as int]).device_id == u
            && forall|j: int| 0 <= j < i ==> (#[trigger] peers@[j]).device_id != u);
        let w = choose|w: int| 0 <= w < peers@.len() && (#[trigger] peers@[w]).device_id == u
            && forall|j: int| 0 <= j < w ==> (#[trigger] peers@[j]).device_id != u;
        if w < i {
        } else if w > i {
            assert(peers@[i as int].device_id == u);
        }
        assert(w == i);
    }
    let id_text = uuid_to_string(peers[i].device_id);
    if !holds_text(trusted, id_text.as_str()) {
        return Err(rejection(404, "peer_not_found", "Peer is not trusted. Pair the device first."));
    }
    Ok(i)
}

/// A received file is a clip when it is named `<uuid>.txt`.
pub open spec fn is_clip_path(p: Seq<char>) -> bool {
    match file_name(p) {
        Some(n) => name_extension(n) == Some("txt"@) && uuid_parse(name_stem(n)) is Some,
        None => false,
    }
}

/// Whether a received file is a clip from the companion: named `<uuid>.txt`.
pub fn is_synaptclip_clip(path: &str) -> (b: bool)
    ensures
        b == is_clip_path(path@),
{
    proof {
        reveal_strlit("txt");
    }
    match path_file_name(path) {
        Some(n) => {
            let (stem, ext) = split_name(n.as_str());
            match ext {
                Some(e) => {
                    if !str_eq(e.as_str(), "txt") {
                        return false;
                    }
                    match parse_uuid(stem.as_str()) {
                        Ok(_) => true,
                        Err(_) => false,
                    }
                },
                None => false,
            }
        },
        None => false,
    }
}

} // verus!
