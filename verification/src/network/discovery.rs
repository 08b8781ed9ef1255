//! LAN presence: the well-known ports, the presence packet, IPv4 addresses and
//! the decisions the discovery loop takes on each packet it receives.
use vstd::prelude::*;
use crate::text::str_eq;
use crate::trust::{parse_uuid, uuid_parse};

verus! {

/// UDP port of the presence multicast group.
pub const MULTICAST_PORT: u16 = 42099;

/// TCP port of the pairing responder.
pub const PAIRING_PORT: u16 = 42100;

/// TCP port of the remote search server.
pub const SEARCH_PORT: u16 = 42101;

/// TCP port of the file transfer server.
pub const TRANSFER_PORT: u16 = 42102;

/// The multicast group presence packets are sent to, 239.255.42.99, as a
/// big-endian address.
pub const MULTICAST_GROUP_BITS: u32 = 4026477155;

/// An IPv4 address, held as its 32-bit big-endian value.
#[derive(Debug, Clone, Copy, PartialEq, Eq, Structural)]
pub struct Ipv4 {
    bits: u32,
}

impl View for Ipv4 {
    type V = u32;

    closed spec fn view(&self) -> u32 {
        self.bits
    }
}

impl Ipv4 {
    /// The address `a.b.c.d`.
    pub fn new(a: u8, b: u8, c: u8, d: u8) -> (ip: Ipv4)
        ensures
            ip@ == a as nat * 16777216 + b as nat * 65536 + c as nat * 256 + d as nat,
    {
        let bits = (a as u32) * 16777216 + (b as u32) * 65536 + (c as u32) * 256 + (d as u32);
        Ipv4 { bits }
    }

    /// The address with the given 32-bit big-endian value.
    pub fn from_bits(bits: u32) -> (ip: Ipv4)
        ensures
            ip@ == bits,
    {
        Ipv4 { bits }
    }

    /// The 32-bit big-endian value of the address.
    pub fn to_bits(&self) -> (bits: u32)
        ensures
            bits == self@,
    {
        self.bits
    }

    /// 0.0.0.0.
    pub fn unspecified() -> (ip: Ipv4)
        ensures
            ip@ == 0,
    {
        Ipv4 { bits: 0 }
    }

    /// Whether this is 0.0.0.0.
    pub fn is_unspecified(&self) -> (b: bool)
        ensures
            b == (self@ == 0),
    {
        self.bits == 0
    }

    /// Whether this is in 127.0.0.0/8.
    pub fn is_loopback(&self) -> (b: bool)
        ensures
            b == (self@ / 16777216 == 127),
    {
        self.bits / 16777216 == 127
    }
}

/// Presence packet broadcast over UDP multicast. `packet_type` is the
/// packet's `type` field on the wire.
#[derive(Debug, Clone)]
pub struct PresencePacket {
    pub packet_type: String,
    pub device_id: String,
    pub device_name: String,
    pub version: String,
    pub pairing_port: u16,
}

/// How a discovered peer relates to this device.
#[derive(Debug, Clone, Copy, PartialEq, Eq, Structural)]
pub enum PeerStatus {
    Discovered,
    Trusted,
}

/// What a presence packet means for the peer map: `None` when it is ignored
/// (our own packet, or not a presence packet), otherwise the status to record.
pub open spec fn presence_status_spec(
    packet_type: Seq<char>,
    device_id: Seq<char>,
    local_device_id: Seq<char>,
    is_trusted: bool,
) -> Option<PeerStatus> {
    if device_id == local_device_id || packet_type != "presence"@ {
        None
    } else if is_trusted {
        Some(PeerStatus::Trusted)
    } else {
        Some(PeerStatus::Discovered)
    }
}

/// Decide what a received presence packet means for the peer map.
pub fn presence_status(pkt: &PresencePacket, local_device_id: &str, is_trusted: bool) -> (r: Option<PeerStatus>)
    ensures
        r == presence_status_spec(pkt.packet_type@, pkt.device_id@, local_device_id@, is_trusted),
{
    if str_eq(pkt.device_id.as_str(), local_device_id) {
        return None;
    }
    let presence = "presence";
    proof {
        reveal_strlit("presence");
    }
    if !str_eq(pkt.packet_type.as_str(), presence) {
        return None;
    }
    if is_trusted {
        Some(PeerStatus::Trusted)
    } else {
        Some(PeerStatus::Discovered)
    }
}

/// Presence packets go out at least this often (milliseconds).
pub const BROADCAST_INTERVAL_MS: u64 = 5000;

/// A peer not heard from for this long (milliseconds) is dropped.
pub const PEER_TIMEOUT_MS: u64 = 20000;

/// A device seen on the local network.
#[derive(Debug, Clone)]
pub struct Peer {
    pub device_id: u128,
    pub device_name: String,
    pub ip: Ipv4,
    pub pairing_port: u16,
    pub status: PeerStatus,
}

/// The peer a presence packet describes, seen from address `ip`. A device id
/// that is not a UUID reads as the nil UUID.
pub fn peer_from_presence(pkt: PresencePacket, ip: Ipv4, status: PeerStatus) -> (p: Peer)
    ensures
        p.device_id == match uuid_parse(pkt.device_id@) { Some(u) => u, None => 0 },
        p.device_name == pkt.device_name,
        p.ip == ip,
        p.pairing_port == pkt.pairing_port,
        p.status == status,
{
    let device_id = match parse_uuid(pkt.device_id.as_str()) {
        Ok(u) => u,
        Err(_) => 0,
    };
    Peer { device_id, device_name: pkt.device_name, ip, pairing_port: pkt.pairing_port, status }
}

/// Whether a presence packet goes out now: when asked for, or when the last
/// one is at least the broadcast interval old.
pub fn should_broadcast(forced: bool, since_last_ms: u64) -> (b: bool)
    ensures
        b == (forced || since_last_ms >= BROADCAST_INTERVAL_MS),
{
    forced || since_last_ms >= BROADCAST_INTERVAL_MS
}

/// Whether a peer last heard from `since_seen_ms` ago is kept.
pub fn peer_is_fresh(since_seen_ms: u64) -> (b: bool)
    ensures
        b == (since_seen_ms < PEER_TIMEOUT_MS),
{
    since_seen_ms < PEER_TIMEOUT_MS
}

/// Whether `s` holds the string `x`.
pub open spec fn seq_has_str(s: Seq<String>, x: Seq<char>) -> bool {
    exists|i: int| 0 <= i < s.len() && (#[trigger] s[i])@ == x
}

fn contains_str(v: &Vec<String>, x: &str) -> (r: bool)
    ensures
        r == seq_has_str(v@, x@),
{
    let mut i: usize = 0;
    while i < v.len()
        invariant
            i <= v@.len(),
            forall|t: int| 0 <= t < i ==> (#[trigger] v@[t])@ != x@,
        decreases v@.len() - i,
    {
        if str_eq(v[i].as_str(), x) {
            return true;
        }
        i = i + 1;
    }
    false
}

/// The texts of a list of strings.
pub open spec fn str_views(s: Seq<String>) -> Seq<Seq<char>> {
    Seq::new(s.len(), |i: int| s[i]@)
}

/// The ids of `now` that `before` lacks, in the order of `now`, each once
/// (at its first occurrence).
pub open spec fn fresh_ids(now: Seq<String>, before: Seq<String>) -> Seq<Seq<char>>
    decreases now.len(),
{
    if now.len() == 0 {
        Seq::empty()
    } else {
        let rest = fresh_ids(now.drop_last(), before);
        let x = now.last()@;
        if seq_has_str(before, x) || seq_has_str(now.drop_last(), x) {
            rest
        } else {
            rest.push(x)
        }
    }
}

/// The trusted peers online now that were not online on the previous pass, in
/// the order of `online_now`; each of them is announced once.
pub fn newly_online(online_now: &Vec<String>, online_before: &Vec<String>) -> (r: Vec<String>)
    ensures
        str_views(r@) == fresh_ids(online_now@, online_before@),
        r@.len() <= online_now@.len(),
        forall|x: Seq<char>| seq_has_str(r@, x) <==> (seq_has_str(online_now@, x) && !seq_has_str(online_before@, x)),
        forall|a: int, b: int| 0 <= a < b < r@.len() ==> (#[trigger] r@[a])@ != (#[trigger] r@[b])@,
{
    let mut out: Vec<String> = Vec::new();
    let mut i: usize = 0;
    proof {
        assert(online_now@.take(0) =~= Seq::<String>::empty());
        assert(str_views(out@) =~= fresh_ids(online_now@.take(0), online_before@));
    }
    while i < online_now.len()
        invariant
            i <= online_now@.len(),
            out@.len() <= i,
            str_views(out@) == fresh_ids(online_now@.take(i as int), online_before@),
            forall|x: Seq<char>| seq_has_str(out@, x) <==> (seq_has_str(online_now@.take(i as int), x) && !seq_has_str(online_before@, x)),
            forall|a: int, b: int| 0 <= a < b < out@.len() ==> (#[trigger] out@[a])@ != (#[trigger] out@[b])@,
        decreases online_now@.len() - i,
    {
        let ghost before = out@;
        let ghost pre = online_now@.take(i as int);
        let ghost nxt = online_now@.take(i + 1);
        proof {
            assert(nxt.drop_last() =~= pre);
            assert(nxt.last() == online_now@[i as int]);
        }
        let id = &online_now[i];
        let gone_before = contains_str(online_before, id.as_str());
        let announced = contains_str(&out, id.as_str());
        if !gone_before && !announced {
            out.push(id.clone());
            proof {
                assert(!seq_has_str(pre, id@));
                assert(str_views(out@) =~= str_views(before).push(id@));
                assert forall|a: int, b: int| 0 <= a < b < out@.len() implies (#[trigger] out@[a])@ != (#[trigger] out@[b])@ by {
                    if b == before.len() {
                        assert(out@[a] == before[a]);
                        if before[a]@ == id@ {
                            assert(seq_has_str(before, id@));
                        }
                    } else {
                        assert(out@[a] == before[a] && out@[b] == before[b]);
                    }
                }
            }
        } else {
            proof {
                if !gone_before {
                    assert(seq_has_str(pre, id@));
                }
            }
        }
        assert forall|x: Seq<char>| seq_has_str(out@, x) <==> (seq_has_str(nxt, x) && !seq_has_str(online_before@, x)) by {
            if seq_has_str(out@, x) {
                let j = choose|j: int| 0 <= j < out@.len() && (#[trigger] out@[j])@ == x;
                if j < before.len() {
                    assert(before[j] == out@[j]);
                    assert(seq_has_str(before, x));
                    let q = choose|q: int| 0 <= q < pre.len() && (#[trigger] pre[q])@ == x;
                    assert(nxt[q] == pre[q]);
                } else {
                    assert(nxt[i as int] == online_now@[i as int]);
                }
            }
            if seq_has_str(nxt, x) && !seq_has_str(online_before@, x) {
                let q = choose|q: int| 0 <= q < nxt.len() && (#[trigger] nxt[q])@ == x;
                if q < i {
                    assert(pre[q] == nxt[q]);
                    assert(seq_has_str(pre, x));
                    let j = choose|j: int| 0 <= j < before.len() && (#[trigger] before[j])@ == x;
                    assert(out@[j] == before[j]);
                } else if !announced {
                    assert(out@[before.len() as int] == online_now@[i as int]);
                } else {
                    let j = choose|j: int| 0 <= j < before.len() && (#[trigger] before[j])@ == id@;
                    assert(out@[j] == before[j]);
                }
            }
        }
        i = i + 1;
    }
    assert(online_now@.take(online_now@.len() as int) =~= online_now@);
    out
}

} // verus!
