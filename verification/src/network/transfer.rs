//! File transfer bookkeeping: chunk and retry constants, the shared-directory
//! allow-list, the control messages, and the decision taken at each step of
//! serving, requesting, retrying and receiving a file.
use vstd::prelude::*;
use crate::network::SessionError;
use crate::network::queue::QueueStatus;
use crate::paths::{path_starts_with, starts_with_path, file_name, path_file_name};
use crate::storage::{TrustedPeerRow, find_trusted_peer};
use crate::text::str_eq;
use crate::network::crypto::{Sha256State, sha256, sha256_fed, sha256_start, sha256_feed, sha256_end};

verus! {

/// Size of each streamed file chunk in bytes; the final chunk may be smaller.
pub const CHUNK_SIZE: usize = 65536;

/// Exponential backoff delays (seconds) between transfer retries; never exceeds 30s.
pub const RETRY_DELAYS_SECS: [u64; 6] = [1, 2, 4, 8, 16, 30];

/// The retry delays as a sequence.
pub open spec fn retry_delays() -> Seq<u64> {
    seq![1u64, 2, 4, 8, 16, 30]
}

/// Errors raised by the file transfer subsystem.
#[derive(Debug)]
pub enum TransferError {
    Io(String),
    Json(String),
    AccessDenied,
    InvalidOffset,
    Checksum,
    NotTrusted,
    Db(String),
    Session(SessionError),
    Protocol(String),
}

/// Encrypted control messages exchanged after the session key is established.
#[derive(Debug)]
pub enum TransferMsg {
    TransferRequest { path: String, resume_offset: u64 },
    BatchTransferRequest { paths: Vec<String> },
    TransferStart { filename: String, size: u64, resume_offset: u64 },
    TransferComplete { checksum: String },
    FileSkipped { path: String, reason: String },
    BatchComplete { total_files: u64, skipped: u64 },
    PushStart { filename: String, size: u64, checksum: String },
    PushAccept,
    Error { code: String },
}

// ---------------------------------------------------------------------------
// Hex

/// The lowercase hex digit for a nibble.
pub open spec fn hex_digit(n: nat) -> char {
    if n < 10 { (n + 48) as char } else { (n + 87) as char }
}

/// Lowercase hex text of a byte string, two digits per byte.
pub open spec fn hex_text(bytes: Seq<u8>) -> Seq<char>
    decreases bytes.len(),
{
    if bytes.len() == 0 {
        Seq::empty()
    } else {
        hex_text(bytes.drop_last()).push(hex_digit(bytes.last() as nat / 16)).push(hex_digit(bytes.last() as nat % 16))
    }
}

fn nibble_char(n: u8) -> (c: char)
    requires
        n < 16,
    ensures
        c == hex_digit(n as nat),
{
    if n < 10 {
        (n + 48) as char
    } else {
        (n + 87) as char
    }
}

/// Lowercase hex encoding of a byte slice.
pub fn to_hex(bytes: &[u8]) -> (s: String)
    ensures
        s@ == hex_text(bytes@),
{
    let mut out: Vec<char> = Vec::new();
    let mut i: usize = 0;
    proof {
        assert(bytes@.take(0) =~= Seq::<u8>::empty());
    }
    while i < bytes.len()
        invariant
            i <= bytes@.len(),
            out@ == hex_text(bytes@.take(i as int)),
        decreases bytes@.len() - i,
    {
        let b = bytes[i];
        out.push(nibble_char(b / 16));
        out.push(nibble_char(b % 16));
        proof {
            let t = bytes@.take(i + 1);
            assert(t.drop_last() =~= bytes@.take(i as int));
            assert(t.last() == b);
        }
        i = i + 1;
    }
    proof {
        assert(bytes@.take(bytes@.len() as int) =~= bytes@);
    }
    crate::text::string_from_chars(out.as_slice())
}

// ---------------------------------------------------------------------------
// The shared-directory allow-list

/// A canonical path is allowed when it lies under some shared directory that
/// itself canonicalised.
pub open spec fn allowed_under(canonical: Option<Seq<char>>, canonical_dirs: Seq<Option<String>>) -> bool {
    match canonical {
        Some(p) => exists|i: int| 0 <= i < canonical_dirs.len()
            && ((#[trigger] canonical_dirs[i]) matches Some(d) && path_starts_with(p, d@)),
        None => false,
    }
}

/// Decide whether a requested path may be served: `canonical` is the
/// requested path after canonicalisation (`None` if that failed, e.g. the file
/// does not exist), `canonical_dirs` the shared directories after the same
/// step. Allowed when the path lies under one of the directories.
pub fn is_canonical_path_allowed(canonical: &Option<String>, canonical_dirs: &[Option<String>]) -> (r: bool)
    ensures
        r == allowed_under(
            match canonical { Some(s) => Some(s@), None => None },
            canonical_dirs@,
        ),
{
    let p = match canonical {
        Some(p) => p,
        None => return false,
    };
    let ghost cp: Option<Seq<char>> = match canonical { Some(s) => Some(s@), None => None };
    assert(cp == Some(p@));
    let mut i: usize = 0;
    while i < canonical_dirs.len()
        invariant
            i <= canonical_dirs@.len(),
            cp == Some(p@),
            cp == (match canonical { Some(s) => Some(s@), None => None }),
            forall|k: int| 0 <= k < i ==> !((#[trigger] canonical_dirs@[k]) matches Some(d) && path_starts_with(p@, d@)),
        decreases canonical_dirs@.len() - i,
    {
        match &canonical_dirs[i] {
            Some(d) => {
                if starts_with_path(p.as_str(), d.as_str()) {
                    assert((canonical_dirs@[i as int]) matches Some(d2) && path_starts_with(p@, d2@));
                    assert(allowed_under(cp, canonical_dirs@));
                    return true;
                }
            },
            None => {},
        }
        i = i + 1;
    }
    false
}

/// Classify each requested path as allowed or denied against the shared
/// directories, keeping the request order. `canonical[i]` is `paths[i]`
/// after canonicalisation.
pub fn classify_batch(
    paths: &[String],
    canonical: &[Option<String>],
    canonical_dirs: &[Option<String>],
) -> (r: Vec<(String, bool)>)
    requires
        paths@.len() == canonical@.len(),
    ensures
        r@.len() == paths@.len(),
        forall|i: int| 0 <= i < r@.len() ==> (#[trigger] r@[i]).0@ == paths@[i]@
            && r@[i].1 == allowed_under(
                match canonical@[i] { Some(s) => Some(s@), None => None },
                canonical_dirs@,
            ),
{
    let mut r: Vec<(String, bool)> = Vec::new();
    let mut i: usize = 0;
    while i < paths.len()
        invariant
            paths@.len() == canonical@.len(),
            i <= paths@.len(),
            r@.len() == i,
            forall|k: int| 0 <= k < i ==> (#[trigger] r@[k]).0@ == paths@[k]@
                && r@[k].1 == allowed_under(
                    match canonical@[k] { Some(s) => Some(s@), None => None },
                    canonical_dirs@,
                ),
        decreases paths@.len() - i,
    {
        let allowed = is_canonical_path_allowed(&canonical[i], canonical_dirs);
        r.push((paths[i].clone(), allowed));
        i = i + 1;
    }
    r
}

/// Number of denied entries among the first `n` of a classified batch.
pub open spec fn denied_count(c: Seq<(String, bool)>) -> nat
    decreases c.len(),
{
    if c.len() == 0 {
        0
    } else {
        denied_count(c.drop_last()) + if c.last().1 { 0nat } else { 1nat }
    }
}

/// The skipped count of a batch is the number of its denied entries, and the
/// denied and allowed entries together make up the whole batch.
pub proof fn law_skipped_are_the_denied(c: Seq<(String, bool)>)
    ensures
        denied_count(c) == c.filter(|e: (String, bool)| !e.1).len(),
        denied_count(c) + c.filter(|e: (String, bool)| e.1).len() == c.len(),
    decreases c.len(),
{
    reveal_with_fuel(Seq::filter, 1);
    if c.len() > 0 {
        law_skipped_are_the_denied(c.drop_last());
    }
}

/// The summary sent after a batch: how many files were asked for and how many
/// were skipped as denied.
pub fn batch_summary(classified: &[(String, bool)]) -> (r: TransferMsg)
    ensures
        r matches TransferMsg::BatchComplete { total_files, skipped }
            && total_files == classified@.len() && skipped == denied_count(classified@),
        r matches TransferMsg::BatchComplete { total_files, skipped }
            && skipped == classified@.filter(|e: (String, bool)| !e.1).len()
            && skipped + classified@.filter(|e: (String, bool)| e.1).len() == total_files,
{
    proof {
        law_skipped_are_the_denied(classified@);
    }
    let mut skipped: u64 = 0;
    let mut i: usize = 0;
    proof {
        assert(classified@.take(0) =~= Seq::<(String, bool)>::empty());
    }
    while i < classified.len()
        invariant
            i <= classified@.len(),
            skipped == denied_count(classified@.take(i as int)),
            skipped <= i,
        decreases classified@.len() - i,
    {
        proof {
            let t = classified@.take(i + 1);
            assert(t.drop_last() =~= classified@.take(i as int));
        }
        if !classified[i].1 {
            skipped = skipped + 1;
        }
        i = i + 1;
    }
    proof {
        assert(classified@.take(classified@.len() as int) =~= classified@);
    }
    TransferMsg::BatchComplete { total_files: classified.len() as u64, skipped }
}

// ---------------------------------------------------------------------------
// Serving a file

/// What the server sends for a request before any byte: the refusal code, or
/// the start of the transfer. `allowed` is the allow-list verdict, `size` the
/// length of the file if it could be opened.
pub open spec fn serve_verdict(allowed: bool, size: Option<u64>, resume_offset: u64) -> Result<u64, Seq<char>> {
    if !allowed {
        Err("access_denied"@)
    } else {
        match size {
            None => Err("access_denied"@),
            Some(n) => if resume_offset > n { Err("invalid_offset"@) } else { Ok(n) },
        }
    }
}

/// Decide how to answer a transfer request: an error code for a denied or
/// unreadable path or an offset past the end, otherwise the file size.
pub fn serve_check(allowed: bool, size: Option<u64>, resume_offset: u64) -> (r: Result<u64, String>)
    ensures
        match r {
            Ok(n) => serve_verdict(allowed, size, resume_offset) == Ok::<u64, Seq<char>>(n),
            Err(code) => serve_verdict(allowed, size, resume_offset) == Err::<u64, Seq<char>>(code@),
        },
{
    proof {
        reveal_strlit("access_denied");
        reveal_strlit("invalid_offset");
    }
    if !allowed {
        return Err(String::from_str("access_denied"));
    }
    match size {
        None => Err(String::from_str("access_denied")),
        Some(n) => {
            if resume_offset > n {
                Err(String::from_str("invalid_offset"))
            } else {
                Ok(n)
            }
        },
    }
}

/// The name a file travels under: the final component of its path, or "file"
/// when the path names none.
pub open spec fn wire_name(path: Seq<char>) -> Seq<char> {
    match file_name(path) {
        Some(n) => n,
        None => "file"@,
    }
}

/// The name a file travels under.
pub fn transfer_file_name(path: &str) -> (r: String)
    ensures
        r@ == wire_name(path@),
{
    match path_file_name(path) {
        Some(n) => n,
        None => {
            proof {
                reveal_strlit("file");
            }
            String::from_str("file")
        },
    }
}

// ---------------------------------------------------------------------------
// Checksums

/// Start the checksum of a file: nothing has been read yet.
pub fn checksum_start() -> (s: Sha256State)
    ensures
        sha256_fed(s) == Seq::<u8>::empty(),
{
    sha256_start()
}

/// Add the next chunk read from the file to its checksum.
pub fn checksum_feed(s: &mut Sha256State, chunk: &[u8])
    ensures
        sha256_fed(*final(s)) == sha256_fed(*old(s)) + chunk@,
{
    sha256_feed(s, chunk)
}

/// The checksum sent with a file: the lowercase hex of the SHA-256 digest of
/// every byte read from it.
pub fn checksum_hex(s: Sha256State) -> (h: String)
    ensures
        h@ == hex_text(sha256(sha256_fed(s))),
{
    let d = sha256_end(s);
    to_hex(d.as_slice())
}

// ---------------------------------------------------------------------------
// Requesting a file

/// Map the server's refusal code to the requester's error.
pub fn transfer_error_for_code(code: &str) -> (e: TransferError)
    ensures
        code@ == "access_denied"@ ==> e is AccessDenied,
        code@ == "invalid_offset"@ ==> e is InvalidOffset,
        code@ != "access_denied"@ && code@ != "invalid_offset"@ ==> (e matches TransferError::Protocol(m) && m@ == code@),
{
    proof {
        reveal_strlit("access_denied");
        reveal_strlit("invalid_offset");
        assert("access_denied"@.len() != "invalid_offset"@.len());
    }
    if str_eq(code, "access_denied") {
        TransferError::AccessDenied
    } else if str_eq(code, "invalid_offset") {
        TransferError::InvalidOffset
    } else {
        TransferError::Protocol(String::from_str(code))
    }
}

/// The long-term public key of the first trusted peer with this device id.
pub fn trusted_pubkey(peers: &[TrustedPeerRow], device_id: &str) -> (r: Result<String, TransferError>)
    ensures
        match r {
            Ok(k) => exists|i: int| 0 <= i < peers@.len() && (#[trigger] peers@[i]).device_id@ == device_id@
                && k@ == peers@[i].pubkey_b64@
                && forall|j: int| 0 <= j < i ==> (#[trigger] peers@[j]).device_id@ != device_id@,
            Err(e) => e is NotTrusted && forall|i: int| 0 <= i < peers@.len() ==> (#[trigger] peers@[i]).device_id@ != device_id@,
        },
{
    match find_trusted_peer(peers, device_id) {
        Some(i) => Ok(peers[i].pubkey_b64.clone()),
        None => Err(TransferError::NotTrusted),
    }
}

/// The name shown for a peer: the name of the first trusted peer with its
/// device id if it is trusted, its device id otherwise.
pub fn peer_display_name(peers: &[TrustedPeerRow], device_id: &str) -> (r: String)
    ensures
        (exists|i: int| 0 <= i < peers@.len() && (#[trigger] peers@[i]).device_id@ == device_id@ && r@ == peers@[i].device_name@
            && forall|j: int| 0 <= j < i ==> (#[trigger] peers@[j]).device_id@ != device_id@)
        || (r@ == device_id@ && forall|i: int| 0 <= i < peers@.len() ==> (#[trigger] peers@[i]).device_id@ != device_id@),
{
    match find_trusted_peer(peers, device_id) {
        Some(i) => peers[i].device_name.clone(),
        None => String::from_str(device_id),
    }
}

/// The download directory configured in settings, when it is set and not empty.
pub fn configured_download_dir(setting: Option<String>) -> (r: Option<String>)
    ensures
        match setting {
            Some(d) => if d@.len() > 0 { r == Some(d) } else { r is None },
            None => r is None,
        },
{
    match setting {
        Some(d) => {
            if !d.as_str().is_empty() {
                Some(d)
            } else {
                None
            }
        },
        None => None,
    }
}

// ---------------------------------------------------------------------------
// Retrying

/// The delay before retry number `attempt` (counting from zero), or `None`
/// once every delay has been used and the transfer gives up.
pub fn retry_delay(attempt: usize) -> (r: Option<u64>)
    ensures
        match r {
            Some(d) => attempt < 6 && d == retry_delays()[attempt as int],
            None => attempt >= 6,
        },
{
    if attempt < 6 {
        proof {
            assert(RETRY_DELAYS_SECS@ =~= retry_delays());
        }
        Some(RETRY_DELAYS_SECS[attempt])
    } else {
        None
    }
}

/// What follows a failed attempt at a transfer.
#[derive(Debug)]
pub enum RetryAction {
    /// Mark the history row (if one was made) partial, wait `delay_secs`, and
    /// try again as attempt `next_attempt`.
    Retry { delay_secs: u64, next_attempt: usize, mark_partial: Option<i64> },
    /// Stop: mark the history row (if one was made) failed.
    GiveUp { mark_failed: Option<i64> },
}

/// Decide what follows failed attempt number `attempt` (counting from zero)
/// of a transfer whose history row is `hist_id`: another try after the next
/// delay while delays remain, giving up once all six are used.
pub fn after_failed_attempt(attempt: usize, hist_id: Option<i64>) -> (a: RetryAction)
    ensures
        attempt < 6 ==> (a matches RetryAction::Retry { delay_secs, next_attempt, mark_partial }
            && delay_secs == retry_delays()[attempt as int] && next_attempt == attempt + 1
            && mark_partial == hist_id),
        attempt >= 6 ==> (a matches RetryAction::GiveUp { mark_failed } && mark_failed == hist_id),
{
    match retry_delay(attempt) {
        Some(d) => RetryAction::Retry { delay_secs: d, next_attempt: attempt + 1, mark_partial: hist_id },
        None => RetryAction::GiveUp { mark_failed: hist_id },
    }
}

/// A stored byte count read back as a resume offset; negative counts resume from zero.
pub fn resume_offset_from(bytes: i64) -> (r: u64)
    ensures
        r == if bytes < 0 { 0 } else { bytes as int },
{
    if bytes < 0 {
        0
    } else {
        bytes as u64
    }
}

/// Where a requested transfer starts: from the most recent partial attempt
/// recorded for the same peer and path (its transfer id, when it has one, its
/// history row, its byte count), otherwise afresh under `fresh_id`.
pub fn resume_plan(partial: Option<(i64, Option<String>, i64)>, fresh_id: String) -> (r: (String, Option<i64>, u64))
    ensures
        match partial {
            Some((id, tid, bytes)) => {
                &&& r.0 == (match tid { Some(t) => t, None => fresh_id })
                &&& r.1 == Some(id)
                &&& r.2 == if bytes < 0 { 0 } else { bytes as int }
            },
            None => r.0 == fresh_id && r.1 is None && r.2 == 0,
        },
{
    match partial {
        Some((id, tid, bytes)) => {
            let t = match tid {
                Some(t) => t,
                None => fresh_id,
            };
            (t, Some(id), resume_offset_from(bytes))
        },
        None => (fresh_id, None, 0),
    }
}

// ---------------------------------------------------------------------------
// Receiving

/// Bytes received after one more chunk; the receive loop runs while this is
/// below the announced size and the chunk was not empty.
pub fn after_chunk(received: u64, chunk_len: usize) -> (r: u64)
    requires
        received + chunk_len <= u64::MAX,
    ensures
        r == received + chunk_len,
{
    received + chunk_len as u64
}

/// How a finished transfer is recorded: the history status, the byte count
/// kept, and the queue status.
pub struct Outcome {
    pub history_status: String,
    pub bytes: u64,
    pub queue_status: QueueStatus,
}

/// Record a finished transfer: complete with every byte received when the
/// checksum of the written file matches the sender's, failed with no bytes
/// and the reason "checksum_mismatch" otherwise.
pub fn finish_outcome(actual_checksum: &str, expected_checksum: &str, received: u64) -> (o: Outcome)
    ensures
        actual_checksum@ == expected_checksum@ ==> {
            &&& o.history_status@ == "complete"@
            &&& o.bytes == received
            &&& o.queue_status is Complete
        },
        actual_checksum@ != expected_checksum@ ==> {
            &&& o.history_status@ == "failed"@
            &&& o.bytes == 0
            &&& o.queue_status matches QueueStatus::Failed { reason } && reason@ == "checksum_mismatch"@
        },
{
    proof {
        reveal_strlit("complete");
        reveal_strlit("failed");
        reveal_strlit("checksum_mismatch");
    }
    if str_eq(actual_checksum, expected_checksum) {
        Outcome { history_status: String::from_str("complete"), bytes: received, queue_status: QueueStatus::Complete }
    } else {
        Outcome {
            history_status: String::from_str("failed"),
            bytes: 0,
            queue_status: QueueStatus::Failed { reason: String::from_str("checksum_mismatch") },
        }
    }
}

/// The message that opens a push: the file's wire name, size and checksum.
pub fn push_start(local_path: &str, size: u64, checksum: String) -> (m: TransferMsg)
    ensures
        m matches TransferMsg::PushStart { filename, size: s, checksum: c }
            && filename@ == wire_name(local_path@) && s == size && c == checksum,
{
    TransferMsg::PushStart { filename: transfer_file_name(local_path), size, checksum }
}

/// The requester's reading of the server's first answer: the start of the
/// transfer (wire name, size, offset), or the error its refusal stands for.
pub fn start_reply(msg: TransferMsg) -> (r: Result<(String, u64, u64), TransferError>)
    ensures
        match msg {
            TransferMsg::TransferStart { filename, size, resume_offset } =>
                r matches Ok((f, s, o)) && f == filename && s == size && o == resume_offset,
            TransferMsg::Error { code } => {
                &&& (code@ == "access_denied"@ ==> (r matches Err(TransferError::AccessDenied)))
                &&& (code@ == "invalid_offset"@ ==> (r matches Err(TransferError::InvalidOffset)))
                &&& ((code@ != "access_denied"@ && code@ != "invalid_offset"@)
                    ==> (r matches Err(TransferError::Protocol(m)) && m@ == code@))
            },
            _ => r matches Err(TransferError::Protocol(m)) && "unexpected "@.is_prefix_of(m@),
        },
{
    match msg {
        TransferMsg::TransferStart { filename, size, resume_offset } => Ok((filename, size, resume_offset)),
        TransferMsg::Error { code } => Err(transfer_error_for_code(code.as_str())),
        other => Err(TransferError::Protocol(unexpected(&other))),
    }
}

/// The requester's reading of the message that ends a transfer: the
/// sender's checksum, or a protocol error for any other message.
pub fn completion_checksum(msg: TransferMsg) -> (r: Result<String, TransferError>)
    ensures
        match msg {
            TransferMsg::TransferComplete { checksum } => r matches Ok(c) && c == checksum,
            _ => r matches Err(TransferError::Protocol(m)) && "unexpected "@.is_prefix_of(m@),
        },
{
    match msg {
        TransferMsg::TransferComplete { checksum } => Ok(checksum),
        other => Err(TransferError::Protocol(unexpected(&other))),
    }
}

/// How an attempt records itself in the history once the transfer starts.
#[derive(Debug)]
pub enum HistoryAction {
    /// First attempt: insert a new history row.
    Insert,
    /// A retry: mark the row made by an earlier attempt in progress again.
    Reuse(i64),
}

/// The history action of an attempt: a row made by an earlier attempt is
/// reused, otherwise a new one is inserted.
pub fn history_action(hist_id: Option<i64>) -> (a: HistoryAction)
    ensures
        match hist_id {
            Some(id) => a matches HistoryAction::Reuse(r) && r == id,
            None => a is Insert,
        },
{
    match hist_id {
        Some(id) => HistoryAction::Reuse(id),
        None => HistoryAction::Insert,
    }
}

/// The error text for a message that was not expected: "unexpected "
/// followed by the message's `Debug` text.
fn unexpected(msg: &TransferMsg) -> (m: String)
    ensures
        "unexpected "@.is_prefix_of(m@),
{
    let mut m = String::from_str("unexpected ");
    let d = transfer_msg_debug_text(msg);
    m.append(d.as_str());
    proof {
        reveal_strlit("unexpected ");
        assert(m@.subrange(0, 11) =~= "unexpected "@);
    }
    m
}

/// Keep the history row an attempt inserted, so that later retries reuse it.
/// Returns the row the attempt records its progress in.
pub fn remember_row(hist_id: &mut Option<i64>, row: i64) -> (id: i64)
    ensures
        *final(hist_id) == Some(row),
        id == row,
{
    *hist_id = Some(row);
    row
}

/// Number of `false` entries in a list of outcomes.
pub open spec fn failed_count(outcomes: Seq<bool>) -> nat
    decreases outcomes.len(),
{
    if outcomes.len() == 0 {
        0
    } else {
        failed_count(outcomes.drop_last()) + if outcomes.last() { 0nat } else { 1nat }
    }
}

/// The tally of a batch request, from whether each file's transfer finally
/// succeeded: how many files were asked for, and how many were skipped.
pub fn batch_tally(outcomes: &[bool]) -> (t: (u64, u64))
    ensures
        t.0 == outcomes@.len(),
        t.1 == failed_count(outcomes@),
{
    let mut skipped: u64 = 0;
    let mut i: usize = 0;
    proof {
        assert(outcomes@.take(0) =~= Seq::<bool>::empty());
    }
    while i < outcomes.len()
        invariant
            i <= outcomes@.len(),
            skipped == failed_count(outcomes@.take(i as int)),
            skipped <= i,
        decreases outcomes@.len() - i,
    {
        proof {
            assert(outcomes@.take(i + 1).drop_last() =~= outcomes@.take(i as int));
        }
        if !outcomes[i] {
            skipped = skipped + 1;
        }
        i = i + 1;
    }
    proof {
        assert(outcomes@.take(outcomes@.len() as int) =~= outcomes@);
    }
    (outcomes.len() as u64, skipped)
}

/// The `Debug` text of a transfer message (`format!("{:?}")`). Nothing is
/// stated of it.
#[verifier::external_body]
fn transfer_msg_debug_text(msg: &TransferMsg) -> (s: String) {
    format!("{:?}", msg)
}

/// The retry delays grow strictly and never exceed thirty seconds.
pub proof fn law_retry_delays_increase_to_cap()
    ensures
        retry_delays().len() == 6,
        forall|i: int, j: int| 0 <= i < j < 6 ==> #[trigger] retry_delays()[i] < #[trigger] retry_delays()[j],
        forall|i: int| 0 <= i < 6 ==> retry_delays()[i] <= 30,
        retry_delays().last() == 30,
{
}

} // verus!
