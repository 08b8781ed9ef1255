//! In-memory ring of recent and active transfers, shown by the UI.
use vstd::prelude::*;
use std::collections::VecDeque;
use crate::text::str_eq;

verus! {

broadcast use vstd::std_specs::vecdeque::group_vec_dequeue_axioms;

/// Live status of a queued transfer.
#[derive(Debug, Clone)]
pub enum QueueStatus {
    Queued,
    InProgress,
    Complete,
    Failed { reason: String },
    Partial,
}

/// A single transfer as tracked by the in-memory queue for the UI.
#[derive(Debug, Clone)]
pub struct QueueEntry {
    pub transfer_id: String,
    pub filename: String,
    pub remote_path: String,
    pub peer_name: String,
    pub status: QueueStatus,
    pub bytes_received: u64,
    pub total: u64,
    pub started_at: i64,
}

/// No two entries share a transfer id.
pub open spec fn ids_distinct(s: Seq<QueueEntry>) -> bool {
    forall|i: int, j: int|
        0 <= i < s.len() && 0 <= j < s.len() && i != j ==> s[i].transfer_id@ != s[j].transfer_id@
}

/// Some entry carries the transfer id `id`.
pub open spec fn has_id(s: Seq<QueueEntry>, id: Seq<char>) -> bool {
    exists|i: int| 0 <= i < s.len() && (#[trigger] s[i]).transfer_id@ == id
}

/// The queue after pushing `entry` onto `s` with room for `max` entries:
/// an entry with the same transfer id is replaced in place; otherwise the new
/// entry goes to the front and the oldest entries past `max` are dropped.
pub open spec fn pushed(s: Seq<QueueEntry>, entry: QueueEntry, max: nat) -> Seq<QueueEntry> {
    if has_id(s, entry.transfer_id@) {
        s.update(choose|i: int| 0 <= i < s.len() && (#[trigger] s[i]).transfer_id@ == entry.transfer_id@, entry)
    } else {
        let grown = seq![entry] + s;
        if grown.len() > max { grown.take(max as int) } else { grown }
    }
}

/// `e` with a new status and byte count.
pub open spec fn with_progress(e: QueueEntry, status: QueueStatus, bytes_received: u64) -> QueueEntry {
    QueueEntry { status: status, bytes_received: bytes_received, ..e }
}

/// In-memory ring of recent and active transfers, most recent first.
pub struct TransferQueue {
    entries: VecDeque<QueueEntry>,
    max_history: usize,
}

impl View for TransferQueue {
    type V = Seq<QueueEntry>;

    closed spec fn view(&self) -> Seq<QueueEntry> {
        self.entries@
    }
}

/// A field-by-field copy of a status.
fn copy_status(s: &QueueStatus) -> (r: QueueStatus)
    ensures
        r == *s,
{
    match s {
        QueueStatus::Queued => QueueStatus::Queued,
        QueueStatus::InProgress => QueueStatus::InProgress,
        QueueStatus::Complete => QueueStatus::Complete,
        QueueStatus::Failed { reason } => QueueStatus::Failed { reason: reason.clone() },
        QueueStatus::Partial => QueueStatus::Partial,
    }
}

/// A field-by-field copy of an entry.
fn copy_entry(e: &QueueEntry) -> (r: QueueEntry)
    ensures
        r == *e,
{
    QueueEntry {
        transfer_id: e.transfer_id.clone(),
        filename: e.filename.clone(),
        remote_path: e.remote_path.clone(),
        peer_name: e.peer_name.clone(),
        status: copy_status(&e.status),
        bytes_received: e.bytes_received,
        total: e.total,
        started_at: e.started_at,
    }
}

impl TransferQueue {
    /// How many entries the queue retains.
    pub closed spec fn capacity(&self) -> nat {
        self.max_history as nat
    }

    /// Internal invariant: transfer ids are unique and the history limit holds.
    pub open spec fn wf(&self) -> bool {
        &&& ids_distinct(self@)
        &&& self@.len() <= self.capacity()
    }

    /// Create an empty queue retaining at most `max_history` entries.
    pub fn new(max_history: usize) -> (q: TransferQueue)
        ensures
            q.wf(),
            q@ == Seq::<QueueEntry>::empty(),
            q.capacity() == max_history,
    {
        TransferQueue { entries: VecDeque::new(), max_history }
    }

    fn find(&self, id: &str) -> (r: Option<usize>)
        ensures
            r matches Some(i) ==> i < self@.len() && self@[i as int].transfer_id@ == id@,
            r is None ==> !has_id(self@, id@),
    {
        let mut i: usize = 0;
        while i < self.entries.len()
            invariant
                i <= self@.len(),
                forall|t: int| 0 <= t < i ==> (#[trigger] self@[t]).transfer_id@ != id@,
            decreases self@.len() - i,
        {
            if str_eq(self.entries[i].transfer_id.as_str(), id) {
                return Some(i);
            }
            i = i + 1;
        }
        None
    }

    /// Add an entry to the front, or replace an existing entry with the same
    /// transfer_id in place; trims the oldest entries past max_history.
    pub fn push(&mut self, entry: QueueEntry)
        requires
            old(self).wf(),
        ensures
            final(self).wf(),
            final(self).capacity() == old(self).capacity(),
            final(self)@ == pushed(old(self)@, entry, old(self).capacity()),
            forall|i: int| 0 <= i < old(self)@.len() && (#[trigger] old(self)@[i]).transfer_id@ == entry.transfer_id@
                ==> final(self)@ == old(self)@.update(i, entry),
            (forall|k: int| 0 <= k < old(self)@.len() ==> (#[trigger] old(self)@[k]).transfer_id@ != entry.transfer_id@) ==> {
                &&& final(self)@.len() == if old(self)@.len() < old(self).capacity() { old(self)@.len() + 1 } else { old(self).capacity() }
                &&& forall|k: int| 0 <= k < final(self)@.len() ==> #[trigger] final(self)@[k] == if k == 0 { entry } else { old(self)@[k - 1] }
            },
    {
        let ghost s = self@;
        let ghost e = entry;
        match self.find(entry.transfer_id.as_str()) {
            Some(i) => {
                let removed = self.entries.remove(i);
                self.entries.insert(i, entry);
                assert(self@ =~= s.update(i as int, e));
                proof {
                    let c = choose|t: int| 0 <= t < s.len() && (#[trigger] s[t]).transfer_id@ == e.transfer_id@;
                    assert(c == i);
                }
                assert(ids_distinct(self@)) by {
                    assert forall|a: int, b: int|
                        0 <= a < self@.len() && 0 <= b < self@.len() && a != b implies self@[a].transfer_id@ != self@[b].transfer_id@ by {
                        if a != i && b != i {
                            assert(self@[a] == s[a] && self@[b] == s[b]);
                        } else if a == i {
                            assert(self@[b] == s[b]);
                        } else {
                            assert(self@[a] == s[a]);
                        }
                    }
                }
            },
            None => {
                self.entries.push_front(entry);
                assert(self@ =~= seq![e] + s);
                assert(ids_distinct(self@)) by {
                    assert forall|a: int, b: int|
                        0 <= a < self@.len() && 0 <= b < self@.len() && a != b implies self@[a].transfer_id@ != self@[b].transfer_id@ by {
                        if a > 0 && b > 0 {
                            assert(self@[a] == s[a - 1] && self@[b] == s[b - 1]);
                        } else if a == 0 {
                            assert(self@[b] == s[b - 1]);
                        } else {
                            assert(self@[a] == s[a - 1]);
                        }
                    }
                }
                let ghost grown = self@;
                while self.entries.len() > self.max_history
                    invariant
                        ids_distinct(self@),
                        self.max_history == old(self).max_history,
                        s == old(self)@,
                        grown.len() == s.len() + 1,
                        s.len() <= self.max_history,
                        self@.len() <= grown.len(),
                        self@.len() < grown.len() ==> self@.len() >= self.max_history,
                        self@ == grown.take(self@.len() as int),
                    decreases self@.len(),
                {
                    let ghost before = self@;
                    let _ = self.entries.pop_back();
                    assert forall|t: int| 0 <= t < self@.len() implies self@[t] == grown[t] by {
                        assert(self@[t] == before[t]);
                        assert(before[t] == grown.take(before.len() as int)[t]);
                    }
                    assert(self@ =~= grown.take(self@.len() as int));
                    assert(ids_distinct(self@)) by {
                        assert forall|a: int, b: int|
                            0 <= a < self@.len() && 0 <= b < self@.len() && a != b implies self@[a].transfer_id@ != self@[b].transfer_id@ by {
                            assert(self@[a] == before[a] && self@[b] == before[b]);
                        }
                    }
                }
                proof {
                    assert(grown =~= seq![e] + s);
                    if self@.len() == grown.len() {
                        assert(grown.take(grown.len() as int) =~= grown);
                    }
                }
            },
        }
        proof {
            let s0 = old(self)@;
            let cap = old(self).capacity();
            assert forall|i: int| 0 <= i < s0.len() && (#[trigger] s0[i]).transfer_id@ == e.transfer_id@
                implies self@ == s0.update(i, e) by {
                law_push_replaces_in_place(s0, e, cap, i);
            }
            if forall|k: int| 0 <= k < s0.len() ==> (#[trigger] s0[k]).transfer_id@ != e.transfer_id@ {
                law_push_new_entry_first(s0, e, cap);
            }
        }
    }

    /// Update the status and bytes_received of an existing entry by transfer_id.
    pub fn update(&mut self, transfer_id: &str, status: QueueStatus, bytes_received: u64)
        requires
            old(self).wf(),
        ensures
            final(self).wf(),
            final(self).capacity() == old(self).capacity(),
            final(self)@.len() == old(self)@.len(),
            forall|i: int| 0 <= i < old(self)@.len() ==> #[trigger] final(self)@[i] == if old(self)@[i].transfer_id@
                == transfer_id@ {
                with_progress(old(self)@[i], status, bytes_received)
            } else {
                old(self)@[i]
            },
    {
        let ghost s = self@;
        match self.find(transfer_id) {
            Some(i) => {
                let old_entry = self.entries.remove(i);
                match old_entry {
                    Some(e) => {
                        let updated = QueueEntry { status, bytes_received, ..e };
                        self.entries.insert(i, updated);
                        assert(self@ =~= s.update(i as int, updated));
                        assert forall|t: int| 0 <= t < s.len() implies #[trigger] self@[t] == if s[t].transfer_id@
                            == transfer_id@ {
                            with_progress(s[t], status, bytes_received)
                        } else {
                            s[t]
                        } by {
                            if t != i {
                                assert(s[t].transfer_id@ != s[i as int].transfer_id@);
                            }
                        }
                        assert(ids_distinct(self@)) by {
                            assert forall|a: int, b: int|
                                0 <= a < self@.len() && 0 <= b < self@.len() && a != b implies self@[a].transfer_id@ != self@[b].transfer_id@ by {
                                assert(self@[a].transfer_id@ == s[a].transfer_id@);
                                assert(self@[b].transfer_id@ == s[b].transfer_id@);
                            }
                        }
                    },
                    None => {},
                }
            },
            None => {
                assert forall|t: int| 0 <= t < s.len() implies #[trigger] self@[t] == if s[t].transfer_id@
                    == transfer_id@ {
                    with_progress(s[t], status, bytes_received)
                } else {
                    s[t]
                } by {
                    if s[t].transfer_id@ == transfer_id@ {
                        assert(has_id(s, transfer_id@));
                    }
                }
            },
        }
    }

    /// Return a copy of all entries, most recent first.
    pub fn list(&self) -> (r: Vec<QueueEntry>)
        ensures
            r@ == self@,
    {
        let mut out: Vec<QueueEntry> = Vec::new();
        let mut i: usize = 0;
        while i < self.entries.len()
            invariant
                i <= self@.len(),
                out@ == self@.take(i as int),
            decreases self@.len() - i,
        {
            out.push(copy_entry(&self.entries[i]));
            assert(out@ =~= self@.take(i + 1));
            i = i + 1;
        }
        assert(self@.take(self@.len() as int) =~= self@);
        out
    }
}

/// Pushing an entry whose transfer id is already queued at position `i`
/// puts exactly the new entry (all its fields) at `i` and leaves every other
/// position as it was.
pub proof fn law_push_replaces_in_place(s: Seq<QueueEntry>, entry: QueueEntry, max: nat, i: int)
    requires
        ids_distinct(s),
        0 <= i < s.len(),
        s[i].transfer_id@ == entry.transfer_id@,
    ensures
        pushed(s, entry, max) == s.update(i, entry),
        pushed(s, entry, max).len() == s.len(),
        pushed(s, entry, max)[i] == entry,
        forall|k: int| 0 <= k < s.len() && k != i ==> #[trigger] pushed(s, entry, max)[k] == s[k],
{
    assert(has_id(s, entry.transfer_id@));
    let c = choose|t: int| 0 <= t < s.len() && (#[trigger] s[t]).transfer_id@ == entry.transfer_id@;
    if c != i {
        assert(s[c].transfer_id@ != s[i].transfer_id@);
    }
}

/// Pushing an entry whose transfer id is not queued puts it first, shifts
/// the others back by one, and drops only the oldest past the limit.
pub proof fn law_push_new_entry_first(s: Seq<QueueEntry>, entry: QueueEntry, max: nat)
    requires
        forall|k: int| 0 <= k < s.len() ==> (#[trigger] s[k]).transfer_id@ != entry.transfer_id@,
        s.len() <= max,
    ensures
        pushed(s, entry, max).len() == if s.len() < max { s.len() + 1 } else { max },
        forall|k: int| 0 <= k < pushed(s, entry, max).len() ==> #[trigger] pushed(s, entry, max)[k]
            == if k == 0 { entry } else { s[k - 1] },
{
    assert(!has_id(s, entry.transfer_id@));
    let grown = seq![entry] + s;
    assert forall|k: int| 0 <= k < grown.len() implies grown[k] == if k == 0 { entry } else { s[k - 1] } by {}
}

} // verus!
