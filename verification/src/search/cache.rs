//! The session cache of search answers: the ranked hits of each recent query,
//! kept in a least-recently-used cache of bounded size.
use vstd::prelude::*;
use crate::search::engine::{HitView, SearchHit};

verus! {

/// The LRU cache type of the `lru` crate.
#[verifier::external_type_specification]
#[verifier::external_body]
#[verifier::reject_recursive_types(K)]
#[verifier::reject_recursive_types(V)]
#[verifier::reject_recursive_types(S)]
pub struct ExLruCache<K, V, S>(lru::LruCache<K, V, S>);

/// The `lru` cache of answers, keyed by query, hashing with std's `RandomState`.
pub type Answers = lru::LruCache<String, Vec<SearchHit>, std::collections::hash_map::RandomState>;

/// A cached answer: a query and its hits.
pub type AnswerEntry = (Seq<char>, Seq<HitView>);

/// What an LRU cache of answers holds, most recently used first.
pub uninterp spec fn lru_entries(c: Answers) -> Seq<AnswerEntry>;

/// The number of entries an LRU cache of answers holds at most.
pub uninterp spec fn lru_cap(c: Answers) -> nat;

/// The hits of a vector, as plain values.
pub open spec fn hits_view(v: Seq<SearchHit>) -> Seq<HitView> {
    Seq::new(v.len(), |i: int| v[i]@)
}

/// A cache holding no answers.
pub open spec fn no_answers() -> Seq<AnswerEntry> {
    Seq::empty()
}

/// The position of the entry for `key`, or -1 when there is none.
pub open spec fn find_key(s: Seq<AnswerEntry>, key: Seq<char>) -> int
    decreases s.len(),
{
    if s.len() == 0 {
        -1
    } else if s[0].0 == key {
        0
    } else {
        let r = find_key(s.drop_first(), key);
        if r < 0 { -1 } else { r + 1 }
    }
}

/// No query occurs twice.
pub open spec fn keys_distinct(s: Seq<AnswerEntry>) -> bool {
    forall|i: int, j: int| 0 <= i < s.len() && 0 <= j < s.len() && i != j ==> s[i].0 != s[j].0
}

/// The entries after a lookup of `key`: a found entry moves to the front.
pub open spec fn after_get(s: Seq<AnswerEntry>, key: Seq<char>) -> Seq<AnswerEntry> {
    let i = find_key(s, key);
    if i < 0 { s } else { seq![s[i]] + s.remove(i) }
}

/// The entries after storing `hits` for `key` in a cache of at most `cap`
/// entries: the entry goes to the front, replacing the key's old entry, or
/// else pushing out the least recently used one when the cache is full.
pub open spec fn after_put(s: Seq<AnswerEntry>, key: Seq<char>, hits: Seq<HitView>, cap: nat) -> Seq<AnswerEntry> {
    let i = find_key(s, key);
    if i >= 0 {
        seq![(key, hits)] + s.remove(i)
    } else if s.len() < cap {
        seq![(key, hits)] + s
    } else {
        seq![(key, hits)] + s.drop_last()
    }
}

/// The hits cached for `key`, if any.
pub open spec fn cached_hits(s: Seq<AnswerEntry>, key: Seq<char>) -> Option<Seq<HitView>> {
    let i = find_key(s, key);
    if i < 0 { None } else { Some(s[i].1) }
}

/// `LruCache::with_hasher(cap, RandomState::new())`: an empty cache holding
/// at most `cap` entries.
#[verifier::external_body]
fn lru_new(cap: usize) -> (c: Answers)
    requires
        cap >= 1,
    ensures
        lru_entries(c) == no_answers(),
        lru_cap(c) == cap,
{
    lru::LruCache::with_hasher(std::num::NonZeroUsize::new(cap).unwrap(), std::collections::hash_map::RandomState::new())
}

/// `LruCache::get(key)` with the found answer copied out. A found entry
/// becomes the most recently used.
#[verifier::external_body]
fn lru_get(c: &mut Answers, key: &str) -> (r: Option<Vec<SearchHit>>)
    ensures
        lru_entries(*final(c)) == after_get(lru_entries(*old(c)), key@),
        lru_cap(*final(c)) == lru_cap(*old(c)),
        match cached_hits(lru_entries(*old(c)), key@) {
            Some(h) => r matches Some(v) && hits_view(v@) == h,
            None => r is None,
        },
{
    c.get(key).cloned()
}

/// `LruCache::put(key, value)`: the key's entry, with the new value, becomes
/// the most recently used; a new key in a full cache evicts the least
/// recently used entry. Queries stay distinct and within the capacity.
#[verifier::external_body]
fn lru_put(c: &mut Answers, key: String, value: Vec<SearchHit>)
    ensures
        lru_entries(*final(c)) == after_put(lru_entries(*old(c)), key@, hits_view(value@), lru_cap(*old(c))),
        lru_cap(*final(c)) == lru_cap(*old(c)),
        keys_distinct(lru_entries(*final(c))),
        lru_entries(*final(c)).len() <= lru_cap(*final(c)),
{
    c.put(key, value);
}

/// `LruCache::clear()`: every entry is dropped.
#[verifier::external_body]
fn lru_clear(c: &mut Answers)
    ensures
        lru_entries(*final(c)) == no_answers(),
        lru_cap(*final(c)) == lru_cap(*old(c)),
{
    c.clear();
}

/// `LruCache::len()`: the number of entries.
#[verifier::external_body]
fn lru_len(c: &Answers) -> (n: usize)
    ensures
        n == lru_entries(*c).len(),
{
    c.len()
}

/// Answers to recent queries, at most a fixed number of them.
pub struct AnswerCache {
    entries: Answers,
}

impl View for AnswerCache {
    type V = Seq<AnswerEntry>;

    /// The cached answers, most recently used first.
    closed spec fn view(&self) -> Seq<AnswerEntry> {
        lru_entries(self.entries)
    }
}

impl AnswerCache {
    /// How many answers the cache keeps at most.
    pub closed spec fn capacity(&self) -> nat {
        lru_cap(self.entries)
    }

    /// An empty cache keeping at most `capacity` answers (at least one).
    pub fn new(capacity: usize) -> (c: AnswerCache)
        ensures
            c@ == no_answers(),
            c.capacity() == if capacity == 0 { 1 } else { capacity as nat },
    {
        let cap = if capacity == 0 { 1 } else { capacity };
        AnswerCache { entries: lru_new(cap) }
    }

    /// The cached answer to `query`, if there is one; a found answer becomes
    /// the most recently used.
    pub fn lookup(&mut self, query: &str) -> (r: Option<Vec<SearchHit>>)
        ensures
            final(self)@ == after_get(old(self)@, query@),
            final(self).capacity() == old(self).capacity(),
            match cached_hits(old(self)@, query@) {
                Some(h) => r matches Some(v) && hits_view(v@) == h,
                None => r is None,
            },
    {
        lru_get(&mut self.entries, query)
    }

    /// Keep `hits` as the answer to `query`, as the most recently used; when
    /// the cache is full and the query is new, the least recently used answer
    /// makes room.
    pub fn store(&mut self, query: String, hits: Vec<SearchHit>)
        ensures
            final(self)@ == after_put(old(self)@, query@, hits_view(hits@), old(self).capacity()),
            final(self).capacity() == old(self).capacity(),
            keys_distinct(final(self)@),
            final(self)@.len() <= final(self).capacity(),
    {
        lru_put(&mut self.entries, query, hits);
    }

    /// Drop every cached answer.
    pub fn clear(&mut self)
        ensures
            final(self)@ == no_answers(),
            final(self).capacity() == old(self).capacity(),
    {
        lru_clear(&mut self.entries);
    }

    /// How many answers are cached.
    pub fn len(&self) -> (n: usize)
        ensures
            n == self@.len(),
    {
        lru_len(&self.entries)
    }
}

} // verus!
