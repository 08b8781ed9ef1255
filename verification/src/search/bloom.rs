//! Bloom filter using FNV-1a and DJB2 double hashing as a search pre-filter gate.
//!
//! The bit array is packed into `u64` words rather than held as a `Vec<bool>`,
//! which would spend a whole byte per bit.
use vstd::prelude::*;
use vstd::wrapping::u64_specs::{wrapping_add, wrapping_mul, wrapping_shl};
use vstd::string::StringSliceAdditionalSpecFns;

verus! {

/// FNV-1a 64-bit offset basis.
pub const FNV_OFFSET_BASIS: u64 = 14695981039346656037;

/// FNV-1a 64-bit prime.
pub const FNV_PRIME: u64 = 1099511628211;

/// DJB2 starting value.
pub const DJB2_SEED: u64 = 5381;

/// FNV-1a over a byte string.
pub open spec fn fnv1a_spec(data: Seq<u8>) -> u64
    decreases data.len(),
{
    if data.len() == 0 {
        FNV_OFFSET_BASIS
    } else {
        wrapping_mul(fnv1a_spec(data.drop_last()) ^ (data.last() as u64), FNV_PRIME)
    }
}

/// DJB2 (`h * 33 + byte`, wrapping) over a byte string.
pub open spec fn djb2_spec(data: Seq<u8>) -> u64
    decreases data.len(),
{
    if data.len() == 0 {
        DJB2_SEED
    } else {
        let h = djb2_spec(data.drop_last());
        wrapping_add(wrapping_add(wrapping_shl(h, 5), h), data.last() as u64)
    }
}

/// The `i`-th probe position of a term with bytes `data` in a table of `m` bits.
/// The DJB2 step is forced odd so that it stays coprime with an even table size.
pub open spec fn probe_spec(data: Seq<u8>, i: nat, m: nat) -> nat {
    (wrapping_add(fnv1a_spec(data), wrapping_mul(i as u64, djb2_spec(data) | 1)) as nat) % m
}

/// `p` is one of the first `n` probe positions of `data` in a table of `m` bits.
pub open spec fn among_first_probes(data: Seq<u8>, p: nat, n: nat, m: nat) -> bool {
    exists|j: nat| j < n && p == #[trigger] probe_spec(data, j, m)
}

proof fn lemma_among_next(data: Seq<u8>, p: nat, n: nat, m: nat)
    ensures
        among_first_probes(data, p, n + 1, m) == (among_first_probes(data, p, n, m) || p == probe_spec(data, n, m)),
{
    if among_first_probes(data, p, n + 1, m) {
        let j = choose|j: nat| j < n + 1 && p == #[trigger] probe_spec(data, j, m);
        if j < n {
            assert(among_first_probes(data, p, n, m));
        }
    }
    if p == probe_spec(data, n, m) {
        assert(among_first_probes(data, p, n + 1, m));
    }
    if among_first_probes(data, p, n, m) {
        let j = choose|j: nat| j < n && p == #[trigger] probe_spec(data, j, m);
        assert(j < n + 1);
    }
}

/// Whether bit `p` of a packed word array is set.
pub open spec fn word_bit(words: Seq<u64>, p: nat) -> bool {
    (words[(p / 64) as int] >> ((p % 64) as u64)) & 1u64 == 1u64
}

/// Bloom filter over string terms.
#[derive(Debug)]
pub struct BloomFilter {
    bits: Vec<u64>,
    k: usize,
    /// Total bits addressed, which is not `bits.len() * 64` once the requested
    /// size is rounded up to a whole number of words.
    m: usize,
    /// Configured expected capacity, retained for diagnostics and resizing decisions.
    capacity: usize,
}

impl BloomFilter {
    /// Internal invariant: at least one bit and one hash, and enough words for `m` bits.
    #[verifier::type_invariant]
    pub closed spec fn wf(&self) -> bool {
        &&& self.m >= 1
        &&& self.k >= 1
        &&& self.bits@.len() == (self.m + 63) / 64
    }

    /// Number of bits addressed.
    pub closed spec fn num_bits(&self) -> nat {
        self.m as nat
    }

    /// Number of probes per term.
    pub closed spec fn num_hashes(&self) -> nat {
        self.k as nat
    }

    /// Configured expected capacity.
    pub closed spec fn expected_capacity(&self) -> nat {
        self.capacity as nat
    }

    /// Whether bit `p` is set.
    pub closed spec fn is_set(&self, p: nat) -> bool {
        word_bit(self.bits@, p)
    }

    /// Whether `p` is one of the probe positions of a term with bytes `data`.
    pub open spec fn is_probe(&self, data: Seq<u8>, p: nat) -> bool {
        among_first_probes(data, p, self.num_hashes(), self.num_bits())
    }

    /// The filter answers "maybe" for a term with bytes `data`.
    pub open spec fn admits(&self, data: Seq<u8>) -> bool {
        forall|i: nat| i < self.num_hashes() ==> self.is_set(#[trigger] probe_spec(data, i, self.num_bits()))
    }

    /// `after` is `before` with the probe bits of `data` set and nothing else changed.
    pub open spec fn inserted(before: &BloomFilter, after: &BloomFilter, data: Seq<u8>) -> bool {
        &&& after.num_bits() == before.num_bits()
        &&& after.num_hashes() == before.num_hashes()
        &&& after.expected_capacity() == before.expected_capacity()
        &&& forall|p: nat| p < after.num_bits() ==> (#[trigger] after.is_set(p) <==> (before.is_set(p) || before.is_probe(data, p)))
    }

    /// Create an empty filter for `capacity` expected terms, addressing `bits`
    /// bits with `hashes` probes per term. Each of the three is raised to at
    /// least one.
    pub fn with_sizing(capacity: usize, bits: usize, hashes: usize) -> (f: BloomFilter)
        ensures
            f.wf(),
            f.expected_capacity() == if capacity == 0 { 1 } else { capacity as nat },
            f.num_bits() == if bits == 0 { 1 } else { bits as nat },
            f.num_hashes() == if hashes == 0 { 1 } else { hashes as nat },
            forall|p: nat| p < f.num_bits() ==> !#[trigger] f.is_set(p),
            forall|data: Seq<u8>| !#[trigger] f.admits(data),
    {
        let cap = if capacity == 0 { 1 } else { capacity };
        let m = if bits == 0 { 1 } else { bits };
        let k = if hashes == 0 { 1 } else { hashes };
        let words = m / 64 + if m % 64 == 0 { 0 } else { 1 };
        let v: Vec<u64> = vec![0u64; words];
        let f = BloomFilter { bits: v, k, m, capacity: cap };
        assert forall|p: nat| p < f.num_bits() implies !#[trigger] f.is_set(p) by {
            let w = f.bits@[(p / 64) as int];
            assert(w == 0u64);
            let s = (p % 64) as u64;
            assert((0u64 >> s) & 1u64 == 0u64) by (bit_vector);
        }
        assert forall|data: Seq<u8>| !#[trigger] f.admits(data) by {
            let q = probe_spec(data, 0nat, f.num_bits());
            assert(q < f.num_bits());
            assert(!f.is_set(q));
        }
        f
    }

    /// FNV-1a over a byte string.
    pub fn fnv1a(data: &[u8]) -> (h: u64)
        ensures
            h == fnv1a_spec(data@),
    {
        let mut hash: u64 = FNV_OFFSET_BASIS;
        let mut i: usize = 0;
        while i < data.len()
            invariant
                i <= data@.len(),
                hash == fnv1a_spec(data@.take(i as int)),
            decreases data@.len() - i,
        {
            assert(data@.take(i + 1).drop_last() =~= data@.take(i as int));
            hash = hash ^ (data[i] as u64);
            hash = hash.wrapping_mul(FNV_PRIME);
            i = i + 1;
        }
        assert(data@.take(data@.len() as int) =~= data@);
        hash
    }

    /// DJB2 over a byte string.
    pub fn djb2(data: &[u8]) -> (h: u64)
        ensures
            h == djb2_spec(data@),
    {
        let mut hash: u64 = DJB2_SEED;
        let mut i: usize = 0;
        while i < data.len()
            invariant
                i <= data@.len(),
                hash == djb2_spec(data@.take(i as int)),
            decreases data@.len() - i,
        {
            assert(data@.take(i + 1).drop_last() =~= data@.take(i as int));
            hash = hash.wrapping_shl(5).wrapping_add(hash).wrapping_add(data[i] as u64);
            i = i + 1;
        }
        assert(data@.take(data@.len() as int) =~= data@);
        hash
    }

    /// Probe `i` of a term in a filter of `m` bits.
    fn probe_position(term: &str, i: usize, m: usize) -> (pos: usize)
        requires
            m >= 1,
        ensures
            pos as nat == probe_spec(term.spec_bytes(), i as nat, m as nat),
            pos < m,
    {
        let bytes = term.as_bytes();
        let h1 = Self::fnv1a(bytes);
        let h2 = Self::djb2(bytes) | 1;
        let step = (i as u64).wrapping_mul(h2);
        (h1.wrapping_add(step) % (m as u64)) as usize
    }

    fn hash_i(&self, term: &str, i: usize) -> (pos: usize)
        ensures
            pos as nat == probe_spec(term.spec_bytes(), i as nat, self.num_bits()),
            pos < self.num_bits(),
    {
        proof {
            use_type_invariant(&*self);
        }
        Self::probe_position(term, i, self.m)
    }

    /// Insert a term into the filter.
    pub fn insert(&mut self, term: &str)
        ensures
            BloomFilter::inserted(old(self), final(self), term.spec_bytes()),
    {
        proof {
            use_type_invariant(&*self);
        }
        let ghost data = term.spec_bytes();
        let ghost before = *self;
        // Take the filter out whole, so that it is never seen half-updated.
        let mut cur = BloomFilter::with_sizing(1, 1, 1);
        std::mem::swap(self, &mut cur);
        let k = cur.k;
        let m = cur.m;
        let capacity = cur.capacity;
        let mut bits = cur.bits;
        let mut i: usize = 0;
        while i < k
            invariant
                data == term.spec_bytes(),
                m == before.m,
                k == before.k,
                capacity == before.capacity,
                m >= 1,
                bits@.len() == (m + 63) / 64,
                i <= k,
                forall|p: nat| p < m ==> (#[trigger] word_bit(bits@, p) <==> (before.is_set(p)
                    || among_first_probes(data, p, i as nat, m as nat))),
            decreases k - i,
        {
            let pos = Self::probe_position(term, i, m);
            let idx = pos / 64;
            let shift = (pos % 64) as u64;
            assert(idx < bits@.len());
            let old_word = bits[idx];
            let ghost old_bits = bits@;
            let new_word = old_word | (1u64 << shift);
            bits.set(idx, new_word);
            assert forall|p: nat| p < m implies (#[trigger] word_bit(bits@, p) <==> (before.is_set(p)
                || among_first_probes(data, p, (i + 1) as nat, m as nat))) by {
                lemma_set_bit(old_bits, bits@, idx as int, shift, p, pos as nat);
                lemma_among_next(data, p, i as nat, m as nat);
            }
            i = i + 1;
        }
        *self = BloomFilter { bits, k, m, capacity };
    }

    /// Return true if the term may be present, false if it is definitely absent.
    pub fn may_contain(&self, term: &str) -> (r: bool)
        ensures
            r == self.admits(term.spec_bytes()),
    {
        proof {
            use_type_invariant(&*self);
        }
        let ghost data = term.spec_bytes();
        let mut i: usize = 0;
        while i < self.k
            invariant
                data == term.spec_bytes(),
                self.wf(),
                i <= self.k,
                forall|j: nat| j < i ==> self.is_set(#[trigger] probe_spec(data, j, self.num_bits())),
            decreases self.k - i,
        {
            let pos = self.hash_i(term, i);
            let idx = pos / 64;
            let shift = (pos % 64) as u64;
            assert(idx < self.bits@.len());
            let bit = (self.bits[idx] >> shift) & 1u64;
            proof {
                lemma_word_bit(self.bits@, pos as nat, idx as int, shift);
                assert(self.is_set(pos as nat) == word_bit(self.bits@, pos as nat));
            }
            if bit != 1u64 {
                return false;
            }
            assert(self.is_set(probe_spec(data, i as nat, self.num_bits())));
            i = i + 1;
        }
        true
    }

    /// Number of bits the filter is sized for.
    pub fn bit_count(&self) -> (n: usize)
        ensures
            n == self.num_bits(),
    {
        self.m
    }

    /// Heap bytes held by the bit array.
    pub fn heap_bytes(&self) -> (n: usize)
        ensures
            n >= ((self.num_bits() + 63) / 64) * 8,
            n % 8 == 0,
    {
        proof {
            use_type_invariant(&*self);
        }
        let cap = vec_capacity(&self.bits);
        cap * 8
    }
}

impl Clone for BloomFilter {
    /// A copy holding the same bits, sizing and capacity.
    fn clone(&self) -> (r: Self)
        ensures
            r.num_bits() == self.num_bits(),
            r.num_hashes() == self.num_hashes(),
            r.expected_capacity() == self.expected_capacity(),
            forall|p: nat| #[trigger] r.is_set(p) == self.is_set(p),
    {
        proof {
            use_type_invariant(self);
        }
        let bits = self.bits.clone();
        assert(bits@ =~= self.bits@);
        BloomFilter { bits, k: self.k, m: self.m, capacity: self.capacity }
    }
}

/// Reading bit `p` through its word index and shift.
proof fn lemma_word_bit(words: Seq<u64>, p: nat, idx: int, shift: u64)
    requires
        idx == p / 64,
        shift as nat == p % 64,
    ensures
        word_bit(words, p) == ((words[idx] >> shift) & 1u64 == 1u64),
{
    assert((p % 64) as u64 == shift);
}

/// Setting bit `pos` changes bit `p` only when `p == pos`.
proof fn lemma_set_bit(old_words: Seq<u64>, new_words: Seq<u64>, idx: int, shift: u64, p: nat, pos: nat)
    requires
        idx == pos / 64,
        shift as nat == pos % 64,
        0 <= idx < old_words.len(),
        p / 64 < old_words.len(),
        new_words == old_words.update(idx, old_words[idx] | (1u64 << shift)),
    ensures
        word_bit(new_words, p) == (word_bit(old_words, p) || p == pos),
{
    let pidx = (p / 64) as int;
    let pshift = (p % 64) as u64;
    assert(pshift as nat == p % 64);
    assert(p == 64 * pidx + pshift as nat);
    assert(pos == 64 * idx + shift as nat);
    let w = old_words[idx];
    if pidx == idx {
        assert(new_words[pidx] == w | (1u64 << shift));
        assert(((w | (1u64 << shift)) >> pshift) & 1u64 == 1u64 <==> (pshift == shift || (w >> pshift) & 1u64
            == 1u64)) by (bit_vector)
            requires
                shift < 64,
                pshift < 64,
        ;
    } else {
        assert(new_words[pidx] == old_words[pidx]);
    }
}

/// `Vec::capacity`: the number of elements the vector can hold without
/// reallocating. Its documentation guarantees that it is at least the length
/// and that the allocation never exceeds `isize::MAX` bytes; the exact value
/// depends on the allocator and is not stated.
#[verifier::external_body]
fn vec_capacity(v: &Vec<u64>) -> (cap: usize)
    ensures
        cap >= v@.len(),
        cap * 8 <= isize::MAX,
{
    v.capacity()
}

/// A term inserted into a filter is always admitted afterwards (no false negatives).
pub proof fn law_inserted_term_is_admitted(before: &BloomFilter, after: &BloomFilter, data: Seq<u8>)
    requires
        before.wf(),
        BloomFilter::inserted(before, after, data),
    ensures
        after.admits(data),
{
    assert forall|i: nat| i < after.num_hashes() implies after.is_set(#[trigger] probe_spec(data, i, after.num_bits())) by {
        let p = probe_spec(data, i, after.num_bits());
        assert(p < after.num_bits());
        assert(before.is_probe(data, p));
    }
}

/// Inserting a term never makes the filter forget a term it admitted before.
pub proof fn law_insert_keeps_admitted(before: &BloomFilter, after: &BloomFilter, data: Seq<u8>, other: Seq<u8>)
    requires
        before.wf(),
        BloomFilter::inserted(before, after, data),
        before.admits(other),
    ensures
        after.admits(other),
{
    assert forall|i: nat| i < after.num_hashes() implies after.is_set(#[trigger] probe_spec(other, i, after.num_bits())) by {
        let p = probe_spec(other, i, after.num_bits());
        assert(before.is_set(probe_spec(other, i, before.num_bits())));
        assert(p < after.num_bits());
    }
}

/// No false negatives: once a term is inserted, the filter admits it after
/// any further inserts. `fs` are the successive filters and `terms[i]` the
/// term inserted to go from `fs[i]` to `fs[i + 1]`.
pub proof fn law_no_false_negatives(fs: Seq<BloomFilter>, terms: Seq<Seq<u8>>, j: int)
    requires
        fs.len() == terms.len() + 1,
        forall|i: int| 0 <= i < fs.len() ==> (#[trigger] fs[i]).wf(),
        forall|i: int| 0 <= i < terms.len() ==> BloomFilter::inserted(&#[trigger] fs[i], &fs[i + 1], terms[i]),
        0 <= j < terms.len(),
    ensures
        fs.last().admits(terms[j]),
    decreases fs.len(),
{
    let n = terms.len() - 1;
    assert(BloomFilter::inserted(&fs[n], &fs[n + 1], terms[n]));
    if j == n {
        law_inserted_term_is_admitted(&fs[n], &fs[n + 1], terms[n]);
    } else {
        let fs2 = fs.drop_last();
        let ts2 = terms.drop_last();
        assert forall|i: int| 0 <= i < ts2.len() implies BloomFilter::inserted(&#[trigger] fs2[i], &fs2[i + 1], ts2[i]) by {
            assert(fs2[i] == fs[i] && fs2[i + 1] == fs[i + 1] && ts2[i] == terms[i]);
            assert(BloomFilter::inserted(&fs[i], &fs[i + 1], terms[i]));
        }
        assert forall|i: int| 0 <= i < fs2.len() implies (#[trigger] fs2[i]).wf() by {
            assert(fs2[i] == fs[i]);
        }
        law_no_false_negatives(fs2, ts2, j);
        assert(fs2.last() == fs[n]);
        law_insert_keeps_admitted(&fs[n], &fs[n + 1], terms[n], terms[j]);
    }
}

} // verus!
