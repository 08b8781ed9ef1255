//! The local search pipeline's own logic: how a query is read, how hits from
//! the prefix trie, the full-text index, the application table and the fuzzy
//! matcher are merged without repeats, and how the merged list is ranked.
//!
//! Scores travel as `score_key`s: integers ordered the way the scores are
//! (the bit pattern of a non-negative float score orders like the score).
use vstd::prelude::*;
use crate::paths::{file_name, path_file_name};
use crate::storage::{AppRow, FileRow};
use crate::search::trie::{Trie, TrieEntry, after_insert};
use crate::search::bloom::BloomFilter;
use crate::text::{trim, trimmed, to_lowercase, lowercase, chars_of, string_from_chars, str_eq};
use vstd::utf8::encode_utf8;
use vstd::string::StringSliceAdditionalSpecFns;

verus! {

/// Fewer hits than this after the cheap stages brings in the wildcard and
/// fuzzy stages.
pub const MIN_RESULTS_BEFORE_FUZZY: usize = 3;

/// Whether a result is a file or an installed application.
#[derive(Debug, Clone, Copy, PartialEq, Eq, Structural)]
pub enum ResultType {
    File,
    App,
}

/// Where a result came from.
#[derive(Debug, Clone)]
pub enum ResultSource {
    LocalFile,
    LocalApp,
    Remote { device_name: String },
}

/// Errors raised by the search engine.
#[derive(Debug)]
pub enum SearchError {
    Db(String),
    Index(String),
}

/// A single search hit.
#[derive(Debug, Clone)]
pub struct SearchHit {
    pub name: String,
    pub path: String,
    /// Command or path used to launch the result (applications only).
    pub command: Option<String>,
    pub result_type: ResultType,
    pub source: ResultSource,
    pub score_key: u64,
}

/// A fuzzy match handed to the collector.
pub struct FuzzyHit {
    pub path: String,
    pub name: String,
    pub score_key: u64,
}

/// Where a hit came from, as plain values.
pub enum SourceView {
    LocalFile,
    LocalApp,
    Remote(Seq<char>),
}

/// A hit as plain values.
pub struct HitView {
    pub name: Seq<char>,
    pub path: Seq<char>,
    pub command: Option<Seq<char>>,
    pub result_type: ResultType,
    pub source: SourceView,
    pub score_key: u64,
}

pub open spec fn opt_view(o: Option<String>) -> Option<Seq<char>> {
    match o {
        Some(s) => Some(s@),
        None => None,
    }
}

pub open spec fn source_view(s: ResultSource) -> SourceView {
    match s {
        ResultSource::LocalFile => SourceView::LocalFile,
        ResultSource::LocalApp => SourceView::LocalApp,
        ResultSource::Remote { device_name } => SourceView::Remote(device_name@),
    }
}

impl View for SearchHit {
    type V = HitView;

    open spec fn view(&self) -> HitView {
        HitView {
            name: self.name@,
            path: self.path@,
            command: opt_view(self.command),
            result_type: self.result_type,
            source: source_view(self.source),
            score_key: self.score_key,
        }
    }
}

// ---------------------------------------------------------------------------
// Reading the query

/// How a query is run.
pub enum QueryPlan {
    /// Nothing to search for.
    Empty,
    /// A leading or trailing '*': a substring search for the lowercased text
    /// between the stars.
    Wildcard(String),
    /// The full pipeline on the lowercased, trimmed query.
    Pipeline(String),
}

/// `s` without leading and trailing '*' characters (`trim_matches('*')`).
pub open spec fn strip_stars(s: Seq<char>) -> Seq<char>
    decreases s.len(),
{
    if s.len() > 0 && s[0] == '*' {
        strip_stars(s.skip(1))
    } else if s.len() > 0 && s.last() == '*' {
        strip_stars(s.drop_last())
    } else {
        s
    }
}

/// The plan for a query.
pub open spec fn query_plan(q: Seq<char>) -> QueryPlanView {
    let t = trimmed(q);
    if t.len() == 0 {
        QueryPlanView::Empty
    } else if t[0] == '*' || t.last() == '*' {
        let inner = strip_stars(t);
        if inner.len() == 0 { QueryPlanView::Empty } else { QueryPlanView::Wildcard(lowercase(inner)) }
    } else {
        QueryPlanView::Pipeline(lowercase(t))
    }
}

/// Removing the stars at both ends of `t` leaves a stretch `t[i..j]` that
/// neither starts nor ends with a star, with only stars before and after it.
pub proof fn law_strip_stars_shape(t: Seq<char>) -> (r: (int, int))
    ensures
        0 <= r.0 <= r.1 <= t.len(),
        strip_stars(t) == t.subrange(r.0, r.1),
        forall|k: int| 0 <= k < r.0 ==> t[k] == '*',
        forall|k: int| r.1 <= k < t.len() ==> t[k] == '*',
        r.0 < r.1 ==> t[r.0] != '*' && t[r.1 - 1] != '*',
    decreases t.len(),
{
    if t.len() > 0 && t[0] == '*' {
        let q = law_strip_stars_shape(t.skip(1));
        assert(t.skip(1).subrange(q.0, q.1) =~= t.subrange(q.0 + 1, q.1 + 1));
        assert forall|k: int| 0 <= k < q.0 + 1 implies t[k] == '*' by {
            if k > 0 {
                assert(t[k] == t.skip(1)[k - 1]);
            }
        }
        assert forall|k: int| q.1 + 1 <= k < t.len() implies t[k] == '*' by {
            assert(t[k] == t.skip(1)[k - 1]);
        }
        if q.0 < q.1 {
            assert(t[q.0 + 1] == t.skip(1)[q.0]);
            assert(t[q.1] == t.skip(1)[q.1 - 1]);
        }
        (q.0 + 1, q.1 + 1)
    } else if t.len() > 0 && t.last() == '*' {
        let q = law_strip_stars_shape(t.drop_last());
        assert(t.drop_last().subrange(q.0, q.1) =~= t.subrange(q.0, q.1));
        assert forall|k: int| 0 <= k < q.0 implies t[k] == '*' by {
            assert(t[k] == t.drop_last()[k]);
        }
        assert forall|k: int| q.1 <= k < t.len() implies t[k] == '*' by {
            if k < t.len() - 1 {
                assert(t[k] == t.drop_last()[k]);
            }
        }
        if q.0 < q.1 {
            assert(t[q.0] == t.drop_last()[q.0]);
            assert(t[q.1 - 1] == t.drop_last()[q.1 - 1]);
        }
        q
    } else {
        assert(t.subrange(0, t.len() as int) =~= t);
        (0, t.len() as int)
    }
}

/// A query whose trimmed text starts or ends with a star (leading, trailing
/// or both) and holds something besides stars is a substring search for the
/// lowercased text between the stars.
pub proof fn law_star_query_is_wildcard(q: Seq<char>)
    requires
        trimmed(q).len() > 0,
        trimmed(q)[0] == '*' || trimmed(q).last() == '*',
        strip_stars(trimmed(q)).len() > 0,
    ensures
        query_plan(q) == QueryPlanView::Wildcard(lowercase(strip_stars(trimmed(q)))),
{
}

/// A query whose trimmed text neither starts nor ends with a star runs the
/// full pipeline on its lowercased trimmed text.
pub proof fn law_plain_query_runs_pipeline(q: Seq<char>)
    requires
        trimmed(q).len() > 0,
        trimmed(q)[0] != '*',
        trimmed(q).last() != '*',
    ensures
        query_plan(q) == QueryPlanView::Pipeline(lowercase(trimmed(q))),
{
}

/// A query plan as plain values.
pub enum QueryPlanView {
    Empty,
    Wildcard(Seq<char>),
    Pipeline(Seq<char>),
}

pub open spec fn plan_view(p: QueryPlan) -> QueryPlanView {
    match p {
        QueryPlan::Empty => QueryPlanView::Empty,
        QueryPlan::Wildcard(s) => QueryPlanView::Wildcard(s@),
        QueryPlan::Pipeline(s) => QueryPlanView::Pipeline(s@),
    }
}

fn strip_star_chars(s: &Vec<char>) -> (r: Vec<char>)
    ensures
        r@ == strip_stars(s@),
{
    let mut a: usize = 0;
    let mut b: usize = s.len();
    proof {
        assert(s@.subrange(0, s@.len() as int) =~= s@);
    }
    while a < b && (s[a] == '*' || s[b - 1] == '*')
        invariant
            a <= b <= s@.len(),
            strip_stars(s@) == strip_stars(s@.subrange(a as int, b as int)),
        decreases b - a,
    {
        let ghost t = s@.subrange(a as int, b as int);
        if s[a] == '*' {
            proof {
                assert(t[0] == '*');
                assert(t.skip(1) =~= s@.subrange(a + 1, b as int));
            }
            a = a + 1;
        } else {
            proof {
                assert(t[0] != '*' && t.last() == '*');
                assert(t.drop_last() =~= s@.subrange(a as int, b - 1));
            }
            b = b - 1;
        }
    }
    let mut r: Vec<char> = Vec::new();
    let mut i: usize = a;
    while i < b
        invariant
            a <= i <= b,
            b <= s@.len(),
            r@ == s@.subrange(a as int, i as int),
        decreases b - i,
    {
        r.push(s[i]);
        proof {
            assert(r@ =~= s@.subrange(a as int, i + 1));
        }
        i = i + 1;
    }
    proof {
        let t = s@.subrange(a as int, b as int);
        assert(r@ == t);
        if t.len() > 0 {
            assert(t[0] != '*' && t.last() != '*');
        }
    }
    r
}

/// Read a query: empty after trimming means nothing to do; a leading or
/// trailing '*' asks for a substring search of what lies between the stars
/// (nothing to do if that is empty); anything else runs the full pipeline.
/// Both searches use the lowercased text. A query made only of blanks and
/// stars plans nothing, and no other query does.
pub fn plan_query(query: &str) -> (p: QueryPlan)
    ensures
        plan_view(p) == query_plan(query@),
        (p is Empty) <==> strip_stars(trimmed(query@)).len() == 0,
        ({
            let t = trimmed(query@);
            t.len() > 0 && (t[0] == '*' || t.last() == '*') && strip_stars(t).len() > 0
                ==> (p matches QueryPlan::Wildcard(s) && s@ == lowercase(strip_stars(t)))
        }),
        ({
            let t = trimmed(query@);
            t.len() > 0 && t[0] != '*' && t.last() != '*' ==> (p matches QueryPlan::Pipeline(s) && s@ == lowercase(t))
        }),
{
    proof {
        let t = trimmed(query@);
        if t.len() > 0 && (t[0] == '*' || t.last() == '*') && strip_stars(t).len() > 0 {
            law_star_query_is_wildcard(query@);
        }
        if t.len() > 0 && t[0] != '*' && t.last() != '*' {
            law_plain_query_runs_pipeline(query@);
        }
    }
    let t = trim(query);
    let chars = chars_of(t.as_str());
    if chars.len() == 0 {
        return QueryPlan::Empty;
    }
    if chars[0] == '*' || chars[chars.len() - 1] == '*' {
        let inner = strip_star_chars(&chars);
        let inner_s = string_from_chars(inner.as_slice());
        let lower = to_lowercase(inner_s.as_str());
        if lower.as_str().is_empty() {
            QueryPlan::Empty
        } else {
            QueryPlan::Wildcard(lower)
        }
    } else {
        proof {
            assert(chars@ == trimmed(query@));
            assert(strip_stars(chars@) == chars@);
        }
        QueryPlan::Pipeline(to_lowercase(t.as_str()))
    }
}

// ---------------------------------------------------------------------------
// Building the in-memory indexes

/// The name a file result shows: the final component of its path, or the
/// whole path when it has none.
pub open spec fn display_name(path: Seq<char>) -> Seq<char> {
    match file_name(path) {
        Some(n) => n,
        None => path,
    }
}

/// The name a file result shows.
pub fn file_name_of(path: &str) -> (r: String)
    ensures
        r@ == display_name(path@),
{
    match path_file_name(path) {
        Some(n) => n,
        None => String::from_str(path),
    }
}

/// The trie of a list of files: each file's lowercased name inserted in
/// order, with the file's path as the value.
pub open spec fn trie_of(files: Seq<FileRow>) -> Map<Seq<char>, TrieEntry>
    decreases files.len(),
{
    if files.len() == 0 {
        Map::empty()
    } else {
        after_insert(trie_of(files.drop_last()), lowercase(files.last().name@), files.last().path@)
    }
}

/// The bytes of a file's lowercased name, as the Bloom filter hashes them.
pub open spec fn name_term(f: FileRow) -> Seq<u8> {
    encode_utf8(lowercase(f.name@))
}

/// `after` is `before` with the names of `files` inserted: the same sizing,
/// and a bit set exactly when it was set before or is a probe of one of the
/// names.
pub open spec fn filled_with(before: BloomFilter, after: BloomFilter, files: Seq<FileRow>) -> bool {
    &&& after.num_bits() == before.num_bits()
    &&& after.num_hashes() == before.num_hashes()
    &&& after.expected_capacity() == before.expected_capacity()
    &&& forall|p: nat| p < after.num_bits() ==> (#[trigger] after.is_set(p) <==> (before.is_set(p)
        || exists|j: int| 0 <= j < files.len() && before.is_probe(#[trigger] name_term(files[j]), p)))
}

/// Fill a prefix trie and a Bloom filter with the lowercased names of the
/// indexed files, in order: each name is inserted once per file, mapped to
/// the file's path on its first insertion.
pub fn build_indexes(files: &[FileRow], bloom: BloomFilter) -> (r: (Trie, BloomFilter))
    requires
        files@.len() < u32::MAX,
    ensures
        r.0@ == trie_of(files@),
        filled_with(bloom, r.1, files@),
        forall|i: int| 0 <= i < files@.len() ==> #[trigger] r.0@.contains_key(lowercase(files@[i].name@)),
        forall|i: int| 0 <= i < files@.len() ==> #[trigger] r.1.admits(encode_utf8(lowercase(files@[i].name@))),
{
    let ghost bloom0 = bloom;
    let mut trie = Trie::new();
    let mut bloom = bloom;
    let mut i: usize = 0;
    proof {
        assert(files@.take(0) =~= Seq::<FileRow>::empty());
        assert(trie@ =~= trie_of(files@.take(0)));
    }
    while i < files.len()
        invariant
            i <= files@.len(),
            files@.len() < u32::MAX,
            trie@ == trie_of(files@.take(i as int)),
            filled_with(bloom0, bloom, files@.take(i as int)),
            trie@.len() <= i,
            forall|k: Seq<char>| #[trigger] trie@.contains_key(k) ==> trie@[k].0 <= i,
            forall|j: int| 0 <= j < i ==> #[trigger] trie@.contains_key(lowercase(files@[j].name@)),
            forall|j: int| 0 <= j < i ==> #[trigger] bloom.admits(encode_utf8(lowercase(files@[j].name@))),
        decreases files@.len() - i,
    {
        let name_lc = to_lowercase(files[i].name.as_str());
        let ghost before = trie@;
        let ghost prefix = files@.take(i as int);
        let ghost grown = files@.take(i + 1);
        proof {
            assert(grown.drop_last() =~= prefix);
            assert(grown.last() == files@[i as int]);
            use_type_invariant(&trie);
            trie.lemma_finite();
            if trie@.contains_key(name_lc@) {
                assert(trie@[name_lc@].0 <= i);
            }
        }
        trie.insert(name_lc.as_str(), files[i].path.clone());
        proof {
            assert(trie@ == trie_of(grown));
            assert(trie@.dom() =~= before.dom().insert(name_lc@));
            assert forall|k: Seq<char>| #[trigger] trie@.contains_key(k) implies trie@[k].0 <= i + 1 by {
                if k != name_lc@ {
                    assert(before.contains_key(k));
                }
            }
            assert forall|j: int| 0 <= j < i + 1 implies #[trigger] trie@.contains_key(lowercase(files@[j].name@)) by {
                if j < i {
                    assert(before.contains_key(lowercase(files@[j].name@)));
                }
            }
        }
        proof {
            use_type_invariant(&bloom);
        }
        let ghost bloom_before = bloom;
        bloom.insert(name_lc.as_str());
        proof {
            assert forall|j: int| 0 <= j < i + 1 implies #[trigger] bloom.admits(encode_utf8(lowercase(files@[j].name@))) by {
                if j < i {
                    crate::search::bloom::law_insert_keeps_admitted(&bloom_before, &bloom, encode_utf8(name_lc@), encode_utf8(lowercase(files@[j].name@)));
                } else {
                    crate::search::bloom::law_inserted_term_is_admitted(&bloom_before, &bloom, encode_utf8(name_lc@));
                }
            }
            let data = name_term(files@[i as int]);
            assert(data == encode_utf8(name_lc@));
            assert forall|p: nat| p < bloom.num_bits() implies (#[trigger] bloom.is_set(p) <==> (bloom0.is_set(p)
                || exists|j: int| 0 <= j < grown.len() && bloom0.is_probe(#[trigger] name_term(grown[j]), p))) by {
                if bloom0.is_probe(data, p) {
                    assert(grown[i as int] == files@[i as int]);
                }
                if exists|j: int| 0 <= j < grown.len() && bloom0.is_probe(#[trigger] name_term(grown[j]), p) {
                    let j = choose|j: int| 0 <= j < grown.len() && bloom0.is_probe(#[trigger] name_term(grown[j]), p);
                    if j < i {
                        assert(prefix[j] == grown[j]);
                    } else {
                        assert(grown[j] == files@[i as int]);
                    }
                }
                if exists|j: int| 0 <= j < prefix.len() && bloom0.is_probe(#[trigger] name_term(prefix[j]), p) {
                    let j = choose|j: int| 0 <= j < prefix.len() && bloom0.is_probe(#[trigger] name_term(prefix[j]), p);
                    assert(grown[j] == prefix[j]);
                }
            }
        }
        i = i + 1;
    }
    proof {
        assert(files@.take(files@.len() as int) =~= files@);
    }
    (trie, bloom)
}

// ---------------------------------------------------------------------------
// Merging the stages

/// A file hit for a path at a score.
pub open spec fn file_hit(path: Seq<char>, score_key: u64) -> HitView {
    HitView {
        name: display_name(path),
        path: path,
        command: None,
        result_type: ResultType::File,
        source: SourceView::LocalFile,
        score_key: score_key,
    }
}

/// The key under which an application hit is remembered: "app:" and its source path.
pub open spec fn app_key(source_path: Seq<char>) -> Seq<char> {
    "app:"@ + source_path
}

/// An application hit for an application row at a score.
pub open spec fn app_hit(app: AppRow, score_key: u64) -> HitView {
    HitView {
        name: app.name@,
        path: app.source_path@,
        command: Some(app.command@),
        result_type: ResultType::App,
        source: SourceView::LocalApp,
        score_key: score_key,
    }
}

/// A fuzzy hit as a result.
pub open spec fn fuzzy_hit(m: FuzzyHit) -> HitView {
    HitView {
        name: m.name@,
        path: m.path@,
        command: None,
        result_type: ResultType::File,
        source: SourceView::LocalFile,
        score_key: m.score_key,
    }
}

/// Add candidates one by one, skipping any whose key was already seen.
pub open spec fn merged(
    hits: Seq<HitView>,
    seen: Seq<Seq<char>>,
    keys: Seq<Seq<char>>,
    new_hits: Seq<HitView>,
) -> (Seq<HitView>, Seq<Seq<char>>)
    decreases keys.len(),
{
    if keys.len() == 0 || new_hits.len() != keys.len() {
        (hits, seen)
    } else {
        let (h, s) = merged(hits, seen, keys.drop_last(), new_hits.drop_last());
        if s.contains(keys.last()) {
            (h, s)
        } else {
            (h.push(new_hits.last()), s.push(keys.last()))
        }
    }
}

/// Collects hits from the pipeline stages in order, without repeats.
pub struct SearchCollector {
    hits: Vec<SearchHit>,
    seen: Vec<String>,
}

impl SearchCollector {
    /// The hits collected so far, in order.
    pub closed spec fn hits(&self) -> Seq<HitView> {
        Seq::new(self.hits@.len(), |i: int| self.hits@[i]@)
    }

    /// The keys seen so far.
    pub closed spec fn seen(&self) -> Seq<Seq<char>> {
        Seq::new(self.seen@.len(), |i: int| self.seen@[i]@)
    }

    /// An empty collector.
    pub fn new() -> (c: Self)
        ensures
            c.hits() == Seq::<HitView>::empty(),
            c.seen() == Seq::<Seq<char>>::empty(),
    {
        let c = SearchCollector { hits: Vec::new(), seen: Vec::new() };
        assert(c.hits() =~= Seq::<HitView>::empty());
        assert(c.seen() =~= Seq::<Seq<char>>::empty());
        c
    }

    /// Number of hits collected so far.
    pub fn len(&self) -> (n: usize)
        ensures
            n == self.hits().len(),
    {
        self.hits.len()
    }

    /// Whether the full-text stage runs: fewer hits than asked for.
    pub fn wants_text_stage(&self, max_results: usize) -> (b: bool)
        ensures
            b == (self.hits().len() < max_results),
    {
        self.hits.len() < max_results
    }

    /// Whether the wildcard and fuzzy stages run: fewer than three hits.
    pub fn wants_fallback(&self) -> (b: bool)
        ensures
            b == (self.hits().len() < MIN_RESULTS_BEFORE_FUZZY),
    {
        self.hits.len() < MIN_RESULTS_BEFORE_FUZZY
    }

    fn was_seen(&self, key: &str) -> (b: bool)
        ensures
            b == self.seen().contains(key@),
    {
        let mut i: usize = 0;
        while i < self.seen.len()
            invariant
                i <= self.seen@.len(),
                forall|j: int| 0 <= j < i ==> self.seen@[j]@ != key@,
            decreases self.seen@.len() - i,
        {
            if str_eq(self.seen[i].as_str(), key) {
                assert(self.seen()[i as int] == key@);
                return true;
            }
            i = i + 1;
        }
        proof {
            if self.seen().contains(key@) {
                let j = choose|j: int| 0 <= j < self.seen().len() && self.seen()[j] == key@;
                assert(self.seen@[j]@ == key@);
            }
        }
        false
    }

    /// Add one candidate under `key` unless the key was seen.
    fn offer(&mut self, key: String, hit: SearchHit)
        ensures
            old(self).seen().contains(key@) ==> final(self).hits() == old(self).hits() && final(self).seen() == old(self).seen(),
            !old(self).seen().contains(key@) ==> final(self).hits() == old(self).hits().push(hit@)
                && final(self).seen() == old(self).seen().push(key@),
    {
        if self.was_seen(key.as_str()) {
            return;
        }
        let ghost h0 = self.hits();
        let ghost s0 = self.seen();
        self.hits.push(hit);
        self.seen.push(key);
        assert(self.hits() =~= h0.push(hit@));
        assert(self.seen() =~= s0.push(key@));
    }

    /// Add the files at `paths`, in order, at one score; paths already seen are skipped.
    pub fn add_files(&mut self, paths: &[String], score_key: u64)
        ensures
            (final(self).hits(), final(self).seen()) == merged(
                old(self).hits(),
                old(self).seen(),
                Seq::new(paths@.len(), |i: int| paths@[i]@),
                Seq::new(paths@.len(), |i: int| file_hit(paths@[i]@, score_key)),
            ),
    {
        let ghost h0 = self.hits();
        let ghost s0 = self.seen();
        let ghost keys = Seq::new(paths@.len(), |i: int| paths@[i]@);
        let ghost news = Seq::new(paths@.len(), |i: int| file_hit(paths@[i]@, score_key));
        let mut i: usize = 0;
        proof {
            assert(keys.take(0) =~= Seq::<Seq<char>>::empty());
            assert(news.take(0) =~= Seq::<HitView>::empty());
        }
        while i < paths.len()
            invariant
                i <= paths@.len(),
                keys == Seq::new(paths@.len(), |i: int| paths@[i]@),
                news == Seq::new(paths@.len(), |i: int| file_hit(paths@[i]@, score_key)),
                (self.hits(), self.seen()) == merged(h0, s0, keys.take(i as int), news.take(i as int)),
            decreases paths@.len() - i,
        {
            let path = &paths[i];
            let hit = SearchHit {
                name: file_name_of(path.as_str()),
                path: path.clone(),
                command: None,
                result_type: ResultType::File,
                source: ResultSource::LocalFile,
                score_key,
            };
            proof {
                assert(hit@ == file_hit(paths@[i as int]@, score_key));
                assert(keys.take(i + 1).drop_last() =~= keys.take(i as int));
                assert(news.take(i + 1).drop_last() =~= news.take(i as int));
            }
            self.offer(path.clone(), hit);
            i = i + 1;
        }
        proof {
            assert(keys.take(paths@.len() as int) =~= keys);
            assert(news.take(paths@.len() as int) =~= news);
        }
    }

    /// Add the matching applications, in order, at one score; an application
    /// already seen (by source path) is skipped.
    pub fn add_apps(&mut self, apps: &[AppRow], score_key: u64)
        ensures
            (final(self).hits(), final(self).seen()) == merged(
                old(self).hits(),
                old(self).seen(),
                Seq::new(apps@.len(), |i: int| app_key(apps@[i].source_path@)),
                Seq::new(apps@.len(), |i: int| app_hit(apps@[i], score_key)),
            ),
    {
        let ghost h0 = self.hits();
        let ghost s0 = self.seen();
        let ghost keys = Seq::new(apps@.len(), |i: int| app_key(apps@[i].source_path@));
        let ghost news = Seq::new(apps@.len(), |i: int| app_hit(apps@[i], score_key));
        let mut i: usize = 0;
        proof {
            assert(keys.take(0) =~= Seq::<Seq<char>>::empty());
            assert(news.take(0) =~= Seq::<HitView>::empty());
            reveal_strlit("app:");
        }
        while i < apps.len()
            invariant
                i <= apps@.len(),
                keys == Seq::new(apps@.len(), |i: int| app_key(apps@[i].source_path@)),
                news == Seq::new(apps@.len(), |i: int| app_hit(apps@[i], score_key)),
                (self.hits(), self.seen()) == merged(h0, s0, keys.take(i as int), news.take(i as int)),
            decreases apps@.len() - i,
        {
            let app = &apps[i];
            let mut key = String::from_str("app:");
            key.append(app.source_path.as_str());
            let hit = SearchHit {
                name: app.name.clone(),
                path: app.source_path.clone(),
                command: Some(app.command.clone()),
                result_type: ResultType::App,
                source: ResultSource::LocalApp,
                score_key,
            };
            proof {
                reveal_strlit("app:");
                assert(key@ == app_key(apps@[i as int].source_path@));
                assert(hit@ == app_hit(apps@[i as int], score_key));
                assert(keys.take(i + 1).drop_last() =~= keys.take(i as int));
                assert(news.take(i + 1).drop_last() =~= news.take(i as int));
            }
            self.offer(key, hit);
            i = i + 1;
        }
        proof {
            assert(keys.take(apps@.len() as int) =~= keys);
            assert(news.take(apps@.len() as int) =~= news);
        }
    }

    /// Add fuzzy matches, in order; a path already seen is skipped.
    pub fn add_fuzzy(&mut self, matches: &[FuzzyHit])
        ensures
            (final(self).hits(), final(self).seen()) == merged(
                old(self).hits(),
                old(self).seen(),
                Seq::new(matches@.len(), |i: int| matches@[i].path@),
                Seq::new(matches@.len(), |i: int| fuzzy_hit(matches@[i])),
            ),
    {
        let ghost h0 = self.hits();
        let ghost s0 = self.seen();
        let ghost keys = Seq::new(matches@.len(), |i: int| matches@[i].path@);
        let ghost news = Seq::new(matches@.len(), |i: int| fuzzy_hit(matches@[i]));
        let mut i: usize = 0;
        proof {
            assert(keys.take(0) =~= Seq::<Seq<char>>::empty());
            assert(news.take(0) =~= Seq::<HitView>::empty());
        }
        while i < matches.len()
            invariant
                i <= matches@.len(),
                keys == Seq::new(matches@.len(), |i: int| matches@[i].path@),
                news == Seq::new(matches@.len(), |i: int| fuzzy_hit(matches@[i])),
                (self.hits(), self.seen()) == merged(h0, s0, keys.take(i as int), news.take(i as int)),
            decreases matches@.len() - i,
        {
            let m = &matches[i];
            let hit = SearchHit {
                name: m.name.clone(),
                path: m.path.clone(),
                command: None,
                result_type: ResultType::File,
                source: ResultSource::LocalFile,
                score_key: m.score_key,
            };
            proof {
                assert(hit@ == fuzzy_hit(matches@[i as int]));
                assert(keys.take(i + 1).drop_last() =~= keys.take(i as int));
                assert(news.take(i + 1).drop_last() =~= news.take(i as int));
            }
            self.offer(m.path.clone(), hit);
            i = i + 1;
        }
        proof {
            assert(keys.take(matches@.len() as int) =~= keys);
            assert(news.take(matches@.len() as int) =~= news);
        }
    }

    /// Rank the collected hits and keep the first `max_results`.
    pub fn finish(self, max_results: usize) -> (r: Vec<SearchHit>)
        ensures
            exists|sorted: Seq<HitView>| #[trigger] is_ranking_of(sorted, self.hits())
                && r@.len() == (if max_results < sorted.len() { max_results as int } else { sorted.len() as int })
                && forall|i: int| 0 <= i < r@.len() ==> (#[trigger] r@[i])@ == sorted[i],
    {
        let mut v = self.hits;
        let ghost orig = Seq::new(v@.len(), |i: int| v@[i]@);
        assert(orig =~= self.hits());
        rank_hits(&mut v, Ghost(orig));
        let ghost sorted = Seq::new(v@.len(), |i: int| v@[i]@);
        v.truncate(max_results);
        proof {
            assert(is_ranking_of(sorted, self.hits()));
        }
        v
    }
}

// ---------------------------------------------------------------------------
// Ranking

/// Where a hit ranks: applications before files, then higher scores first.
pub open spec fn rank(h: HitView) -> int {
    (if h.result_type == ResultType::App { 0int } else { 0x1_0000_0000_0000_0000int }) + (u64::MAX - h.score_key)
}

/// `out` is `orig` stably sorted by rank: `perm` says where each hit came
/// from, ranks never decrease, and hits of equal rank keep their order.
pub open spec fn is_stable_sort(perm: Seq<int>, orig: Seq<HitView>, out: Seq<HitView>) -> bool {
    &&& perm.len() == orig.len()
    &&& out.len() == orig.len()
    &&& forall|k: int| 0 <= k < perm.len() ==> 0 <= #[trigger] perm[k] < orig.len()
    &&& forall|a: int, b: int| 0 <= a < b < perm.len() ==> perm[a] != perm[b]
    &&& forall|k: int| 0 <= k < out.len() ==> #[trigger] out[k] == orig[perm[k]]
    &&& forall|a: int, b: int| 0 <= a < b < out.len() ==> rank(out[a]) <= rank(out[b])
    &&& forall|a: int, b: int| 0 <= a < b < out.len() && rank(out[a]) == rank(out[b]) ==> perm[a] < perm[b]
}

/// `out` is a ranking of `orig`.
pub open spec fn is_ranking_of(out: Seq<HitView>, orig: Seq<HitView>) -> bool {
    exists|perm: Seq<int>| is_stable_sort(perm, orig, out)
}

fn rank_before(a: &SearchHit, b: &SearchHit) -> (r: bool)
    ensures
        r == (rank(a@) < rank(b@)),
{
    match (a.result_type, b.result_type) {
        (ResultType::App, ResultType::File) => true,
        (ResultType::File, ResultType::App) => false,
        _ => a.score_key > b.score_key,
    }
}

/// `s` with its element at `i` moved to position `j` (`j <= i`).
pub open spec fn moved<A>(s: Seq<A>, i: int, j: int) -> Seq<A> {
    s.take(j) + seq![s[i]] + s.subrange(j, i) + s.skip(i + 1)
}

proof fn lemma_moved_index<A>(s: Seq<A>, i: int, j: int, k: int)
    requires
        0 <= j <= i < s.len(),
        0 <= k < s.len(),
    ensures
        moved(s, i, j).len() == s.len(),
        moved(s, i, j)[k] == (if k < j { s[k] } else if k == j { s[i] } else if k <= i { s[k - 1] } else { s[k] }),
{
}

/// One step of the insertion sort keeps it a stable sort of the first `i + 1` hits.
proof fn lemma_insert_step(orig: Seq<HitView>, w: Seq<HitView>, p0: Seq<int>, i: int, j: int)
    requires
        w.len() == orig.len(),
        p0.len() == orig.len(),
        0 <= j <= i < orig.len(),
        forall|k: int| 0 <= k < p0.len() ==> 0 <= #[trigger] p0[k] < p0.len(),
        forall|a: int, b: int| 0 <= a < b < p0.len() ==> p0[a] != p0[b],
        forall|k: int| 0 <= k < w.len() ==> #[trigger] w[k] == orig[p0[k]],
        forall|k: int| i <= k < p0.len() ==> #[trigger] p0[k] == k,
        forall|k: int| 0 <= k < i ==> #[trigger] p0[k] < i,
        forall|a: int, b: int| 0 <= a < b < i ==> rank(w[a]) <= rank(w[b]),
        forall|a: int, b: int| 0 <= a < b < i && rank(w[a]) == rank(w[b]) ==> p0[a] < p0[b],
        j > 0 ==> rank(w[j - 1]) <= rank(w[i]),
        forall|k: int| j <= k < i ==> rank(w[i]) < rank(#[trigger] w[k]),
    ensures
        ({
            let u = moved(w, i, j);
            let np = moved(p0, i, j);
            &&& u.len() == orig.len()
            &&& np.len() == orig.len()
            &&& forall|k: int| 0 <= k < np.len() ==> 0 <= #[trigger] np[k] < np.len()
            &&& forall|a: int, b: int| 0 <= a < b < np.len() ==> np[a] != np[b]
            &&& forall|k: int| 0 <= k < u.len() ==> #[trigger] u[k] == orig[np[k]]
            &&& forall|k: int| i + 1 <= k < np.len() ==> #[trigger] np[k] == k
            &&& forall|k: int| 0 <= k < i + 1 ==> #[trigger] np[k] < i + 1
            &&& forall|a: int, b: int| 0 <= a < b < i + 1 ==> rank(u[a]) <= rank(u[b])
            &&& forall|a: int, b: int| 0 <= a < b < i + 1 && rank(u[a]) == rank(u[b]) ==> np[a] < np[b]
        }),
{
    let u = moved(w, i, j);
    let np = moved(p0, i, j);
    let n = orig.len();
    assert forall|k: int| 0 <= k < n implies u[k] == (if k < j { w[k] } else if k == j { w[i] } else if k <= i { w[k - 1] } else { w[k] })
        && np[k] == (if k < j { p0[k] } else if k == j { p0[i] } else if k <= i { p0[k - 1] } else { p0[k] }) by {
        lemma_moved_index(w, i, j, k);
        lemma_moved_index(p0, i, j, k);
    }
    assert forall|k: int| 0 <= k < np.len() implies 0 <= #[trigger] np[k] < np.len() by {
        lemma_moved_index(p0, i, j, k);
    }
    assert forall|k: int| 0 <= k < u.len() implies #[trigger] u[k] == orig[np[k]] by {
        lemma_moved_index(w, i, j, k);
        lemma_moved_index(p0, i, j, k);
    }
    assert forall|k: int| i + 1 <= k < np.len() implies #[trigger] np[k] == k by {
        lemma_moved_index(p0, i, j, k);
    }
    assert forall|k: int| 0 <= k < i + 1 implies #[trigger] np[k] < i + 1 by {
        lemma_moved_index(p0, i, j, k);
    }
    assert forall|a: int, b: int| 0 <= a < b < np.len() implies np[a] != np[b] by {
        lemma_moved_index(p0, i, j, a);
        lemma_moved_index(p0, i, j, b);
    }
    assert forall|a: int, b: int| 0 <= a < b < i + 1 implies rank(u[a]) <= rank(u[b]) by {
        lemma_moved_index(w, i, j, a);
        lemma_moved_index(w, i, j, b);
        if a < j && b == j {
            assert(rank(w[a]) <= rank(w[j - 1]));
        } else if a == j && b > j {
            assert(rank(w[i]) < rank(w[b - 1]));
        } else if a < j && b > j {
            assert(rank(w[a]) <= rank(w[b - 1]));
        }
    }
    assert forall|a: int, b: int| 0 <= a < b < i + 1 && rank(u[a]) == rank(u[b]) implies np[a] < np[b] by {
        lemma_moved_index(w, i, j, a);
        lemma_moved_index(w, i, j, b);
        lemma_moved_index(p0, i, j, a);
        lemma_moved_index(p0, i, j, b);
        if a == j && b > j {
            assert(rank(w[i]) < rank(w[b - 1]));
        } else if a < j && b == j {
            assert(p0[a] < i);
        } else if a < j && b > j {
            assert(rank(w[a]) <= rank(w[j - 1]));
            assert(rank(w[j - 1]) <= rank(w[i]));
            assert(rank(w[i]) < rank(w[b - 1]));
        }
    }
}

/// Stable insertion sort of the hits by rank.
fn rank_hits(v: &mut Vec<SearchHit>, orig: Ghost<Seq<HitView>>)
    requires
        orig@ == Seq::new(old(v)@.len(), |i: int| old(v)@[i]@),
    ensures
        is_ranking_of(Seq::new(final(v)@.len(), |i: int| final(v)@[i]@), orig@),
{
    let n = v.len();
    let ghost mut perm: Seq<int> = Seq::new(n as nat, |k: int| k);
    let mut i: usize = 0;
    while i < n
        invariant
            n == v@.len(),
            n == orig@.len(),
            i <= n,
            perm.len() == n,
            forall|k: int| 0 <= k < n ==> 0 <= #[trigger] perm[k] < n,
            forall|a: int, b: int| 0 <= a < b < n ==> perm[a] != perm[b],
            forall|k: int| 0 <= k < n ==> #[trigger] v@[k]@ == orig@[perm[k]],
            forall|k: int| i <= k < n ==> #[trigger] perm[k] == k,
            forall|k: int| 0 <= k < i ==> #[trigger] perm[k] < i,
            forall|a: int, b: int| 0 <= a < b < i ==> rank(v@[a]@) <= rank(v@[b]@),
            forall|a: int, b: int| 0 <= a < b < i && rank(v@[a]@) == rank(v@[b]@) ==> perm[a] < perm[b],
        decreases n - i,
    {
        let ghost w = Seq::new(n as nat, |k: int| v@[k]@);
        let ghost vv = v@;
        let x = v.remove(i);
        let ghost vr = v@;
        let mut j: usize = i;
        while j > 0 && rank_before(&x, &v[j - 1])
            invariant
                j <= i,
                i < n,
                v@ == vr,
                vr.len() == n - 1,
                vr == vv.remove(i as int),
                vv.len() == n,
                x == vv[i as int],
                forall|k: int| 0 <= k < n ==> #[trigger] w[k] == vv[k]@,
                w.len() == n,
                forall|k: int| j <= k < i ==> rank(w[i as int]) < rank(#[trigger] w[k]),
            decreases j,
        {
            proof {
                assert(vr[j - 1] == vv[j - 1]);
            }
            j = j - 1;
        }
        proof {
            if j > 0 {
                assert(vr[j - 1] == vv[j - 1]);
            }
        }
        v.insert(j, x);
        proof {
            assert forall|a: int, b: int| 0 <= a < b < i implies rank(w[a]) <= rank(w[b]) by {
                assert(w[a] == vv[a]@ && w[b] == vv[b]@);
            }
            assert forall|k: int| 0 <= k < n implies #[trigger] w[k] == orig@[perm[k]] by {
                assert(w[k] == vv[k]@);
            }
            lemma_insert_step(orig@, w, perm, i as int, j as int);
            let u = moved(w, i as int, j as int);
            assert forall|k: int| 0 <= k < n implies #[trigger] v@[k]@ == u[k] by {
                lemma_moved_index(w, i as int, j as int, k);
            }
            perm = moved(perm, i as int, j as int);
        }
        i = i + 1;
    }
    proof {
        let out = Seq::new(v@.len(), |k: int| v@[k]@);
        assert(is_stable_sort(perm, orig@, out));
    }
}

/// In every ranking, applications come before files, and within each kind
/// a higher score is never listed after a lower one.
pub proof fn law_apps_rank_above_files(out: Seq<HitView>, orig: Seq<HitView>)
    requires
        is_ranking_of(out, orig),
    ensures
        forall|a: int, b: int| 0 <= a < b < out.len() && out[b].result_type == ResultType::App
            ==> out[a].result_type == ResultType::App,
        forall|a: int, b: int| 0 <= a < b < out.len() && out[a].result_type == out[b].result_type
            ==> out[a].score_key >= out[b].score_key,
{
    let perm = choose|perm: Seq<int>| is_stable_sort(perm, orig, out);
    assert forall|a: int, b: int| 0 <= a < b < out.len() && out[b].result_type == ResultType::App
        implies out[a].result_type == ResultType::App by {
        assert(rank(out[a]) <= rank(out[b]));
    }
    assert forall|a: int, b: int| 0 <= a < b < out.len() && out[a].result_type == out[b].result_type
        implies out[a].score_key >= out[b].score_key by {
        assert(rank(out[a]) <= rank(out[b]));
    }
}

/// `x` appears in `s`.
pub open spec fn occurs_in(s: Seq<HitView>, x: HitView) -> bool {
    exists|k: int| 0 <= k < s.len() && s[k] == x
}

/// A ranking keeps every hit: each position holds a distinct original hit.
pub proof fn law_ranking_is_permutation(out: Seq<HitView>, orig: Seq<HitView>)
    requires
        is_ranking_of(out, orig),
    ensures
        out.len() == orig.len(),
        forall|j: int| 0 <= j < orig.len() ==> occurs_in(out, #[trigger] orig[j]),
{
    let perm = choose|perm: Seq<int>| is_stable_sort(perm, orig, out);
    let n = orig.len();
    assert forall|j: int| 0 <= j < orig.len() implies occurs_in(out, #[trigger] orig[j]) by {
        lemma_perm_onto(perm, n, j);
        let k = choose|k: int| 0 <= k < n && perm[k] == j;
        assert(out[k] == orig[perm[k]]);
        assert(0 <= k < out.len() && out[k] == orig[j]);
    }
}

/// A sequence of `n` distinct values in `[0, n)` takes every value in that range.
proof fn lemma_perm_onto(perm: Seq<int>, n: nat, j: int)
    requires
        perm.len() == n,
        0 <= j < n,
        forall|k: int| 0 <= k < perm.len() ==> 0 <= #[trigger] perm[k] < n,
        forall|a: int, b: int| 0 <= a < b < perm.len() ==> perm[a] != perm[b],
    ensures
        exists|k: int| 0 <= k < n && perm[k] == j,
{
    if !(exists|k: int| 0 <= k < n && perm[k] == j) {
        let s = perm.to_set();
        let full = vstd::set_lib::set_int_range(0, n as int);
        vstd::set_lib::lemma_int_range(0, n as int);
        let range = full.remove(j);
        assert(range.len() == n - 1);
        assert forall|x: int| s.contains(x) implies range.contains(x) by {
            let k = choose|k: int| 0 <= k < perm.len() && perm[k] == x;
            assert(0 <= perm[k] < n);
        }
        assert(s.subset_of(range));
        vstd::set_lib::lemma_len_subset(s, range);
        assert(perm.no_duplicates()) by {
            assert forall|a: int, b: int| 0 <= a < perm.len() && 0 <= b < perm.len() && a != b implies perm[a] != perm[b] by {
                if a < b {
                    assert(perm[a] != perm[b]);
                } else {
                    assert(perm[b] != perm[a]);
                }
            }
        }
        perm.unique_seq_to_set();
    }
}

} // verus!
