//! Frequency-weighted prefix trie for autocompletion.
use vstd::prelude::*;
use crate::text::chars_of;

verus! {

/// What the trie records for one stored key: how many times it was inserted
/// (net of removals) and the value stored with its first insertion.
pub type TrieEntry = (nat, Seq<char>);

/// A single node of the trie. A child stores the character on the edge that
/// leads to it; no two children of a node carry the same character.
struct TrieNode {
    ch: char,
    children: Vec<TrieNode>,
    is_end: bool,
    frequency: u32,
    value: Option<String>,
}

/// Whether some child carries the character `c`.
spec fn has_child(cs: Seq<TrieNode>, c: char) -> bool {
    exists|i: int| 0 <= i < cs.len() && (#[trigger] cs[i]).ch == c
}

/// The child carrying `c` (meaningful when `has_child(cs, c)`).
spec fn child_of(cs: Seq<TrieNode>, c: char) -> TrieNode {
    cs[choose|i: int| 0 <= i < cs.len() && (#[trigger] cs[i]).ch == c]
}

/// No two children carry the same character.
spec fn distinct_chars(cs: Seq<TrieNode>) -> bool {
    forall|i: int, j: int| 0 <= i < cs.len() && 0 <= j < cs.len() && i != j ==> cs[i].ch != cs[j].ch
}

impl TrieNode {
    /// The entry stored under the key `k`, relative to this node.
    spec fn lookup(self, k: Seq<char>) -> Option<TrieEntry>
        decreases k.len(),
    {
        if k.len() == 0 {
            if self.is_end && self.value is Some {
                Some((self.frequency as nat, self.value->0@))
            } else {
                None
            }
        } else if has_child(self.children@, k[0]) {
            child_of(self.children@, k[0]).lookup(k.drop_first())
        } else {
            None
        }
    }

    /// Structural invariant of a node and all nodes below it.
    spec fn wf(self) -> bool
        decreases self,
    {
        &&& distinct_chars(self.children@)
        &&& (self.is_end <==> self.value is Some)
        &&& (self.is_end ==> self.frequency >= 1)
        &&& forall|i: int| 0 <= i < self.children@.len() ==> (#[trigger] self.children@[i]).wf()
    }

    /// A node that holds no key at all.
    spec fn is_dead(self) -> bool {
        self.children@.len() == 0 && !self.is_end
    }

    fn new(ch: char) -> (n: TrieNode)
        ensures
            n.wf(),
            n.ch == ch,
            n.is_dead(),
            forall|k: Seq<char>| #[trigger] n.lookup(k) is None,
    {
        let n = TrieNode { ch, children: Vec::new(), is_end: false, frequency: 0, value: None };
        assert forall|k: Seq<char>| #[trigger] n.lookup(k) is None by {
            if k.len() > 0 {
                assert(!has_child(n.children@, k[0]));
            }
        }
        n
    }
}

/// With distinct characters, the child found for `cs[i].ch` is `cs[i]`.
proof fn lemma_child_at(cs: Seq<TrieNode>, i: int)
    requires
        distinct_chars(cs),
        0 <= i < cs.len(),
    ensures
        has_child(cs, cs[i].ch),
        child_of(cs, cs[i].ch) == cs[i],
{
    assert(has_child(cs, cs[i].ch));
}

/// Two non-empty sequences with equal heads and equal tails are equal.
proof fn lemma_seq_head_tail_eq(a: Seq<char>, b: Seq<char>)
    requires
        a.len() > 0,
        b.len() > 0,
        a[0] == b[0],
        a.drop_first() == b.drop_first(),
    ensures
        a == b,
{
    assert(a.drop_first().len() == a.len() - 1);
    assert(b.drop_first().len() == b.len() - 1);
    assert(a.len() == b.len());
    assert forall|t: int| 0 <= t < a.len() implies a[t] == b[t] by {
        if t > 0 {
            assert(a[t] == a.drop_first()[t - 1]);
            assert(b[t] == b.drop_first()[t - 1]);
        }
    }
    assert(a =~= b);
}

/// A dead node holds no key.
proof fn lemma_dead_lookup(n: TrieNode, k: Seq<char>)
    requires
        n.is_dead(),
    ensures
        n.lookup(k) is None,
{
    if k.len() > 0 {
        assert(!has_child(n.children@, k[0]));
    }
}

/// Looking up `p + k` below a node equals looking up `k` below the child on `p[0]`.
proof fn lemma_lookup_concat(n: TrieNode, p: Seq<char>, k: Seq<char>)
    requires
        p.len() > 0,
    ensures
        n.lookup(p + k) == if has_child(n.children@, p[0]) {
            child_of(n.children@, p[0]).lookup(p.drop_first() + k)
        } else {
            None
        },
{
    assert((p + k)[0] == p[0]);
    assert((p + k).drop_first() =~= p.drop_first() + k);
}

/// Index of the child carrying `c`, if there is one.
fn find_child(children: &Vec<TrieNode>, c: char) -> (r: Option<usize>)
    ensures
        r matches Some(j) ==> j < children@.len() && children@[j as int].ch == c,
        r is None ==> !has_child(children@, c),
{
    let mut j: usize = 0;
    while j < children.len()
        invariant
            j <= children@.len(),
            forall|t: int| 0 <= t < j ==> (#[trigger] children@[t]).ch != c,
        decreases children@.len() - j,
    {
        if children[j].ch == c {
            return Some(j);
        }
        j = j + 1;
    }
    None
}

/// The entry a key holds after one more insertion of it with `value`.
pub open spec fn inserted_entry(old: Option<TrieEntry>, value: Seq<char>) -> TrieEntry {
    match old {
        Some(e) => (e.0 + 1, e.1),
        None => (1, value),
    }
}

/// The entry a key holds after one removal of it.
pub open spec fn removed_entry(old: Option<TrieEntry>) -> Option<TrieEntry> {
    match old {
        Some(e) => if e.0 <= 1 { None } else { Some(((e.0 - 1) as nat, e.1)) },
        None => None,
    }
}

/// Outcome of a recursive remove, threaded back up the call stack.
struct RemoveResult {
    existed: bool,
    fully_removed: bool,
}

fn insert_rec(node: &mut TrieNode, key: &Vec<char>, i: usize, value: String) -> (created: bool)
    requires
        old(node).wf(),
        i <= key@.len(),
        old(node).lookup(key@.skip(i as int)) matches Some(e) ==> e.0 < u32::MAX,
    ensures
        final(node).wf(),
        final(node).ch == old(node).ch,
        created == (old(node).lookup(key@.skip(i as int)) is None),
        forall|k: Seq<char>| #[trigger] final(node).lookup(k) == if k == key@.skip(i as int) {
            Some(inserted_entry(old(node).lookup(k), value@))
        } else {
            old(node).lookup(k)
        },
    decreases key@.len() - i,
{
    let ghost old_node = *node;
    assert(old_node.wf());
    let ghost rest = key@.skip(i as int);
    if i == key.len() {
        assert(rest.len() == 0);
        let created = !node.is_end;
        if node.is_end {
            node.frequency = node.frequency + 1;
        } else {
            node.is_end = true;
            node.frequency = 1;
            node.value = Some(value);
        }
        assert forall|k: Seq<char>| #[trigger] node.lookup(k) == if k == rest {
            Some(inserted_entry(old_node.lookup(k), value@))
        } else {
            old_node.lookup(k)
        } by {
            if k.len() == 0 {
                assert(k =~= rest);
            } else {
                assert(k != rest);
            }
        }
        created
    } else {
        let c = key[i];
        assert(rest[0] == c);
        assert(rest.drop_first() =~= key@.skip(i + 1));
        let ghost old_cs = old_node.children@;
        match find_child(&node.children, c) {
            Some(j) => {
                proof {
                    lemma_child_at(old_cs, j as int);
                }
                assert(old_node.wf());
                assert(old_cs[j as int].wf());
                let ghost old_child = old_cs[j as int];
                let mut child = node.children.remove(j);
                let created = insert_rec(&mut child, key, i + 1, value);
                node.children.insert(j, child);
                let ghost new_cs = node.children@;
                assert(new_cs =~= old_cs.update(j as int, child));
                assert(distinct_chars(new_cs));
                assert forall|t: int| 0 <= t < new_cs.len() implies #[trigger] new_cs[t].wf() by {
                    if t != j {
                        assert(new_cs[t] == old_cs[t]);
                        assert(old_cs[t].wf());
                    }
                }
                proof {
                    lemma_child_at(new_cs, j as int);
                }
                assert forall|k: Seq<char>| #[trigger] node.lookup(k) == if k == rest {
                    Some(inserted_entry(old_node.lookup(k), value@))
                } else {
                    old_node.lookup(k)
                } by {
                    if k.len() > 0 {
                        if k[0] == c {
                            assert(node.lookup(k) == child.lookup(k.drop_first()));
                            assert(old_node.lookup(k) == old_child.lookup(k.drop_first()));
                            if k == rest {
                                assert(k.drop_first() == key@.skip(i + 1));
                            } else {
                                assert(k.drop_first() != key@.skip(i + 1)) by {
                                    if k.drop_first() == key@.skip(i + 1) {
                                        lemma_seq_head_tail_eq(k, rest);
                                    }
                                }
                            }
                        } else {
                            assert(k != rest);
                            if has_child(old_cs, k[0]) {
                                let t = choose|t: int| 0 <= t < old_cs.len() && (#[trigger] old_cs[t]).ch == k[0];
                                lemma_child_at(old_cs, t);
                                assert(t != j);
                                assert(new_cs[t] == old_cs[t]);
                                lemma_child_at(new_cs, t);
                            } else {
                                assert(!has_child(new_cs, k[0])) by {
                                    if has_child(new_cs, k[0]) {
                                        let t = choose|t: int| 0 <= t < new_cs.len() && (#[trigger] new_cs[t]).ch == k[0];
                                        if t != j {
                                            assert(old_cs[t].ch == k[0]);
                                        }
                                    }
                                }
                            }
                        }
                    } else {
                        assert(k != rest);
                    }
                }
                created
            },
            None => {
                let mut child = TrieNode::new(c);
                let ghost old_child = child;
                assert(!has_child(old_cs, c));
                let created = insert_rec(&mut child, key, i + 1, value);
                node.children.push(child);
                let ghost new_cs = node.children@;
                let ghost jj = old_cs.len() as int;
                assert(new_cs =~= old_cs.push(child));
                assert(distinct_chars(new_cs));
                assert forall|t: int| 0 <= t < new_cs.len() implies #[trigger] new_cs[t].wf() by {
                    if t != jj {
                        assert(new_cs[t] == old_cs[t]);
                        assert(old_cs[t].wf());
                    }
                }
                proof {
                    lemma_child_at(new_cs, jj);
                }
                assert forall|k: Seq<char>| #[trigger] node.lookup(k) == if k == rest {
                    Some(inserted_entry(old_node.lookup(k), value@))
                } else {
                    old_node.lookup(k)
                } by {
                    if k.len() > 0 {
                        if k[0] == c {
                            assert(node.lookup(k) == child.lookup(k.drop_first()));
                            assert(old_node.lookup(k) == old_child.lookup(k.drop_first()));
                            if k == rest {
                                assert(k.drop_first() == key@.skip(i + 1));
                            } else {
                                assert(k.drop_first() != key@.skip(i + 1)) by {
                                    if k.drop_first() == key@.skip(i + 1) {
                                        lemma_seq_head_tail_eq(k, rest);
                                    }
                                }
                            }
                        } else {
                            assert(k != rest);
                            if has_child(old_cs, k[0]) {
                                let t = choose|t: int| 0 <= t < old_cs.len() && (#[trigger] old_cs[t]).ch == k[0];
                                lemma_child_at(old_cs, t);
                                assert(new_cs[t] == old_cs[t]);
                                lemma_child_at(new_cs, t);
                            } else {
                                assert(!has_child(new_cs, k[0])) by {
                                    if has_child(new_cs, k[0]) {
                                        let t = choose|t: int| 0 <= t < new_cs.len() && (#[trigger] new_cs[t]).ch == k[0];
                                        if t != jj {
                                            assert(old_cs[t].ch == k[0]);
                                        }
                                    }
                                }
                            }
                        }
                    } else {
                        assert(k != rest);
                    }
                }
                created
            },
        }
    }
}

fn remove_rec(node: &mut TrieNode, key: &Vec<char>, i: usize) -> (r: RemoveResult)
    requires
        old(node).wf(),
        i <= key@.len(),
    ensures
        final(node).wf(),
        final(node).ch == old(node).ch,
        r.existed == (old(node).lookup(key@.skip(i as int)) is Some),
        r.fully_removed == (old(node).lookup(key@.skip(i as int)) matches Some(e) && e.0 == 1),
        forall|k: Seq<char>| #[trigger] final(node).lookup(k) == if k == key@.skip(i as int) {
            removed_entry(old(node).lookup(k))
        } else {
            old(node).lookup(k)
        },
    decreases key@.len() - i,
{
    let ghost old_node = *node;
    assert(old_node.wf());
    let ghost rest = key@.skip(i as int);
    if i == key.len() {
        assert(rest.len() == 0);
        if !node.is_end {
            assert forall|k: Seq<char>| #[trigger] node.lookup(k) == if k == rest {
                removed_entry(old_node.lookup(k))
            } else {
                old_node.lookup(k)
            } by {
                if k.len() == 0 {
                    assert(k =~= rest);
                }
            }
            return RemoveResult { existed: false, fully_removed: false };
        }
        node.frequency = node.frequency - 1;
        let fully = node.frequency == 0;
        if fully {
            node.is_end = false;
            node.value = None;
        }
        assert forall|k: Seq<char>| #[trigger] node.lookup(k) == if k == rest {
            removed_entry(old_node.lookup(k))
        } else {
            old_node.lookup(k)
        } by {
            if k.len() == 0 {
                assert(k =~= rest);
            } else {
                assert(k != rest);
            }
        }
        RemoveResult { existed: true, fully_removed: fully }
    } else {
        let c = key[i];
        assert(rest[0] == c);
        assert(rest.drop_first() =~= key@.skip(i + 1));
        let ghost old_cs = old_node.children@;
        match find_child(&node.children, c) {
            None => {
                assert forall|k: Seq<char>| #[trigger] node.lookup(k) == if k == rest {
                    removed_entry(old_node.lookup(k))
                } else {
                    old_node.lookup(k)
                } by {
                    if k == rest {
                        assert(k.len() > 0 && k[0] == c);
                    }
                }
                RemoveResult { existed: false, fully_removed: false }
            },
            Some(j) => {
                proof {
                    lemma_child_at(old_cs, j as int);
                }
                assert(old_cs[j as int].wf());
                let ghost old_child = old_cs[j as int];
                let mut child = node.children.remove(j);
                let r = remove_rec(&mut child, key, i + 1);
                let dead = child.children.len() == 0 && !child.is_end;
                if r.existed && dead {
                    let ghost new_cs = node.children@;
                    assert(new_cs =~= old_cs.remove(j as int));
                    assert(distinct_chars(new_cs));
                    assert forall|t: int| 0 <= t < new_cs.len() implies #[trigger] new_cs[t].wf() by {
                        if t < j {
                            assert(new_cs[t] == old_cs[t]);
                            assert(old_cs[t].wf());
                        } else {
                            assert(new_cs[t] == old_cs[t + 1]);
                            assert(old_cs[t + 1].wf());
                        }
                    }
                    assert(!has_child(new_cs, c)) by {
                        if has_child(new_cs, c) {
                            let t = choose|t: int| 0 <= t < new_cs.len() && (#[trigger] new_cs[t]).ch == c;
                            if t < j {
                                assert(old_cs[t].ch == c);
                            } else {
                                assert(old_cs[t + 1].ch == c);
                            }
                        }
                    }
                    assert forall|k: Seq<char>| #[trigger] node.lookup(k) == if k == rest {
                        removed_entry(old_node.lookup(k))
                    } else {
                        old_node.lookup(k)
                    } by {
                        if k.len() > 0 {
                            if k[0] == c {
                                assert(old_node.lookup(k) == old_child.lookup(k.drop_first()));
                                lemma_dead_lookup(child, k.drop_first());
                                if k == rest {
                                    assert(k.drop_first() == key@.skip(i + 1));
                                } else {
                                    assert(k.drop_first() != key@.skip(i + 1)) by {
                                        if k.drop_first() == key@.skip(i + 1) {
                                            lemma_seq_head_tail_eq(k, rest);
                                        }
                                    }
                                }
                            } else {
                                assert(k != rest);
                                if has_child(old_cs, k[0]) {
                                    let t = choose|t: int| 0 <= t < old_cs.len() && (#[trigger] old_cs[t]).ch == k[0];
                                    lemma_child_at(old_cs, t);
                                    assert(t != j);
                                    if t < j {
                                        assert(new_cs[t] == old_cs[t]);
                                        lemma_child_at(new_cs, t);
                                    } else {
                                        assert(new_cs[t - 1] == old_cs[t]);
                                        lemma_child_at(new_cs, t - 1);
                                    }
                                } else {
                                    assert(!has_child(new_cs, k[0])) by {
                                        if has_child(new_cs, k[0]) {
                                            let t = choose|t: int| 0 <= t < new_cs.len() && (#[trigger] new_cs[t]).ch == k[0];
                                            if t < j {
                                                assert(old_cs[t].ch == k[0]);
                                            } else {
                                                assert(old_cs[t + 1].ch == k[0]);
                                            }
                                        }
                                    }
                                }
                            }
                        } else {
                            assert(k != rest);
                        }
                    }
                } else {
                    node.children.insert(j, child);
                    let ghost new_cs = node.children@;
                    assert(new_cs =~= old_cs.update(j as int, child));
                    assert(distinct_chars(new_cs));
                    assert forall|t: int| 0 <= t < new_cs.len() implies #[trigger] new_cs[t].wf() by {
                        if t != j {
                            assert(new_cs[t] == old_cs[t]);
                            assert(old_cs[t].wf());
                        }
                    }
                    proof {
                        lemma_child_at(new_cs, j as int);
                    }
                    assert forall|k: Seq<char>| #[trigger] node.lookup(k) == if k == rest {
                        removed_entry(old_node.lookup(k))
                    } else {
                        old_node.lookup(k)
                    } by {
                        if k.len() > 0 {
                            if k[0] == c {
                                assert(node.lookup(k) == child.lookup(k.drop_first()));
                                assert(old_node.lookup(k) == old_child.lookup(k.drop_first()));
                                if k == rest {
                                    assert(k.drop_first() == key@.skip(i + 1));
                                } else {
                                    assert(k.drop_first() != key@.skip(i + 1)) by {
                                        if k.drop_first() == key@.skip(i + 1) {
                                            lemma_seq_head_tail_eq(k, rest);
                                        }
                                    }
                                }
                            } else {
                                assert(k != rest);
                                if has_child(old_cs, k[0]) {
                                    let t = choose|t: int| 0 <= t < old_cs.len() && (#[trigger] old_cs[t]).ch == k[0];
                                    lemma_child_at(old_cs, t);
                                    assert(t != j);
                                    assert(new_cs[t] == old_cs[t]);
                                    lemma_child_at(new_cs, t);
                                } else {
                                    assert(!has_child(new_cs, k[0])) by {
                                        if has_child(new_cs, k[0]) {
                                            let t = choose|t: int| 0 <= t < new_cs.len() && (#[trigger] new_cs[t]).ch == k[0];
                                            if t != j {
                                                assert(old_cs[t].ch == k[0]);
                                            }
                                        }
                                    }
                                }
                            }
                        } else {
                            assert(k != rest);
                        }
                    }
                }
                r
            },
        }
    }
}

fn get_rec<'a>(node: &'a TrieNode, key: &Vec<char>, i: usize) -> (r: Option<&'a str>)
    requires
        node.wf(),
        i <= key@.len(),
    ensures
        match node.lookup(key@.skip(i as int)) {
            Some(e) => r matches Some(s) && s@ == e.1,
            None => r is None,
        },
    decreases key@.len() - i,
{
    let ghost rest = key@.skip(i as int);
    if i == key.len() {
        assert(rest.len() == 0);
        if node.is_end {
            match &node.value {
                Some(v) => Some(v.as_str()),
                None => None,
            }
        } else {
            None
        }
    } else {
        let c = key[i];
        assert(rest[0] == c);
        assert(rest.drop_first() =~= key@.skip(i + 1));
        match find_child(&node.children, c) {
            None => None,
            Some(j) => {
                proof {
                    lemma_child_at(node.children@, j as int);
                }
                assert(node.children@[j as int].wf());
                get_rec(&node.children[j], key, i + 1)
            },
        }
    }
}

/// The map a trie holds after one more insertion of `key` with `value`.
pub open spec fn after_insert(
    m: Map<Seq<char>, TrieEntry>,
    key: Seq<char>,
    value: Seq<char>,
) -> Map<Seq<char>, TrieEntry> {
    m.insert(key, inserted_entry(m.get(key), value))
}

/// The map a trie holds after one removal of `key`.
pub open spec fn after_remove(m: Map<Seq<char>, TrieEntry>, key: Seq<char>) -> Map<
    Seq<char>,
    TrieEntry,
> {
    match removed_entry(m.get(key)) {
        Some(e) => m.insert(key, e),
        None => m.remove(key),
    }
}

/// Frequency-weighted prefix trie for autocompletion.
///
/// Its view maps each stored key to its frequency and the value stored with
/// the key's first insertion.
pub struct Trie {
    root: TrieNode,
    size: usize,
    keys: Ghost<Map<Seq<char>, TrieEntry>>,
}

impl View for Trie {
    type V = Map<Seq<char>, TrieEntry>;

    closed spec fn view(&self) -> Map<Seq<char>, TrieEntry> {
        self.keys@
    }
}

impl Trie {
    /// Internal invariant: the tree holds exactly the view, and `size` counts its keys.
    #[verifier::type_invariant]
    pub closed spec fn wf(&self) -> bool {
        &&& self.root.wf()
        &&& self.keys@.dom().finite()
        &&& self.size == self.keys@.len()
        &&& forall|k: Seq<char>| #[trigger] self.root.lookup(k) == self.keys@.get(k)
    }

    /// A well-formed trie holds finitely many keys.
    pub proof fn lemma_finite(&self)
        requires
            self.wf(),
        ensures
            self@.dom().finite(),
    {
    }

    /// Every stored key has been inserted at least once more than it was removed.
    pub proof fn lemma_frequencies_positive(&self, k: Seq<char>)
        requires
            self.wf(),
            self@.contains_key(k),
        ensures
            1 <= self@[k].0 <= u32::MAX,
    {
        assert(self.root.lookup(k) == self.keys@.get(k));
        lemma_lookup_bounds(self.root, k);
    }

    /// Create an empty trie.
    pub fn new() -> (t: Trie)
        ensures
            t.wf(),
            t@ == Map::<Seq<char>, TrieEntry>::empty(),
    {
        let root = TrieNode::new('\0');
        let t = Trie { root, size: 0, keys: Ghost(Map::empty()) };
        assert forall|k: Seq<char>| #[trigger] t.root.lookup(k) == t.keys@.get(k) by {
            assert(t.root.lookup(k) is None);
        }
        t
    }

    /// Insert a key/value pair, incrementing the frequency if the key already
    /// exists (the stored value is then kept).
    pub fn insert(&mut self, key: &str, value: String)
        requires
            old(self)@.len() < usize::MAX,
            old(self)@.contains_key(key@) ==> old(self)@[key@].0 < u32::MAX,
        ensures
            final(self)@ == after_insert(old(self)@, key@, value@),
    {
        proof {
            use_type_invariant(&*self);
        }
        let chars = chars_of(key);
        assert(chars@.skip(0) =~= chars@);
        let ghost before = *self;
        let ghost old_keys = self.keys@;
        // Take the trie out whole, so that it is never seen half-updated.
        let mut cur = Trie::new();
        std::mem::swap(self, &mut cur);
        let mut root = cur.root;
        let mut size = cur.size;
        let created = insert_rec(&mut root, &chars, 0, value);
        let ghost new_keys = after_insert(old_keys, key@, value@);
        if created {
            assert(!old_keys.contains_key(key@));
            size = size + 1;
        } else {
            assert(old_keys.contains_key(key@));
            assert(new_keys.dom() =~= old_keys.dom());
        }
        assert forall|k: Seq<char>| #[trigger] root.lookup(k) == new_keys.get(k) by {
            if k != key@ {
                assert(before.root.lookup(k) == old_keys.get(k));
            }
        }
        *self = Trie { root, size, keys: Ghost(new_keys) };
    }

    /// Remove one occurrence of a key, pruning dead nodes when its frequency
    /// reaches zero. Returns whether the key was present.
    pub fn remove(&mut self, key: &str) -> (existed: bool)
        ensures
            existed == old(self)@.contains_key(key@),
            final(self)@ == after_remove(old(self)@, key@),
    {
        proof {
            use_type_invariant(&*self);
        }
        let chars = chars_of(key);
        assert(chars@.skip(0) =~= chars@);
        let ghost before = *self;
        let ghost old_keys = self.keys@;
        let mut cur = Trie::new();
        std::mem::swap(self, &mut cur);
        let mut root = cur.root;
        let mut size = cur.size;
        let r = remove_rec(&mut root, &chars, 0);
        let ghost new_keys = after_remove(old_keys, key@);
        if r.fully_removed {
            assert(old_keys.contains_key(key@));
            size = size - 1;
        } else if r.existed {
            proof {
                lemma_lookup_bounds(before.root, key@);
            }
            assert(new_keys.dom() =~= old_keys.dom());
        } else {
            assert(new_keys =~= old_keys);
        }
        assert forall|k: Seq<char>| #[trigger] root.lookup(k) == new_keys.get(k) by {
            if k != key@ {
                assert(before.root.lookup(k) == old_keys.get(k));
            }
        }
        *self = Trie { root, size, keys: Ghost(new_keys) };
        r.existed
    }

    /// The value stored at exactly `key`, if the key is present.
    pub fn get(&self, key: &str) -> (r: Option<&str>)
        ensures
            match self@.get(key@) {
                Some(e) => r matches Some(s) && s@ == e.1,
                None => r is None,
            },
    {
        proof {
            use_type_invariant(self);
        }
        let chars = chars_of(key);
        assert(chars@.skip(0) =~= chars@);
        assert(self.root.lookup(key@) == self.keys@.get(key@));
        get_rec(&self.root, &chars, 0)
    }

    /// How many times `key` is held (insertions not yet undone by removals),
    /// if it is present.
    pub fn frequency(&self, key: &str) -> (r: Option<u32>)
        ensures
            match self@.get(key@) {
                Some(e) => r matches Some(f) && f as nat == e.0,
                None => r is None,
            },
    {
        proof {
            use_type_invariant(self);
        }
        let chars = chars_of(key);
        assert(chars@.skip(0) =~= chars@);
        assert(self.root.lookup(key@) == self.keys@.get(key@));
        match descend(&self.root, &chars, 0) {
            Some(n) => {
                assert(chars@.skip(0) + Seq::<char>::empty() =~= key@);
                assert(n.lookup(Seq::<char>::empty()) == self.root.lookup(key@));
                if n.is_end {
                    Some(n.frequency)
                } else {
                    None
                }
            },
            None => {
                assert(chars@.skip(0) + Seq::<char>::empty() =~= key@);
                assert(self.root.lookup(key@) is None);
                None
            },
        }
    }

    /// Whether `insert(key, ..)` stays within the counters: one more key must
    /// fit the key count, one more insertion the key's frequency.
    pub fn can_insert(&self, key: &str) -> (b: bool)
        ensures
            b == (self@.len() < usize::MAX && (self@.contains_key(key@) ==> self@[key@].0 < u32::MAX)),
    {
        proof {
            use_type_invariant(self);
        }
        if self.size == usize::MAX {
            return false;
        }
        match self.frequency(key) {
            Some(f) => f < u32::MAX,
            None => true,
        }
    }

    /// Number of unique keys stored.
    pub fn len(&self) -> (n: usize)
        ensures
            n == self@.len(),
    {
        proof {
            use_type_invariant(self);
        }
        self.size
    }

    /// Whether the trie holds no keys.
    pub fn is_empty(&self) -> (b: bool)
        ensures
            b == (self@.len() == 0),
    {
        proof {
            use_type_invariant(self);
        }
        self.size == 0
    }
}

/// Entries found in the tree have a frequency in `1..=u32::MAX`.
proof fn lemma_lookup_bounds(n: TrieNode, k: Seq<char>)
    requires
        n.wf(),
        n.lookup(k) is Some,
    ensures
        1 <= n.lookup(k).unwrap().0 <= u32::MAX,
    decreases k.len(),
{
    if k.len() > 0 {
        let t = choose|t: int| 0 <= t < n.children@.len() && (#[trigger] n.children@[t]).ch == k[0];
        assert(n.children@[t].wf());
        lemma_lookup_bounds(child_of(n.children@, k[0]), k.drop_first());
    }
}

/// The entry an item collected from the tree stands for.
spec fn item_entry(item: (u32, String)) -> TrieEntry {
    (item.0 as nat, item.1@)
}

/// `ks[j]` is the key (relative to `n`) of `items[j]`, and no key repeats.
spec fn keyed_by(n: TrieNode, items: Seq<(u32, String)>, ks: Seq<Seq<char>>) -> bool {
    &&& ks.len() == items.len()
    &&& ks.no_duplicates()
    &&& forall|j: int| 0 <= j < ks.len() ==> n.lookup(#[trigger] ks[j]) == Some(item_entry(items[j]))
}

fn descend<'a>(node: &'a TrieNode, key: &Vec<char>, i: usize) -> (r: Option<&'a TrieNode>)
    requires
        node.wf(),
        i <= key@.len(),
    ensures
        match r {
            Some(n) => n.wf() && forall|k: Seq<char>| #[trigger] n.lookup(k) == node.lookup(key@.skip(i as int) + k),
            None => forall|k: Seq<char>| #[trigger] node.lookup(key@.skip(i as int) + k) is None,
        },
    decreases key@.len() - i,
{
    let ghost rest = key@.skip(i as int);
    if i == key.len() {
        assert(rest.len() == 0);
        assert forall|k: Seq<char>| #[trigger] node.lookup(k) == node.lookup(rest + k) by {
            assert(rest + k =~= k);
        }
        Some(node)
    } else {
        let c = key[i];
        assert(rest[0] == c);
        assert(rest.drop_first() =~= key@.skip(i + 1));
        match find_child(&node.children, c) {
            None => {
                assert forall|k: Seq<char>| #[trigger] node.lookup(rest + k) is None by {
                    lemma_lookup_concat(*node, rest, k);
                }
                None
            },
            Some(j) => {
                proof {
                    lemma_child_at(node.children@, j as int);
                }
                assert(node.children@[j as int].wf());
                let r = descend(&node.children[j], key, i + 1);
                proof {
                    assert forall|k: Seq<char>| #[trigger] node.lookup(rest + k)
                        == node.children@[j as int].lookup(key@.skip(i + 1) + k) by {
                        lemma_lookup_concat(*node, rest, k);
                    }
                }
                r
            },
        }
    }
}

/// Every key of `ks`, with `p` put in front.
spec fn prefixed(ks: Seq<Seq<char>>, p: Seq<char>) -> Seq<Seq<char>> {
    ks.map_values(|k: Seq<char>| p + k)
}

/// Prefixing every key of a duplicate-free sequence keeps it duplicate-free.
proof fn lemma_prefix_keys(ks: Seq<Seq<char>>, p: Seq<char>)
    requires
        ks.no_duplicates(),
    ensures
        prefixed(ks, p).no_duplicates(),
        prefixed(ks, p).len() == ks.len(),
        forall|j: int| 0 <= j < ks.len() ==> #[trigger] prefixed(ks, p)[j] == p + ks[j],
{
    let m = prefixed(ks, p);
    assert forall|a: int, b: int| 0 <= a < m.len() && 0 <= b < m.len() && a != b implies m[a] != m[b] by {
        if m[a] == m[b] {
            assert((p + ks[a]).skip(p.len() as int) =~= ks[a]);
            assert((p + ks[b]).skip(p.len() as int) =~= ks[b]);
        }
    }
}

fn collect_rec(node: &TrieNode, out: &mut Vec<(u32, String)>) -> (ks: Ghost<Seq<Seq<char>>>)
    requires
        node.wf(),
    ensures
        final(out)@.len() == old(out)@.len() + ks@.len(),
        final(out)@.take(old(out)@.len() as int) == old(out)@,
        keyed_by(*node, final(out)@.skip(old(out)@.len() as int), ks@),
        forall|k: Seq<char>| #[trigger] node.lookup(k) is Some ==> ks@.contains(k),
    decreases node,
{
    let ghost start = out@.len() as int;
    let ghost old_out = out@;
    let ghost mut ks: Seq<Seq<char>> = Seq::empty();
    if node.is_end {
        match &node.value {
            Some(v) => {
                out.push((node.frequency, v.clone()));
                proof {
                    ks = seq![Seq::<char>::empty()];
                }
            },
            None => {},
        }
    }
    let ghost cs = node.children@;
    assert(node.wf());
    assert(out@.take(start) =~= old_out);
    assert(keyed_by(*node, out@.skip(start), ks)) by {
        if node.is_end {
            assert(out@.skip(start) =~= seq![out@[start]]);
        } else {
            assert(out@.skip(start) =~= Seq::<(u32, String)>::empty());
        }
    }
    assert forall|k: Seq<char>| #[trigger] node.lookup(k) is Some && (k.len() == 0 || exists|t: int| 0 <= t < 0 && cs[t].ch == k[0]) implies ks.contains(k) by {
        assert(k.len() == 0);
        assert(k =~= Seq::<char>::empty());
        assert(ks[0] == k);
    }
    let mut idx: usize = 0;
    while idx < node.children.len()
        invariant
            node.wf(),
            cs == node.children@,
            start == old_out.len(),
            idx <= cs.len(),
            out@.len() == start + ks.len(),
            out@.take(start) == old_out,
            keyed_by(*node, out@.skip(start), ks),
            forall|j: int| 0 <= j < ks.len() ==> (#[trigger] ks[j]).len() == 0 || exists|t: int| 0 <= t < idx && cs[t].ch == ks[j][0],
            forall|k: Seq<char>| #[trigger] node.lookup(k) is Some && (k.len() == 0 || exists|t: int| 0 <= t < idx && cs[t].ch == k[0]) ==> ks.contains(k),
        decreases cs.len() - idx,
    {
        let ghost before = out@;
        let ghost ks_before = ks;
        assert(cs[idx as int].wf());
        proof {
            lemma_child_at(cs, idx as int);
        }
        let child_ks = collect_rec(&node.children[idx], out);
        let ghost c = cs[idx as int].ch;
        let ghost p = seq![c];
        let ghost mapped = prefixed(child_ks@, p);
        proof {
            lemma_prefix_keys(child_ks@, p);
            assert forall|j: int| 0 <= j < mapped.len() implies node.lookup(#[trigger] mapped[j]) == cs[idx as int].lookup(child_ks@[j]) by {
                lemma_lookup_concat(*node, p, child_ks@[j]);
                assert(p.drop_first() + child_ks@[j] =~= child_ks@[j]);
            }
            let new_ks = ks + mapped;
            let seg_old = before.skip(start);
            let seg_new = out@.skip(start);
            let seg_child = out@.skip(before.len() as int);
            assert forall|q: int| 0 <= q < before.len() implies out@[q] == before[q] by {
                assert(out@.take(before.len() as int)[q] == out@[q]);
            }
            assert(before.len() == start + ks.len());
            assert(out@.len() == before.len() + child_ks@.len());
            assert(seg_old.len() == ks.len());
            assert(seg_child.len() == child_ks@.len());
            assert(seg_new.len() == seg_old.len() + seg_child.len());
            assert forall|q: int| 0 <= q < seg_new.len() implies seg_new[q] == (seg_old + seg_child)[q] by {
                if q < seg_old.len() {
                    assert(seg_new[q] == out@[start + q]);
                    assert(seg_old[q] == before[start + q]);
                } else {
                    assert(seg_new[q] == out@[start + q]);
                    assert(seg_child[q - seg_old.len()] == out@[before.len() + q - seg_old.len()]);
                }
            }
            assert(seg_new =~= seg_old + seg_child);
            assert forall|q: int| 0 <= q < start implies out@[q] == old_out[q] by {
                assert(before.take(start)[q] == before[q]);
            }
            assert forall|q: int| 0 <= q < start implies out@.take(start)[q] == old_out[q] by {
                assert(out@[q] == before[q]);
                assert(before.take(start)[q] == before[q]);
            }
            assert(out@.take(start) =~= old_out);
            assert(new_ks.no_duplicates()) by {
                assert forall|a: int, b: int| 0 <= a < new_ks.len() && 0 <= b < new_ks.len() && a != b implies new_ks[a] != new_ks[b] by {
                    if a < ks.len() && b >= ks.len() {
                        let kb = mapped[b - ks.len()];
                        assert(kb[0] == c);
                        if new_ks[a] == new_ks[b] {
                            assert(ks[a] == kb);
                            let t = choose|t: int| 0 <= t < idx && cs[t].ch == ks[a][0];
                            assert(cs[t].ch == cs[idx as int].ch);
                        }
                    } else if b < ks.len() && a >= ks.len() {
                        let ka = mapped[a - ks.len()];
                        assert(ka[0] == c);
                        if new_ks[a] == new_ks[b] {
                            assert(ks[b] == ka);
                            let t = choose|t: int| 0 <= t < idx && cs[t].ch == ks[b][0];
                            assert(cs[t].ch == cs[idx as int].ch);
                        }
                    }
                }
            }
            assert forall|j: int| 0 <= j < new_ks.len() implies node.lookup(#[trigger] new_ks[j]) == Some(item_entry(seg_new[j])) by {
                if j < ks.len() {
                    assert(new_ks[j] == ks[j]);
                    assert(seg_new[j] == seg_old[j]);
                } else {
                    assert(new_ks[j] == mapped[j - ks.len()]);
                    assert(seg_new[j] == seg_child[j - ks.len()]);
                }
            }
            assert forall|j: int| 0 <= j < new_ks.len() implies (#[trigger] new_ks[j]).len() == 0 || exists|t: int| 0 <= t < idx + 1 && cs[t].ch == new_ks[j][0] by {
                if j < ks.len() {
                    assert(new_ks[j] == ks[j]);
                    if ks[j].len() != 0 {
                        let t = choose|t: int| 0 <= t < idx && cs[t].ch == ks[j][0];
                        assert(0 <= t < idx + 1 && cs[t].ch == new_ks[j][0]);
                    }
                } else {
                    assert(new_ks[j] == mapped[j - ks.len()]);
                    assert(new_ks[j][0] == c);
                }
            }
            assert forall|k: Seq<char>| #[trigger] node.lookup(k) is Some && (k.len() == 0 || exists|t: int| 0 <= t < idx + 1 && cs[t].ch == k[0]) implies new_ks.contains(k) by {
                if k.len() == 0 || exists|t: int| 0 <= t < idx && cs[t].ch == k[0] {
                    assert(ks.contains(k));
                    let j = choose|j: int| 0 <= j < ks.len() && ks[j] == k;
                    assert(new_ks[j] == k);
                } else {
                    let t = choose|t: int| 0 <= t < idx + 1 && cs[t].ch == k[0];
                    assert(t == idx);
                    lemma_lookup_concat(*node, p, k.drop_first());
                    assert(p + k.drop_first() =~= k);
                    assert(p.drop_first() + k.drop_first() =~= k.drop_first());
                    assert(child_ks@.contains(k.drop_first()));
                    let j = choose|j: int| 0 <= j < child_ks@.len() && child_ks@[j] == k.drop_first();
                    assert(new_ks[ks.len() + j] == k);
                }
            }
            ks = new_ks;
        }
        idx = idx + 1;
    }
    proof {
        assert forall|k: Seq<char>| #[trigger] node.lookup(k) is Some implies ks.contains(k) by {
            if k.len() > 0 {
                assert(has_child(cs, k[0]));
                let t = choose|t: int| 0 <= t < cs.len() && (#[trigger] cs[t]).ch == k[0];
                assert(0 <= t < idx && cs[t].ch == k[0]);
            }
        }
    }
    Ghost(ks)
}

/// Items ordered by frequency, highest first.
spec fn frequency_sorted(items: Seq<(u32, String)>) -> bool {
    forall|a: int, b: int| 0 <= a < b < items.len() ==> items[a].0 >= items[b].0
}

/// Stable insertion sort by descending frequency, carrying the keys along.
fn sort_by_frequency(n: Ghost<TrieNode>, items: &Vec<(u32, String)>, ks: Ghost<Seq<Seq<char>>>) -> (r: (Vec<(u32, String)>, Ghost<Seq<Seq<char>>>))
    requires
        keyed_by(n@, items@, ks@),
    ensures
        frequency_sorted(r.0@),
        keyed_by(n@, r.0@, r.1@),
        forall|k: Seq<char>| #[trigger] r.1@.contains(k) <==> ks@.contains(k),
{
    let mut sorted: Vec<(u32, String)> = Vec::new();
    let ghost mut sks: Seq<Seq<char>> = Seq::empty();
    let mut t: usize = 0;
    while t < items.len()
        invariant
            t <= items@.len(),
            keyed_by(n@, items@, ks@),
            frequency_sorted(sorted@),
            keyed_by(n@, sorted@, sks),
            forall|k: Seq<char>| #[trigger] sks.contains(k) <==> ks@.take(t as int).contains(k),
        decreases items@.len() - t,
    {
        let f = items[t].0;
        let mut p: usize = 0;
        while p < sorted.len() && sorted[p].0 >= f
            invariant
                p <= sorted@.len(),
                forall|q: int| 0 <= q < p ==> (#[trigger] sorted@[q]).0 >= f,
            decreases sorted@.len() - p,
        {
            p = p + 1;
        }
        let ghost old_sorted = sorted@;
        let item = (items[t].0, items[t].1.clone());
        sorted.insert(p, item);
        proof {
            let kt = ks@[t as int];
            assert(!sks.contains(kt)) by {
                if sks.contains(kt) {
                    assert(ks@.take(t as int).contains(kt));
                    let q = choose|q: int| 0 <= q < t && (#[trigger] ks@.take(t as int)[q]) == kt;
                    assert(ks@[q] == ks@[t as int]);
                }
            }
            let new_sks = sks.insert(p as int, kt);
            assert(sorted@ =~= old_sorted.insert(p as int, item));
            assert(frequency_sorted(sorted@)) by {
                assert forall|a: int, b: int| 0 <= a < b < sorted@.len() implies sorted@[a].0 >= sorted@[b].0 by {
                    if b < p {
                    } else if a < p && b == p {
                        assert(old_sorted[a].0 >= f);
                    } else if a < p && b > p {
                        assert(sorted@[b] == old_sorted[b - 1]);
                    } else if a == p {
                        assert(sorted@[b] == old_sorted[b - 1]);
                        assert(old_sorted[p as int].0 < f);
                        if b - 1 > p {
                            assert(old_sorted[p as int].0 >= old_sorted[b - 1].0);
                        }
                    } else {
                        assert(sorted@[a] == old_sorted[a - 1]);
                        assert(sorted@[b] == old_sorted[b - 1]);
                    }
                }
            }
            assert(new_sks.no_duplicates()) by {
                assert forall|a: int, b: int| 0 <= a < new_sks.len() && 0 <= b < new_sks.len() && a != b implies new_sks[a] != new_sks[b] by {
                    if a == p {
                        if b < p { assert(new_sks[b] == sks[b]); assert(sks.contains(sks[b])); } else { assert(new_sks[b] == sks[b - 1]); assert(sks.contains(sks[b - 1])); }
                    } else if b == p {
                        if a < p { assert(new_sks[a] == sks[a]); assert(sks.contains(sks[a])); } else { assert(new_sks[a] == sks[a - 1]); assert(sks.contains(sks[a - 1])); }
                    } else {
                        let aa = if a < p { a } else { a - 1 };
                        let bb = if b < p { b } else { b - 1 };
                        assert(new_sks[a] == sks[aa]);
                        assert(new_sks[b] == sks[bb]);
                    }
                }
            }
            assert forall|j: int| 0 <= j < new_sks.len() implies n@.lookup(#[trigger] new_sks[j]) == Some(item_entry(sorted@[j])) by {
                if j < p {
                    assert(new_sks[j] == sks[j]);
                } else if j == p {
                } else {
                    assert(new_sks[j] == sks[j - 1]);
                    assert(sorted@[j] == old_sorted[j - 1]);
                }
            }
            assert forall|k: Seq<char>| #[trigger] new_sks.contains(k) <==> ks@.take(t + 1).contains(k) by {
                if new_sks.contains(k) {
                    let j = choose|j: int| 0 <= j < new_sks.len() && new_sks[j] == k;
                    if j == p {
                        assert(ks@.take(t + 1)[t as int] == k);
                    } else {
                        let jj = if j < p { j } else { j - 1 };
                        assert(sks[jj] == k);
                        assert(sks.contains(k));
                        assert(ks@.take(t as int).contains(k));
                        let q = choose|q: int| 0 <= q < t && (#[trigger] ks@.take(t as int)[q]) == k;
                        assert(ks@.take(t + 1)[q] == k);
                    }
                }
                if ks@.take(t + 1).contains(k) {
                    let q = choose|q: int| 0 <= q < t + 1 && (#[trigger] ks@.take(t + 1)[q]) == k;
                    if q == t {
                        assert(new_sks[p as int] == k);
                    } else {
                        assert(ks@.take(t as int)[q] == k);
                        assert(ks@.take(t as int).contains(k));
                        assert(sks.contains(k));
                        let j = choose|j: int| 0 <= j < sks.len() && sks[j] == k;
                        if j < p { assert(new_sks[j] == k); } else { assert(new_sks[j + 1] == k); }
                    }
                }
            }
            sks = new_sks;
        }
        t = t + 1;
    }
    assert(ks@.take(items@.len() as int) =~= ks@);
    (sorted, Ghost(sks))
}

/// `r` lists, in order, the values of the first `limit` keys of `ks`, where
/// `ks` holds every key of `m` that starts with `prefix`, once, ordered by
/// frequency (highest first).
pub open spec fn is_prefix_listing(
    m: Map<Seq<char>, TrieEntry>,
    prefix: Seq<char>,
    limit: usize,
    r: Seq<String>,
    ks: Seq<Seq<char>>,
) -> bool {
    &&& ks.no_duplicates()
    &&& forall|k: Seq<char>| #[trigger] ks.contains(k) <==> (m.contains_key(k) && prefix.is_prefix_of(k))
    &&& forall|a: int, b: int| 0 <= a < b < ks.len() ==> m[ks[a]].0 >= m[ks[b]].0
    &&& r.len() == if limit < ks.len() { limit as nat } else { ks.len() }
    &&& forall|j: int| 0 <= j < r.len() ==> (#[trigger] r[j])@ == m[ks[j]].1
}

impl Trie {
    /// Values of all keys that start with `prefix`, ordered by frequency
    /// (highest first), at most `limit` of them. The order among keys of
    /// equal frequency is unspecified.
    pub fn prefix_search(&self, prefix: &str, limit: usize) -> (r: Vec<String>)
        ensures
            exists|ks: Seq<Seq<char>>| is_prefix_listing(self@, prefix@, limit, r@, ks),
    {
        proof {
            use_type_invariant(self);
        }
        let chars = chars_of(prefix);
        assert(chars@.skip(0) =~= chars@);
        let ghost p = prefix@;
        match descend(&self.root, &chars, 0) {
            None => {
                proof {
                    let ks = Seq::<Seq<char>>::empty();
                    assert forall|k: Seq<char>| #[trigger] ks.contains(k) <==> (self@.contains_key(k) && p.is_prefix_of(k)) by {
                        if self@.contains_key(k) && p.is_prefix_of(k) {
                            assert(k =~= p + k.skip(p.len() as int));
                            assert(self.root.lookup(k) == self.keys@.get(k));
                            assert(self.root.lookup(p + k.skip(p.len() as int)) is None);
                        }
                    }
                }
                let r: Vec<String> = Vec::new();
                assert(is_prefix_listing(self@, p, limit, r@, Seq::<Seq<char>>::empty()));
                r
            },
            Some(n) => {
                let mut collected: Vec<(u32, String)> = Vec::new();
                let ks = collect_rec(n, &mut collected);
                assert(collected@.skip(0) =~= collected@);
                let (sorted, sks) = sort_by_frequency(Ghost(*n), &collected, ks);
                let mut out: Vec<String> = Vec::new();
                let end = if limit < sorted.len() { limit } else { sorted.len() };
                let mut j: usize = 0;
                while j < end
                    invariant
                        end <= sorted@.len(),
                        j <= end,
                        out@.len() == j,
                        forall|q: int| 0 <= q < j ==> (#[trigger] out@[q])@ == sorted@[q].1@,
                    decreases end - j,
                {
                    out.push(sorted[j].1.clone());
                    j = j + 1;
                }
                proof {
                    let rel = sks@;
                    let ks2 = prefixed(rel, p);
                    lemma_prefix_keys(rel, p);
                    assert forall|q: int| 0 <= q < ks2.len() implies self@.contains_key(#[trigger] ks2[q]) && self@[ks2[q]] == item_entry(sorted@[q]) by {
                        assert(n.lookup(rel[q]) == self.root.lookup(p + rel[q]));
                        assert(self.root.lookup(ks2[q]) == self.keys@.get(ks2[q]));
                    }
                    assert forall|k: Seq<char>| #[trigger] ks2.contains(k) <==> (self@.contains_key(k) && p.is_prefix_of(k)) by {
                        if ks2.contains(k) {
                            let q = choose|q: int| 0 <= q < ks2.len() && ks2[q] == k;
                            assert(self@.contains_key(ks2[q]));
                            assert(k.take(p.len() as int) =~= p);
                        }
                        if self@.contains_key(k) && p.is_prefix_of(k) {
                            let rest = k.skip(p.len() as int);
                            assert(k =~= p + rest);
                            assert(self.root.lookup(k) == self.keys@.get(k));
                            assert(n.lookup(rest) == self.root.lookup(p + rest));
                            assert(ks@.contains(rest));
                            assert(rel.contains(rest));
                            let q = choose|q: int| 0 <= q < rel.len() && rel[q] == rest;
                            assert(ks2[q] == k);
                        }
                    }
                    assert forall|a: int, b: int| 0 <= a < b < ks2.len() implies self@[ks2[a]].0 >= self@[ks2[b]].0 by {
                        assert(self@[ks2[a]] == item_entry(sorted@[a]));
                        assert(self@[ks2[b]] == item_entry(sorted@[b]));
                    }
                    assert forall|q: int| 0 <= q < out@.len() implies (#[trigger] out@[q])@ == self@[ks2[q]].1 by {
                        assert(self@[ks2[q]] == item_entry(sorted@[q]));
                    }
                    assert(is_prefix_listing(self@, p, limit, out@, ks2));
                }
                out
            },
        }
    }
}

impl Default for Trie {
    fn default() -> (t: Trie)
        ensures
            t.wf(),
            t@ == Map::<Seq<char>, TrieEntry>::empty(),
    {
        Trie::new()
    }
}

/// Removing a key right after inserting it gives back the map held before.
pub proof fn law_remove_undoes_insert(m: Map<Seq<char>, TrieEntry>, key: Seq<char>, value: Seq<char>)
    requires
        forall|k: Seq<char>| #[trigger] m.contains_key(k) ==> m[k].0 >= 1,
    ensures
        after_remove(after_insert(m, key, value), key) == m,
{
    let a = after_insert(m, key, value);
    let r = after_remove(a, key);
    if m.contains_key(key) {
        assert(r =~= m);
    } else {
        assert(r =~= m);
    }
}

/// Inserting a key that is already present keeps its stored value and adds
/// one to its frequency; the other keys are untouched.
pub proof fn law_insert_keeps_first_value(m: Map<Seq<char>, TrieEntry>, key: Seq<char>, value: Seq<char>)
    requires
        m.contains_key(key),
    ensures
        after_insert(m, key, value)[key] == (m[key].0 + 1, m[key].1),
        forall|k: Seq<char>| k != key ==> #[trigger] after_insert(m, key, value).get(k) == m.get(k),
{
}

/// The number of keys grows by one exactly when a new key is inserted.
pub proof fn law_insert_len(m: Map<Seq<char>, TrieEntry>, key: Seq<char>, value: Seq<char>)
    requires
        m.dom().finite(),
    ensures
        after_insert(m, key, value).len() == m.len() + if m.contains_key(key) { 0nat } else { 1nat },
{
    assert(after_insert(m, key, value).dom() =~= m.dom().insert(key));
}

/// One insertion into a trie: the key's frequency grows by one (starting at
/// one for a new key), an existing key keeps its first value while a new key
/// takes the given one, the key count grows by one exactly for a new key, and
/// every other key keeps its entry.
pub proof fn law_trie_insert(before: &Trie, after: &Trie, key: Seq<char>, value: Seq<char>)
    requires
        before.wf(),
        after@ == after_insert(before@, key, value),
    ensures
        after@.contains_key(key),
        after@[key].0 == if before@.contains_key(key) { before@[key].0 + 1 } else { 1 },
        after@[key].1 == if before@.contains_key(key) { before@[key].1 } else { value },
        after@.len() == before@.len() + if before@.contains_key(key) { 0nat } else { 1nat },
        forall|k: Seq<char>| k != key ==> #[trigger] after@.get(k) == before@.get(k),
{
    before.lemma_finite();
    law_insert_len(before@, key, value);
}

/// Removing a key that is not present changes nothing.
pub proof fn law_remove_absent_is_noop(m: Map<Seq<char>, TrieEntry>, key: Seq<char>)
    requires
        !m.contains_key(key),
    ensures
        after_remove(m, key) == m,
{
    assert(after_remove(m, key) =~= m);
}

} // verus!
