//! Edit distance and the character matching behind the Jaro-Winkler
//! similarity, over Unicode characters.
use vstd::prelude::*;
use crate::text::chars_of;

verus! {

/// The smallest of three numbers.
pub open spec fn min3(x: nat, y: nat, z: nat) -> nat {
    if x <= y && x <= z {
        x
    } else if y <= z {
        y
    } else {
        z
    }
}

/// Levenshtein distance: the fewest single-character insertions, deletions
/// and substitutions that turn `a` into `b`.
pub open spec fn edit_distance(a: Seq<char>, b: Seq<char>) -> nat
    decreases a.len() + b.len(),
{
    if a.len() == 0 {
        b.len()
    } else if b.len() == 0 {
        a.len()
    } else {
        min3(
            edit_distance(a.drop_last(), b) + 1,
            edit_distance(a, b.drop_last()) + 1,
            edit_distance(a.drop_last(), b.drop_last()) + if a.last() == b.last() { 0nat } else { 1nat },
        )
    }
}

/// The distance does not depend on the order of its arguments.
pub proof fn law_edit_distance_symmetric(a: Seq<char>, b: Seq<char>)
    ensures
        edit_distance(a, b) == edit_distance(b, a),
    decreases a.len() + b.len(),
{
    if a.len() > 0 && b.len() > 0 {
        law_edit_distance_symmetric(a.drop_last(), b);
        law_edit_distance_symmetric(a, b.drop_last());
        law_edit_distance_symmetric(a.drop_last(), b.drop_last());
    }
}

/// The distance never exceeds the length of the longer string.
pub proof fn law_edit_distance_bounded(a: Seq<char>, b: Seq<char>)
    ensures
        edit_distance(a, b) <= if a.len() >= b.len() { a.len() } else { b.len() },
    decreases a.len() + b.len(),
{
    if a.len() > 0 && b.len() > 0 {
        law_edit_distance_bounded(a.drop_last(), b.drop_last());
    }
}

/// A string is at distance zero from itself.
pub proof fn law_edit_distance_identity(a: Seq<char>)
    ensures
        edit_distance(a, a) == 0,
    decreases a.len(),
{
    if a.len() > 0 {
        law_edit_distance_identity(a.drop_last());
    }
}

/// Levenshtein edit distance over Unicode chars, using O(min(m, n)) space.
pub fn levenshtein(s1: &str, s2: &str) -> (d: usize)
    requires
        s1@.len() < usize::MAX,
        s2@.len() < usize::MAX,
    ensures
        d == edit_distance(s1@, s2@),
{
    let mut a = chars_of(s1);
    let mut b = chars_of(s2);
    if a.len() < b.len() {
        core::mem::swap(&mut a, &mut b);
        proof {
            law_edit_distance_symmetric(s1@, s2@);
        }
    }
    let ghost sa = a@;
    let ghost sb = b@;
    assert(edit_distance(sa, sb) == edit_distance(s1@, s2@));
    assert(sa.len() >= sb.len());
    if b.len() == 0 {
        return a.len();
    }
    let n = b.len();
    let mut prev: Vec<usize> = Vec::new();
    let mut j: usize = 0;
    while j <= n
        invariant
            n == sb.len(),
            n < usize::MAX,
            j <= n + 1,
            prev@.len() == j,
            forall|t: int| 0 <= t < j ==> prev@[t] == t,
        decreases n + 1 - j,
    {
        prev.push(j);
        j = j + 1;
    }
    assert forall|t: int| 0 <= t <= n implies prev@[t] == edit_distance(sa.take(0), sb.take(t)) by {
        assert(sa.take(0).len() == 0);
    }
    let mut curr: Vec<usize> = Vec::new();
    j = 0;
    while j <= n
        invariant
            n < usize::MAX,
            j <= n + 1,
            curr@.len() == j,
        decreases n + 1 - j,
    {
        curr.push(0);
        j = j + 1;
    }
    let mut i: usize = 1;
    while i <= a.len()
        invariant
            a@ == sa,
            b@ == sb,
            n == sb.len(),
            n >= 1,
            sa.len() >= n,
            sa.len() < usize::MAX,
            1 <= i <= sa.len() + 1,
            prev@.len() == n + 1,
            curr@.len() == n + 1,
            forall|t: int| 0 <= t <= n ==> prev@[t] == edit_distance(sa.take(i - 1), sb.take(t)),
        decreases sa.len() + 1 - i,
    {
        curr.set(0, i);
        assert(sb.take(0).len() == 0);
        assert(curr@[0] == edit_distance(sa.take(i as int), sb.take(0)));
        let mut jj: usize = 1;
        while jj <= n
            invariant
                a@ == sa,
                b@ == sb,
                n == sb.len(),
                sa.len() >= n,
                sa.len() < usize::MAX,
                1 <= i <= sa.len(),
                1 <= jj <= n + 1,
                prev@.len() == n + 1,
                curr@.len() == n + 1,
                forall|t: int| 0 <= t <= n ==> prev@[t] == edit_distance(sa.take(i - 1), sb.take(t)),
                forall|t: int| 0 <= t < jj ==> curr@[t] == edit_distance(sa.take(i as int), sb.take(t)),
            decreases n + 1 - jj,
        {
            let ghost x = sa.take(i as int);
            let ghost y = sb.take(jj as int);
            assert(x.drop_last() =~= sa.take(i - 1));
            assert(y.drop_last() =~= sb.take(jj - 1));
            assert(x.last() == sa[i - 1]);
            assert(y.last() == sb[jj - 1]);
            proof {
                law_edit_distance_bounded(sa.take(i - 1), sb.take(jj as int));
                law_edit_distance_bounded(x, sb.take(jj - 1));
                law_edit_distance_bounded(sa.take(i - 1), sb.take(jj - 1));
            }
            let cost: usize = if a[i - 1] == b[jj - 1] { 0 } else { 1 };
            let del = prev[jj] + 1;
            let ins = curr[jj - 1] + 1;
            let sub = prev[jj - 1] + cost;
            let mut best = if del < ins { del } else { ins };
            if sub < best {
                best = sub;
            }
            curr.set(jj, best);
            jj = jj + 1;
        }
        core::mem::swap(&mut prev, &mut curr);
        i = i + 1;
    }
    assert(sa.take(sa.len() as int) =~= sa);
    assert(sb.take(n as int) =~= sb);
    prev[n]
}

// ---------------------------------------------------------------------------
// Jaro matching

/// How far apart (in positions) two equal characters may be and still match:
/// half the longer length, less one, and never below zero.
pub open spec fn match_window(la: nat, lb: nat) -> int {
    let m = (if la >= lb { la } else { lb }) / 2;
    if m >= 1 { m - 1 } else { 0 }
}

/// The first position in `[lo, hi)` of `b` that is still unmatched and holds `c`.
pub open spec fn first_free(c: char, b: Seq<char>, bm: Seq<bool>, lo: int, hi: int) -> Option<int>
    decreases hi - lo,
{
    if lo >= hi {
        None
    } else if !bm[lo] && b[lo] == c {
        Some(lo)
    } else {
        first_free(c, b, bm, lo + 1, hi)
    }
}

/// The matching after the first `i` characters of `a`: which characters of
/// `a` and of `b` are matched, and how many pairs. Each character of `a`, in
/// order, takes the first unmatched equal character of `b` within the window.
pub open spec fn greedy(a: Seq<char>, b: Seq<char>, i: nat) -> (Seq<bool>, Seq<bool>, nat)
    decreases i,
{
    if i == 0 {
        (Seq::new(a.len(), |k: int| false), Seq::new(b.len(), |k: int| false), 0)
    } else {
        let (am, bm, c) = greedy(a, b, (i - 1) as nat);
        let k = i - 1;
        let w = match_window(a.len(), b.len());
        let lo = if k >= w { k - w } else { 0 };
        let hi = if k + w + 1 <= b.len() { k + w + 1 } else { b.len() as int };
        match first_free(a[k], b, bm, lo, hi) {
            Some(j) => (am.update(k, true), bm.update(j, true), c + 1),
            None => (am, bm, c),
        }
    }
}

/// The characters of `s` whose flag is set, in order.
pub open spec fn flagged(s: Seq<char>, f: Seq<bool>) -> Seq<char>
    decreases s.len(),
{
    if s.len() == 0 || f.len() == 0 {
        Seq::empty()
    } else if f.last() {
        flagged(s.drop_last(), f.drop_last()).push(s.last())
    } else {
        flagged(s.drop_last(), f.drop_last())
    }
}

/// Number of positions at which two sequences of equal length differ.
pub open spec fn differing(x: Seq<char>, y: Seq<char>) -> nat
    decreases x.len(),
{
    if x.len() == 0 || y.len() == 0 {
        0
    } else {
        differing(x.drop_last(), y.drop_last()) + if x.last() != y.last() { 1nat } else { 0nat }
    }
}

/// Number of set flags.
pub open spec fn nflags(f: Seq<bool>) -> nat
    decreases f.len(),
{
    if f.len() == 0 { 0 } else { nflags(f.drop_last()) + if f.last() { 1nat } else { 0nat } }
}

/// The counts the Jaro similarity is computed from.
pub struct JaroCounts {
    pub len_a: usize,
    pub len_b: usize,
    /// Matched pairs.
    pub matches: usize,
    /// Positions at which the matched characters of the two texts, read in
    /// order, differ (twice the number of transpositions).
    pub transpositions: usize,
}

proof fn lemma_first_free(c: char, b: Seq<char>, bm: Seq<bool>, lo: int, hi: int)
    requires
        0 <= lo,
        hi <= b.len(),
        bm.len() == b.len(),
    ensures
        first_free(c, b, bm, lo, hi) matches Some(j) ==> lo <= j < hi && !bm[j] && b[j] == c,
    decreases hi - lo,
{
    if lo < hi && !(!bm[lo] && b[lo] == c) {
        lemma_first_free(c, b, bm, lo + 1, hi);
    }
}

proof fn lemma_greedy(a: Seq<char>, b: Seq<char>, i: nat)
    requires
        i <= a.len(),
    ensures
        greedy(a, b, i).0.len() == a.len(),
        greedy(a, b, i).1.len() == b.len(),
        nflags(greedy(a, b, i).0) == greedy(a, b, i).2,
        nflags(greedy(a, b, i).1) == greedy(a, b, i).2,
        forall|k: int| i <= k < a.len() ==> !(#[trigger] greedy(a, b, i).0[k]),
        greedy(a, b, i).2 <= i,
    decreases i,
{
    if i == 0 {
        lemma_nflags_none(Seq::new(a.len(), |k: int| false));
        lemma_nflags_none(Seq::new(b.len(), |k: int| false));
    } else {
        lemma_greedy(a, b, (i - 1) as nat);
        let (am, bm, c) = greedy(a, b, (i - 1) as nat);
        let k = i - 1;
        let w = match_window(a.len(), b.len());
        let lo = if k >= w { k - w } else { 0 };
        let hi = if k + w + 1 <= b.len() { k + w + 1 } else { b.len() as int };
        lemma_first_free(a[k], b, bm, lo, hi);
        match first_free(a[k], b, bm, lo, hi) {
            Some(j) => {
                lemma_nflags_set(am, k);
                lemma_nflags_set(bm, j);
            },
            None => {},
        }
    }
}

proof fn lemma_nflags_none(f: Seq<bool>)
    requires
        forall|k: int| 0 <= k < f.len() ==> !f[k],
    ensures
        nflags(f) == 0,
    decreases f.len(),
{
    if f.len() > 0 {
        lemma_nflags_none(f.drop_last());
    }
}

/// Setting an unset flag adds one to the count.
proof fn lemma_nflags_set(f: Seq<bool>, k: int)
    requires
        0 <= k < f.len(),
        !f[k],
    ensures
        nflags(f.update(k, true)) == nflags(f) + 1,
    decreases f.len(),
{
    let g = f.update(k, true);
    if k == f.len() - 1 {
        assert(g.drop_last() =~= f.drop_last());
    } else {
        assert(g.drop_last() =~= f.drop_last().update(k, true));
        lemma_nflags_set(f.drop_last(), k);
    }
}

proof fn lemma_flagged_step(s: Seq<char>, f: Seq<bool>, i: int)
    requires
        0 <= i < s.len(),
        s.len() == f.len(),
    ensures
        flagged(s.take(i + 1), f.take(i + 1)) == if f[i] { flagged(s.take(i), f.take(i)).push(s[i]) } else { flagged(s.take(i), f.take(i)) },
        nflags(f.take(i + 1)) == nflags(f.take(i)) + if f[i] { 1nat } else { 0nat },
{
    assert(s.take(i + 1).drop_last() =~= s.take(i));
    assert(f.take(i + 1).drop_last() =~= f.take(i));
}

proof fn lemma_flagged_len(s: Seq<char>, f: Seq<bool>)
    requires
        s.len() == f.len(),
    ensures
        flagged(s, f).len() == nflags(f),
    decreases s.len(),
{
    if s.len() > 0 {
        lemma_flagged_len(s.drop_last(), f.drop_last());
    }
}

/// Flags in a suffix: with `f.take(k)` holding fewer flags than `f`, some
/// position at or after `k` is set.
proof fn lemma_flag_after(f: Seq<bool>, k: int)
    requires
        0 <= k <= f.len(),
        nflags(f.take(k)) < nflags(f),
    ensures
        exists|j: int| k <= j < f.len() && f[j],
    decreases f.len() - k,
{
    if k == f.len() {
        assert(f.take(k) =~= f);
    } else if f[k] {
    } else {
        lemma_flagged_step(Seq::new(f.len(), |x: int| ' '), f, k);
        lemma_flag_after(f, k + 1);
    }
}

proof fn lemma_differing_push(x: Seq<char>, y: Seq<char>, p: char, q: char)
    ensures
        differing(x.push(p), y.push(q)) == differing(x, y) + if p != q { 1nat } else { 0nat },
{
    assert(x.push(p).drop_last() =~= x);
    assert(y.push(q).drop_last() =~= y);
}

/// The Jaro counts of two texts: their lengths, the pairs matched within the
/// window, and the positions at which the matched characters, read in order,
/// differ.
pub fn jaro_counts(s1: &str, s2: &str) -> (r: JaroCounts)
    ensures
        r.len_a == s1@.len(),
        r.len_b == s2@.len(),
        r.matches == greedy(s1@, s2@, s1@.len()).2,
        r.transpositions == differing(
            flagged(s1@, greedy(s1@, s2@, s1@.len()).0),
            flagged(s2@, greedy(s1@, s2@, s1@.len()).1),
        ),
{
    let a = chars_of(s1);
    let b = chars_of(s2);
    let la = a.len();
    let lb = b.len();
    let longer = if la >= lb { la } else { lb };
    let half = longer / 2;
    let md: usize = if half >= 1 { half - 1 } else { 0 };
    let mut a_match: Vec<bool> = vec![false; la];
    let mut b_match: Vec<bool> = vec![false; lb];
    let mut matches: usize = 0;
    let mut i: usize = 0;
    proof {
        assert(a_match@ =~= Seq::new(a@.len(), |k: int| false));
        assert(b_match@ =~= Seq::new(b@.len(), |k: int| false));
    }
    while i < la
        invariant
            a@ == s1@,
            b@ == s2@,
            la == a@.len(),
            lb == b@.len(),
            md == match_window(la as nat, lb as nat),
            i <= la,
            (a_match@, b_match@, matches as nat) == greedy(a@, b@, i as nat),
            matches <= i,
        decreases la - i,
    {
        proof {
            lemma_greedy(a@, b@, i as nat);
        }
        let start: usize = if i >= md { i - md } else { 0 };
        let end: usize = if i < lb && md < lb - i { i + md + 1 } else { lb };
        let ghost bm0 = b_match@;
        let mut j: usize = start;
        let mut found: Option<usize> = None;
        while j < end
            invariant_except_break
                start <= j,
                j <= end || j == start,
                end <= lb,
                lb == b@.len(),
                b_match@ == bm0,
                bm0.len() == lb,
                i < a@.len(),
                found is None,
                first_free(a@[i as int], b@, bm0, start as int, end as int) == first_free(a@[i as int], b@, bm0, j as int, end as int),
            ensures
                b_match@ == bm0,
                match found {
                    Some(x) => first_free(a@[i as int], b@, bm0, start as int, end as int) == Some(x as int),
                    None => first_free(a@[i as int], b@, bm0, start as int, end as int) is None,
                },
            decreases end - j,
        {
            if !b_match[j] && a[i] == b[j] {
                found = Some(j);
                break;
            }
            j = j + 1;
        }
        match found {
            Some(x) => {
                proof {
                    lemma_first_free(a@[i as int], b@, bm0, start as int, end as int);
                }
                a_match.set(i, true);
                b_match.set(x, true);
                matches = matches + 1;
            },
            None => {},
        }
        i = i + 1;
    }
    proof {
        lemma_greedy(a@, b@, la as nat);
    }
    // Read the matched characters of both texts in order and count the
    // positions at which they differ.
    let ghost am = a_match@;
    let ghost bm = b_match@;
    let mut t: usize = 0;
    let mut k: usize = 0;
    let mut i: usize = 0;
    proof {
        assert(a@.take(0) =~= Seq::<char>::empty());
        assert(am.take(0) =~= Seq::<bool>::empty());
        assert(b@.take(0) =~= Seq::<char>::empty());
        assert(bm.take(0) =~= Seq::<bool>::empty());
        lemma_flagged_len(a@, am);
        lemma_flagged_len(b@, bm);
    }
    while i < la
        invariant
            la == a@.len(),
            lb == b@.len(),
            am == a_match@,
            bm == b_match@,
            am.len() == la,
            bm.len() == lb,
            nflags(am) == nflags(bm),
            i <= la,
            k <= lb,
            nflags(am.take(i as int)) == nflags(bm.take(k as int)),
            t == differing(flagged(a@.take(i as int), am.take(i as int)), flagged(b@.take(k as int), bm.take(k as int))),
            t <= i,
            flagged(a@.take(i as int), am.take(i as int)).len() == nflags(am.take(i as int)),
            flagged(b@.take(k as int), bm.take(k as int)).len() == nflags(bm.take(k as int)),
        decreases la - i,
    {
        proof {
            lemma_flagged_step(a@, am, i as int);
        }
        if a_match[i] {
            proof {
                // Fewer flags before k in b than in all of b, so a flag lies ahead.
                assert(nflags(am.take(i + 1)) <= nflags(am)) by {
                    lemma_nflags_prefix(am, i + 1);
                }
                lemma_flag_after(bm, k as int);
            }
            let ghost fb0 = flagged(b@.take(k as int), bm.take(k as int));
            let ghost n0 = nflags(bm.take(k as int));
            while !b_match[k]
                invariant
                    k < lb,
                    lb == bm.len(),
                    lb == b@.len(),
                    bm == b_match@,
                    exists|j: int| k <= j < lb && bm[j],
                    nflags(bm.take(k as int)) == n0,
                    flagged(b@.take(k as int), bm.take(k as int)) == fb0,
                decreases lb - k,
            {
                proof {
                    lemma_flagged_step(b@, bm, k as int);
                }
                k = k + 1;
            }
            proof {
                lemma_flagged_step(b@, bm, k as int);
                lemma_differing_push(
                    flagged(a@.take(i as int), am.take(i as int)),
                    flagged(b@.take(k as int), bm.take(k as int)),
                    a@[i as int],
                    b@[k as int],
                );
            }
            if a[i] != b[k] {
                t = t + 1;
            }
            k = k + 1;
        }
        i = i + 1;
    }
    proof {
        assert(a@.take(la as int) =~= a@);
        assert(am.take(la as int) =~= am);
        lemma_flagged_rest(b@, bm, k as int);
    }
    JaroCounts { len_a: la, len_b: lb, matches, transpositions: t }
}

/// With as many flags before `k` as in all of `f`, the flagged characters
/// before `k` are all of them.
proof fn lemma_flagged_rest(s: Seq<char>, f: Seq<bool>, k: int)
    requires
        0 <= k <= f.len(),
        s.len() == f.len(),
        nflags(f.take(k)) == nflags(f),
    ensures
        flagged(s.take(k), f.take(k)) == flagged(s, f),
    decreases f.len() - k,
{
    if k == f.len() {
        assert(f.take(k) =~= f);
        assert(s.take(k) =~= s);
    } else {
        lemma_flagged_step(s, f, k);
        lemma_nflags_prefix(f, k + 1);
        lemma_flagged_rest(s, f, k + 1);
    }
}

proof fn lemma_nflags_prefix(f: Seq<bool>, k: int)
    requires
        0 <= k <= f.len(),
    ensures
        nflags(f.take(k)) <= nflags(f),
    decreases f.len() - k,
{
    if k < f.len() {
        lemma_flagged_step(Seq::new(f.len(), |x: int| ' '), f, k);
        lemma_nflags_prefix(f, k + 1);
    } else {
        assert(f.take(k) =~= f);
    }
}

/// Length of the common prefix of two texts, counting at most four characters.
pub open spec fn prefix4(a: Seq<char>, b: Seq<char>) -> nat
    decreases 4 - 0int,
{
    prefix_from(a, b, 0)
}

/// Common prefix length from position `i`, capped at four.
pub open spec fn prefix_from(a: Seq<char>, b: Seq<char>, i: nat) -> nat
    decreases 4 - i,
{
    if i >= 4 || i >= a.len() || i >= b.len() || a[i as int] != b[i as int] {
        0
    } else {
        1 + prefix_from(a, b, i + 1)
    }
}

/// The common prefix the Winkler adjustment rewards: matching leading
/// characters, at most four.
pub fn common_prefix4(s1: &str, s2: &str) -> (n: usize)
    ensures
        n == prefix4(s1@, s2@),
{
    let a = chars_of(s1);
    let b = chars_of(s2);
    let mut n: usize = 0;
    while n < 4 && n < a.len() && n < b.len() && a[n] == b[n]
        invariant
            a@ == s1@,
            b@ == s2@,
            n <= 4,
            prefix_from(a@, b@, 0) == n + prefix_from(a@, b@, n as nat),
        decreases 4 - n,
    {
        n = n + 1;
    }
    n
}

} // verus!
