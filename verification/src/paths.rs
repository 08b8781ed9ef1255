//! Unix path text: components, prefix tests and file names, with the meaning
//! `std::path::Path` gives them on Unix.
use vstd::prelude::*;
use crate::text::{chars_of, string_from_chars};

verus! {

/// The pieces of `p` between '/' separators, empty pieces included.
pub open spec fn segments(p: Seq<char>) -> Seq<Seq<char>>
    decreases p.len(),
{
    if p.len() == 0 {
        seq![Seq::<char>::empty()]
    } else if p.last() == '/' {
        segments(p.drop_last()).push(Seq::<char>::empty())
    } else {
        let s = segments(p.drop_last());
        s.update(s.len() - 1, s.last().push(p.last()))
    }
}

/// A piece that names something: not empty and not ".".
pub open spec fn is_named(seg: Seq<char>) -> bool {
    seg.len() > 0 && seg != seq!['.']
}

/// The named pieces of `segs`, in order.
pub open spec fn named(segs: Seq<Seq<char>>) -> Seq<Seq<char>>
    decreases segs.len(),
{
    if segs.len() == 0 {
        Seq::empty()
    } else if is_named(segs.last()) {
        named(segs.drop_last()).push(segs.last())
    } else {
        named(segs.drop_last())
    }
}

/// The component a path starts with, if any: "/" for the root of an absolute
/// path, "." for a relative path that begins with "./" (or is "."), none otherwise.
pub open spec fn leading(p: Seq<char>) -> Seq<Seq<char>> {
    if p.len() > 0 && p[0] == '/' {
        seq![seq!['/']]
    } else if p.len() > 0 && p[0] == '.' && (p.len() == 1 || p[1] == '/') {
        seq![seq!['.']]
    } else {
        Seq::empty()
    }
}

/// The components of a path: the leading root or current-directory marker,
/// then every named piece ("." pieces and repeated separators are dropped,
/// ".." is kept).
pub open spec fn components(p: Seq<char>) -> Seq<Seq<char>> {
    leading(p) + named(segments(p))
}

/// `p` starts with the components of `base`, the way `Path::starts_with` compares.
pub open spec fn path_starts_with(p: Seq<char>, base: Seq<char>) -> bool {
    components(base).len() <= components(p).len()
        && components(p).take(components(base).len() as int) == components(base)
}

/// The final component of `p` when it names a file or directory (`Path::file_name`).
pub open spec fn file_name(p: Seq<char>) -> Option<Seq<char>> {
    let n = named(segments(p));
    if n.len() > 0 && n.last() != seq!['.', '.'] {
        Some(n.last())
    } else {
        None
    }
}

/// Position of the last '.' in `s`, if any.
pub open spec fn last_dot(s: Seq<char>) -> Option<int>
    decreases s.len(),
{
    if s.len() == 0 {
        None
    } else if s.last() == '.' {
        Some(s.len() - 1)
    } else {
        last_dot(s.drop_last())
    }
}

/// The extension of a file name: the text after its last '.', unless that dot
/// is the first character (`Path::extension`).
pub open spec fn name_extension(name: Seq<char>) -> Option<Seq<char>> {
    if name == seq!['.', '.'] {
        None
    } else {
        match last_dot(name) {
            Some(k) => if k > 0 { Some(name.skip(k + 1)) } else { None },
            None => None,
        }
    }
}

/// The stem of a file name: the text before its last '.', or the whole name
/// when there is no such dot past the first character (`Path::file_stem`).
pub open spec fn name_stem(name: Seq<char>) -> Seq<char> {
    if name == seq!['.', '.'] {
        name
    } else {
        match last_dot(name) {
            Some(k) => if k > 0 { name.take(k) } else { name },
            None => name,
        }
    }
}

/// The extension of a path (`Path::extension`).
pub open spec fn path_extension(p: Seq<char>) -> Option<Seq<char>> {
    match file_name(p) {
        Some(n) => name_extension(n),
        None => None,
    }
}

/// The stem of a path's file name (`Path::file_stem`).
pub open spec fn path_stem(p: Seq<char>) -> Option<Seq<char>> {
    match file_name(p) {
        Some(n) => Some(name_stem(n)),
        None => None,
    }
}

proof fn lemma_last_dot_bound(s: Seq<char>)
    ensures
        last_dot(s) matches Some(k) ==> 0 <= k < s.len() && s[k] == '.',
    decreases s.len(),
{
    if s.len() > 0 && s.last() != '.' {
        lemma_last_dot_bound(s.drop_last());
    }
}

proof fn lemma_segments_nonempty(p: Seq<char>)
    ensures
        segments(p).len() >= 1,
    decreases p.len(),
{
    if p.len() > 0 {
        lemma_segments_nonempty(p.drop_last());
    }
}

/// The pieces of `p` between '/' separators.
fn split_segments(p: &Vec<char>) -> (r: Vec<Vec<char>>)
    ensures
        r@.len() == segments(p@).len(),
        forall|i: int| 0 <= i < r@.len() ==> (#[trigger] r@[i])@ == segments(p@)[i],
{
    let mut r: Vec<Vec<char>> = Vec::new();
    r.push(Vec::new());
    proof {
        assert(p@.take(0) =~= Seq::<char>::empty());
    }
    let mut i: usize = 0;
    while i < p.len()
        invariant
            i <= p@.len(),
            r@.len() == segments(p@.take(i as int)).len(),
            r@.len() >= 1,
            forall|k: int| 0 <= k < r@.len() ==> (#[trigger] r@[k])@ == segments(p@.take(i as int))[k],
        decreases p@.len() - i,
    {
        let ghost before = p@.take(i as int);
        let ghost after = p@.take(i + 1);
        proof {
            assert(after.drop_last() =~= before);
            assert(after.last() == p@[i as int]);
            lemma_segments_nonempty(before);
        }
        let c = p[i];
        if c == '/' {
            r.push(Vec::new());
            proof {
                assert forall|k: int| 0 <= k < r@.len() implies (#[trigger] r@[k])@ == segments(after)[k] by {
                    if k == r@.len() - 1 {
                        assert(r@[k]@ =~= Seq::<char>::empty());
                    }
                }
            }
        } else {
            let last = r.len() - 1;
            let mut seg = r[last].clone();
            proof {
                assert(seg@ == segments(before)[last as int]);
            }
            seg.push(c);
            r.set(last, seg);
            proof {
                assert forall|k: int| 0 <= k < r@.len() implies (#[trigger] r@[k])@ == segments(after)[k] by {
                    if k == last as int {
                        assert(r@[k]@ =~= segments(before).last().push(c));
                    }
                }
            }
        }
        i = i + 1;
    }
    proof {
        assert(p@.take(p@.len() as int) =~= p@);
    }
    r
}

/// Keep the named pieces of `segs`.
fn keep_named(segs: &Vec<Vec<char>>, view: Ghost<Seq<Seq<char>>>) -> (r: Vec<Vec<char>>)
    requires
        segs@.len() == view@.len(),
        forall|i: int| 0 <= i < segs@.len() ==> (#[trigger] segs@[i])@ == view@[i],
    ensures
        r@.len() == named(view@).len(),
        forall|i: int| 0 <= i < r@.len() ==> (#[trigger] r@[i])@ == named(view@)[i],
{
    let mut r: Vec<Vec<char>> = Vec::new();
    let mut i: usize = 0;
    proof {
        assert(view@.take(0) =~= Seq::<Seq<char>>::empty());
    }
    while i < segs.len()
        invariant
            i <= segs@.len(),
            segs@.len() == view@.len(),
            forall|k: int| 0 <= k < segs@.len() ==> (#[trigger] segs@[k])@ == view@[k],
            r@.len() == named(view@.take(i as int)).len(),
            forall|k: int| 0 <= k < r@.len() ==> (#[trigger] r@[k])@ == named(view@.take(i as int))[k],
        decreases segs@.len() - i,
    {
        let ghost before = view@.take(i as int);
        let ghost after = view@.take(i + 1);
        proof {
            assert(after.drop_last() =~= before);
            assert(after.last() == view@[i as int]);
        }
        let seg = &segs[i];
        let keep = seg.len() > 0 && !(seg.len() == 1 && seg[0] == '.');
        proof {
            assert(segs@[i as int]@ == view@[i as int]);
            if seg@.len() == 1 && seg@[0] == '.' {
                assert(seg@ =~= seq!['.']);
            }
            if seg@ == seq!['.'] {
                assert(seg@.len() == 1 && seg@[0] == '.');
            }
            assert(keep == is_named(view@[i as int]));
        }
        if keep {
            r.push(seg.clone());
            proof {
                assert forall|k: int| 0 <= k < r@.len() implies (#[trigger] r@[k])@ == named(after)[k] by {
                    if k == r@.len() - 1 {
                        assert(r@[k]@ == seg@);
                    }
                }
            }
        }
        i = i + 1;
    }
    proof {
        assert(view@.take(segs@.len() as int) =~= view@);
    }
    r
}

/// The components of a path, as `components` describes them.
pub fn path_components(p: &str) -> (r: Vec<Vec<char>>)
    ensures
        r@.len() == components(p@).len(),
        forall|i: int| 0 <= i < r@.len() ==> (#[trigger] r@[i])@ == components(p@)[i],
{
    let chars = chars_of(p);
    let segs = split_segments(&chars);
    let names = keep_named(&segs, Ghost(segments(p@)));
    let mut r: Vec<Vec<char>> = Vec::new();
    if chars.len() > 0 && chars[0] == '/' {
        r.push(vec!['/']);
    } else if chars.len() > 0 && chars[0] == '.' && (chars.len() == 1 || chars[1] == '/') {
        r.push(vec!['.']);
    }
    let ghost lead = leading(p@);
    proof {
        assert(r@.len() == lead.len());
        assert forall|k: int| 0 <= k < r@.len() implies (#[trigger] r@[k])@ == lead[k] by {
            if chars@.len() > 0 && chars@[0] == '/' {
                assert(r@[k]@ =~= seq!['/']);
            } else {
                assert(r@[k]@ =~= seq!['.']);
            }
        }
    }
    let mut j: usize = 0;
    let ghost n0 = r@.len();
    while j < names.len()
        invariant
            j <= names@.len(),
            n0 == lead.len(),
            lead == leading(p@),
            names@.len() == named(segments(p@)).len(),
            forall|k: int| 0 <= k < names@.len() ==> (#[trigger] names@[k])@ == named(segments(p@))[k],
            r@.len() == n0 + j,
            forall|k: int| 0 <= k < r@.len() ==> (#[trigger] r@[k])@ == (lead + named(segments(p@)))[k],
        decreases names@.len() - j,
    {
        r.push(names[j].clone());
        proof {
            assert forall|k: int| 0 <= k < r@.len() implies (#[trigger] r@[k])@ == (lead + named(segments(p@)))[k] by {
                if k == r@.len() - 1 {
                    assert(r@[k]@ == names@[j as int]@);
                }
            }
        }
        j = j + 1;
    }
    r
}

fn chars_equal(a: &Vec<char>, b: &Vec<char>) -> (r: bool)
    ensures
        r == (a@ == b@),
{
    if a.len() != b.len() {
        return false;
    }
    let mut i: usize = 0;
    while i < a.len()
        invariant
            a@.len() == b@.len(),
            i <= a@.len(),
            forall|t: int| 0 <= t < i ==> a@[t] == b@[t],
        decreases a@.len() - i,
    {
        if a[i] != b[i] {
            return false;
        }
        i = i + 1;
    }
    assert(a@ =~= b@);
    true
}

/// Whether `p` lies at or under `base`, component by component (`Path::starts_with`).
pub fn starts_with_path(p: &str, base: &str) -> (r: bool)
    ensures
        r == path_starts_with(p@, base@),
{
    let pc = path_components(p);
    let bc = path_components(base);
    let ghost cp = components(p@);
    let ghost cb = components(base@);
    if bc.len() > pc.len() {
        return false;
    }
    let mut i: usize = 0;
    while i < bc.len()
        invariant
            bc@.len() <= pc@.len(),
            i <= bc@.len(),
            pc@.len() == cp.len(),
            bc@.len() == cb.len(),
            cp == components(p@),
            cb == components(base@),
            forall|k: int| 0 <= k < pc@.len() ==> (#[trigger] pc@[k])@ == cp[k],
            forall|k: int| 0 <= k < bc@.len() ==> (#[trigger] bc@[k])@ == cb[k],
            forall|k: int| 0 <= k < i ==> cp[k] == cb[k],
        decreases bc@.len() - i,
    {
        if !chars_equal(&pc[i], &bc[i]) {
            proof {
                assert(cp.take(cb.len() as int)[i as int] != cb[i as int]);
            }
            return false;
        }
        i = i + 1;
    }
    assert(cp.take(cb.len() as int) =~= cb);
    true
}

/// The final component of `p` when it names something (`Path::file_name`).
pub fn path_file_name(p: &str) -> (r: Option<String>)
    ensures
        match r {
            Some(s) => file_name(p@) == Some(s@),
            None => file_name(p@) is None,
        },
{
    let chars = chars_of(p);
    let segs = split_segments(&chars);
    let names = keep_named(&segs, Ghost(segments(p@)));
    if names.len() == 0 {
        return None;
    }
    let last = &names[names.len() - 1];
    proof {
        assert(last@ == named(segments(p@)).last());
    }
    if last.len() == 2 && last[0] == '.' && last[1] == '.' {
        proof {
            assert(last@ =~= seq!['.', '.']);
        }
        return None;
    }
    proof {
        if last@ == seq!['.', '.'] {
            assert(last@[0] == '.' && last@[1] == '.');
        }
    }
    Some(string_from_chars(last.as_slice()))
}

/// Position of the last '.' in `s`.
fn find_last_dot(s: &Vec<char>) -> (r: Option<usize>)
    ensures
        match r {
            Some(k) => last_dot(s@) == Some(k as int),
            None => last_dot(s@) is None,
        },
{
    let mut i: usize = s.len();
    proof {
        assert(s@.take(s@.len() as int) =~= s@);
    }
    while i > 0
        invariant
            i <= s@.len(),
            last_dot(s@) == last_dot(s@.take(i as int)),
        decreases i,
    {
        let ghost t = s@.take(i as int);
        proof {
            assert(t.drop_last() =~= s@.take(i - 1));
            assert(t.last() == s@[i - 1]);
        }
        if s[i - 1] == '.' {
            return Some(i - 1);
        }
        i = i - 1;
    }
    proof {
        assert(s@.take(0) =~= Seq::<char>::empty());
    }
    None
}

/// Split a file name into its stem and extension (`Path::file_stem`, `Path::extension`).
pub fn split_name(name: &str) -> (r: (String, Option<String>))
    ensures
        r.0@ == name_stem(name@),
        match r.1 {
            Some(e) => name_extension(name@) == Some(e@),
            None => name_extension(name@) is None,
        },
{
    let chars = chars_of(name);
    if chars.len() == 2 && chars[0] == '.' && chars[1] == '.' {
        proof {
            assert(name@ =~= seq!['.', '.']);
        }
        return (string_from_chars(chars.as_slice()), None);
    }
    proof {
        if name@ == seq!['.', '.'] {
            assert(chars@[0] == '.' && chars@[1] == '.');
        }
    }
    proof {
        lemma_last_dot_bound(name@);
    }
    match find_last_dot(&chars) {
        Some(k) => {
            if k > 0 {
                let stem = string_from_chars(&chars.as_slice()[0..k]);
                let ext = string_from_chars(&chars.as_slice()[k + 1..chars.len()]);
                proof {
                    assert(chars@.subrange(0, k as int) =~= name@.take(k as int));
                    assert(chars@.subrange(k + 1, chars@.len() as int) =~= name@.skip(k + 1));
                }
                (stem, Some(ext))
            } else {
                (string_from_chars(chars.as_slice()), None)
            }
        },
        None => (string_from_chars(chars.as_slice()), None),
    }
}

} // verus!
