//! Reading installed applications: the `.desktop` entry format of Linux
//! desktops, turned into application rows.
use vstd::prelude::*;
use crate::storage::AppRow;
use crate::network::crypto::{sha256, sha256_digest};
use crate::network::transfer::{hex_text, to_hex};
use vstd::string::StringSliceAdditionalSpecFns;
use crate::text::{chars_of, string_from_chars, trim_chars, trimmed, is_ws, is_whitespace};

verus! {

/// Errors raised while discovering or indexing installed applications.
#[derive(Debug)]
pub enum AppIndexError {
    Io(String),
    Db(String),
    Parse(String),
}

// ---------------------------------------------------------------------------
// Lines and words

/// The pieces of `s` between '\n' characters, empty pieces included.
pub open spec fn nl_pieces(s: Seq<char>) -> Seq<Seq<char>>
    decreases s.len(),
{
    if s.len() == 0 {
        seq![Seq::<char>::empty()]
    } else if s.last() == '\n' {
        nl_pieces(s.drop_last()).push(Seq::<char>::empty())
    } else {
        let p = nl_pieces(s.drop_last());
        p.update(p.len() - 1, p.last().push(s.last()))
    }
}

/// The lines of a text as `str::lines` gives them, before trimming: the
/// pieces between newlines, without the empty piece after a final newline.
/// (A '\r' before the newline stays; every line is trimmed before use, which
/// removes it just as `lines` would.)
pub open spec fn raw_lines(s: Seq<char>) -> Seq<Seq<char>> {
    let p = nl_pieces(s);
    if p.last().len() == 0 { p.drop_last() } else { p }
}

/// The pieces of `s` between whitespace characters, empty pieces included.
pub open spec fn ws_pieces(s: Seq<char>) -> Seq<Seq<char>>
    decreases s.len(),
{
    if s.len() == 0 {
        seq![Seq::<char>::empty()]
    } else if is_ws(s.last()) {
        ws_pieces(s.drop_last()).push(Seq::<char>::empty())
    } else {
        let p = ws_pieces(s.drop_last());
        p.update(p.len() - 1, p.last().push(s.last()))
    }
}

/// A word kept in a launch command: not empty and not a field code ('%...').
pub open spec fn kept_word(w: Seq<char>) -> bool {
    w.len() > 0 && w[0] != '%'
}

/// The kept words among `ws`, in order.
pub open spec fn kept_words(ws: Seq<Seq<char>>) -> Seq<Seq<char>>
    decreases ws.len(),
{
    if ws.len() == 0 {
        Seq::empty()
    } else if kept_word(ws.last()) {
        kept_words(ws.drop_last()).push(ws.last())
    } else {
        kept_words(ws.drop_last())
    }
}

/// Words joined with single spaces.
pub open spec fn join_words(ws: Seq<Seq<char>>) -> Seq<char>
    decreases ws.len(),
{
    if ws.len() == 0 {
        Seq::empty()
    } else if ws.len() == 1 {
        ws[0]
    } else {
        join_words(ws.drop_last()) + seq![' '] + ws.last()
    }
}

/// A launch command with its field codes (`%f`, `%U`, ...) removed: the
/// whitespace-separated words that do not start with '%', joined by spaces.
pub open spec fn strip_field_codes(s: Seq<char>) -> Seq<char> {
    join_words(kept_words(ws_pieces(s)))
}

// ---------------------------------------------------------------------------
// The entry

/// `l` begins with `p`.
pub open spec fn has_prefix(l: Seq<char>, p: Seq<char>) -> bool {
    p.len() <= l.len() && l.take(p.len() as int) == p
}

/// `l` contains `p` somewhere.
pub open spec fn has_infix(l: Seq<char>, p: Seq<char>) -> bool {
    exists|i: int| 0 <= i && i + p.len() <= l.len() && #[trigger] l.subrange(i, i + p.len()) == p
}

/// Reading state while scanning the lines of an entry.
pub enum DesktopScan {
    Reading { name: Option<Seq<char>>, command: Option<Seq<char>>, icon: Option<Seq<char>>, in_entry: bool },
    Refused(Seq<char>),
}

/// One line's effect on the scan. Inside the `[Desktop Entry]` section,
/// `Name=`, `Exec=` and `Icon=` set their fields (localised keys such as
/// `Name[fr]=` do not match), a hidden entry or a non-application type
/// refuses the whole file; other sections are ignored.
pub open spec fn scan_line(st: DesktopScan, raw: Seq<char>) -> DesktopScan {
    match st {
        DesktopScan::Refused(m) => DesktopScan::Refused(m),
        DesktopScan::Reading { name, command, icon, in_entry } => {
            let l = trimmed(raw);
            if l == "[Desktop Entry]"@ {
                DesktopScan::Reading { name, command, icon, in_entry: true }
            } else {
                let in_entry = if has_prefix(l, seq!['[']) { false } else { in_entry };
                if !in_entry {
                    DesktopScan::Reading { name, command, icon, in_entry }
                } else if has_prefix(l, "Name="@) {
                    DesktopScan::Reading { name: Some(l.skip(5)), command, icon, in_entry }
                } else if has_prefix(l, "Exec="@) {
                    DesktopScan::Reading { name, command: Some(strip_field_codes(l.skip(5))), icon, in_entry }
                } else if has_prefix(l, "Icon="@) {
                    DesktopScan::Reading { name, command, icon: Some(l.skip(5)), in_entry }
                } else if has_prefix(l, "NoDisplay=true"@) || has_prefix(l, "Hidden=true"@) {
                    DesktopScan::Refused("hidden app"@)
                } else if has_prefix(l, "Type="@) && !has_infix(l, "Application"@) {
                    DesktopScan::Refused("not an application"@)
                } else {
                    DesktopScan::Reading { name, command, icon, in_entry }
                }
            }
        },
    }
}

/// The scan after the given lines.
pub open spec fn scan_lines(lines: Seq<Seq<char>>) -> DesktopScan
    decreases lines.len(),
{
    if lines.len() == 0 {
        DesktopScan::Reading { name: None, command: None, icon: None, in_entry: false }
    } else {
        scan_line(scan_lines(lines.drop_last()), lines.last())
    }
}

/// What a `.desktop` file yields: the application (name, command, icon,
/// platform "linux") or the reason it is not one.
pub open spec fn desktop_result(content: Seq<char>) -> Result<(Seq<char>, Seq<char>, Option<Seq<char>>), Seq<char>> {
    match scan_lines(raw_lines(content)) {
        DesktopScan::Refused(m) => Err(m),
        DesktopScan::Reading { name, command, icon, in_entry } => match (name, command) {
            (Some(n), Some(e)) => Ok((n, e, icon)),
            _ => Err("missing Name or Exec"@),
        },
    }
}

// ---------------------------------------------------------------------------
// Implementation

proof fn lemma_pieces_nonempty(s: Seq<char>)
    ensures
        nl_pieces(s).len() >= 1,
        ws_pieces(s).len() >= 1,
    decreases s.len(),
{
    if s.len() > 0 {
        lemma_pieces_nonempty(s.drop_last());
    }
}

fn split_lines(s: &Vec<char>) -> (r: Vec<Vec<char>>)
    ensures
        r@.len() == raw_lines(s@).len(),
        forall|i: int| 0 <= i < r@.len() ==> (#[trigger] r@[i])@ == raw_lines(s@)[i],
{
    let mut r: Vec<Vec<char>> = Vec::new();
    let mut cur: Vec<char> = Vec::new();
    let mut i: usize = 0;
    proof {
        assert(s@.take(0) =~= Seq::<char>::empty());
    }
    while i < s.len()
        invariant
            i <= s@.len(),
            nl_pieces(s@.take(i as int)).len() == r@.len() + 1,
            forall|k: int| 0 <= k < r@.len() ==> (#[trigger] r@[k])@ == nl_pieces(s@.take(i as int))[k],
            cur@ == nl_pieces(s@.take(i as int)).last(),
        decreases s@.len() - i,
    {
        let ghost before = s@.take(i as int);
        let ghost after = s@.take(i + 1);
        proof {
            assert(after.drop_last() =~= before);
            lemma_pieces_nonempty(before);
        }
        let c = s[i];
        if c == '\n' {
            r.push(cur);
            cur = Vec::new();
            proof {
                assert(cur@ =~= Seq::<char>::empty());
            }
        } else {
            cur.push(c);
        }
        i = i + 1;
    }
    proof {
        assert(s@.take(s@.len() as int) =~= s@);
        let p = nl_pieces(s@);
        if p.last().len() != 0 {
            assert(cur@.len() != 0);
        }
    }
    if cur.len() > 0 {
        r.push(cur);
    }
    proof {
        let p = nl_pieces(s@);
        assert(raw_lines(s@).len() == r@.len());
        assert forall|k: int| 0 <= k < r@.len() implies (#[trigger] r@[k])@ == raw_lines(s@)[k] by {
            if k < p.len() - 1 {
                assert(raw_lines(s@)[k] == p[k]);
            }
        }
    }
    r
}

proof fn lemma_join_empty(ws: Seq<Seq<char>>)
    requires
        forall|i: int| 0 <= i < ws.len() ==> (#[trigger] ws[i]).len() > 0,
    ensures
        (join_words(ws).len() == 0) == (ws.len() == 0),
    decreases ws.len(),
{
    if ws.len() > 1 {
        lemma_join_empty(ws.drop_last());
    }
}

proof fn lemma_kept_nonempty(ws: Seq<Seq<char>>)
    ensures
        forall|i: int| 0 <= i < kept_words(ws).len() ==> kept_word(#[trigger] kept_words(ws)[i]),
    decreases ws.len(),
{
    if ws.len() > 0 {
        lemma_kept_nonempty(ws.drop_last());
        let k = kept_words(ws);
        let p = kept_words(ws.drop_last());
        assert forall|i: int| 0 <= i < k.len() implies kept_word(#[trigger] k[i]) by {
            if i < p.len() {
                assert(k[i] == p[i]);
            }
        }
    }
}

/// Remove the field codes from a launch command.
fn field_codes_stripped(s: &Vec<char>) -> (r: Vec<char>)
    ensures
        r@ == strip_field_codes(s@),
{
    let mut out: Vec<char> = Vec::new();
    let mut cur: Vec<char> = Vec::new();
    let mut i: usize = 0;
    let ghost mut done: Seq<Seq<char>> = Seq::empty();
    proof {
        assert(s@.take(0) =~= Seq::<char>::empty());
        assert(ws_pieces(Seq::<char>::empty()) =~= done.push(cur@));
    }
    while i < s.len()
        invariant
            i <= s@.len(),
            ws_pieces(s@.take(i as int)) == done.push(cur@),
            out@ == join_words(kept_words(done)),
        decreases s@.len() - i,
    {
        let ghost before = s@.take(i as int);
        let ghost after = s@.take(i + 1);
        proof {
            assert(after.drop_last() =~= before);
            assert(after.last() == s@[i as int]);
        }
        let c = s[i];
        if is_whitespace(c) {
            let keep = cur.len() > 0 && cur[0] != '%';
            proof {
                assert(keep == kept_word(cur@));
                lemma_kept_nonempty(done);
                lemma_join_empty(kept_words(done));
            }
            if keep {
                if out.len() > 0 {
                    out.push(' ');
                }
                let mut k: usize = 0;
                let ghost base = out@;
                while k < cur.len()
                    invariant
                        k <= cur@.len(),
                        out@ == base + cur@.take(k as int),
                    decreases cur@.len() - k,
                {
                    out.push(cur[k]);
                    proof {
                        assert(out@ =~= base + cur@.take(k + 1));
                    }
                    k = k + 1;
                }
                proof {
                    assert(cur@.take(cur@.len() as int) =~= cur@);
                    let kw = kept_words(done);
                    assert(done.push(cur@).drop_last() =~= done);
                    assert(done.push(cur@).drop_last() =~= done);
            assert(kept_words(done.push(cur@)) =~= kw.push(cur@));
                    if kw.len() == 0 {
                        assert(out@ =~= kw.push(cur@)[0]);
                    } else {
                        assert(kw.push(cur@).drop_last() =~= kw);
                        assert(out@ =~= join_words(kw) + seq![' '] + cur@);
                    }
                }
            } else {
                proof {
                    assert(done.push(cur@).drop_last() =~= done);
                    assert(done.push(cur@).drop_last() =~= done);
            assert(kept_words(done.push(cur@)) =~= kept_words(done));
                }
            }
            proof {
                done = done.push(cur@);
            }
            cur = Vec::new();
            proof {
                assert(ws_pieces(after) =~= done.push(cur@));
            }
        } else {
            cur.push(c);
            proof {
                let p = ws_pieces(before);
                assert(ws_pieces(after) =~= p.update(p.len() - 1, p.last().push(c)));
                assert(ws_pieces(after) =~= done.push(cur@));
            }
        }
        i = i + 1;
    }
    proof {
        assert(s@.take(s@.len() as int) =~= s@);
        lemma_kept_nonempty(done);
        lemma_join_empty(kept_words(done));
    }
    // The last word.
    let keep = cur.len() > 0 && cur[0] != '%';
    proof {
        assert(keep == kept_word(cur@));
    }
    if keep {
        if out.len() > 0 {
            out.push(' ');
        }
        let mut k: usize = 0;
        let ghost base = out@;
        while k < cur.len()
            invariant
                k <= cur@.len(),
                out@ == base + cur@.take(k as int),
            decreases cur@.len() - k,
        {
            out.push(cur[k]);
            proof {
                assert(out@ =~= base + cur@.take(k + 1));
            }
            k = k + 1;
        }
        proof {
            assert(cur@.take(cur@.len() as int) =~= cur@);
            let kw = kept_words(done);
            assert(done.push(cur@).drop_last() =~= done);
            assert(kept_words(done.push(cur@)) =~= kw.push(cur@));
            if kw.len() == 0 {
                assert(out@ =~= kw.push(cur@)[0]);
            } else {
                assert(kw.push(cur@).drop_last() =~= kw);
                assert(out@ =~= join_words(kw) + seq![' '] + cur@);
            }
        }
    } else {
        proof {
            assert(done.push(cur@).drop_last() =~= done);
            assert(kept_words(done.push(cur@)) =~= kept_words(done));
        }
    }
    out
}

fn starts_with_text(l: &Vec<char>, p: &str) -> (r: bool)
    ensures
        r == has_prefix(l@, p@),
{
    let pc = chars_of(p);
    if pc.len() > l.len() {
        return false;
    }
    let mut i: usize = 0;
    while i < pc.len()
        invariant
            pc@ == p@,
            pc@.len() <= l@.len(),
            i <= pc@.len(),
            forall|k: int| 0 <= k < i ==> l@[k] == pc@[k],
        decreases pc@.len() - i,
    {
        if l[i] != pc[i] {
            proof {
                assert(l@.take(pc@.len() as int)[i as int] != pc@[i as int]);
            }
            return false;
        }
        i = i + 1;
    }
    assert(l@.take(pc@.len() as int) =~= pc@);
    true
}

fn contains_text(l: &Vec<char>, p: &str) -> (r: bool)
    ensures
        r == has_infix(l@, p@),
{
    let pc = chars_of(p);
    if pc.len() > l.len() {
        proof {
            assert forall|i: int| 0 <= i && i + p@.len() <= l@.len() implies #[trigger] l@.subrange(i, i + p@.len()) != p@ by {}
        }
        return false;
    }
    if pc.len() == 0 {
        assert(l@.subrange(0int, 0int + p@.len()) =~= p@);
        return true;
    }
    let mut i: usize = 0;
    let last = l.len() - pc.len();
    while i <= last
        invariant
            pc@ == p@,
            pc@.len() <= l@.len(),
            last == l@.len() - pc@.len(),
            i <= last + 1,
            forall|k: int| 0 <= k < i ==> #[trigger] l@.subrange(k, k + p@.len()) != p@,
        decreases last + 1 - i,
    {
        let mut j: usize = 0;
        let mut same = true;
        while j < pc.len()
            invariant
                pc@ == p@,
                i + pc@.len() <= l@.len(),
                i <= last,
                last + pc.len() == l.len(),
                j <= pc@.len(),
                same == forall|k: int| 0 <= k < j ==> l@[i + k] == pc@[k],
            decreases pc@.len() - j,
        {
            if l[i + j] != pc[j] {
                same = false;
            }
            j = j + 1;
        }
        if same {
            assert(l@.subrange(i as int, i + p@.len()) =~= p@);
            return true;
        }
        proof {
            let k0 = choose|k: int| 0 <= k < pc@.len() && l@[i + k] != pc@[k];
            assert(l@.subrange(i as int, i + p@.len())[k0] != p@[k0]);
        }
        i = i + 1;
    }
    false
}

fn after_prefix(l: &Vec<char>, n: usize) -> (r: Vec<char>)
    requires
        n <= l@.len(),
    ensures
        r@ == l@.skip(n as int),
{
    let mut r: Vec<char> = Vec::new();
    let mut i: usize = n;
    while i < l.len()
        invariant
            n <= i <= l@.len(),
            r@ == l@.subrange(n as int, i as int),
        decreases l@.len() - i,
    {
        r.push(l[i]);
        proof {
            assert(r@ =~= l@.subrange(n as int, i + 1));
        }
        i = i + 1;
    }
    proof {
        assert(r@ =~= l@.skip(n as int));
    }
    r
}

/// Parse the `[Desktop Entry]` section of a .desktop file body into an
/// application row. Hidden entries, non-application types and entries
/// without a name or a command are refused.
pub fn parse_desktop_content(content: &str, source_path: &str) -> (r: Result<AppRow, AppIndexError>)
    ensures
        match desktop_result(content@) {
            Ok((n, e, icon)) => r matches Ok(row) && {
                &&& row.id == 0
                &&& row.name@ == n
                &&& row.command@ == e
                &&& (match row.icon_path { Some(p) => icon == Some(p@), None => icon is None })
                &&& row.platform@ == "linux"@
                &&& row.source_path@ == source_path@
            },
            Err(m) => r matches Err(AppIndexError::Parse(em)) && em@ == m,
        },
{
    let chars = chars_of(content);
    let lines = split_lines(&chars);
    let ghost ls = raw_lines(content@);
    let mut name: Option<Vec<char>> = None;
    let mut cmd: Option<Vec<char>> = None;
    let mut icon: Option<Vec<char>> = None;
    let mut in_entry = false;
    let mut i: usize = 0;
    proof {
        assert(ls.take(0) =~= Seq::<Seq<char>>::empty());
        reveal_strlit("[Desktop Entry]");
        reveal_strlit("Name=");
        reveal_strlit("Exec=");
        reveal_strlit("Icon=");
        reveal_strlit("hidden app");
        reveal_strlit("not an application");
        reveal_strlit("missing Name or Exec");
        reveal_strlit("linux");
    }
    while i < lines.len()
        invariant
            ls == raw_lines(content@),
            lines@.len() == ls.len(),
            forall|k: int| 0 <= k < lines@.len() ==> (#[trigger] lines@[k])@ == ls[k],
            i <= lines@.len(),
            scan_lines(ls.take(i as int)) == (DesktopScan::Reading {
                name: match name { Some(v) => Some(v@), None => None },
                command: match cmd { Some(v) => Some(v@), None => None },
                icon: match icon { Some(v) => Some(v@), None => None },
                in_entry: in_entry,
            }),
        decreases lines@.len() - i,
    {
        proof {
            reveal_strlit("[Desktop Entry]");
            reveal_strlit("Name=");
            reveal_strlit("Exec=");
            reveal_strlit("Icon=");
            reveal_strlit("hidden app");
            reveal_strlit("not an application");
            assert(ls.take(i + 1).drop_last() =~= ls.take(i as int));
            assert(ls.take(i + 1).last() == ls[i as int]);
        }
        let l = trim_chars(&lines[i]);
        proof {
            assert(lines@[i as int]@ == ls[i as int]);
        }
        if starts_with_text(&l, "[Desktop Entry]") && l.len() == 15 {
            proof {
                assert(l@ =~= "[Desktop Entry]"@);
            }
            in_entry = true;
        } else {
            proof {
                if l@ == "[Desktop Entry]"@ {
                    assert(l@.take(15) =~= l@);
                    assert(has_prefix(l@, "[Desktop Entry]"@));
                }
            }
            if l.len() > 0 && l[0] == '[' {
                proof {
                    assert(l@.take(1) =~= seq!['[']);
                }
                in_entry = false;
            } else {
                proof {
                    if has_prefix(l@, seq!['[']) {
                        assert(l@.take(1)[0] == '[');
                    }
                }
            }
            if in_entry {
                if starts_with_text(&l, "Name=") {
                    name = Some(after_prefix(&l, 5));
                } else if starts_with_text(&l, "Exec=") {
                    let raw = after_prefix(&l, 5);
                    cmd = Some(field_codes_stripped(&raw));
                } else if starts_with_text(&l, "Icon=") {
                    icon = Some(after_prefix(&l, 5));
                } else if starts_with_text(&l, "NoDisplay=true") || starts_with_text(&l, "Hidden=true") {
                    proof {
                        lemma_refused_stays(ls, (i + 1) as nat, "hidden app"@);
                    }
                    return Err(AppIndexError::Parse(String::from_str("hidden app")));
                } else if starts_with_text(&l, "Type=") && !contains_text(&l, "Application") {
                    proof {
                        lemma_refused_stays(ls, (i + 1) as nat, "not an application"@);
                    }
                    return Err(AppIndexError::Parse(String::from_str("not an application")));
                }
            }
        }
        i = i + 1;
    }
    proof {
        assert(ls.take(lines@.len() as int) =~= ls);
    }
    match (name, cmd) {
        (Some(n), Some(e)) => {
            let icon_path = match icon {
                Some(v) => Some(string_from_chars(v.as_slice())),
                None => None,
            };
            Ok(AppRow {
                id: 0,
                name: string_from_chars(n.as_slice()),
                command: string_from_chars(e.as_slice()),
                icon_path,
                platform: String::from_str("linux"),
                source_path: String::from_str(source_path),
            })
        },
        _ => Err(AppIndexError::Parse(String::from_str("missing Name or Exec"))),
    }
}

/// Once refused, the scan stays refused whatever lines follow.
proof fn lemma_refused_stays(ls: Seq<Seq<char>>, k: nat, m: Seq<char>)
    requires
        k <= ls.len(),
        scan_lines(ls.take(k as int)) == DesktopScan::Refused(m),
    ensures
        scan_lines(ls) == DesktopScan::Refused(m),
    decreases ls.len() - k,
{
    if k < ls.len() {
        assert(ls.take(k + 1int).drop_last() =~= ls.take(k as int));
        lemma_refused_stays(ls, (k + 1) as nat, m);
    } else {
        assert(ls.take(k as int) =~= ls);
    }
}

/// The name an application bundle is listed under: the name its property list
/// gives (display name, else bundle name), else the bundle's file stem. An
/// empty name refuses the bundle.
pub fn bundle_name(listed: Option<String>, stem: String) -> (r: Result<String, AppIndexError>)
    ensures
        ({
            let chosen = match listed { Some(n) => n@, None => stem@ };
            &&& chosen.len() > 0 ==> (r matches Ok(n) && n@ == chosen)
            &&& chosen.len() == 0 ==> (r matches Err(AppIndexError::Parse(m)) && m@ == "empty name"@)
        }),
{
    let name = match listed {
        Some(n) => n,
        None => stem,
    };
    if name.as_str().is_empty() {
        proof {
            reveal_strlit("empty name");
        }
        Err(AppIndexError::Parse(String::from_str("empty name")))
    } else {
        Ok(name)
    }
}

/// A bitmap's bytes with the blue and red byte of every whole 4-byte pixel
/// exchanged (BGRA to RGBA); trailing bytes of a partial pixel stay as they are.
pub open spec fn rgba_of(b: Seq<u8>) -> Seq<u8> {
    Seq::new(b.len(), |i: int|
        if i - i % 4 + 4 <= b.len() {
            if i % 4 == 0 { b[i + 2] } else if i % 4 == 2 { b[i - 2] } else { b[i] }
        } else {
            b[i]
        })
}

/// Reorder a 32-bit bitmap from BGRA to RGBA in place, pixel by pixel.
pub fn bgra_to_rgba(buf: &mut Vec<u8>)
    ensures
        final(buf)@ == rgba_of(old(buf)@),
{
    let ghost orig = buf@;
    let len = buf.len();
    let n = len / 4;
    let mut p: usize = 0;
    while p < n
        invariant
            n == orig.len() / 4,
            orig.len() <= usize::MAX,
            buf@.len() == orig.len(),
            p <= n,
            forall|i: int| 0 <= i < 4 * p ==> #[trigger] buf@[i] == rgba_of(orig)[i],
            forall|i: int| 4 * p <= i < buf@.len() ==> #[trigger] buf@[i] == orig[i],
        decreases n - p,
    {
        assert(4 * p + 4 <= orig.len()) by (nonlinear_arith)
            requires p < n, n == orig.len() / 4;
        let base = 4 * p;
        let a = buf[base];
        let c = buf[base + 2];
        buf.set(base, c);
        buf.set(base + 2, a);
        assert forall|i: int| 0 <= i < 4 * (p + 1) implies #[trigger] buf@[i] == rgba_of(orig)[i] by {
            if i >= 4 * p {
                assert(i - i % 4 == 4 * p) by (nonlinear_arith)
                    requires 4 * p <= i < 4 * p + 4;
                assert(4 * p + 4 <= orig.len()) by (nonlinear_arith)
                    requires p < n, n == orig.len() / 4;
            }
        }
        p = p + 1;
    }
    assert forall|i: int| 0 <= i < buf@.len() implies #[trigger] buf@[i] == rgba_of(orig)[i] by {
        if i >= 4 * p {
            assert(i - i % 4 + 4 > orig.len()) by (nonlinear_arith)
                requires i >= 4 * p, p == n, n == orig.len() / 4, i < orig.len();
        }
    }
    assert(buf@ =~= rgba_of(orig));
}

/// The file name an application's icon is cached under: the lowercase hex of
/// the SHA-256 digest of the application's path, with ".png".
pub fn icon_cache_name(path: &str) -> (n: String)
    ensures
        n@ == hex_text(sha256(path.spec_bytes())) + ".png"@,
{
    let d = sha256_digest(path.as_bytes());
    let mut n = to_hex(d.as_slice());
    n.append(".png");
    proof {
        reveal_strlit(".png");
    }
    n
}

} // verus!
