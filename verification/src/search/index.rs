//! Query text for the full-text file index: user input made literal for the
//! query parser and for the regular-expression substring search.
use vstd::prelude::*;
use crate::text::{chars_of, string_from_chars, trim, trimmed, to_lowercase, lowercase};

verus! {

/// Characters of the query syntax: `+^`:{}[]"\()~`.
pub open spec fn is_query_special(c: char) -> bool {
    c == '+' || c == '^' || c == '`' || c == ':' || c == '{' || c == '}' || c == '[' || c == ']'
        || c == '"' || c == '\\' || c == '(' || c == ')' || c == '~'
}

/// Regular-expression metacharacters: `.+*?()|[]{}^$\`.
pub open spec fn is_regex_meta(c: char) -> bool {
    c == '.' || c == '+' || c == '*' || c == '?' || c == '(' || c == ')' || c == '|' || c == '['
        || c == ']' || c == '{' || c == '}' || c == '^' || c == '$' || c == '\\'
}

/// The query with each syntax character replaced by a space.
pub open spec fn query_escaped(s: Seq<char>) -> Seq<char> {
    Seq::new(s.len(), |i: int| if is_query_special(s[i]) { ' ' } else { s[i] })
}

/// The text with a backslash before each metacharacter.
pub open spec fn regex_escaped(s: Seq<char>) -> Seq<char>
    decreases s.len(),
{
    if s.len() == 0 {
        Seq::empty()
    } else {
        regex_escaped(s.drop_last()) + if is_regex_meta(s.last()) { seq!['\\', s.last()] } else { seq![s.last()] }
    }
}

/// Replace query-syntax characters with spaces so user input is treated literally.
pub fn escape_query(input: &str) -> (r: String)
    ensures
        r@ == query_escaped(input@),
{
    let s = chars_of(input);
    let mut out: Vec<char> = Vec::new();
    let mut i: usize = 0;
    while i < s.len()
        invariant
            s@ == input@,
            i <= s@.len(),
            out@.len() == i,
            forall|k: int| 0 <= k < i ==> out@[k] == (if is_query_special(s@[k]) { ' ' } else { s@[k] }),
        decreases s@.len() - i,
    {
        let c = s[i];
        let special = c == '+' || c == '^' || c == '`' || c == ':' || c == '{' || c == '}' || c == '['
            || c == ']' || c == '"' || c == '\\' || c == '(' || c == ')' || c == '~';
        if special {
            out.push(' ');
        } else {
            out.push(c);
        }
        i = i + 1;
    }
    assert(out@ =~= query_escaped(input@));
    string_from_chars(out.as_slice())
}

/// Escape regex metacharacters so user input is matched literally.
pub fn escape_regex(input: &str) -> (r: String)
    ensures
        r@ == regex_escaped(input@),
{
    let s = chars_of(input);
    let mut out: Vec<char> = Vec::new();
    let mut i: usize = 0;
    proof {
        assert(s@.take(0) =~= Seq::<char>::empty());
    }
    while i < s.len()
        invariant
            s@ == input@,
            i <= s@.len(),
            out@ == regex_escaped(s@.take(i as int)),
        decreases s@.len() - i,
    {
        let c = s[i];
        let meta = c == '.' || c == '+' || c == '*' || c == '?' || c == '(' || c == ')' || c == '|'
            || c == '[' || c == ']' || c == '{' || c == '}' || c == '^' || c == '$' || c == '\\';
        let ghost before = out@;
        if meta {
            out.push('\\');
        }
        out.push(c);
        proof {
            let t = s@.take(i + 1);
            assert(t.drop_last() =~= s@.take(i as int));
            assert(t.last() == c);
            if meta {
                assert(out@ =~= before + seq!['\\', c]);
            } else {
                assert(out@ =~= before + seq![c]);
            }
        }
        i = i + 1;
    }
    proof {
        assert(s@.take(s@.len() as int) =~= s@);
    }
    string_from_chars(out.as_slice())
}

/// The text handed to the query parser, or `None` when nothing is left to
/// search for once syntax characters are blanked and the text trimmed.
pub fn text_query(query: &str) -> (r: Option<String>)
    ensures
        match r {
            Some(q) => q@ == trimmed(query_escaped(query@)) && q@.len() > 0,
            None => trimmed(query_escaped(query@)).len() == 0,
        },
{
    let cleaned = escape_query(query);
    let t = trim(cleaned.as_str());
    if t.as_str().is_empty() {
        None
    } else {
        Some(t)
    }
}

/// The pattern of the substring search: the lowercased, trimmed query,
/// escaped, between `.*` on each side; `None` for an empty query.
pub fn wildcard_pattern(query: &str) -> (r: Option<String>)
    ensures
        match r {
            Some(p) => lowercase(trimmed(query@)).len() > 0
                && p@ == ".*"@ + regex_escaped(lowercase(trimmed(query@))) + ".*"@,
            None => lowercase(trimmed(query@)).len() == 0,
        },
{
    let t = trim(query);
    let lower = to_lowercase(t.as_str());
    if lower.as_str().is_empty() {
        return None;
    }
    let mut p = String::from_str(".*");
    let escaped = escape_regex(lower.as_str());
    p.append(escaped.as_str());
    p.append(".*");
    Some(p)
}

} // verus!
