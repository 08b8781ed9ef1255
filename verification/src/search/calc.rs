//! The inline calculator's text handling: the heuristic that decides whether
//! input looks like arithmetic, and the tokenizer that splits an expression
//! into numbers, operators and parentheses.
use vstd::prelude::*;
use crate::text::{chars_of, string_from_chars, trimmed, trim_chars};

verus! {

/// Errors raised while parsing or evaluating an arithmetic expression.
#[derive(Debug, PartialEq)]
pub enum CalcError {
    ParseError(String),
    DivisionByZero,
}

/// The message an error displays.
pub open spec fn calc_error_text(e: CalcError) -> Seq<char> {
    match e {
        CalcError::ParseError(m) => "parse error: "@ + m@,
        CalcError::DivisionByZero => "division by zero"@,
    }
}

impl CalcError {
    /// The text shown for the error.
    pub fn message(&self) -> (s: String)
        ensures
            s@ == calc_error_text(*self),
    {
        match self {
            CalcError::ParseError(m) => {
                let mut s = String::from_str("parse error: ");
                s.append(m.as_str());
                proof {
                    reveal_strlit("parse error: ");
                }
                s
            },
            CalcError::DivisionByZero => {
                proof {
                    reveal_strlit("division by zero");
                }
                String::from_str("division by zero")
            },
        }
    }
}

// ---------------------------------------------------------------------------
// Heuristic

/// Number of occurrences of `c` in `s`.
pub open spec fn count_char(s: Seq<char>, c: char) -> nat
    decreases s.len(),
{
    if s.len() == 0 {
        0
    } else {
        count_char(s.drop_last(), c) + if s.last() == c { 1nat } else { 0nat }
    }
}

pub open spec fn is_digit(c: char) -> bool {
    '0' <= c && c <= '9'
}

/// The input has a digit and an operator: '+', '*', '/', '(', more than one
/// '-', or a '-' while the trimmed input does not start with one.
pub open spec fn looks_like(s: Seq<char>) -> bool {
    let has_digit = exists|i: int| 0 <= i < s.len() && is_digit(#[trigger] s[i]);
    let t = trimmed(s);
    let multiple_minus = count_char(s, '-') > 1;
    let minus_not_at_start = s.contains('-') && !(t.len() > 0 && t[0] == '-');
    let has_op = s.contains('+') || s.contains('*') || s.contains('/') || s.contains('(')
        || multiple_minus || minus_not_at_start;
    has_digit && has_op
}

/// Heuristic for whether input looks like an arithmetic expression, used by the overlay.
pub fn looks_like_expression(input: &str) -> (r: bool)
    ensures
        r == looks_like(input@),
{
    let s = chars_of(input);
    let mut has_digit = false;
    let mut plus = false;
    let mut star = false;
    let mut slash = false;
    let mut paren = false;
    let mut minus: usize = 0;
    let mut i: usize = 0;
    proof {
        assert(s@.take(0) =~= Seq::<char>::empty());
    }
    while i < s.len()
        invariant
            s@ == input@,
            i <= s@.len(),
            minus == count_char(s@.take(i as int), '-'),
            minus <= i,
            has_digit == exists|k: int| 0 <= k < i && is_digit(#[trigger] s@[k]),
            plus == s@.take(i as int).contains('+'),
            star == s@.take(i as int).contains('*'),
            slash == s@.take(i as int).contains('/'),
            paren == s@.take(i as int).contains('('),
        decreases s@.len() - i,
    {
        let c = s[i];
        let ghost t = s@.take(i + 1);
        proof {
            assert(t.drop_last() =~= s@.take(i as int));
            assert(t.last() == c);
            assert forall|x: char| t.contains(x) <==> (s@.take(i as int).contains(x) || x == c) by {
                if t.contains(x) {
                    let k = choose|k: int| 0 <= k < t.len() && t[k] == x;
                    if k < i {
                        assert(s@.take(i as int)[k] == x);
                    }
                }
                if s@.take(i as int).contains(x) {
                    let k = choose|k: int| 0 <= k < i && s@.take(i as int)[k] == x;
                    assert(t[k] == x);
                }
                if x == c {
                    assert(t[i as int] == x);
                }
            }
        }
        if '0' <= c && c <= '9' {
            has_digit = true;
        }
        if c == '+' {
            plus = true;
        }
        if c == '*' {
            star = true;
        }
        if c == '/' {
            slash = true;
        }
        if c == '(' {
            paren = true;
        }
        if c == '-' {
            minus = minus + 1;
        }
        i = i + 1;
    }
    proof {
        assert(s@.take(s@.len() as int) =~= s@);
    }
    let t = trim_chars(&s);
    let starts_minus = t.len() > 0 && t[0] == '-';
    let multiple_minus = minus > 1;
    let minus_not_at_start = minus > 0 && !starts_minus;
    proof {
        if minus > 0 {
            lemma_count_contains(s@, '-');
        }
        if s@.contains('-') {
            let k = choose|k: int| 0 <= k < s@.len() && s@[k] == '-';
            lemma_count_positive(s@, '-', k);
        }
    }
    has_digit && (plus || star || slash || paren || multiple_minus || minus_not_at_start)
}

proof fn lemma_count_contains(s: Seq<char>, c: char)
    requires
        count_char(s, c) > 0,
    ensures
        s.contains(c),
    decreases s.len(),
{
    if s.last() == c {
        assert(s[s.len() - 1] == c);
    } else {
        lemma_count_contains(s.drop_last(), c);
        let k = choose|k: int| 0 <= k < s.drop_last().len() && s.drop_last()[k] == c;
        assert(s[k] == c);
    }
}

proof fn lemma_count_positive(s: Seq<char>, c: char, k: int)
    requires
        0 <= k < s.len(),
        s[k] == c,
    ensures
        count_char(s, c) > 0,
    decreases s.len(),
{
    if k < s.len() - 1 {
        assert(s.drop_last()[k] == c);
        lemma_count_positive(s.drop_last(), c, k);
    }
}

// ---------------------------------------------------------------------------
// Tokens

/// A token of an arithmetic expression; a number keeps its text.
#[derive(Debug, PartialEq)]
pub enum Token {
    Num(String),
    Plus,
    Minus,
    Star,
    Slash,
    LParen,
    RParen,
}

/// A token as plain values.
pub enum TokenView {
    Num(Seq<char>),
    Plus,
    Minus,
    Star,
    Slash,
    LParen,
    RParen,
}

impl View for Token {
    type V = TokenView;

    open spec fn view(&self) -> TokenView {
        match self {
            Token::Num(s) => TokenView::Num(s@),
            Token::Plus => TokenView::Plus,
            Token::Minus => TokenView::Minus,
            Token::Star => TokenView::Star,
            Token::Slash => TokenView::Slash,
            Token::LParen => TokenView::LParen,
            Token::RParen => TokenView::RParen,
        }
    }
}

/// Characters a number is made of.
pub open spec fn is_num_char(c: char) -> bool {
    is_digit(c) || c == '.'
}

/// Length of the run of number characters at the start of `s`.
pub open spec fn num_run(s: Seq<char>) -> nat
    decreases s.len(),
{
    if s.len() > 0 && is_num_char(s[0]) { 1 + num_run(s.skip(1)) } else { 0 }
}

/// A run of digits and dots that reads as a decimal number (`f64::from_str`
/// on such text): at most one dot and at least one digit.
pub open spec fn valid_number(t: Seq<char>) -> bool {
    count_char(t, '.') <= 1 && exists|i: int| 0 <= i < t.len() && is_digit(#[trigger] t[i])
}

/// The token a one-character operator stands for.
pub open spec fn op_token(c: char) -> Option<TokenView> {
    if c == '+' {
        Some(TokenView::Plus)
    } else if c == '-' {
        Some(TokenView::Minus)
    } else if c == '*' {
        Some(TokenView::Star)
    } else if c == '/' {
        Some(TokenView::Slash)
    } else if c == '(' {
        Some(TokenView::LParen)
    } else if c == ')' {
        Some(TokenView::RParen)
    } else {
        None
    }
}

/// Whitespace the tokenizer skips.
pub open spec fn is_blank(c: char) -> bool {
    c == ' ' || c == '\t' || c == '\r' || c == '\n'
}

/// `head` in front of the tokens of a successful split; an error stays.
pub open spec fn prepend(head: Seq<TokenView>, r: Result<Seq<TokenView>, Seq<char>>) -> Result<Seq<TokenView>, Seq<char>> {
    match r {
        Ok(t) => Ok(head + t),
        Err(e) => Err(e),
    }
}

/// The tokens of `s`, read left to right, or the message of the first error:
/// blanks are skipped, each operator or parenthesis is a token, a maximal run
/// of digits and dots is a number if it reads as one, anything else stops
/// the split.
pub open spec fn lex(s: Seq<char>) -> Result<Seq<TokenView>, Seq<char>>
    decreases s.len(),
{
    if s.len() == 0 {
        Ok(Seq::empty())
    } else {
        let c = s[0];
        if is_blank(c) {
            lex(s.skip(1))
        } else if op_token(c) is Some {
            prepend(seq![op_token(c).unwrap()], lex(s.skip(1)))
        } else if is_num_char(c) {
            let n = num_run(s);
            let text = s.take(n as int);
            if valid_number(text) {
                proof {
                    lemma_num_run(s);
                }
                prepend(seq![TokenView::Num(text)], lex(s.skip(n as int)))
            } else {
                Err("invalid number '"@ + text + "'"@)
            }
        } else {
            Err("unexpected character '"@ + seq![c] + "'"@)
        }
    }
}

/// The number run at the front of `s` is made of digit and dot characters,
/// fits in `s`, and stops at the first other character.
pub proof fn lemma_num_run(s: Seq<char>)
    ensures
        num_run(s) <= s.len(),
        forall|i: int| 0 <= i < num_run(s) ==> is_num_char(#[trigger] s[i]),
        num_run(s) < s.len() ==> !is_num_char(s[num_run(s) as int]),
    decreases s.len(),
{
    if s.len() > 0 && is_num_char(s[0]) {
        lemma_num_run(s.skip(1));
        assert forall|i: int| 0 <= i < num_run(s) implies is_num_char(#[trigger] s[i]) by {
            if i > 0 {
                assert(s[i] == s.skip(1)[i - 1]);
            }
        }
    }
}

proof fn lemma_num_run_exact(s: Seq<char>, n: nat)
    requires
        n <= s.len(),
        forall|i: int| 0 <= i < n ==> is_num_char(#[trigger] s[i]),
        n < s.len() ==> !is_num_char(s[n as int]),
    ensures
        num_run(s) == n,
    decreases n,
{
    if n > 0 {
        assert forall|i: int| 0 <= i < n - 1 implies is_num_char(#[trigger] s.skip(1)[i]) by {
            assert(s.skip(1)[i] == s[i + 1]);
        }
        if n - 1 < s.skip(1).len() {
            assert(s.skip(1)[n - 1] == s[n as int]);
        }
        lemma_num_run_exact(s.skip(1), (n - 1) as nat);
    }
}

/// Check a run of digits and dots: at most one dot, at least one digit.
fn check_number(t: &Vec<char>) -> (r: bool)
    ensures
        r == valid_number(t@),
{
    let mut dots: usize = 0;
    let mut digit = false;
    let mut i: usize = 0;
    proof {
        assert(t@.take(0) =~= Seq::<char>::empty());
    }
    while i < t.len()
        invariant
            i <= t@.len(),
            dots == count_char(t@.take(i as int), '.'),
            dots <= i,
            digit == exists|k: int| 0 <= k < i && is_digit(#[trigger] t@[k]),
        decreases t@.len() - i,
    {
        proof {
            assert(t@.take(i + 1).drop_last() =~= t@.take(i as int));
        }
        if t[i] == '.' {
            dots = dots + 1;
        }
        if '0' <= t[i] && t[i] <= '9' {
            digit = true;
        }
        i = i + 1;
    }
    proof {
        assert(t@.take(t@.len() as int) =~= t@);
    }
    dots <= 1 && digit
}

fn quoted_message(prefix: &str, body: &[char]) -> (m: String)
    ensures
        m@ == prefix@ + body@ + "'"@,
{
    let mut m = String::from_str(prefix);
    let b = string_from_chars(body);
    m.append(b.as_str());
    m.append("'");
    m
}

/// Split an expression into tokens.
pub fn tokenize(input: &str) -> (r: Result<Vec<Token>, CalcError>)
    ensures
        match r {
            Ok(toks) => lex(input@) == Ok::<Seq<TokenView>, Seq<char>>(Seq::new(toks@.len(), |i: int| toks@[i]@)),
            Err(e) => lex(input@) matches Err(m) && (e matches CalcError::ParseError(em) && em@ == m),
        },
{
    let chars = chars_of(input);
    let n = chars.len();
    let mut tokens: Vec<Token> = Vec::new();
    let mut i: usize = 0;
    proof {
        assert(chars@.skip(0) =~= chars@);
        assert(prepend(Seq::empty(), lex(chars@)) == lex(chars@)) by {
            match lex(chars@) {
                Ok(t) => { assert(Seq::<TokenView>::empty() + t =~= t); },
                Err(_) => {},
            }
        }
    }
    while i < n
        invariant
            chars@ == input@,
            n == chars@.len(),
            i <= n,
            lex(input@) == prepend(Seq::new(tokens@.len(), |k: int| tokens@[k]@), lex(chars@.skip(i as int))),
        decreases n - i,
    {
        let ghost rest = chars@.skip(i as int);
        let ghost toks = Seq::new(tokens@.len(), |k: int| tokens@[k]@);
        let c = chars[i];
        proof {
            assert(rest[0] == c);
        }
        if c == ' ' || c == '\t' || c == '\r' || c == '\n' {
            proof {
                assert(rest.skip(1) =~= chars@.skip(i + 1));
            }
            i = i + 1;
        } else if c == '+' || c == '-' || c == '*' || c == '/' || c == '(' || c == ')' {
            let tok = if c == '+' {
                Token::Plus
            } else if c == '-' {
                Token::Minus
            } else if c == '*' {
                Token::Star
            } else if c == '/' {
                Token::Slash
            } else if c == '(' {
                Token::LParen
            } else {
                Token::RParen
            };
            proof {
                assert(op_token(c) == Some(tok@));
                assert(rest.skip(1) =~= chars@.skip(i + 1));
                lemma_prepend_assoc(toks, seq![tok@], lex(chars@.skip(i + 1)));
            }
            tokens.push(tok);
            proof {
                assert(Seq::new(tokens@.len(), |k: int| tokens@[k]@) =~= toks + seq![tok@]);
            }
            i = i + 1;
        } else if ('0' <= c && c <= '9') || c == '.' {
            let start = i;
            let mut j: usize = i;
            while j < n && (('0' <= chars[j] && chars[j] <= '9') || chars[j] == '.')
                invariant
                    start <= j <= n,
                    n == chars@.len(),
                    forall|k: int| start <= k < j ==> is_num_char(#[trigger] chars@[k]),
                decreases n - j,
            {
                j = j + 1;
            }
            let mut text: Vec<char> = Vec::new();
            let mut q: usize = start;
            while q < j
                invariant
                    start <= q <= j,
                    j <= chars@.len(),
                    text@ == chars@.subrange(start as int, q as int),
                decreases j - q,
            {
                text.push(chars[q]);
                proof {
                    assert(text@ =~= chars@.subrange(start as int, q + 1));
                }
                q = q + 1;
            }
            proof {
                let len = (j - start) as nat;
                assert forall|k: int| 0 <= k < len implies is_num_char(#[trigger] rest[k]) by {
                    assert(rest[k] == chars@[start + k]);
                }
                if len < rest.len() {
                    assert(rest[len as int] == chars@[j as int]);
                }
                lemma_num_run_exact(rest, len);
                assert(text@ =~= rest.take(len as int));
                assert(rest.skip(len as int) =~= chars@.skip(j as int));
            }
            if !check_number(&text) {
                let m = quoted_message("invalid number '", text.as_slice());
                proof {
                    reveal_strlit("invalid number '");
                    reveal_strlit("'");
                }
                return Err(CalcError::ParseError(m));
            }
            let num = string_from_chars(text.as_slice());
            proof {
                lemma_prepend_assoc(toks, seq![TokenView::Num(num@)], lex(chars@.skip(j as int)));
            }
            tokens.push(Token::Num(num));
            proof {
                assert(Seq::new(tokens@.len(), |k: int| tokens@[k]@) =~= toks + seq![TokenView::Num(text@)]);
            }
            i = j;
        } else {
            let one = [c];
            let m = quoted_message("unexpected character '", &one);
            proof {
                reveal_strlit("unexpected character '");
                reveal_strlit("'");
                assert(one@ =~= seq![c]);
            }
            return Err(CalcError::ParseError(m));
        }
    }
    proof {
        assert(chars@.skip(n as int) =~= Seq::<char>::empty());
        let toks = Seq::new(tokens@.len(), |k: int| tokens@[k]@);
        assert(toks + Seq::<TokenView>::empty() =~= toks);
    }
    Ok(tokens)
}

proof fn lemma_prepend_assoc(a: Seq<TokenView>, b: Seq<TokenView>, r: Result<Seq<TokenView>, Seq<char>>)
    ensures
        prepend(a, prepend(b, r)) == prepend(a + b, r),
{
    match r {
        Ok(t) => {
            assert(a + (b + t) =~= (a + b) + t);
        },
        Err(_) => {},
    }
}

// ---------------------------------------------------------------------------
// Parsing into an evaluation program

/// One step of evaluating a parsed expression on a stack of numbers.
#[derive(Debug)]
pub enum Op {
    /// Push the number the text reads as.
    Push(String),
    /// Negate the top number.
    Neg,
    /// Replace the top two numbers by their sum, difference, product or
    /// quotient (the top is the right operand). A zero divisor stops the
    /// evaluation with `DivisionByZero`.
    Add,
    Sub,
    Mul,
    Div,
}

/// An evaluation step as plain values.
pub enum OpView {
    Push(Seq<char>),
    Neg,
    Add,
    Sub,
    Mul,
    Div,
}

impl View for Op {
    type V = OpView;

    open spec fn view(&self) -> OpView {
        match self {
            Op::Push(s) => OpView::Push(s@),
            Op::Neg => OpView::Neg,
            Op::Add => OpView::Add,
            Op::Sub => OpView::Sub,
            Op::Mul => OpView::Mul,
            Op::Div => OpView::Div,
        }
    }
}

/// What parsing from a position yields: the steps emitted, in the order the
/// values are computed; where parsing stopped; and the error, if it failed
/// (the steps are then those computed before the error was met).
pub struct Parse {
    pub ops: Seq<OpView>,
    pub pos: int,
    pub err: Option<Seq<char>>,
}

pub open spec fn failed(ops: Seq<OpView>, pos: int, m: Seq<char>) -> Parse {
    Parse { ops: ops, pos: pos, err: Some(m) }
}

/// The name a token is shown by in an error.
pub open spec fn token_name(t: TokenView) -> Seq<char> {
    match t {
        TokenView::Num(_) => "Num"@,
        TokenView::Plus => "Plus"@,
        TokenView::Minus => "Minus"@,
        TokenView::Star => "Star"@,
        TokenView::Slash => "Slash"@,
        TokenView::LParen => "LParen"@,
        TokenView::RParen => "RParen"@,
    }
}

/// `factor := number | '-' factor | '(' expr ')'`
pub open spec fn p_factor(t: Seq<TokenView>, pos: int) -> Parse
    decreases t.len() - pos, 1int,
{
    if pos < 0 || pos >= t.len() {
        failed(Seq::empty(), pos, "unexpected end of input"@)
    } else {
        match t[pos] {
            TokenView::Num(n) => Parse { ops: seq![OpView::Push(n)], pos: pos + 1, err: None },
            TokenView::Minus => {
                let f = p_factor(t, pos + 1);
                if f.err is Some { f } else { Parse { ops: f.ops.push(OpView::Neg), pos: f.pos, err: None } }
            },
            TokenView::LParen => {
                let e = p_expr(t, pos + 1);
                if e.err is Some {
                    e
                } else if 0 <= e.pos < t.len() && t[e.pos] is RParen {
                    Parse { ops: e.ops, pos: e.pos + 1, err: None }
                } else {
                    failed(e.ops, e.pos, "expected ')'"@)
                }
            },
            other => failed(Seq::empty(), pos, "unexpected token "@ + token_name(other)),
        }
    }
}

/// `term := factor (('*' | '/') factor)*`
pub open spec fn p_term(t: Seq<TokenView>, pos: int) -> Parse
    decreases t.len() - pos, 2int,
{
    let f = p_factor(t, pos);
    if f.err is Some || f.pos <= pos || f.pos > t.len() {
        f
    } else {
        let r = p_term_rest(t, f.pos);
        Parse { ops: f.ops + r.ops, pos: r.pos, err: r.err }
    }
}

/// The `(('*' | '/') factor)*` part of a term, from `pos`.
pub open spec fn p_term_rest(t: Seq<TokenView>, pos: int) -> Parse
    decreases t.len() - pos, 0int,
{
    if 0 <= pos < t.len() && (t[pos] is Star || t[pos] is Slash) {
        let op = if t[pos] is Star { OpView::Mul } else { OpView::Div };
        let f = p_factor(t, pos + 1);
        if f.err is Some || f.pos <= pos + 1 || f.pos > t.len() {
            f
        } else {
            let r = p_term_rest(t, f.pos);
            Parse { ops: f.ops.push(op) + r.ops, pos: r.pos, err: r.err }
        }
    } else {
        Parse { ops: Seq::empty(), pos: pos, err: None }
    }
}

/// `expr := term (('+' | '-') term)*`
pub open spec fn p_expr(t: Seq<TokenView>, pos: int) -> Parse
    decreases t.len() - pos, 3int,
{
    let a = p_term(t, pos);
    if a.err is Some || a.pos <= pos || a.pos > t.len() {
        a
    } else {
        let r = p_expr_rest(t, a.pos);
        Parse { ops: a.ops + r.ops, pos: r.pos, err: r.err }
    }
}

/// The `(('+' | '-') term)*` part of an expression, from `pos`.
pub open spec fn p_expr_rest(t: Seq<TokenView>, pos: int) -> Parse
    decreases t.len() - pos, 0int,
{
    if 0 <= pos < t.len() && (t[pos] is Plus || t[pos] is Minus) {
        let op = if t[pos] is Plus { OpView::Add } else { OpView::Sub };
        let b = p_term(t, pos + 1);
        if b.err is Some || b.pos <= pos + 1 || b.pos > t.len() {
            b
        } else {
            let r = p_expr_rest(t, b.pos);
            Parse { ops: b.ops.push(op) + r.ops, pos: r.pos, err: r.err }
        }
    } else {
        Parse { ops: Seq::empty(), pos: pos, err: None }
    }
}

/// The program for a whole token sequence: nothing but an error for no
/// tokens; otherwise the expression's steps, failing also when tokens are
/// left over.
pub open spec fn program(t: Seq<TokenView>) -> (Seq<OpView>, Option<Seq<char>>) {
    if t.len() == 0 {
        (Seq::empty(), Some("empty expression"@))
    } else {
        let e = p_expr(t, 0);
        if e.err is Some {
            (e.ops, e.err)
        } else if e.pos != t.len() {
            (e.ops, Some("unexpected trailing input"@))
        } else {
            (e.ops, None)
        }
    }
}

pub open spec fn ops_view(v: Seq<Op>) -> Seq<OpView> {
    Seq::new(v.len(), |i: int| v[i]@)
}

pub open spec fn toks_view(v: Seq<Token>) -> Seq<TokenView> {
    Seq::new(v.len(), |i: int| v[i]@)
}

fn msg(s: &str) -> (m: String)
    ensures
        m@ == s@,
{
    String::from_str(s)
}

fn token_name_text(t: &Token) -> (m: String)
    ensures
        m@ == token_name(t@),
{
    proof {
        reveal_strlit("Num");
        reveal_strlit("Plus");
        reveal_strlit("Minus");
        reveal_strlit("Star");
        reveal_strlit("Slash");
        reveal_strlit("LParen");
        reveal_strlit("RParen");
    }
    match t {
        Token::Num(_) => msg("Num"),
        Token::Plus => msg("Plus"),
        Token::Minus => msg("Minus"),
        Token::Star => msg("Star"),
        Token::Slash => msg("Slash"),
        Token::LParen => msg("LParen"),
        Token::RParen => msg("RParen"),
    }
}

fn parse_factor(t: &Vec<Token>, pos: usize, out: &mut Vec<Op>) -> (r: Result<usize, String>)
    requires
        pos <= t@.len(),
    ensures
        ops_view(final(out)@) == ops_view(old(out)@) + p_factor(toks_view(t@), pos as int).ops,
        match r {
            Ok(p) => p_factor(toks_view(t@), pos as int).err is None && p == p_factor(toks_view(t@), pos as int).pos
                && pos < p <= t@.len(),
            Err(m) => p_factor(toks_view(t@), pos as int).err == Some(m@),
        },
    decreases t@.len() - pos, 1int,
{
    let ghost tv = toks_view(t@);
    let ghost o0 = ops_view(out@);
    if pos >= t.len() {
        proof {
            reveal_strlit("unexpected end of input");
            assert(ops_view(out@) =~= o0 + Seq::<OpView>::empty());
        }
        return Err(msg("unexpected end of input"));
    }
    proof {
        assert(tv[pos as int] == t@[pos as int]@);
    }
    match &t[pos] {
        Token::Num(n) => {
            out.push(Op::Push(n.clone()));
            proof {
                assert(ops_view(out@) =~= o0 + seq![OpView::Push(n@)]);
            }
            Ok(pos + 1)
        },
        Token::Minus => {
            let r = parse_factor(t, pos + 1, out);
            match r {
                Ok(p) => {
                    let ghost o1 = ops_view(out@);
                    out.push(Op::Neg);
                    proof {
                        let f = p_factor(tv, pos + 1);
                        assert(ops_view(out@) =~= o1.push(OpView::Neg));
                        assert(o0 + f.ops.push(OpView::Neg) =~= (o0 + f.ops).push(OpView::Neg));
                    }
                    Ok(p)
                },
                Err(m) => Err(m),
            }
        },
        Token::LParen => {
            let r = parse_expr(t, pos + 1, out);
            match r {
                Ok(p) => {
                    let close = p < t.len() && match &t[p] {
                        Token::RParen => true,
                        _ => false,
                    };
                    proof {
                        if p < t@.len() {
                            assert(tv[p as int] == t@[p as int]@);
                        }
                    }
                    if close {
                        Ok(p + 1)
                    } else {
                        proof {
                            reveal_strlit("expected ')'");
                        }
                        Err(msg("expected ')'"))
                    }
                },
                Err(m) => Err(m),
            }
        },
        other => {
            let mut m = msg("unexpected token ");
            let name = token_name_text(other);
            m.append(name.as_str());
            proof {
                reveal_strlit("unexpected token ");
                assert(ops_view(out@) =~= o0 + Seq::<OpView>::empty());
            }
            Err(m)
        },
    }
}

fn parse_term(t: &Vec<Token>, pos: usize, out: &mut Vec<Op>) -> (r: Result<usize, String>)
    requires
        pos <= t@.len(),
    ensures
        ops_view(final(out)@) == ops_view(old(out)@) + p_term(toks_view(t@), pos as int).ops,
        match r {
            Ok(p) => p_term(toks_view(t@), pos as int).err is None && p == p_term(toks_view(t@), pos as int).pos
                && pos < p <= t@.len(),
            Err(m) => p_term(toks_view(t@), pos as int).err == Some(m@),
        },
    decreases t@.len() - pos, 2int,
{
    let ghost tv = toks_view(t@);
    let ghost o0 = ops_view(out@);
    let mut p = parse_factor(t, pos, out)?;
    let ghost f = p_factor(tv, pos as int);
    let ghost o1 = ops_view(out@);
    let ghost p1 = p;
    // Invariant: the steps from p1 onwards so far, glued to the rest from p,
    // make the rest from p1.
    let ghost mut emitted: Seq<OpView> = Seq::empty();
    proof {
        assert(emitted + p_term_rest(tv, p as int).ops =~= p_term_rest(tv, p as int).ops);
    }
    loop
        invariant_except_break
            pos < p1 <= p <= t@.len(),
            tv == toks_view(t@),
            ops_view(out@) == o1 + emitted,
            o1 == o0 + f.ops,
            o0 == ops_view(old(out)@),
            f == p_factor(tv, pos as int),
            f.err is None,
            f.pos == p1,
            p_term_rest(tv, p1 as int).ops == emitted + p_term_rest(tv, p as int).ops,
            p_term_rest(tv, p1 as int).pos == p_term_rest(tv, p as int).pos,
            p_term_rest(tv, p1 as int).err == p_term_rest(tv, p as int).err,
        ensures
            pos < p1 <= p <= t@.len(),
            ops_view(out@) == o1 + emitted,
            o1 == o0 + f.ops,
            f == p_factor(tv, pos as int),
            f.err is None,
            f.pos == p1,
            p_term_rest(tv, p1 as int).ops == emitted,
            p_term_rest(tv, p1 as int).pos == p,
            p_term_rest(tv, p1 as int).err is None,
        decreases t@.len() - p,
    {
        let is_mul = p < t.len() && match &t[p] { Token::Star => true, _ => false };
        let is_div = p < t.len() && match &t[p] { Token::Slash => true, _ => false };
        proof {
            if p < t@.len() {
                assert(tv[p as int] == t@[p as int]@);
            }
        }
        if !is_mul && !is_div {
            proof {
                assert(p_term_rest(tv, p as int).ops =~= Seq::<OpView>::empty());
                assert(emitted + Seq::<OpView>::empty() =~= emitted);
            }
            break;
        }
        let ghost before = ops_view(out@);
        let r = parse_factor(t, p + 1, out);
        match r {
            Ok(q) => {
                if is_mul {
                    out.push(Op::Mul);
                } else {
                    out.push(Op::Div);
                }
                proof {
                    let g = p_factor(tv, p + 1);
                    let op = if is_mul { OpView::Mul } else { OpView::Div };
                    assert(ops_view(out@) =~= (before + g.ops).push(op));
                    let rest_p = p_term_rest(tv, p as int);
                    assert(rest_p.ops == g.ops.push(op) + p_term_rest(tv, q as int).ops);
                    assert(emitted + rest_p.ops =~= (emitted + g.ops.push(op)) + p_term_rest(tv, q as int).ops);
                    emitted = emitted + g.ops.push(op);
                    assert(ops_view(out@) =~= o1 + emitted);
                }
                p = q;
            },
            Err(m) => {
                proof {
                    let g = p_factor(tv, p + 1);
                    assert(p_term_rest(tv, p as int) == g);
                    assert(ops_view(out@) =~= o0 + (f.ops + (emitted + g.ops)));
                    assert(p_term(tv, pos as int).ops =~= f.ops + (emitted + g.ops));
                }
                return Err(m);
            },
        }
    }
    proof {
        assert(ops_view(out@) =~= o0 + (f.ops + emitted));
    }
    Ok(p)
}

fn parse_expr(t: &Vec<Token>, pos: usize, out: &mut Vec<Op>) -> (r: Result<usize, String>)
    requires
        pos <= t@.len(),
    ensures
        ops_view(final(out)@) == ops_view(old(out)@) + p_expr(toks_view(t@), pos as int).ops,
        match r {
            Ok(p) => p_expr(toks_view(t@), pos as int).err is None && p == p_expr(toks_view(t@), pos as int).pos
                && pos < p <= t@.len(),
            Err(m) => p_expr(toks_view(t@), pos as int).err == Some(m@),
        },
    decreases t@.len() - pos, 3int,
{
    let ghost tv = toks_view(t@);
    let ghost o0 = ops_view(out@);
    let mut p = parse_term(t, pos, out)?;
    let ghost a = p_term(tv, pos as int);
    let ghost o1 = ops_view(out@);
    let ghost p1 = p;
    let ghost mut emitted: Seq<OpView> = Seq::empty();
    proof {
        assert(emitted + p_expr_rest(tv, p as int).ops =~= p_expr_rest(tv, p as int).ops);
    }
    loop
        invariant_except_break
            pos < p1 <= p <= t@.len(),
            tv == toks_view(t@),
            ops_view(out@) == o1 + emitted,
            o1 == o0 + a.ops,
            o0 == ops_view(old(out)@),
            a == p_term(tv, pos as int),
            a.err is None,
            a.pos == p1,
            p_expr_rest(tv, p1 as int).ops == emitted + p_expr_rest(tv, p as int).ops,
            p_expr_rest(tv, p1 as int).pos == p_expr_rest(tv, p as int).pos,
            p_expr_rest(tv, p1 as int).err == p_expr_rest(tv, p as int).err,
        ensures
            pos < p1 <= p <= t@.len(),
            ops_view(out@) == o1 + emitted,
            o1 == o0 + a.ops,
            a == p_term(tv, pos as int),
            a.err is None,
            a.pos == p1,
            p_expr_rest(tv, p1 as int).ops == emitted,
            p_expr_rest(tv, p1 as int).pos == p,
            p_expr_rest(tv, p1 as int).err is None,
        decreases t@.len() - p,
    {
        let is_add = p < t.len() && match &t[p] { Token::Plus => true, _ => false };
        let is_sub = p < t.len() && match &t[p] { Token::Minus => true, _ => false };
        proof {
            if p < t@.len() {
                assert(tv[p as int] == t@[p as int]@);
            }
        }
        if !is_add && !is_sub {
            proof {
                assert(p_expr_rest(tv, p as int).ops =~= Seq::<OpView>::empty());
                assert(emitted + Seq::<OpView>::empty() =~= emitted);
            }
            break;
        }
        let ghost before = ops_view(out@);
        let r = parse_term(t, p + 1, out);
        match r {
            Ok(q) => {
                if is_add {
                    out.push(Op::Add);
                } else {
                    out.push(Op::Sub);
                }
                proof {
                    let g = p_term(tv, p + 1);
                    let op = if is_add { OpView::Add } else { OpView::Sub };
                    assert(ops_view(out@) =~= (before + g.ops).push(op));
                    let rest_p = p_expr_rest(tv, p as int);
                    assert(rest_p.ops == g.ops.push(op) + p_expr_rest(tv, q as int).ops);
                    assert(emitted + rest_p.ops =~= (emitted + g.ops.push(op)) + p_expr_rest(tv, q as int).ops);
                    emitted = emitted + g.ops.push(op);
                    assert(ops_view(out@) =~= o1 + emitted);
                }
                p = q;
            },
            Err(m) => {
                proof {
                    let g = p_term(tv, p + 1);
                    assert(p_expr_rest(tv, p as int) == g);
                    assert(ops_view(out@) =~= o0 + (a.ops + (emitted + g.ops)));
                    assert(p_expr(tv, pos as int).ops =~= a.ops + (emitted + g.ops));
                }
                return Err(m);
            },
        }
    }
    proof {
        assert(ops_view(out@) =~= o0 + (a.ops + emitted));
    }
    Ok(p)
}

/// Parse tokens into the steps that compute the expression's value, in the
/// order they are computed, and the parse error if there is one: the steps
/// are then those computed before the error was met, so a division by zero
/// among them is reported first, as an evaluation that stops at the first
/// failure would.
pub fn parse_program(tokens: &Vec<Token>) -> (r: (Vec<Op>, Option<String>))
    ensures
        ops_view(r.0@) == program(toks_view(tokens@)).0,
        match r.1 {
            Some(m) => program(toks_view(tokens@)).1 == Some(m@),
            None => program(toks_view(tokens@)).1 is None,
        },
{
    let mut out: Vec<Op> = Vec::new();
    proof {
        assert(ops_view(out@) =~= Seq::<OpView>::empty());
    }
    if tokens.len() == 0 {
        proof {
            reveal_strlit("empty expression");
        }
        return (out, Some(msg("empty expression")));
    }
    let r = parse_expr(tokens, 0, &mut out);
    proof {
        assert(Seq::<OpView>::empty() + p_expr(toks_view(tokens@), 0).ops =~= p_expr(toks_view(tokens@), 0).ops);
    }
    match r {
        Ok(p) => {
            if p != tokens.len() {
                proof {
                    reveal_strlit("unexpected trailing input");
                }
                (out, Some(msg("unexpected trailing input")))
            } else {
                (out, None)
            }
        },
        Err(m) => (out, Some(m)),
    }
}

// ---------------------------------------------------------------------------
// The program is well formed

/// The change a step makes to the depth of the number stack.
pub open spec fn effect(o: OpView) -> int {
    match o {
        OpView::Push(_) => 1,
        OpView::Neg => 0,
        _ => -1,
    }
}

/// The operands a step needs on the stack.
pub open spec fn needs(o: OpView) -> int {
    match o {
        OpView::Push(_) => 0,
        OpView::Neg => 1,
        _ => 2,
    }
}

/// Run from stack depth `d`, every step finds its operands.
pub open spec fn runs(ops: Seq<OpView>, d: int) -> bool
    decreases ops.len(),
{
    if ops.len() == 0 {
        true
    } else {
        d >= needs(ops[0]) && runs(ops.skip(1), d + effect(ops[0]))
    }
}

/// The total change to the stack depth.
pub open spec fn net(ops: Seq<OpView>) -> int
    decreases ops.len(),
{
    if ops.len() == 0 { 0 } else { effect(ops[0]) + net(ops.skip(1)) }
}

proof fn lemma_runs_concat(a: Seq<OpView>, b: Seq<OpView>, d: int)
    ensures
        runs(a + b, d) == (runs(a, d) && runs(b, d + net(a))),
        net(a + b) == net(a) + net(b),
    decreases a.len(),
{
    if a.len() == 0 {
        assert(a + b =~= b);
    } else {
        assert((a + b).skip(1) =~= a.skip(1) + b);
        assert((a + b)[0] == a[0]);
        lemma_runs_concat(a.skip(1), b, d + effect(a[0]));
    }
}

proof fn lemma_runs_one(o: OpView, d: int)
    ensures
        runs(seq![o], d) == (d >= needs(o)),
        net(seq![o]) == effect(o),
{
    assert(seq![o].skip(1) =~= Seq::<OpView>::empty());
    reveal_with_fuel(runs, 2);
    reveal_with_fuel(net, 2);
}

proof fn lemma_factor_runs(t: Seq<TokenView>, pos: int, d: int)
    requires
        d >= 0,
    ensures
        runs(p_factor(t, pos).ops, d),
        p_factor(t, pos).err is None ==> net(p_factor(t, pos).ops) == 1,
        p_factor(t, pos).err is None && 0 <= pos ==> pos < p_factor(t, pos).pos <= t.len(),
    decreases t.len() - pos, 1int,
{
    if pos < 0 || pos >= t.len() {
    } else {
        match t[pos] {
            TokenView::Num(n) => {
                lemma_runs_one(OpView::Push(n), d);
            },
            TokenView::Minus => {
                lemma_factor_runs(t, pos + 1, d);
                let f = p_factor(t, pos + 1);
                if f.err is None {
                    lemma_runs_concat(f.ops, seq![OpView::Neg], d);
                    lemma_runs_one(OpView::Neg, d + 1);
                    assert(f.ops.push(OpView::Neg) =~= f.ops + seq![OpView::Neg]);
                }
            },
            TokenView::LParen => {
                lemma_expr_runs(t, pos + 1, d);
            },
            _ => {},
        }
    }
}

proof fn lemma_term_runs(t: Seq<TokenView>, pos: int, d: int)
    requires
        d >= 0,
    ensures
        runs(p_term(t, pos).ops, d),
        p_term(t, pos).err is None ==> net(p_term(t, pos).ops) == 1,
        p_term(t, pos).err is None && 0 <= pos ==> pos < p_term(t, pos).pos <= t.len(),
    decreases t.len() - pos, 2int,
{
    lemma_factor_runs(t, pos, d);
    let f = p_factor(t, pos);
    if f.err is Some || f.pos <= pos || f.pos > t.len() {
    } else {
        lemma_term_rest_runs(t, f.pos, d + 1);
        lemma_runs_concat(f.ops, p_term_rest(t, f.pos).ops, d);
    }
}

proof fn lemma_term_rest_runs(t: Seq<TokenView>, pos: int, d: int)
    requires
        d >= 1,
    ensures
        runs(p_term_rest(t, pos).ops, d),
        p_term_rest(t, pos).err is None ==> net(p_term_rest(t, pos).ops) == 0,
        p_term_rest(t, pos).err is None && 0 <= pos <= t.len() ==> pos <= p_term_rest(t, pos).pos <= t.len(),
    decreases t.len() - pos, 0int,
{
    if 0 <= pos < t.len() && (t[pos] is Star || t[pos] is Slash) {
        let op = if t[pos] is Star { OpView::Mul } else { OpView::Div };
        lemma_factor_runs(t, pos + 1, d);
        let f = p_factor(t, pos + 1);
        if f.err is Some || f.pos <= pos + 1 || f.pos > t.len() {
        } else {
            lemma_term_rest_runs(t, f.pos, d);
            let r = p_term_rest(t, f.pos);
            lemma_runs_one(op, d + 1);
            lemma_runs_concat(f.ops, seq![op], d);
            assert(f.ops.push(op) =~= f.ops + seq![op]);
            lemma_runs_concat(f.ops.push(op), r.ops, d);
        }
    } else {
        assert(p_term_rest(t, pos).ops =~= Seq::<OpView>::empty());
        assert(net(Seq::<OpView>::empty()) == 0);
    }
}

proof fn lemma_expr_runs(t: Seq<TokenView>, pos: int, d: int)
    requires
        d >= 0,
    ensures
        runs(p_expr(t, pos).ops, d),
        p_expr(t, pos).err is None ==> net(p_expr(t, pos).ops) == 1,
        p_expr(t, pos).err is None && 0 <= pos ==> pos < p_expr(t, pos).pos <= t.len(),
    decreases t.len() - pos, 3int,
{
    lemma_term_runs(t, pos, d);
    let a = p_term(t, pos);
    if a.err is Some || a.pos <= pos || a.pos > t.len() {
    } else {
        lemma_expr_rest_runs(t, a.pos, d + 1);
        lemma_runs_concat(a.ops, p_expr_rest(t, a.pos).ops, d);
    }
}

proof fn lemma_expr_rest_runs(t: Seq<TokenView>, pos: int, d: int)
    requires
        d >= 1,
    ensures
        runs(p_expr_rest(t, pos).ops, d),
        p_expr_rest(t, pos).err is None ==> net(p_expr_rest(t, pos).ops) == 0,
        p_expr_rest(t, pos).err is None && 0 <= pos <= t.len() ==> pos <= p_expr_rest(t, pos).pos <= t.len(),
    decreases t.len() - pos, 0int,
{
    if 0 <= pos < t.len() && (t[pos] is Plus || t[pos] is Minus) {
        let op = if t[pos] is Plus { OpView::Add } else { OpView::Sub };
        lemma_term_runs(t, pos + 1, d);
        let b = p_term(t, pos + 1);
        if b.err is Some || b.pos <= pos + 1 || b.pos > t.len() {
        } else {
            lemma_expr_rest_runs(t, b.pos, d);
            let r = p_expr_rest(t, b.pos);
            lemma_runs_one(op, d + 1);
            lemma_runs_concat(b.ops, seq![op], d);
            assert(b.ops.push(op) =~= b.ops + seq![op]);
            lemma_runs_concat(b.ops.push(op), r.ops, d);
        }
    } else {
        assert(p_expr_rest(t, pos).ops =~= Seq::<OpView>::empty());
        assert(net(Seq::<OpView>::empty()) == 0);
    }
}

/// Every program the parser produces can be run on an empty stack without a
/// step missing its operands, and a program without a parse error leaves
/// exactly one number: the value of the expression.
pub proof fn law_program_is_well_formed(t: Seq<TokenView>)
    ensures
        runs(program(t).0, 0),
        program(t).1 is None ==> net(program(t).0) == 1,
{
    if t.len() > 0 {
        lemma_expr_runs(t, 0, 0);
    }
}

} // verus!
