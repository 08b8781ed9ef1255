//! Manual device pairing helpers: invite-code encoding and local address lookup.
//!
//! Manual pairing exists for networks where multicast discovery does not work
//! (guest Wi-Fi, VLAN-separated subnets, wired-to-wireless bridges). It only
//! bypasses *discovery*: the pairing ceremony itself is the same X25519 ECDH
//! exchange used for auto-discovered peers. An invite code carries nothing
//! secret, only the address the initiator should dial.
use vstd::prelude::*;
use vstd::string::StringSliceAdditionalSpecFns;
use vstd::utf8::{encode_utf8, is_ascii_chars, is_ascii_chars_encode_utf8};
use crate::network::discovery::{Ipv4, PAIRING_PORT};
use crate::text::string_from_chars;

verus! {

/// Alphabet for invite codes, "ACDEFGHJKLMNPQRTUVWXY3479" as ASCII bytes. It
/// leaves out characters that are easily confused when read aloud or
/// handwritten (B, I, O, S, Z, 0, 1, 2, 5, 6, 8).
pub const ALPHABET: [u8; 25] = [65, 67, 68, 69, 70, 71, 72, 74, 75, 76, 77, 78, 80, 81, 82, 84, 85, 86, 87, 88, 89, 51, 52, 55, 57];

/// Number of encoded characters, excluding the separator. A code packs an
/// IPv4 address and a port into 48 bits, and base 25 needs 11 digits for that.
pub const CODE_LEN: usize = 11;

/// Index in the rendered code at which the readability separator is inserted.
pub const DASH_AT: usize = 5;

/// The 48-bit value an invite code carries.
pub open spec fn invite_value(ip_bits: u32, port: u16) -> nat {
    ip_bits as nat * 65536 + port as nat
}

/// The lowest `n` base-25 digits of `v`, most significant first.
pub open spec fn base25_digits(v: nat, n: nat) -> Seq<nat>
    decreases n,
{
    if n == 0 {
        Seq::empty()
    } else {
        base25_digits(v / 25, (n - 1) as nat).push(v % 25)
    }
}

/// The number a sequence of base-25 digits stands for.
pub open spec fn digits_value(ds: Seq<nat>) -> nat
    decreases ds.len(),
{
    if ds.len() == 0 {
        0
    } else {
        digits_value(ds.drop_last()) * 25 + ds.last()
    }
}

/// `25^n`.
pub open spec fn pow25(n: nat) -> nat
    decreases n,
{
    if n == 0 {
        1
    } else {
        25 * pow25((n - 1) as nat)
    }
}

/// The alphabet character standing for digit `d`.
pub open spec fn letter(d: nat) -> char {
    ALPHABET@[d as int] as char
}

/// The alphabet characters for a sequence of digits.
pub open spec fn letters_of(ds: Seq<nat>) -> Seq<char> {
    ds.map_values(|d: nat| letter(d))
}

/// The eleven code characters for an address and port, before the separator.
pub open spec fn invite_letters(ip_bits: u32, port: u16) -> Seq<char> {
    letters_of(base25_digits(invite_value(ip_bits, port), CODE_LEN as nat))
}

/// The rendered code: eleven characters with a dash after the fifth.
pub open spec fn invite_text(ip_bits: u32, port: u16) -> Seq<char> {
    let l = invite_letters(ip_bits, port);
    l.take(DASH_AT as int) + seq!['-'] + l.skip(DASH_AT as int)
}

/// A byte that decoding skips: ASCII whitespace or a dash.
pub open spec fn is_separator(b: u8) -> bool {
    b == 32 || b == 9 || b == 10 || b == 12 || b == 13 || b == 45
}

/// ASCII uppercase of a byte.
pub open spec fn ascii_upper(b: u8) -> u8 {
    if 97 <= b <= 122 {
        (b - 32) as u8
    } else {
        b
    }
}

/// The code bytes with separators dropped and letters uppercased.
pub open spec fn cleaned(bs: Seq<u8>) -> Seq<u8>
    decreases bs.len(),
{
    if bs.len() == 0 {
        Seq::empty()
    } else if is_separator(bs.last()) {
        cleaned(bs.drop_last())
    } else {
        cleaned(bs.drop_last()).push(ascii_upper(bs.last()))
    }
}

/// Whether `b` is in the alphabet.
pub open spec fn is_letter(b: u8) -> bool {
    exists|i: int| 0 <= i < 25 && ALPHABET@[i] == b
}

/// The digit an alphabet byte stands for.
pub open spec fn digit_of(b: u8) -> nat {
    (choose|i: int| 0 <= i < 25 && ALPHABET@[i] == b) as nat
}

/// The digits of a cleaned code.
pub open spec fn code_digits(bs: Seq<u8>) -> Seq<nat> {
    bs.map_values(|b: u8| digit_of(b))
}

/// What decoding the bytes of a code yields: the address (as a big-endian
/// value) and the port, or `None` for a wrong length, a character outside the
/// alphabet, or a port other than the pairing port.
pub open spec fn decode_spec(bytes: Seq<u8>) -> Option<(u32, u16)> {
    let c = cleaned(bytes);
    if c.len() != CODE_LEN || !(forall|i: int| 0 <= i < c.len() ==> is_letter(#[trigger] c[i])) {
        None
    } else {
        let v = digits_value(code_digits(c));
        if v % 65536 != PAIRING_PORT as nat || v / 65536 > u32::MAX as nat {
            None
        } else {
            Some(((v / 65536) as u32, (v % 65536) as u16))
        }
    }
}

/// The bytes of an ASCII character sequence.
pub open spec fn ascii_bytes(s: Seq<char>) -> Seq<u8> {
    s.map_values(|c: char| c as u8)
}

fn base25_letters(v: u64, n: usize) -> (r: Vec<char>)
    requires
        n <= CODE_LEN,
    ensures
        r@ == letters_of(base25_digits(v as nat, n as nat)),
    decreases n,
{
    if n == 0 {
        let r: Vec<char> = Vec::new();
        assert(r@ =~= letters_of(base25_digits(v as nat, 0)));
        r
    } else {
        let mut r = base25_letters(v / 25, n - 1);
        let d = (v % 25) as usize;
        let c = ALPHABET[d] as char;
        r.push(c);
        assert(r@ =~= letters_of(base25_digits(v as nat, n as nat)));
        r
    }
}

/// Encode an address and port as a human-dictatable invite code.
///
/// The rendered form is `XXXXX-XXXXXX`: eleven alphabet characters split by a
/// dash. Because the port occupies the low 16 bits, a mistyped character
/// almost always decodes to a port other than the pairing port and is
/// rejected outright rather than silently producing a wrong address.
pub fn encode_invite(ip: Ipv4, port: u16) -> (code: String)
    ensures
        code@ == invite_text(ip@, port),
{
    let value: u64 = (ip.to_bits() as u64) * 65536 + (port as u64);
    let letters = base25_letters(value, CODE_LEN);
    proof {
        lemma_base25_len(value as nat, CODE_LEN as nat);
    }
    let mut out: Vec<char> = Vec::new();
    let mut i: usize = 0;
    while i < CODE_LEN
        invariant
            letters@ == invite_letters(ip@, port),
            letters@.len() == CODE_LEN,
            i <= CODE_LEN,
            out@ == if i <= DASH_AT {
                letters@.take(i as int)
            } else {
                letters@.take(DASH_AT as int) + seq!['-'] + letters@.subrange(DASH_AT as int, i as int)
            },
        decreases CODE_LEN - i,
    {
        if i == DASH_AT {
            out.push('-');
            assert(letters@.subrange(DASH_AT as int, DASH_AT as int) =~= Seq::<char>::empty());
        }
        out.push(letters[i]);
        proof {
            if i < DASH_AT {
                assert(out@ =~= letters@.take(i + 1));
            } else {
                assert(out@ =~= letters@.take(DASH_AT as int) + seq!['-'] + letters@.subrange(DASH_AT as int, i + 1));
            }
        }
        i = i + 1;
    }
    assert(letters@.subrange(DASH_AT as int, CODE_LEN as int) =~= letters@.skip(DASH_AT as int));
    string_from_chars(out.as_slice())
}

/// Position of `b` in the alphabet, if it is there.
fn alphabet_index(b: u8) -> (r: Option<u64>)
    ensures
        r matches Some(d) ==> d < 25 && ALPHABET@[d as int] == b && is_letter(b) && digit_of(b) == d,
        r is None ==> !is_letter(b),
{
    let mut i: usize = 0;
    while i < 25
        invariant
            i <= 25,
            forall|t: int| 0 <= t < i ==> ALPHABET@[t] != b,
        decreases 25 - i,
    {
        if ALPHABET[i] == b {
            proof {
                lemma_alphabet_distinct();
                assert(is_letter(b));
                let c = choose|t: int| 0 <= t < 25 && ALPHABET@[t] == b;
                assert(c == i);
            }
            return Some(i as u64);
        }
        i = i + 1;
    }
    None
}

/// No character occurs twice in the alphabet.
pub proof fn lemma_alphabet_distinct()
    ensures
        forall|i: int, j: int| 0 <= i < 25 && 0 <= j < 25 && i != j ==> ALPHABET@[i] != ALPHABET@[j],
{
    assert(ALPHABET@ =~= seq![65u8, 67, 68, 69, 70, 71, 72, 74, 75, 76, 77, 78, 80, 81, 82, 84, 85, 86, 87, 88, 89, 51, 52, 55, 57]);
}

/// Decode an invite code back into the address and port it names.
///
/// Accepts the code in any case and with dashes or spaces anywhere. Returns
/// `None` when the code is the wrong length, contains a character outside the
/// alphabet, or does not carry the pairing port, which is what a typo produces.
pub fn decode_invite(code: &str) -> (r: Option<(Ipv4, u16)>)
    ensures
        match decode_spec(code.spec_bytes()) {
            Some((bits, port)) => r matches Some((ip, p)) && ip@ == bits && p == port,
            None => r is None,
        },
{
    let bytes = code.as_bytes();
    let ghost bs = bytes@;
    let mut clean: Vec<u8> = Vec::new();
    let mut i: usize = 0;
    while i < bytes.len()
        invariant
            bs == bytes@,
            i <= bs.len(),
            clean@ == cleaned(bs.take(i as int)),
        decreases bs.len() - i,
    {
        let b = bytes[i];
        assert(bs.take(i + 1).drop_last() =~= bs.take(i as int));
        if !(b == 32 || b == 9 || b == 10 || b == 12 || b == 13 || b == 45) {
            let u = if 97 <= b && b <= 122 { b - 32 } else { b };
            clean.push(u);
        }
        i = i + 1;
    }
    assert(bs.take(bs.len() as int) =~= bs);
    if clean.len() != CODE_LEN {
        return None;
    }
    let mut value: u64 = 0;
    let mut j: usize = 0;
    while j < clean.len()
        invariant
            bs == code.spec_bytes(),
            clean@ == cleaned(bs),
            clean@.len() == CODE_LEN,
            j <= CODE_LEN,
            forall|t: int| 0 <= t < j ==> is_letter(#[trigger] clean@[t]),
            value as nat == digits_value(code_digits(clean@.take(j as int))),
            (value as nat) < pow25(j as nat),
        decreases CODE_LEN - j,
    {
        match alphabet_index(clean[j]) {
            None => {
                assert(!is_letter(clean@[j as int]));
                assert(!(forall|t: int| 0 <= t < clean@.len() ==> is_letter(#[trigger] clean@[t])));
                return None;
            },
            Some(d) => {
                proof {
                    lemma_pow25_bound(j as nat);
                    assert(code_digits(clean@.take(j + 1)).drop_last() =~= code_digits(clean@.take(j as int)));
                    assert(code_digits(clean@.take(j + 1)).last() == d);
                    assert(value * 25 + d < pow25((j + 1) as nat)) by (nonlinear_arith)
                        requires
                            value < pow25(j as nat),
                            d < 25,
                            pow25((j + 1) as nat) == 25 * pow25(j as nat),
                    ;
                }
                value = value * 25 + d;
                j = j + 1;
            },
        }
    }
    assert(clean@.take(CODE_LEN as int) =~= clean@);
    let port = value % 65536;
    let ip = value / 65536;
    if port != PAIRING_PORT as u64 {
        return None;
    }
    if ip > 4294967295 {
        return None;
    }
    Some((Ipv4::from_bits(ip as u32), port as u16))
}

proof fn lemma_base25_len(v: nat, n: nat)
    ensures
        base25_digits(v, n).len() == n,
    decreases n,
{
    if n > 0 {
        lemma_base25_len(v / 25, (n - 1) as nat);
    }
}

/// `25^11` fits in 64 bits and exceeds every 48-bit value.
proof fn lemma_pow25_bound(n: nat)
    requires
        n <= CODE_LEN,
    ensures
        pow25(n) <= pow25(CODE_LEN as nat),
        pow25(CODE_LEN as nat) == 2384185791015625,
        pow25(n + 1) == 25 * pow25(n),
    decreases CODE_LEN - n,
{
    assert(pow25(0) == 1);
    assert(pow25(1) == 25);
    assert(pow25(2) == 625);
    assert(pow25(3) == 15625);
    assert(pow25(4) == 390625);
    assert(pow25(5) == 9765625);
    assert(pow25(6) == 244140625);
    assert(pow25(7) == 6103515625);
    assert(pow25(8) == 152587890625);
    assert(pow25(9) == 3814697265625);
    assert(pow25(10) == 95367431640625);
    assert(pow25(11) == 2384185791015625);
    if n < CODE_LEN {
        lemma_pow25_bound(n + 1);
    }
}

/// The address to show the user for manual pairing, given the interface the
/// discovery layer selected: `None` when it is unspecified or loopback, since
/// discovery then has nothing to bind to and manual pairing cannot help.
pub fn pairing_address(selected: Ipv4) -> (r: Option<Ipv4>)
    ensures
        r == if selected@ == 0 || selected@ / 16777216 == 127 { None } else { Some(selected) },
{
    if selected.is_unspecified() || selected.is_loopback() {
        return None;
    }
    Some(selected)
}

// ---------------------------------------------------------------------------
// Laws

proof fn lemma_digits_roundtrip(v: nat, n: nat)
    requires
        v < pow25(n),
    ensures
        digits_value(base25_digits(v, n)) == v,
        base25_digits(v, n).len() == n,
        forall|i: int| 0 <= i < n ==> #[trigger] base25_digits(v, n)[i] < 25,
    decreases n,
{
    if n > 0 {
        let q = v / 25;
        assert(q < pow25((n - 1) as nat)) by (nonlinear_arith)
            requires
                v < 25 * pow25((n - 1) as nat),
                q == v / 25,
        ;
        lemma_digits_roundtrip(q, (n - 1) as nat);
        let ds = base25_digits(v, n);
        assert(ds.drop_last() =~= base25_digits(q, (n - 1) as nat));
    }
}

proof fn lemma_cleaned_concat(a: Seq<u8>, b: Seq<u8>)
    ensures
        cleaned(a + b) == cleaned(a) + cleaned(b),
    decreases b.len(),
{
    if b.len() == 0 {
        assert(a + b =~= a);
        assert(cleaned(a) + cleaned(b) =~= cleaned(a));
    } else {
        assert((a + b).drop_last() =~= a + b.drop_last());
        assert((a + b).last() == b.last());
        lemma_cleaned_concat(a, b.drop_last());
        if is_separator(b.last()) {
        } else {
            assert(cleaned(a) + cleaned(b.drop_last()).push(ascii_upper(b.last())) =~= (cleaned(a) + cleaned(
                b.drop_last(),
            )).push(ascii_upper(b.last())));
        }
    }
}

/// Bytes of uppercase letters and digits come through cleaning unchanged.
proof fn lemma_cleaned_letters(bs: Seq<u8>)
    requires
        forall|i: int| 0 <= i < bs.len() ==> is_letter(#[trigger] bs[i]),
    ensures
        cleaned(bs) == bs,
    decreases bs.len(),
{
    if bs.len() > 0 {
        let b = bs.last();
        assert(is_letter(bs[bs.len() - 1]));
        let t = choose|t: int| 0 <= t < 25 && ALPHABET@[t] == b;
        assert(ALPHABET@ =~= seq![65u8, 67, 68, 69, 70, 71, 72, 74, 75, 76, 77, 78, 80, 81, 82, 84, 85, 86, 87, 88, 89, 51, 52, 55, 57]);
        assert(!is_separator(b) && ascii_upper(b) == b);
        lemma_cleaned_letters(bs.drop_last());
        assert(bs.drop_last().push(b) =~= bs);
    }
}

/// The bytes of the letters of a code, and what they decode to digit by digit.
proof fn lemma_letter_bytes(ds: Seq<nat>)
    requires
        forall|i: int| 0 <= i < ds.len() ==> #[trigger] ds[i] < 25,
    ensures
        forall|i: int| 0 <= i < ds.len() ==> is_letter(#[trigger] ascii_bytes(letters_of(ds))[i]),
        code_digits(ascii_bytes(letters_of(ds))) == ds,
{
    lemma_alphabet_distinct();
    let bs = ascii_bytes(letters_of(ds));
    assert forall|i: int| 0 <= i < ds.len() implies is_letter(#[trigger] bs[i]) && digit_of(bs[i]) == ds[i] by {
        let d = ds[i];
        let b = ALPHABET@[d as int];
        assert(b < 128u8) by {
            assert(ALPHABET@ =~= seq![65u8, 67, 68, 69, 70, 71, 72, 74, 75, 76, 77, 78, 80, 81, 82, 84, 85, 86, 87, 88, 89, 51, 52, 55, 57]);
        }
        assert(((b as char) as u8) == b);
        assert(bs[i] == b);
        assert(is_letter(b));
        let c = choose|t: int| 0 <= t < 25 && ALPHABET@[t] == b;
        assert(c == d);
    }
    assert(code_digits(bs) =~= ds);
}

/// A code is ASCII, so its UTF-8 bytes (what `decode_invite` reads from the
/// text `encode_invite` returns) are its characters one for one.
proof fn lemma_invite_text_ascii(ip_bits: u32, port: u16)
    ensures
        is_ascii_chars(invite_text(ip_bits, port)),
        encode_utf8(invite_text(ip_bits, port)) == ascii_bytes(invite_text(ip_bits, port)),
{
    let v = invite_value(ip_bits, port);
    lemma_pow25_bound(0);
    lemma_digits_roundtrip(v, CODE_LEN as nat);
    let ds = base25_digits(v, CODE_LEN as nat);
    let l = invite_letters(ip_bits, port);
    let text = invite_text(ip_bits, port);
    assert(ALPHABET@ =~= seq![65u8, 67, 68, 69, 70, 71, 72, 74, 75, 76, 77, 78, 80, 81, 82, 84, 85, 86, 87, 88, 89, 51, 52, 55, 57]);
    assert forall|i: int| 0 <= i < l.len() implies '\0' <= #[trigger] l[i] <= '\u{7f}' by {
        assert(ds[i] < 25);
        assert(ALPHABET@[ds[i] as int] < 128u8);
    }
    assert forall|i: int| 0 <= i < text.len() implies '\0' <= #[trigger] text[i] <= '\u{7f}' by {
        if i < DASH_AT {
            assert(text[i] == l[i]);
        } else if i > DASH_AT {
            assert(text[i] == l[i - 1]);
        }
    }
    is_ascii_chars_encode_utf8(text);
    assert(encode_utf8(text) =~= ascii_bytes(text));
}

/// Decoding an invite code gives back the address it was made from, whether
/// read as its characters or as the bytes of the text `encode_invite` returns.
pub proof fn law_invite_roundtrip(ip_bits: u32)
    ensures
        decode_spec(ascii_bytes(invite_text(ip_bits, PAIRING_PORT))) == Some((ip_bits, PAIRING_PORT)),
        decode_spec(encode_utf8(invite_text(ip_bits, PAIRING_PORT))) == Some((ip_bits, PAIRING_PORT)),
{
    law_invite_decodes_to_value(ip_bits, PAIRING_PORT);
    lemma_invite_text_ascii(ip_bits, PAIRING_PORT);
}

/// A code made for any port other than the pairing port is rejected.
pub proof fn law_invite_wrong_port_rejected(ip_bits: u32, port: u16)
    requires
        port != PAIRING_PORT,
    ensures
        decode_spec(ascii_bytes(invite_text(ip_bits, port))) is None,
        decode_spec(encode_utf8(invite_text(ip_bits, port))) is None,
{
    law_invite_decodes_to_value(ip_bits, port);
    lemma_invite_text_ascii(ip_bits, port);
}

/// The digits of any code decode to the value it was made from.
proof fn law_invite_decodes_to_value(ip_bits: u32, port: u16)
    ensures
        ({
            let c = cleaned(ascii_bytes(invite_text(ip_bits, port)));
            &&& c.len() == CODE_LEN
            &&& forall|i: int| 0 <= i < c.len() ==> is_letter(#[trigger] c[i])
            &&& digits_value(code_digits(c)) == invite_value(ip_bits, port)
        }),
        decode_spec(ascii_bytes(invite_text(ip_bits, port))) == if port == PAIRING_PORT {
            Some((ip_bits, port))
        } else {
            None
        },
{
    let v = invite_value(ip_bits, port);
    lemma_pow25_bound(0);
    assert(v < pow25(CODE_LEN as nat));
    lemma_digits_roundtrip(v, CODE_LEN as nat);
    let ds = base25_digits(v, CODE_LEN as nat);
    let l = invite_letters(ip_bits, port);
    lemma_letter_bytes(ds);
    let lb = ascii_bytes(l);
    let text = invite_text(ip_bits, port);
    let tb = ascii_bytes(text);
    assert(tb =~= lb.take(DASH_AT as int) + seq![45u8] + lb.skip(DASH_AT as int));
    lemma_cleaned_concat(lb.take(DASH_AT as int) + seq![45u8], lb.skip(DASH_AT as int));
    lemma_cleaned_concat(lb.take(DASH_AT as int), seq![45u8]);
    assert(seq![45u8].drop_last() =~= Seq::<u8>::empty());
    assert(seq![45u8].last() == 45u8);
    assert(cleaned(Seq::<u8>::empty()) =~= Seq::<u8>::empty());
    assert(cleaned(seq![45u8]) =~= Seq::<u8>::empty());
    lemma_cleaned_letters(lb.take(DASH_AT as int));
    lemma_cleaned_letters(lb.skip(DASH_AT as int));
    assert(cleaned(tb) =~= lb);
    assert(v % 65536 == port as nat);
    assert(v / 65536 == ip_bits as nat);
}

/// Decoding ignores case and separators: a code decodes exactly as its
/// cleaned form does.
pub proof fn law_decode_ignores_case_and_separators(bytes: Seq<u8>)
    ensures
        decode_spec(bytes) == decode_spec(cleaned(bytes)),
{
    lemma_cleaned_idempotent(bytes);
}

proof fn lemma_cleaned_idempotent(bs: Seq<u8>)
    ensures
        cleaned(cleaned(bs)) == cleaned(bs),
    decreases bs.len(),
{
    if bs.len() > 0 {
        lemma_cleaned_idempotent(bs.drop_last());
        if !is_separator(bs.last()) {
            let c = cleaned(bs.drop_last());
            let u = ascii_upper(bs.last());
            assert(c.push(u).drop_last() =~= c);
            assert(!is_separator(u));
            assert(ascii_upper(u) == u);
        }
    }
}

} // verus!
