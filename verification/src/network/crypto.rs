//! Cryptographic session helpers: key agreement, key derivation, the AEAD
//! envelope, base64, and length-prefixed framing.
use vstd::prelude::*;
use chacha20poly1305::aead::{Aead, AeadCore, KeyInit};
use base64::Engine;

verus! {

/// Errors raised by the cryptographic layer.
#[derive(Debug)]
pub enum CryptoError {
    Encrypt,
    Decrypt,
    KeyDecode(String),
    Hkdf,
    FrameTooLarge(usize),
}

/// Largest payload a single frame may carry.
pub const MAX_FRAME_BYTES: usize = 64 * 1024 * 1024;

/// Bytes of a ChaCha20-Poly1305 nonce.
pub const NONCE_LEN: usize = 12;

/// Bytes of a ChaCha20-Poly1305 authentication tag.
pub const TAG_LEN: usize = 16;

#[verifier::external_type_specification]
#[verifier::external_body]
pub struct ExEphemeralSecret(x25519_dalek::EphemeralSecret);

#[verifier::external_type_specification]
#[verifier::external_body]
pub struct ExDecodeError(base64::DecodeError);

// ---------------------------------------------------------------------------
// Names for what the outside functions compute

/// What `Hkdf::<Sha256>::new(Some(salt), ikm).expand(info, okm)` writes into an
/// `okm` buffer of `len` bytes.
pub uninterp spec fn hkdf_sha256(salt: Seq<u8>, ikm: Seq<u8>, info: Seq<u8>, len: nat) -> Seq<u8>;

/// The ciphertext (with its tag appended) that `ChaCha20Poly1305::encrypt`
/// produces for a key, a nonce and a plaintext.
pub uninterp spec fn chacha20poly1305_seal(key: Seq<u8>, nonce: Seq<u8>, plaintext: Seq<u8>) -> Seq<u8>;

/// What `ChaCha20Poly1305::decrypt` returns for a key, a nonce and a
/// ciphertext: the plaintext, or `None` when authentication fails.
pub uninterp spec fn chacha20poly1305_open(key: Seq<u8>, nonce: Seq<u8>, ciphertext: Seq<u8>) -> Option<Seq<u8>>;

/// The X25519 shared secret of a private scalar and a peer's public key, as
/// `StaticSecret::diffie_hellman` computes it.
pub uninterp spec fn x25519_shared(privkey: Seq<u8>, pubkey: Seq<u8>) -> Seq<u8>;

/// The standard (padded) base64 text of a byte string.
pub uninterp spec fn base64_encode(bytes: Seq<u8>) -> Seq<char>;

/// The bytes a standard base64 text decodes to, or `None` if it is not valid.
pub uninterp spec fn base64_decode(text: Seq<char>) -> Option<Seq<u8>>;

/// The SHA-256 digest of a byte string.
pub uninterp spec fn sha256(data: Seq<u8>) -> Seq<u8>;

/// An incremental SHA-256 hasher. `sha2::Sha256` is an alias of a deeply
/// nested generic type (`CoreWrapper<CtVariableCoreWrapper<..>>` over typenum
/// sizes) whose declaration Verus refuses ("expected generics to match"), so it
/// is held in a private field of a struct that Verus does not look into.
#[verifier::external_body]
pub struct Sha256State {
    h: sha2::Sha256,
}

/// The bytes a SHA-256 hasher has been fed so far.
pub uninterp spec fn sha256_fed(s: Sha256State) -> Seq<u8>;

// ---------------------------------------------------------------------------
// Trusted calls

/// `Sha256::new()`: a hasher that has been fed nothing.
#[verifier::external_body]
pub(crate) fn sha256_start() -> (s: Sha256State)
    ensures
        sha256_fed(s) == Seq::<u8>::empty(),
{
    Sha256State { h: <sha2::Sha256 as sha2::Digest>::new() }
}

/// `Digest::update(h, chunk)`: the chunk is appended to what the hasher has
/// been fed.
#[verifier::external_body]
pub(crate) fn sha256_feed(s: &mut Sha256State, chunk: &[u8])
    ensures
        sha256_fed(*final(s)) == sha256_fed(*old(s)) + chunk@,
{
    sha2::Digest::update(&mut s.h, chunk)
}

/// `Digest::finalize(h)`: the 32-byte digest of everything the hasher was fed.
#[verifier::external_body]
pub(crate) fn sha256_end(s: Sha256State) -> (d: Vec<u8>)
    ensures
        d@ == sha256(sha256_fed(s)),
        d@.len() == 32,
{
    sha2::Digest::finalize(s.h).to_vec()
}

/// `Hkdf::<Sha256>::new(Some(salt), ikm)` followed by `expand(info, okm)` into
/// a buffer of `len` bytes. The crate refuses (and this returns `None`) exactly
/// when `len` exceeds 255 hash blocks, 8160 bytes.
#[verifier::external_body]
fn hkdf_sha256_expand(salt: &[u8], ikm: &[u8], info: &[u8], len: usize) -> (r: Option<Vec<u8>>)
    ensures
        r is None <==> len > 8160,
        r matches Some(okm) ==> okm@ == hkdf_sha256(salt@, ikm@, info@, len as nat) && okm@.len() == len,
{
    let hk = hkdf::Hkdf::<sha2::Sha256>::new(Some(salt), ikm);
    let mut okm = vec![0u8; len];
    match hk.expand(info, &mut okm) {
        Ok(()) => Some(okm),
        Err(_) => None,
    }
}

/// A fresh 12-byte nonce from `ChaCha20Poly1305::generate_nonce(OsRng)`. The
/// bytes are random; nothing is stated of them. The operating system's random
/// source may panic if it is unavailable.
#[verifier::external_body]
fn random_nonce() -> (n: [u8; 12]) {
    let nonce = chacha20poly1305::ChaCha20Poly1305::generate_nonce(&mut chacha20poly1305::aead::OsRng);
    let mut out = [0u8; 12];
    out.copy_from_slice(&nonce);
    out
}

/// `ChaCha20Poly1305::new(key).encrypt(nonce, plaintext)`. The crate refuses
/// (and this returns `None`) exactly when the plaintext spans `u32::MAX` or
/// more 64-byte blocks. The ciphertext is as long as the plaintext plus the
/// 16-byte tag, and decrypting it with the same key and nonce gives the
/// plaintext back.
#[verifier::external_body]
fn aead_seal(key: &[u8; 32], nonce: &[u8; 12], plaintext: &[u8]) -> (r: Option<Vec<u8>>)
    ensures
        r is None <==> plaintext@.len() / 64 >= u32::MAX,
        r matches Some(ct) ==> {
            &&& ct@ == chacha20poly1305_seal(key@, nonce@, plaintext@)
            &&& ct@.len() == plaintext@.len() + 16
            &&& chacha20poly1305_open(key@, nonce@, ct@) == Some(plaintext@)
        },
{
    let cipher = chacha20poly1305::ChaCha20Poly1305::new(chacha20poly1305::Key::from_slice(key));
    cipher.encrypt(chacha20poly1305::Nonce::from_slice(nonce), plaintext).ok()
}

/// `ChaCha20Poly1305::new(key).decrypt(nonce, ciphertext)`. It succeeds only
/// when the trailing 16-byte tag checks, and then returns the keystream XOR of
/// the rest: so the plaintext is 16 bytes shorter, and sealing it again with
/// the same key and nonce gives back the very same ciphertext.
#[verifier::external_body]
fn aead_open(key: &[u8; 32], nonce: &[u8], ciphertext: &[u8]) -> (r: Option<Vec<u8>>)
    requires
        nonce@.len() == 12,
    ensures
        match r {
            Some(pt) => chacha20poly1305_open(key@, nonce@, ciphertext@) == Some(pt@)
                && pt@.len() + 16 == ciphertext@.len()
                && chacha20poly1305_seal(key@, nonce@, pt@) == ciphertext@,
            None => chacha20poly1305_open(key@, nonce@, ciphertext@) is None,
        },
{
    let cipher = chacha20poly1305::ChaCha20Poly1305::new(chacha20poly1305::Key::from_slice(key));
    cipher.decrypt(chacha20poly1305::Nonce::from_slice(nonce), ciphertext).ok()
}

/// Generate an ephemeral X25519 keypair from the operating system's random
/// source: `EphemeralSecret::random_from_rng(OsRng)` and its `PublicKey`.
/// Returns (secret, public_key_bytes). The key is random; nothing is stated
/// of it.
#[verifier::external_body]
pub fn generate_ephemeral() -> (r: (x25519_dalek::EphemeralSecret, [u8; 32])) {
    let secret = x25519_dalek::EphemeralSecret::random_from_rng(rand::rngs::OsRng);
    let public = x25519_dalek::PublicKey::from(&secret);
    (secret, public.to_bytes())
}

/// DH with an ephemeral secret and a received public key:
/// `secret.diffie_hellman(&PublicKey::from(their_pubkey)).to_bytes()`. The
/// secret is opaque and random, so nothing is stated of the result.
#[verifier::external_body]
pub fn ephemeral_dh(secret: x25519_dalek::EphemeralSecret, their_pubkey: &[u8; 32]) -> (r: [u8; 32]) {
    secret.diffie_hellman(&x25519_dalek::PublicKey::from(*their_pubkey)).to_bytes()
}

/// DH with a long-term static private key and a received public key:
/// `StaticSecret::from(privkey).diffie_hellman(&PublicKey::from(their_pubkey))`.
#[verifier::external_body]
pub fn static_dh(privkey: &[u8; 32], their_pubkey: &[u8; 32]) -> (r: [u8; 32])
    ensures
        r@ == x25519_shared(privkey@, their_pubkey@),
{
    x25519_dalek::StaticSecret::from(*privkey)
        .diffie_hellman(&x25519_dalek::PublicKey::from(*their_pubkey))
        .to_bytes()
}

/// `STANDARD.encode(b)`: the padded base64 text of the bytes, which decodes
/// back to them.
#[verifier::external_body]
pub fn to_b64(b: &[u8]) -> (s: String)
    ensures
        s@ == base64_encode(b@),
        base64_decode(s@) == Some(b@),
{
    base64::engine::general_purpose::STANDARD.encode(b)
}

/// `STANDARD.decode(s)`.
#[verifier::external_body]
fn b64_decode(s: &str) -> (r: Result<Vec<u8>, base64::DecodeError>)
    ensures
        match r {
            Ok(v) => base64_decode(s@) == Some(v@),
            Err(_) => base64_decode(s@) is None,
        },
{
    base64::engine::general_purpose::STANDARD.decode(s)
}

/// The `Display` text of a base64 decode error. Nothing is stated of it.
#[verifier::external_body]
fn decode_error_text(e: &base64::DecodeError) -> (s: String) {
    e.to_string()
}

/// `Sha256::digest(data)`: a 32-byte digest.
#[verifier::external_body]
pub(crate) fn sha256_digest(data: &[u8]) -> (d: Vec<u8>)
    ensures
        d@ == sha256(data@),
        d@.len() == 32,
{
    <sha2::Sha256 as sha2::Digest>::digest(data).to_vec()
}

// ---------------------------------------------------------------------------
// Verified logic

/// Decode a standard base64 string into bytes.
pub fn from_b64(s: &str) -> (r: Result<Vec<u8>, CryptoError>)
    ensures
        match r {
            Ok(v) => base64_decode(s@) == Some(v@),
            Err(e) => base64_decode(s@) is None && e is KeyDecode,
        },
{
    match b64_decode(s) {
        Ok(v) => Ok(v),
        Err(e) => Err(CryptoError::KeyDecode(decode_error_text(&e))),
    }
}

/// The eight decimal digits of `n`, zero-padded, most significant first.
pub open spec fn decimal_digits(v: nat, n: nat) -> Seq<char>
    decreases n,
{
    if n == 0 {
        Seq::empty()
    } else {
        decimal_digits(v / 10, (n - 1) as nat).push(((v % 10) + 48) as char)
    }
}

fn decimal_chars(v: u32, n: usize) -> (r: Vec<char>)
    requires
        n <= 10,
    ensures
        r@ == decimal_digits(v as nat, n as nat),
    decreases n,
{
    if n == 0 {
        Vec::new()
    } else {
        let mut r = decimal_chars(v / 10, n - 1);
        let d = (v % 10) as u8;
        let c = (d + 48) as char;
        r.push(c);
        r
    }
}

/// The pairing code for the first three bytes of key material: their
/// big-endian value reduced modulo 10^8, written as eight decimal digits.
pub open spec fn pairing_code_spec(okm: Seq<u8>) -> Seq<char> {
    decimal_digits(((okm[0] as nat * 65536 + okm[1] as nat * 256 + okm[2] as nat) % 100000000), 8)
}

/// Render three bytes of key material as the 8-digit pairing code.
pub fn pairing_code_from_okm(okm: &[u8; 3]) -> (code: String)
    ensures
        code@ == pairing_code_spec(okm@),
{
    let n: u32 = ((okm[0] as u32) * 65536 + (okm[1] as u32) * 256 + (okm[2] as u32)) % 100000000;
    let chars = decimal_chars(n, 8);
    crate::text::string_from_chars(chars.as_slice())
}

/// The salt of the pairing-code derivation, the ASCII bytes of "synapt-pair-verify".
pub open spec fn pair_verify_salt() -> Seq<u8> {
    seq![115u8, 121, 110, 97, 112, 116, 45, 112, 97, 105, 114, 45, 118, 101, 114, 105, 102, 121]
}

/// The info string of the session key derivation, the ASCII bytes of "synapt-session-key".
pub open spec fn session_key_info() -> Seq<u8> {
    seq![115u8, 121, 110, 97, 112, 116, 45, 115, 101, 115, 115, 105, 111, 110, 45, 107, 101, 121]
}

fn bytes_pair_verify_salt() -> (v: Vec<u8>)
    ensures
        v@ == pair_verify_salt(),
{
    let v: Vec<u8> = vec![115u8, 121, 110, 97, 112, 116, 45, 112, 97, 105, 114, 45, 118, 101, 114, 105, 102, 121];
    assert(v@ =~= pair_verify_salt());
    v
}

fn bytes_session_key_info() -> (v: Vec<u8>)
    ensures
        v@ == session_key_info(),
{
    let v: Vec<u8> = vec![115u8, 121, 110, 97, 112, 116, 45, 115, 101, 115, 115, 105, 111, 110, 45, 107, 101, 121];
    assert(v@ =~= session_key_info());
    v
}

/// Derive the 8-digit pairing verification code: HKDF-SHA256 with salt
/// "synapt-pair-verify" and empty info, expanded to 3 bytes.
pub fn pairing_code(shared_secret: &[u8; 32]) -> (code: String)
    ensures
        code@ == pairing_code_spec(hkdf_sha256(pair_verify_salt(), shared_secret@, Seq::empty(), 3)),
{
    let salt = bytes_pair_verify_salt();
    let info: Vec<u8> = Vec::new();
    let okm_vec = hkdf_sha256_expand(salt.as_slice(), shared_secret, info.as_slice(), 3);
    match okm_vec {
        Some(v) => {
            let okm: [u8; 3] = [v[0], v[1], v[2]];
            assert(okm@ =~= v@);
            pairing_code_from_okm(&okm)
        },
        None => {
            assert(false);
            String::new()
        },
    }
}

/// Copy the first 32 bytes of a vector of exactly 32 bytes into an array.
pub fn to_key32(v: &Vec<u8>) -> (r: Option<[u8; 32]>)
    ensures
        match r {
            Some(k) => v@.len() == 32 && k@ == v@,
            None => v@.len() != 32,
        },
{
    if v.len() != 32 {
        return None;
    }
    let mut k = [0u8; 32];
    let mut i: usize = 0;
    while i < 32
        invariant
            v@.len() == 32,
            i <= 32,
            k@.len() == 32,
            forall|t: int| 0 <= t < i ==> k@[t] == v@[t],
        decreases 32 - i,
    {
        k.set(i, v[i]);
        i = i + 1;
    }
    assert(k@ =~= v@);
    Some(k)
}

/// Derive a 32-byte session key from a long-term DH secret and a session
/// nonce: HKDF-SHA256 with salt = nonce and info "synapt-session-key".
pub fn session_key(shared_secret: &[u8; 32], nonce: &[u8; 32]) -> (r: Result<[u8; 32], CryptoError>)
    ensures
        r matches Ok(k) && k@ == hkdf_sha256(nonce@, shared_secret@, session_key_info(), 32),
{
    let info = bytes_session_key_info();
    match hkdf_sha256_expand(nonce, shared_secret, info.as_slice(), 32) {
        Some(v) => match to_key32(&v) {
            Some(k) => Ok(k),
            None => Err(CryptoError::Hkdf),
        },
        None => Err(CryptoError::Hkdf),
    }
}

/// What decrypting `data` with `key` yields: `None` when it is shorter than a
/// nonce or fails authentication.
pub open spec fn opened(key: Seq<u8>, data: Seq<u8>) -> Option<Seq<u8>> {
    if data.len() < NONCE_LEN {
        None
    } else {
        chacha20poly1305_open(key, data.take(NONCE_LEN as int), data.skip(NONCE_LEN as int))
    }
}

/// `out` is an envelope of `plaintext` under `key`: a nonce followed by the
/// sealed plaintext, which opens back to the plaintext.
pub open spec fn sealed_envelope(key: Seq<u8>, plaintext: Seq<u8>, out: Seq<u8>) -> bool {
    &&& out.len() == NONCE_LEN + plaintext.len() + TAG_LEN
    &&& out.skip(NONCE_LEN as int) == chacha20poly1305_seal(key, out.take(NONCE_LEN as int), plaintext)
    &&& opened(key, out) == Some(plaintext)
}

/// Encrypt plaintext under a fresh random nonce. Returns [12-byte nonce || ciphertext+tag].
pub fn encrypt(key_bytes: &[u8; 32], plaintext: &[u8]) -> (r: Result<Vec<u8>, CryptoError>)
    ensures
        match r {
            Ok(out) => plaintext@.len() / 64 < u32::MAX && sealed_envelope(key_bytes@, plaintext@, out@),
            Err(e) => e is Encrypt && plaintext@.len() / 64 >= u32::MAX,
        },
{
    let nonce = random_nonce();
    match aead_seal(key_bytes, &nonce, plaintext) {
        Some(ct) => {
            let mut out: Vec<u8> = Vec::new();
            let mut i: usize = 0;
            while i < 12
                invariant
                    i <= 12,
                    nonce@.len() == 12,
                    out@ == nonce@.take(i as int),
                decreases 12 - i,
            {
                out.push(nonce[i]);
                assert(out@ =~= nonce@.take(i + 1));
                i = i + 1;
            }
            let ghost head = out@;
            let mut j: usize = 0;
            while j < ct.len()
                invariant
                    j <= ct@.len(),
                    head.len() == 12,
                    out@ == head + ct@.take(j as int),
                decreases ct@.len() - j,
            {
                out.push(ct[j]);
                assert(out@ =~= head + ct@.take(j + 1));
                j = j + 1;
            }
            assert(nonce@.take(12) =~= nonce@);
            assert(ct@.take(ct@.len() as int) =~= ct@);
            assert(out@.take(12) =~= nonce@);
            assert(out@.skip(12) =~= ct@);
            Ok(out)
        },
        None => Err(CryptoError::Encrypt),
    }
}

/// Decrypt a payload produced by `encrypt`. Expects [12-byte nonce || ciphertext+tag].
/// It succeeds only on an envelope of the plaintext it returns.
pub fn decrypt(key_bytes: &[u8; 32], data: &[u8]) -> (r: Result<Vec<u8>, CryptoError>)
    ensures
        match r {
            Ok(pt) => opened(key_bytes@, data@) == Some(pt@) && sealed_envelope(key_bytes@, pt@, data@),
            Err(e) => opened(key_bytes@, data@) is None && e is Decrypt,
        },
{
    if data.len() < 12 {
        return Err(CryptoError::Decrypt);
    }
    let mut nonce: Vec<u8> = Vec::new();
    let mut ct: Vec<u8> = Vec::new();
    let mut i: usize = 0;
    while i < data.len()
        invariant
            12 <= data@.len(),
            i <= data@.len(),
            nonce@ == data@.take(if i < 12 { i as int } else { 12 }),
            ct@ == if i < 12 { Seq::<u8>::empty() } else { data@.subrange(12, i as int) },
        decreases data@.len() - i,
    {
        if i < 12 {
            nonce.push(data[i]);
            assert(nonce@ =~= data@.take(i + 1));
            if i + 1 == 12 {
                assert(data@.subrange(12, 12) =~= Seq::<u8>::empty());
            }
        } else {
            ct.push(data[i]);
            assert(ct@ =~= data@.subrange(12, i + 1));
        }
        i = i + 1;
    }
    assert(ct@ =~= data@.skip(12));
    match aead_open(key_bytes, nonce.as_slice(), ct.as_slice()) {
        Some(pt) => Ok(pt),
        None => Err(CryptoError::Decrypt),
    }
}

/// The little-endian 4-byte encoding of a length.
pub open spec fn le_u32_bytes(n: nat) -> Seq<u8> {
    seq![(n % 256) as u8, ((n / 256) % 256) as u8, ((n / 65536) % 256) as u8, ((n / 16777216) % 256) as u8]
}

/// The number four little-endian bytes stand for.
pub open spec fn le_u32_value(b: Seq<u8>) -> nat {
    b[0] as nat + b[1] as nat * 256 + b[2] as nat * 65536 + b[3] as nat * 16777216
}

/// Encode bytes as a 4-byte LE length prefix + payload.
pub fn write_frame(payload: &[u8]) -> (r: Result<Vec<u8>, CryptoError>)
    ensures
        match r {
            Ok(out) => payload@.len() <= MAX_FRAME_BYTES && out@ == le_u32_bytes(payload@.len()) + payload@,
            Err(e) => payload@.len() > MAX_FRAME_BYTES && e == CryptoError::FrameTooLarge(payload@.len() as usize),
        },
{
    let n = payload.len();
    if n > MAX_FRAME_BYTES {
        return Err(CryptoError::FrameTooLarge(n));
    }
    let mut out: Vec<u8> = Vec::new();
    out.push((n % 256) as u8);
    out.push(((n / 256) % 256) as u8);
    out.push(((n / 65536) % 256) as u8);
    out.push(((n / 16777216) % 256) as u8);
    let ghost head = out@;
    assert(head =~= le_u32_bytes(n as nat));
    let mut i: usize = 0;
    while i < n
        invariant
            n == payload@.len(),
            i <= n,
            head.len() == 4,
            out@ == head + payload@.take(i as int),
        decreases n - i,
    {
        out.push(payload[i]);
        assert(out@ =~= head + payload@.take(i + 1));
        i = i + 1;
    }
    assert(payload@.take(n as int) =~= payload@);
    Ok(out)
}

/// Read the declared payload length from a 4-byte LE prefix buffer.
pub fn read_frame_len(buf: &[u8; 4]) -> (n: usize)
    ensures
        n == le_u32_value(buf@),
{
    (buf[0] as usize) + (buf[1] as usize) * 256 + (buf[2] as usize) * 65536 + (buf[3] as usize) * 16777216
}

// ---------------------------------------------------------------------------
// Laws

/// The length prefix of a frame reads back as the payload length.
pub proof fn law_frame_length_roundtrip(payload: Seq<u8>)
    requires
        payload.len() <= MAX_FRAME_BYTES,
    ensures
        le_u32_value((le_u32_bytes(payload.len()) + payload).take(4)) == payload.len(),
        (le_u32_bytes(payload.len()) + payload).skip(4) == payload,
{
    let f = le_u32_bytes(payload.len()) + payload;
    assert(f.skip(4) =~= payload);
    let n = payload.len();
    assert(n == (n % 256) + ((n / 256) % 256) * 256 + ((n / 65536) % 256) * 65536 + ((n / 16777216) % 256) * 16777216);
}

/// Decrypting an envelope made by `encrypt` gives the plaintext back.
pub proof fn law_decrypt_inverts_encrypt(key: Seq<u8>, plaintext: Seq<u8>, out: Seq<u8>)
    requires
        sealed_envelope(key, plaintext, out),
    ensures
        opened(key, out) == Some(plaintext),
{
}

/// Every pairing code is eight ASCII decimal digits.
pub proof fn law_pairing_code_is_eight_digits(okm: Seq<u8>)
    requires
        okm.len() >= 3,
    ensures
        pairing_code_spec(okm).len() == 8,
        forall|i: int| 0 <= i < 8 ==> '0' <= #[trigger] pairing_code_spec(okm)[i] <= '9',
{
    lemma_decimal_digits(((okm[0] as nat * 65536 + okm[1] as nat * 256 + okm[2] as nat) % 100000000), 8);
}

proof fn lemma_decimal_digits(v: nat, n: nat)
    ensures
        decimal_digits(v, n).len() == n,
        forall|i: int| 0 <= i < n ==> '0' <= #[trigger] decimal_digits(v, n)[i] <= '9',
    decreases n,
{
    if n > 0 {
        lemma_decimal_digits(v / 10, (n - 1) as nat);
        let s = decimal_digits(v, n);
        assert forall|i: int| 0 <= i < n implies '0' <= #[trigger] s[i] <= '9' by {
            if i < n - 1 {
                assert(s[i] == decimal_digits(v / 10, (n - 1) as nat)[i]);
            }
        }
    }
}

} // verus!
