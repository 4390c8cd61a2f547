//! The cryptographic functions and byte codecs that credentials rest on.

use base64::engine::general_purpose::{STANDARD, URL_SAFE_NO_PAD};
use base64::Engine;
use hmac::{Hmac, Mac};
use pbkdf2::pbkdf2_hmac;
use sha2::{Digest, Sha256};
use subtle::ConstantTimeEq;

use vstd::prelude::*;

verus! {

/// The URL-safe base64 text of some bytes, without padding.
pub uninterp spec fn base64_url(bytes: Seq<u8>) -> Seq<char>;

/// The bytes of a URL-safe base64 text without padding; `None` where it is not one.
pub uninterp spec fn base64_url_decoded(s: Seq<char>) -> Option<Seq<u8>>;

/// The bytes of a base64 text in the standard alphabet, with padding; `None` where
/// it is not one.
pub uninterp spec fn base64_decoded(s: Seq<char>) -> Option<Seq<u8>>;

/// HMAC-SHA256 of a message under a key.
pub uninterp spec fn hmac_of(key: Seq<u8>, msg: Seq<u8>) -> Seq<u8>;

/// The SHA-256 digest.
pub uninterp spec fn sha256_of(data: Seq<u8>) -> Seq<u8>;

/// `len` bytes of PBKDF2-HMAC-SHA256.
pub uninterp spec fn pbkdf2_of(pw: Seq<u8>, salt: Seq<u8>, rounds: u32, len: nat) -> Seq<u8>;

/// What `String::from_utf8_lossy` reads from bytes.
pub uninterp spec fn lossy_of(bytes: Seq<u8>) -> Seq<char>;

/// The characters of URL-safe base64.
pub open spec fn is_base64_url_char(c: char) -> bool {
    ('a' <= c && c <= 'z') || ('A' <= c && c <= 'Z') || ('0' <= c && c <= '9') || c == '-' || c
        == '_'
}

pub open spec fn is_base64_url(s: Seq<char>) -> bool {
    forall|i: int| 0 <= i < s.len() ==> is_base64_url_char(#[trigger] s[i])
}

/// The most bytes PBKDF2 derives over a 32-byte digest: its block counter has 32
/// bits.
pub const PBKDF2_MAX: u64 = 137_438_953_440;

/// Calls `Engine::encode` of base64's `URL_SAFE_NO_PAD`: the text uses the URL-safe
/// alphabet only, and decoding it gives the bytes back.
#[verifier::external_body]
pub(crate) fn b64(bytes: &[u8]) -> (r: String)
    ensures
        r@ == base64_url(bytes@),
        is_base64_url(r@),
        base64_url_decoded(r@) == Some(bytes@),
{
    URL_SAFE_NO_PAD.encode(bytes)
}

/// Calls `Engine::decode` of base64's `URL_SAFE_NO_PAD`. Whether the text decodes,
/// and to which bytes, is a function of the text alone.
#[verifier::external_body]
pub(crate) fn b64d(s: &str) -> (r: Option<Vec<u8>>)
    ensures
        match r {
            Some(b) => base64_url_decoded(s@) == Some(b@),
            None => base64_url_decoded(s@) is None,
        },
{
    URL_SAFE_NO_PAD.decode(s).ok()
}

/// Calls `Engine::decode` of base64's `STANDARD`. Whether the text decodes, and to
/// which bytes, is a function of the text alone.
#[verifier::external_body]
pub(crate) fn b64d_standard(s: &str) -> (r: Option<Vec<u8>>)
    ensures
        match r {
            Some(b) => base64_decoded(s@) == Some(b@),
            None => base64_decoded(s@) is None,
        },
{
    STANDARD.decode(s).ok()
}

/// Calls `ConstantTimeEq::ct_eq` of subtle on byte slices: true where the slices
/// are equal. That it takes the same time whatever the bytes is not stated.
#[verifier::external_body]
pub(crate) fn ct_eq(a: &[u8], b: &[u8]) -> (r: bool)
    ensures
        r == (a@ == b@),
{
    a.ct_eq(b).unwrap_u8() == 1
}

/// Calls `Hmac<Sha256>`: `new_from_slice`, which takes a key of any length,
/// `update` and `finalize`. The code is 32 bytes, a function of key and message.
#[verifier::external_body]
pub(crate) fn hmac_sha256(key: &[u8], msg: &[u8]) -> (r: Vec<u8>)
    ensures
        r@ == hmac_of(key@, msg@),
        r@.len() == 32,
{
    let mut mac = Hmac::<Sha256>::new_from_slice(key).expect("HMAC accepts any key length");
    mac.update(msg);
    mac.finalize().into_bytes().to_vec()
}

/// Calls `Sha256::digest`: 32 bytes, a function of the data.
#[verifier::external_body]
pub(crate) fn sha256(data: &[u8]) -> (r: Vec<u8>)
    ensures
        r@ == sha256_of(data@),
        r@.len() == 32,
{
    Sha256::digest(data).to_vec()
}

/// Calls `pbkdf2_hmac::<Sha256>` on a buffer of `len` bytes, which it fills as a
/// function of its arguments.
#[verifier::external_body]
pub(crate) fn pbkdf2_sha256(pw: &[u8], salt: &[u8], rounds: u32, len: usize) -> (r: Vec<u8>)
    requires
        len <= PBKDF2_MAX,
    ensures
        r@ == pbkdf2_of(pw@, salt@, rounds, len as nat),
        r@.len() == len,
{
    let mut out = vec![0u8; len];
    pbkdf2_hmac::<Sha256>(pw, salt, rounds, &mut out);
    out
}

/// Calls `getrandom::getrandom` on a buffer of `len` bytes; `None` where the
/// system has no randomness to give. Nothing is stated of the bytes.
#[verifier::external_body]
pub(crate) fn random_bytes(len: usize) -> (r: Option<Vec<u8>>)
    ensures
        r matches Some(b) ==> b@.len() == len,
{
    let mut out = vec![0u8; len];
    getrandom::getrandom(&mut out).ok()?;
    Some(out)
}

/// Calls `core::str::from_utf8`: the text that the bytes encode, where they are
/// UTF-8.
#[verifier::external_body]
pub(crate) fn utf8_text(bytes: &[u8]) -> (r: Option<&str>)
    ensures
        match r {
            Some(s) => vstd::utf8::valid_utf8(bytes@) && s@ == vstd::utf8::decode_utf8(bytes@),
            None => !vstd::utf8::valid_utf8(bytes@),
        },
{
    core::str::from_utf8(bytes).ok()
}

/// Calls `String::from_utf8_lossy`: the text that the bytes encode where they are
/// UTF-8; otherwise a function of the bytes.
#[verifier::external_body]
pub(crate) fn lossy_text(bytes: &[u8]) -> (r: String)
    ensures
        r@ == lossy_of(bytes@),
        vstd::utf8::valid_utf8(bytes@) ==> r@ == vstd::utf8::decode_utf8(bytes@),
{
    String::from_utf8_lossy(bytes).into_owned()
}

// --- Hexadecimal -------------------------------------------------------------

pub open spec fn hex_digit(n: nat) -> char {
    if n < 10 {
        (48 + n) as char
    } else {
        (87 + n) as char
    }
}

/// A lower-case hexadecimal digit.
pub open spec fn is_hex_char(c: char) -> bool {
    ('0' <= c && c <= '9') || ('a' <= c && c <= 'f')
}

/// The two lower-case hexadecimal digits of each byte.
pub open spec fn hex(bytes: Seq<u8>) -> Seq<char>
    decreases bytes.len(),
{
    if bytes.len() == 0 {
        Seq::empty()
    } else {
        hex(bytes.drop_last()).push(hex_digit((bytes.last() / 16) as nat)).push(
            hex_digit((bytes.last() % 16) as nat),
        )
    }
}

/// The SHA-256 digest of a text's UTF-8 bytes, in hexadecimal.
pub open spec fn sha256_hex_of(s: Seq<char>) -> Seq<char> {
    hex(sha256_of(vstd::utf8::encode_utf8(s)))
}

fn hex_char(n: u8) -> (c: char)
    requires
        n < 16,
    ensures
        c == hex_digit(n as nat),
{
    if n < 10 {
        (48u8 + n) as char
    } else {
        (97u8 + (n - 10)) as char
    }
}

proof fn lemma_hex_len(bytes: Seq<u8>)
    ensures
        hex(bytes).len() == 2 * bytes.len(),
        forall|i: int| 0 <= i < hex(bytes).len() ==> is_hex_char(#[trigger] hex(bytes)[i]),
    decreases bytes.len(),
{
    if bytes.len() > 0 {
        let p = bytes.drop_last();
        lemma_hex_len(p);
        assert forall|i: int| 0 <= i < hex(bytes).len() implies is_hex_char(
            #[trigger] hex(bytes)[i],
        ) by {
            if i < hex(p).len() {
                assert(hex(bytes)[i] == hex(p)[i]);
            }
        }
    }
}

/// The SHA-256 digest of a text's UTF-8 bytes, in hexadecimal.
pub(crate) fn sha256_hex(s: &str) -> (r: String)
    ensures
        r@ == sha256_hex_of(s@),
        r@.len() == 64,
        forall|i: int| 0 <= i < r@.len() ==> is_hex_char(#[trigger] r@[i]),
{
    let digest = sha256(s.as_bytes());
    let mut out = String::new();
    let mut i: usize = 0;
    assert(digest@.take(0) =~= Seq::<u8>::empty());
    while i < digest.len()
        invariant
            i <= digest@.len(),
            out@ == hex(digest@.take(i as int)),
        decreases digest@.len() - i,
    {
        assert(digest@.take(i as int + 1).drop_last() =~= digest@.take(i as int));
        let b: u8 = digest[i];
        out.push(hex_char(b / 16));
        out.push(hex_char(b % 16));
        i += 1;
    }
    assert(digest@.take(digest@.len() as int) =~= digest@);
    proof {
        lemma_hex_len(digest@);
    }
    out
}

} // verus!
