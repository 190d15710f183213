//! Shape checks and proof-of-work on an inbound deposit.
use vstd::prelude::*;
use sha2::Digest;
use base64::Engine;

verus! {

/// Lowercase hexadecimal digit for a nibble.
pub open spec fn hex_digit(n: u8) -> char {
    seq!['0', '1', '2', '3', '4', '5', '6', '7', '8', '9', 'a', 'b', 'c', 'd', 'e', 'f'][n as int]
}

/// Two lowercase hexadecimal digits per byte, high nibble first.
pub open spec fn hex_spec(b: Seq<u8>) -> Seq<char>
    decreases b.len(),
{
    if b.len() == 0 {
        seq![]
    } else {
        hex_spec(b.drop_last()) + seq![hex_digit(b.last() >> 4u8), hex_digit(b.last() & 15u8)]
    }
}

/// Two digits per byte.
pub proof fn lemma_hex_len(b: Seq<u8>)
    ensures
        hex_spec(b).len() == 2 * b.len(),
    decreases b.len(),
{
    if b.len() > 0 {
        lemma_hex_len(b.drop_last());
    }
}

fn hex_str(n: u8) -> (r: &'static str)
    requires
        n < 16,
    ensures
        r@ == seq![hex_digit(n)],
{
    let digits = "0123456789abcdef";
    proof {
        reveal_strlit("0123456789abcdef");
    }
    let r = digits.substring_char(n as usize, n as usize + 1);
    assert(r@ =~= seq![hex_digit(n)]);
    r
}

/// Renders bytes as lowercase hexadecimal.
pub fn hex_lower(bytes: &[u8]) -> (s: String)
    ensures
        s@ == hex_spec(bytes@),
{
    let mut s = String::new();
    let mut i: usize = 0;
    while i < bytes.len()
        invariant
            i <= bytes@.len(),
            s@ == hex_spec(bytes@.take(i as int)),
        decreases bytes@.len() - i,
    {
        let b = bytes[i];
        let hi = b >> 4u8;
        let lo = b & 15u8;
        assert(hi < 16) by (bit_vector)
            requires
                hi == b >> 4u8,
        ;
        assert(lo < 16) by (bit_vector)
            requires
                lo == b & 15u8,
        ;
        s.append(hex_str(hi));
        s.append(hex_str(lo));
        proof {
            let t = bytes@.take(i as int + 1);
            assert(t.drop_last() =~= bytes@.take(i as int));
            assert(t.last() == b);
        }
        i = i + 1;
    }
    assert(bytes@.take(i as int) =~= bytes@);
    s
}


/// Why a deposit was refused.
#[derive(Debug, Clone, PartialEq, Eq)]
pub enum PutError {
    /// The recipient is blank or the payload is empty.
    InvalidInput,
    /// The payload is not valid base64.
    InvalidEncoding,
    /// The decoded payload does not have the configured length.
    InvalidSize { expected: usize, got: usize },
    /// The proof-of-work digest does not start with the required prefix.
    PowRequired { prefix: String },
    /// The recipient already received `limit` deposits within the window.
    RateLimited { limit: usize, window_seconds: u64 },
    /// The journal append failed, so the deposit was not acknowledged.
    PersistFailed,
}

/// A character with the Unicode `White_Space` property.
pub open spec fn is_whitespace(c: char) -> bool {
    let u = c as u32;
    ||| 0x9 <= u <= 0xd
    ||| u == 0x20
    ||| u == 0x85
    ||| u == 0xa0
    ||| u == 0x1680
    ||| 0x2000 <= u <= 0x200a
    ||| u == 0x2028
    ||| u == 0x2029
    ||| u == 0x202f
    ||| u == 0x205f
    ||| u == 0x3000
}

pub open spec fn all_whitespace(s: Seq<char>) -> bool {
    forall|i: int| 0 <= i < s.len() ==> is_whitespace(#[trigger] s[i])
}

/// `t` is `s` with its leading and trailing whitespace removed.
pub open spec fn is_trim_of(s: Seq<char>, t: Seq<char>) -> bool {
    exists|a: int, b: int|
        0 <= a <= b <= s.len() && t == s.subrange(a, b) && all_whitespace(#[trigger] s.subrange(0, a))
            && all_whitespace(#[trigger] s.subrange(b, s.len() as int)) && (a < b ==> !is_whitespace(s[a])
            && !is_whitespace(s[b - 1]))
}

/// What the standard base64 engine decodes a text into, if it is valid base64.
pub uninterp spec fn base64_decoded(s: Seq<char>) -> Option<Seq<u8>>;

/// The SHA-256 digest of the UTF-8 encoding of a text.
pub uninterp spec fn sha256_of_text(s: Seq<char>) -> Seq<u8>;

/// Relies on `str::trim`: the text without its leading and trailing
/// characters of the Unicode `White_Space` property.
#[verifier::external_body]
fn trim(s: &str) -> (r: &str)
    ensures
        is_trim_of(s@, r@),
{
    s.trim()
}

/// Relies on base64's `STANDARD.decode`: `Ok` with the decoded bytes, or `Err` on malformed input.
#[verifier::external_body]
fn decode_base64(s: &str) -> (r: Option<Vec<u8>>)
    ensures
        match r {
            Some(v) => base64_decoded(s@) == Some(v@),
            None => base64_decoded(s@) == None::<Seq<u8>>,
        },
{
    base64::engine::general_purpose::STANDARD.decode(s).ok()
}

/// Relies on sha2's `Sha256`: fed the nonce, then the recipient, it returns a 32-byte digest.
#[verifier::external_body]
fn sha256_pair(first: &str, second: &str) -> (r: Vec<u8>)
    ensures
        r@ == sha256_of_text(first@ + second@),
        r@.len() == 32,
{
    let mut h = sha2::Sha256::new();
    h.update(first.as_bytes());
    h.update(second.as_bytes());
    h.finalize().to_vec()
}

/// A recipient is usable when it holds a character other than whitespace.
pub open spec fn recipient_ok_spec(to_id: Seq<char>) -> bool {
    !all_whitespace(to_id)
}

/// Whether a deposit names a usable recipient and carries a payload.
pub fn input_ok(to_id: &str, cipher_blob: &str) -> (r: bool)
    ensures
        r == (recipient_ok_spec(to_id@) && cipher_blob@.len() > 0),
{
    let t = trim(to_id);
    proof {
        let s = to_id@;
        let (a, b) = choose|a: int, b: int|
            0 <= a <= b <= s.len() && t@ == s.subrange(a, b) && all_whitespace(#[trigger] s.subrange(0, a))
                && all_whitespace(#[trigger] s.subrange(b, s.len() as int)) && (a < b ==> !is_whitespace(s[a])
                && !is_whitespace(s[b - 1]));
        if t@.len() == 0 {
            assert forall|i: int| 0 <= i < s.len() implies is_whitespace(#[trigger] s[i]) by {
                if i < a {
                    assert(s.subrange(0, a)[i] == s[i]);
                } else {
                    assert(s.subrange(b, s.len() as int)[i - b] == s[i]);
                }
            }
        } else {
            assert(!is_whitespace(s[a]));
        }
    }
    !t.is_empty() && !cipher_blob.is_empty()
}

/// The size check on a decoded payload, given what the decoder returned.
pub open spec fn size_check_spec(decoded: Option<Seq<u8>>, expected: usize) -> Result<(), PutError> {
    match decoded {
        None => Err(PutError::InvalidEncoding),
        Some(b) => if b.len() == expected {
            Ok(())
        } else {
            Err(PutError::InvalidSize { expected, got: b.len() as usize })
        },
    }
}

/// Classifies what the decoder returned against the configured payload length.
pub fn check_decoded(decoded: &Option<Vec<u8>>, expected: usize) -> (r: Result<(), PutError>)
    ensures
        r == size_check_spec(
            match decoded {
                Some(v) => Some(v@),
                None => None,
            },
            expected,
        ),
{
    match decoded {
        None => Err(PutError::InvalidEncoding),
        Some(b) => if b.len() == expected {
            Ok(())
        } else {
            Err(PutError::InvalidSize { expected, got: b.len() })
        },
    }
}

/// Decodes a base64 payload and checks that it has exactly `expected` bytes.
pub fn check_payload(cipher_blob: &str, expected: usize) -> (r: Result<(), PutError>)
    ensures
        r == size_check_spec(base64_decoded(cipher_blob@), expected),
{
    let decoded = decode_base64(cipher_blob);
    check_decoded(&decoded, expected)
}

/// A digest meets the difficulty when its lowercase hex form starts with the prefix.
pub open spec fn pow_ok_spec(prefix: Seq<char>, digest: Seq<u8>) -> bool {
    prefix.is_prefix_of(hex_spec(digest))
}

/// Whether the lowercase hex form of `digest` starts with `prefix`.
pub fn digest_matches(prefix: &str, digest: &[u8]) -> (r: bool)
    ensures
        r == pow_ok_spec(prefix@, digest@),
{
    let hex = hex_lower(digest);
    let hs: &str = hex.as_str();
    let n = prefix.unicode_len();
    let m = hs.unicode_len();
    if n > m {
        return false;
    }
    let mut i: usize = 0;
    while i < n
        invariant
            i <= n,
            n == prefix@.len(),
            m == hs@.len(),
            n <= m,
            hs@ == hex_spec(digest@),
            forall|j: int| 0 <= j < i ==> prefix@[j] == hs@[j],
        decreases n - i,
    {
        if prefix.get_char(i) != hs.get_char(i) {
            return false;
        }
        i = i + 1;
    }
    true
}

/// The proof-of-work rule: an empty prefix admits everything; otherwise the
/// digest of nonce followed by recipient must meet the prefix.
pub open spec fn valid_pow_spec(prefix: Seq<char>, nonce: Seq<char>, to_id: Seq<char>) -> bool {
    prefix.len() == 0 || pow_ok_spec(prefix, sha256_of_text(nonce + to_id))
}

/// Checks the proof-of-work that a deposit carries.
pub fn valid_pow(prefix: &str, nonce: &str, to_id: &str) -> (r: bool)
    ensures
        r == valid_pow_spec(prefix@, nonce@, to_id@),
        prefix@.len() > 64 ==> !r,
{
    if prefix.is_empty() {
        return true;
    }
    let digest = sha256_pair(nonce, to_id);
    proof {
        lemma_hex_len(digest@);
    }
    digest_matches(prefix, digest.as_slice())
}

} // verus!
