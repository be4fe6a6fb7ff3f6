//! Signatures of requests: HMAC-SHA-256 tags in base64 and in hexadecimal.
use crate::text::digit_char;
use base64::Engine;
use hmac::Mac;
use vstd::prelude::*;
use vstd::utf8::encode_utf8;

verus! {

/// The HMAC-SHA-256 tag of `message` under `key`.
pub uninterp spec fn hmac_sha256(key: Seq<u8>, message: Seq<u8>) -> Seq<u8>;

/// The standard base64 text of `bytes`, with padding.
pub uninterp spec fn base64_standard(bytes: Seq<u8>) -> Seq<char>;

/// `Hmac::<Sha256>` of the crate `hmac`: `new_from_slice`, which takes a key of any
/// length, `update` with the whole message, then `finalize`. The tag has 32 bytes; which
/// ones is left to `hmac_sha256`.
#[verifier::external_body]
fn hmac_tag(key: &[u8], message: &[u8]) -> (tag: Vec<u8>)
    ensures
        tag@ == hmac_sha256(key@, message@),
        tag@.len() == 32,
{
    let mut mac = hmac::Hmac::<sha2::Sha256>::new_from_slice(key).unwrap();
    mac.update(message);
    mac.finalize().into_bytes().to_vec()
}

/// `Engine::encode` of the crate `base64`, with its engine `STANDARD`. It gives four
/// characters for each three bytes begun; which ones is left to `base64_standard`. It
/// panics where that length does not fit in a `usize`.
#[verifier::external_body]
fn base64_text(bytes: &[u8]) -> (text: String)
    requires
        (bytes@.len() + 2) / 3 * 4 <= usize::MAX,
    ensures
        text@ == base64_standard(bytes@),
        text@.len() == (bytes@.len() + 2) / 3 * 4,
{
    base64::engine::general_purpose::STANDARD.encode(bytes)
}

/// The HMAC-SHA-256 tag of a text under a secret, in base64.
pub open spec fn base64_signature(secret: Seq<char>, message: Seq<char>) -> Seq<char> {
    base64_standard(hmac_sha256(encode_utf8(secret), encode_utf8(message)))
}

/// Signs a text in base64.
pub fn sign_base64(secret: &str, message: &str) -> (signature: String)
    ensures
        signature@ == base64_signature(secret@, message@),
        signature@.len() == 44,
{
    let tag = hmac_tag(secret.as_bytes(), message.as_bytes());
    base64_text(tag.as_slice())
}

/// Bytes in hexadecimal: two digits in lower case for each.
pub open spec fn hex(bytes: Seq<u8>) -> Seq<char> {
    Seq::new(
        2 * bytes.len(),
        |i: int|
            if i % 2 == 0 {
                digit_char((bytes[i / 2] / 16) as nat)
            } else {
                digit_char((bytes[i / 2] % 16) as nat)
            },
    )
}

/// The character of a digit below sixteen.
fn hex_digit(d: u8) -> (c: char)
    requires
        d < 16,
    ensures
        c == digit_char(d as nat),
{
    if d < 10 {
        (48 + d) as char
    } else {
        (87 + d) as char
    }
}

/// Writes bytes in hexadecimal.
pub fn hex_text(bytes: &[u8]) -> (text: String)
    ensures
        text@ == hex(bytes@),
{
    let mut text = String::new();
    let mut i: usize = 0;
    while i < bytes.len()
        invariant
            i <= bytes@.len(),
            text@ == hex(bytes@.take(i as int)),
        decreases bytes@.len() - i,
    {
        let b: u8 = bytes[i];
        let ghost before = text@;
        text.push(hex_digit(b / 16));
        text.push(hex_digit(b % 16));
        i = i + 1;
        assert(text@ == hex(bytes@.take(i as int))) by {
            let longer = hex(bytes@.take(i as int));
            assert(longer.len() == before.len() + 2);
            assert forall|j: int| 0 <= j < longer.len() implies text@[j] == longer[j] by {
                if j < before.len() {
                    assert(text@[j] == before[j]);
                    assert(bytes@.take(i as int)[j / 2] == bytes@.take(i - 1)[j / 2]);
                } else {
                    assert(bytes@.take(i as int)[j / 2] == b);
                }
            }
        }
    }
    assert(bytes@.take(bytes@.len() as int) == bytes@);
    text
}

/// The HMAC-SHA-256 tag of a text under a secret, in hexadecimal.
pub open spec fn hex_signature(secret: Seq<char>, message: Seq<char>) -> Seq<char> {
    hex(hmac_sha256(encode_utf8(secret), encode_utf8(message)))
}

/// Signs a text in hexadecimal.
pub fn sign_hex(secret: &str, message: &str) -> (signature: String)
    ensures
        signature@ == hex_signature(secret@, message@),
        signature@.len() == 64,
{
    let tag = hmac_tag(secret.as_bytes(), message.as_bytes());
    hex_text(tag.as_slice())
}

/// Bytes in hexadecimal: two digits for each, the higher first, in lower case.
pub proof fn law_hexadecimal_is_read_back(bytes: Seq<u8>, i: int)
    requires
        0 <= i < bytes.len(),
    ensures
        ({
            let h = hex(bytes)[2 * i] as int;
            let l = hex(bytes)[2 * i + 1] as int;
            let high = if h <= '9' as int {
                h - '0' as int
            } else {
                h - 'a' as int + 10
            };
            let low = if l <= '9' as int {
                l - '0' as int
            } else {
                l - 'a' as int + 10
            };
            &&& hex(bytes).len() == 2 * bytes.len()
            &&& bytes[i] == 16 * high + low
            &&& '0' as int <= h <= '9' as int || 'a' as int <= h <= 'f' as int
            &&& '0' as int <= l <= '9' as int || 'a' as int <= l <= 'f' as int
        }),
{
    assert((2 * i) / 2 == i && (2 * i + 1) / 2 == i);
    assert((2 * i) % 2 == 0 && (2 * i + 1) % 2 == 1);
}

/// A signature is the tag of the message, in UTF-8, under the secret, in UTF-8.
pub proof fn law_signature_is_of_the_message(secret: Seq<char>, message: Seq<char>)
    ensures
        base64_signature(secret, message) == base64_standard(
            hmac_sha256(encode_utf8(secret), encode_utf8(message)),
        ),
        hex_signature(secret, message) == hex(
            hmac_sha256(encode_utf8(secret), encode_utf8(message)),
        ),
{
}

}
