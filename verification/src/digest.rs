//! Content digests: BLAKE3, written as 64 lowercase hexadecimal digits.

use crate::text::string_from_utf8;
use vstd::prelude::*;

verus! {

/// The 32 bytes that BLAKE3 gives for `data`.
pub uninterp spec fn blake3_hash(data: Seq<u8>) -> Seq<u8>;

/// The lowercase hexadecimal digit for a value below 16.
pub open spec fn hex_digit(n: u8) -> char {
    if n < 10 {
        ((0x30 + n) as u8) as char
    } else {
        ((0x57 + n) as u8) as char
    }
}

/// Two lowercase hexadecimal digits for each byte, high half first.
pub open spec fn hex_lower(bytes: Seq<u8>) -> Seq<char> {
    Seq::new(
        2 * bytes.len(),
        |i: int|
            if i % 2 == 0 {
                hex_digit(bytes[i / 2] / 16)
            } else {
                hex_digit(bytes[i / 2] % 16)
            },
    )
}

/// The digest of `data`: the identity under which a blob is stored.
pub open spec fn digest_of(data: Seq<u8>) -> Seq<char> {
    hex_lower(blake3_hash(data))
}

/// The number of characters of every digest.
pub const DIGEST_LEN: usize = 64;

/// A lowercase hexadecimal digit.
pub open spec fn is_hex_char(c: char) -> bool {
    ('0' <= c && c <= '9') || ('a' <= c && c <= 'f')
}

/// Calls `blake3::hash` on `data` and gives the 32 bytes of the hash, which
/// the contract names.
#[verifier::external_body]
pub(crate) fn blake3_bytes(data: &[u8]) -> (hash: [u8; 32])
    ensures
        hash@ == blake3_hash(data@),
{
    *blake3::hash(data).as_bytes()
}

/// Hexadecimal text is twice as long as the bytes and holds only digits
/// `0`-`9` and `a`-`f`.
pub proof fn lemma_hex_lower_chars(bytes: Seq<u8>)
    ensures
        hex_lower(bytes).len() == 2 * bytes.len(),
        forall|i: int| 0 <= i < hex_lower(bytes).len() ==> is_hex_char(#[trigger] hex_lower(bytes)[i]),
{
    assert forall|i: int| 0 <= i < hex_lower(bytes).len() implies is_hex_char(
        #[trigger] hex_lower(bytes)[i],
    ) by {
        let b = bytes[i / 2];
        lemma_hex_digit_is_hex((b / 16) as u8);
        lemma_hex_digit_is_hex((b % 16) as u8);
    }
}

proof fn lemma_hex_digit_is_hex(n: u8)
    requires
        n < 16,
    ensures
        is_hex_char(hex_digit(n)),
        hex_digit(n) as u8 == (if n < 10 {
            0x30 + n
        } else {
            0x57 + n
        }),
{
}

fn hex_byte(n: u8) -> (b: u8)
    requires
        n < 16,
    ensures
        b as char == hex_digit(n),
        b < 128,
{
    if n < 10 {
        0x30 + n
    } else {
        0x57 + n
    }
}

/// The bytes in lowercase hexadecimal digits.
pub fn to_hex(bytes: &[u8]) -> (hex: String)
    ensures
        hex@ == hex_lower(bytes@),
{
    let ghost chars = hex_lower(bytes@);
    let mut text: Vec<u8> = Vec::new();
    let mut i: usize = 0;
    while i < bytes.len()
        invariant
            i <= bytes.len(),
            chars == hex_lower(bytes@),
            text@.len() == 2 * i,
            forall|k: int| 0 <= k < text@.len() ==> (#[trigger] text@[k]) as char == chars[k],
        decreases bytes.len() - i,
    {
        let b = bytes[i];
        let ghost before = text@;
        text.push(hex_byte(b / 16));
        text.push(hex_byte(b % 16));
        proof {
            assert forall|k: int| 0 <= k < text@.len() implies (#[trigger] text@[k]) as char
                == chars[k] by {
                if k < before.len() {
                    assert(text@[k] == before[k]);
                } else if k == 2 * i {
                    assert(k / 2 == i as int && k % 2 == 0);
                } else {
                    assert(k / 2 == i as int && k % 2 == 1);
                }
            }
        }
        i += 1;
    }
    proof {
        lemma_hex_lower_chars(bytes@);
        assert(vstd::utf8::is_ascii_chars(chars)) by {
            assert forall|k: int| 0 <= k < chars.len() implies '\0' <= #[trigger] chars[k]
                <= '\u{7f}' by {
                assert(is_hex_char(chars[k]));
            }
        }
        vstd::utf8::is_ascii_chars_encode_utf8(chars);
        assert(text@ =~= vstd::utf8::encode_utf8(chars)) by {
            assert forall|k: int| 0 <= k < text@.len() implies text@[k] == vstd::utf8::encode_utf8(
                chars,
            )[k] by {
                assert(text@[k] as char == chars[k]);
                assert(is_hex_char(chars[k]));
            }
        }
        vstd::utf8::encode_utf8_valid_utf8(chars);
        vstd::utf8::encode_utf8_decode_utf8(chars);
    }
    match string_from_utf8(text) {
        Some(hex) => hex,
        None => String::new(),
    }
}

/// The digest of `data` as a string of 64 lowercase hexadecimal digits.
pub fn hash_bytes(data: &[u8]) -> (hex: String)
    ensures
        hex@ == digest_of(data@),
        hex@.len() == DIGEST_LEN,
        forall|i: int| 0 <= i < hex@.len() ==> is_hex_char(#[trigger] hex@[i]),
{
    let hash = blake3_bytes(data);
    proof {
        lemma_hex_lower_chars(blake3_hash(data@));
    }
    to_hex(hash.as_slice())
}

} // verus!
