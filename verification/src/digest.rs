//! SHA-256 digests as lowercase hexadecimal text.
use sha2::Digest;
use vstd::prelude::*;

verus! {

/// The SHA-256 digest of `data`.
pub uninterp spec fn sha256(data: Seq<u8>) -> Seq<u8>;

/// `sha2::Sha256::digest`, the one-shot hash of the `sha2` crate. The contract
/// claims that the digest depends on the data alone and is 32 bytes long.
#[verifier::external_body]
fn sha256_digest(data: &[u8]) -> (digest: Vec<u8>)
    ensures
        digest@ == sha256(data@),
        digest@.len() == 32,
{
    sha2::Sha256::digest(data).to_vec()
}

/// The hexadecimal digit of a value below 16.
pub open spec fn hex_digit(value: int) -> char {
    "0123456789abcdef"@[value]
}

/// Each byte as two lowercase hexadecimal digits, the high one first.
pub open spec fn hex(bytes: Seq<u8>) -> Seq<char> {
    Seq::new(
        2 * bytes.len(),
        |i: int|
            hex_digit(
                if i % 2 == 0 {
                    bytes[i / 2] as int / 16
                } else {
                    bytes[i / 2] as int % 16
                },
            ),
    )
}

/// The SHA-256 digest of `data` in hexadecimal.
pub open spec fn sha256_hex(data: Seq<u8>) -> Seq<char> {
    hex(sha256(data))
}

/// A lowercase hexadecimal digit.
pub open spec fn is_hex_digit(c: char) -> bool {
    '0' <= c <= '9' || 'a' <= c <= 'f'
}

/// Writes bytes in hexadecimal.
fn hex_of(bytes: &Vec<u8>) -> (text: String)
    ensures
        text@ == hex(bytes@),
{
    let digits = "0123456789abcdef";
    proof {
        reveal_strlit("0123456789abcdef");
    }
    let mut text = String::new();
    for i in 0..bytes.len()
        invariant
            digits@ == "0123456789abcdef"@,
            digits@.len() == 16,
            text@ == hex(bytes@.take(i as int)),
    {
        let high: usize = (bytes[i] / 16) as usize;
        let low: usize = (bytes[i] % 16) as usize;
        text.append(digits.substring_char(high, high + 1));
        text.append(digits.substring_char(low, low + 1));
        assert(text@ =~= hex(bytes@.take(i + 1)));
    }
    assert(bytes@.take(bytes@.len() as int) =~= bytes@);
    text
}

/// A hexadecimal digest is 64 lowercase hexadecimal digits.
pub proof fn law_sha256_hex_digits(data: Seq<u8>)
    requires
        sha256(data).len() == 32,
    ensures
        sha256_hex(data).len() == 64,
        forall|i: int| 0 <= i < 64 ==> is_hex_digit(#[trigger] sha256_hex(data)[i]),
{
    reveal_strlit("0123456789abcdef");
}

/// The SHA-256 digest of `data` in hexadecimal.
pub fn hash_sha256(data: &[u8]) -> (text: String)
    ensures
        text@ == sha256_hex(data@),
        text@.len() == 64,
        forall|i: int| 0 <= i < 64 ==> is_hex_digit(#[trigger] text@[i]),
{
    let digest = sha256_digest(data);
    proof {
        law_sha256_hex_digits(data@);
    }
    hex_of(&digest)
}

/// The SHA-256 digest of the UTF-8 bytes of `text`, in hexadecimal.
pub fn hash_sha256_to_str(text: &str) -> (hash: String)
    ensures
        hash@ == sha256_hex(vstd::utf8::encode_utf8(text@)),
        hash@.len() == 64,
        forall|i: int| 0 <= i < 64 ==> is_hex_digit(#[trigger] hash@[i]),
{
    hash_sha256(text.as_bytes())
}

/// The value of a lowercase hexadecimal digit.
pub open spec fn digit_value(c: char) -> int {
    if '0' <= c <= '9' {
        c as int - '0' as int
    } else {
        c as int - 'a' as int + 10
    }
}

/// Each byte can be read back from its two hexadecimal digits, of which the first
/// counts sixteen times.
pub proof fn law_hex_reads_back(bytes: Seq<u8>, i: int)
    requires
        0 <= i < bytes.len(),
    ensures
        hex(bytes).len() == 2 * bytes.len(),
        is_hex_digit(hex(bytes)[2 * i]),
        is_hex_digit(hex(bytes)[2 * i + 1]),
        16 * digit_value(hex(bytes)[2 * i]) + digit_value(hex(bytes)[2 * i + 1]) == bytes[i],
{
    reveal_strlit("0123456789abcdef");
    let high = bytes[i] as int / 16;
    let low = bytes[i] as int % 16;
    assert(hex(bytes)[2 * i] == hex_digit(high));
    assert(hex(bytes)[2 * i + 1] == hex_digit(low));
    assert(digit_value(hex_digit(high)) == high);
    assert(digit_value(hex_digit(low)) == low);
}

} // verus!
