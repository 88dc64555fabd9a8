//! Content fingerprints: the hash half of the (modification time, content
//! hash) pair that decides whether a file must be analyzed again.
use vstd::prelude::*;

verus! {

/// The MD5 digest of `bytes`, as 32 lowercase hexadecimal digits.
pub uninterp spec fn md5_hex_of(bytes: Seq<u8>) -> Seq<char>;

/// A lowercase hexadecimal digit.
pub open spec fn is_hex_digit(c: char) -> bool {
    ('0' <= c && c <= '9') || ('a' <= c && c <= 'f')
}

/// Relies on `md5::compute` and the digest's `LowerHex` formatting, which
/// writes each of its 16 bytes as two lowercase hexadecimal digits.
#[verifier::external_body]
fn md5_hex(bytes: &Vec<u8>) -> (r: String)
    ensures
        r@ == md5_hex_of(bytes@),
        r@.len() == 32,
        forall|i: int| 0 <= i < 32 ==> is_hex_digit(#[trigger] r@[i]),
{
    format!("{:x}", md5::compute(bytes.as_slice()))
}

/// The content hash of a file's bytes: the hexadecimal MD5 digest, so that
/// equal contents hash equally in every run.
pub fn calculate_file_hash(content: &Vec<u8>) -> (r: String)
    ensures
        r@ == md5_hex_of(content@),
        r@.len() == 32,
        forall|i: int| 0 <= i < r@.len() ==> is_hex_digit(#[trigger] r@[i]),
{
    md5_hex(content)
}

} // verus!
