//! SHA-256 verification of downloaded archives.
use sha2::Digest;
use vstd::prelude::*;

use crate::text::{
    chars_of, first_token, is_whitespace_char, non_ws_prefix, string_of, trim, trim_chars,
    trim_start,
};

verus! {

/// The SHA-256 digest of `data`, as `sha2` computes it.
pub uninterp spec fn sha256(data: Seq<u8>) -> Seq<u8>;

/// `sha2::Sha256::digest` (through `sha2::Digest`): the one-shot SHA-256 of
/// `data`. Claimed: the result is `sha256(data)` and has 32 bytes (the
/// output size of `Sha256` is `U32`).
#[verifier::external_body]
fn sha256_digest(data: &[u8]) -> (res: Vec<u8>)
    ensures
        res@ == sha256(data@),
        res@.len() == 32,
{
    sha2::Sha256::digest(data).to_vec()
}

/// The lowercase hexadecimal digit of `n` (`0 <= n < 16`).
pub open spec fn hex_digit(n: int) -> char {
    if n < 10 {
        (n + 48) as char
    } else {
        (n - 10 + 97) as char
    }
}

/// Two lowercase hexadecimal digits per byte, most significant first:
/// `format!("{:02x}", b)` for each byte `b`.
pub open spec fn hex_lower(bytes: Seq<u8>) -> Seq<char>
    decreases bytes.len(),
{
    if bytes.len() == 0 {
        Seq::<char>::empty()
    } else {
        hex_lower(bytes.drop_last()) + seq![
            hex_digit(bytes.last() as int / 16),
            hex_digit(bytes.last() as int % 16),
        ]
    }
}

/// `hex_lower` yields two characters per byte.
pub proof fn lemma_hex_lower_len(bytes: Seq<u8>)
    ensures
        hex_lower(bytes).len() == 2 * bytes.len(),
    decreases bytes.len(),
{
    if bytes.len() > 0 {
        lemma_hex_lower_len(bytes.drop_last());
    }
}

/// The hexadecimal digit character of `n`.
fn hex_digit_char(n: u8) -> (c: char)
    requires
        n < 16,
    ensures
        c == hex_digit(n as int),
{
    if n < 10 {
        (n + 48) as char
    } else {
        (n - 10 + 97) as char
    }
}

/// The lowercase hexadecimal rendering of `bytes`.
pub fn to_hex_lower(bytes: &[u8]) -> (res: String)
    ensures
        res@ == hex_lower(bytes@),
{
    let mut out: Vec<char> = Vec::new();
    let n = bytes.len();
    for i in 0..n
        invariant
            n == bytes@.len(),
            out@ == hex_lower(bytes@.take(i as int)),
    {
        let b = bytes[i];
        out.push(hex_digit_char(b / 16));
        out.push(hex_digit_char(b % 16));
        assert(bytes@.take(i + 1).drop_last() =~= bytes@.take(i as int));
        assert(out@ =~= hex_lower(bytes@.take(i + 1)));
    }
    assert(bytes@.take(n as int) =~= bytes@);
    string_of(out.as_slice())
}

/// `char::to_ascii_lowercase`.
pub open spec fn ascii_lower_char(c: char) -> char {
    if 'A' <= c <= 'Z' {
        ((c as int) + 32) as char
    } else {
        c
    }
}

/// `str::to_ascii_lowercase`.
pub open spec fn ascii_lower(s: Seq<char>) -> Seq<char> {
    s.map_values(|c: char| ascii_lower_char(c))
}

/// The form in which an expected checksum is compared: trimmed, with ASCII
/// letters in lower case.
pub open spec fn normalized_checksum(expected: Seq<char>) -> Seq<char> {
    ascii_lower(trim(expected))
}

/// Normalizes an expected checksum for comparison.
pub fn normalize_checksum(expected: &str) -> (res: String)
    ensures
        res@ == normalized_checksum(expected@),
{
    let cs = chars_of(expected);
    let t = trim_chars(cs.as_slice());
    let mut out: Vec<char> = Vec::new();
    let n = t.len();
    for i in 0..n
        invariant
            n == t@.len(),
            out@ == ascii_lower(t@.take(i as int)),
    {
        let c = t[i];
        let l = if 'A' <= c && c <= 'Z' {
            ((c as u8) + 32) as char
        } else {
            c
        };
        out.push(l);
        assert(out@ =~= ascii_lower(t@.take(i + 1)));
    }
    assert(t@.take(n as int) =~= t@);
    string_of(out.as_slice())
}

/// A checksum that does not match.
#[derive(Debug)]
pub enum ChecksumError {
    Mismatch { expected: String, actual: String },
}

/// Compares a digest with an expected checksum: they match when the
/// lowercase hexadecimal digest equals the normalized expected checksum.
pub fn check_digest(digest: &[u8], expected: &str) -> (res: Result<(), ChecksumError>)
    ensures
        res is Ok <==> hex_lower(digest@) == normalized_checksum(expected@),
        res matches Err(ChecksumError::Mismatch { expected: e, actual: a }) ==> e@
            == normalized_checksum(expected@) && a@ == hex_lower(digest@),
{
    let actual = to_hex_lower(digest);
    let expected = normalize_checksum(expected);
    let ac = chars_of(actual.as_str());
    let ec = chars_of(expected.as_str());
    if !crate::text::chars_eq(ac.as_slice(), ec.as_slice()) {
        return Err(ChecksumError::Mismatch { expected, actual });
    }
    Ok(())
}

/// Verifies the contents of a downloaded file against its expected SHA-256.
pub fn verify_sha256(data: &[u8], expected: &str) -> (res: Result<(), ChecksumError>)
    ensures
        res is Ok <==> hex_lower(sha256(data@)) == normalized_checksum(expected@),
        res matches Err(ChecksumError::Mismatch { expected: e, actual: a }) ==> e@
            == normalized_checksum(expected@) && a@ == hex_lower(sha256(data@)),
{
    let digest = sha256_digest(data);
    check_digest(digest.as_slice(), expected)
}

/// Hexadecimal digits are neither whitespace nor upper-case letters.
proof fn lemma_hex_plain(bytes: Seq<u8>)
    ensures
        forall|i: int|
            0 <= i < hex_lower(bytes).len() ==> !is_whitespace_char(#[trigger] hex_lower(bytes)[i])
                && ascii_lower_char(hex_lower(bytes)[i]) == hex_lower(bytes)[i],
    decreases bytes.len(),
{
    if bytes.len() > 0 {
        lemma_hex_plain(bytes.drop_last());
        lemma_hex_lower_len(bytes.drop_last());
    }
}

/// Law: the lowercase hexadecimal digest of a file, as `sha256sum` prints
/// it, verifies that file.
pub proof fn lemma_own_digest_verifies(data: Seq<u8>)
    ensures
        normalized_checksum(hex_lower(sha256(data))) == hex_lower(sha256(data)),
{
    let h = hex_lower(sha256(data));
    lemma_hex_plain(sha256(data));
    crate::text::lemma_trim_plain(h);
    assert(ascii_lower(h) =~= h);
}

/// A word free of whitespace, followed by whitespace or nothing, is the
/// leading run of non-whitespace characters.
proof fn lemma_non_ws_prefix_word(w: Seq<char>, rest: Seq<char>)
    requires
        forall|i: int| 0 <= i < w.len() ==> !is_whitespace_char(#[trigger] w[i]),
        rest.len() == 0 || is_whitespace_char(rest[0]),
    ensures
        non_ws_prefix(w + rest) == w,
    decreases w.len(),
{
    if w.len() == 0 {
        assert(w + rest =~= rest);
    } else {
        assert((w + rest).drop_first() =~= w.drop_first() + rest);
        lemma_non_ws_prefix_word(w.drop_first(), rest);
        assert(seq![w[0]] + w.drop_first() =~= w);
    }
}

/// Law: a checksum file in the format of `sha256sum` (the lowercase digest,
/// then whitespace and anything else) yields the digest as the expected
/// checksum, and that digest verifies the file it was computed from.
pub proof fn lemma_checksum_line_verifies(digest: Seq<u8>, rest: Seq<char>)
    requires
        digest.len() > 0,
        rest.len() == 0 || is_whitespace_char(rest[0]),
    ensures
        first_token(hex_lower(digest) + rest) == Some(hex_lower(digest)),
        normalized_checksum(hex_lower(digest)) == hex_lower(digest),
{
    let h = hex_lower(digest);
    lemma_hex_lower_len(digest);
    lemma_hex_plain(digest);
    assert((h + rest)[0] == h[0]);
    assert(trim_start(h + rest) == h + rest);
    lemma_non_ws_prefix_word(h, rest);
    crate::text::lemma_trim_plain(h);
    assert(ascii_lower(h) =~= h);
}

} // verus!
