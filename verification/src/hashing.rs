//! Content addressing: pages and chunks are stored under the lowercase hex
//! form of their SHA-256 digest.
use vstd::prelude::*;
use crate::text::{digit_value, lemma_hex_digit_value, lower_hex_digit};

verus! {

/// The SHA-256 digest of `data`.
pub uninterp spec fn sha256_digest(data: Seq<u8>) -> Seq<u8>;

/// The two lowercase hex digits of a byte, high nibble first.
pub open spec fn hex_byte(b: u8) -> Seq<char> {
    seq![lower_hex_digit((b / 16) as nat), lower_hex_digit((b % 16) as nat)]
}

/// The lowercase hex encoding of a byte string: two digits per byte.
pub open spec fn hex_encoding(data: Seq<u8>) -> Seq<char>
    decreases data.len(),
{
    if data.len() == 0 {
        Seq::empty()
    } else {
        hex_encoding(data.drop_last()) + hex_byte(data.last())
    }
}

/// Hashes `data` with SHA-256 (`sha2::Sha256`, through `Digest::digest`).
/// Trusted: the result is the named digest and, as the type's output size
/// says, 32 bytes long.
#[verifier::external_body]
fn sha256(data: &[u8]) -> (d: Vec<u8>)
    ensures
        d@ == sha256_digest(data@),
        d@.len() == 32,
{
    <sha2::Sha256 as sha2::Digest>::digest(data).to_vec()
}

/// Encodes bytes as lowercase hex (`hex::encode`). Trusted: two digits per
/// byte, high nibble first, from the table `0123456789abcdef`, as the
/// crate's source shows.
#[verifier::external_body]
fn hex_encode(data: &[u8]) -> (s: String)
    ensures
        s@ == hex_encoding(data@),
{
    hex::encode(data)
}

/// The hex encoding is twice as long as the data.
pub proof fn lemma_hex_encoding_len(data: Seq<u8>)
    ensures
        hex_encoding(data).len() == 2 * data.len(),
    decreases data.len(),
{
    if data.len() > 0 {
        lemma_hex_encoding_len(data.drop_last());
    }
}

/// The hex encoding reads back as the bytes: characters `2i` and `2i + 1`
/// are lowercase hex digits whose value, high then low, is byte `i`.
pub proof fn lemma_hex_encoding_reads_back(data: Seq<u8>)
    ensures
        hex_encoding(data).len() == 2 * data.len(),
        forall|i: int|
            0 <= i < data.len() ==> 16 * digit_value(#[trigger] hex_encoding(data)[2 * i])
                + digit_value(hex_encoding(data)[2 * i + 1]) == data[i],
        forall|k: int|
            0 <= k < hex_encoding(data).len() ==> ('0' <= #[trigger] hex_encoding(data)[k] <= '9'
                || 'a' <= hex_encoding(data)[k] <= 'f'),
    decreases data.len(),
{
    if data.len() > 0 {
        let init = data.drop_last();
        let b = data.last();
        lemma_hex_encoding_reads_back(init);
        lemma_hex_digit_value((b / 16) as nat);
        lemma_hex_digit_value((b % 16) as nat);
        let h = hex_encoding(data);
        let hi = hex_encoding(init);
        assert(h == hi + hex_byte(b));
        assert forall|i: int| 0 <= i < data.len() implies 16 * digit_value(#[trigger] h[2 * i])
            + digit_value(h[2 * i + 1]) == data[i] by {
            if i < init.len() {
                assert(h[2 * i] == hi[2 * i]);
                assert(h[2 * i + 1] == hi[2 * i + 1]);
                assert(data[i] == init[i]);
            } else {
                assert(h[2 * i] == hex_byte(b)[0]);
                assert(h[2 * i + 1] == hex_byte(b)[1]);
            }
        }
        assert forall|k: int| 0 <= k < h.len() implies ('0' <= #[trigger] h[k] <= '9' || 'a'
            <= h[k] <= 'f') by {
            if k < hi.len() {
                assert(h[k] == hi[k]);
            } else {
                assert(h[k] == hex_byte(b)[k - hi.len()]);
            }
        }
    }
}

/// The content address of `data`: the lowercase hex form of its SHA-256
/// digest, 64 characters long.
pub fn calculate_sha256(data: &[u8]) -> (h: String)
    ensures
        h@ == hex_encoding(sha256_digest(data@)),
        h@.len() == 64,
{
    let digest = sha256(data);
    let h = hex_encode(digest.as_slice());
    proof {
        lemma_hex_encoding_len(digest@);
    }
    h
}

/// Whether `hash` is the content address of `data`, so that `data` may be
/// stored under it.
pub fn is_content_address(hash: &str, data: &[u8]) -> (b: bool)
    ensures
        b == (hash@ == hex_encoding(sha256_digest(data@))),
{
    let expected = calculate_sha256(data);
    let given = String::from_str(hash);
    given == expected
}

} // verus!
