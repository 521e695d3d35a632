//! Content digests in the `sha256:<lowercase hex>` form of OCI descriptors.
use sha2::Digest;
use vstd::prelude::*;
use vstd::string::*;

verus! {

/// The SHA-256 hash of a byte sequence.
pub uninterp spec fn sha256_spec(data: Seq<u8>) -> Seq<u8>;

/// SHA-256 of `data`, through `sha2::Sha256::digest`. Claims that the result is the 32-byte
/// hash of the bytes given, the same for the same bytes.
#[verifier::external_body]
pub(crate) fn sha256(data: &[u8]) -> (r: Vec<u8>)
    ensures
        r@ == sha256_spec(data@),
        r@.len() == 32,
{
    sha2::Sha256::digest(data).to_vec()
}

/// The lowercase hexadecimal digit for a value below 16.
pub open spec fn hex_digit(n: int) -> char {
    if n < 10 {
        (('0' as int) + n) as char
    } else {
        (('a' as int) + n - 10) as char
    }
}

/// Two lowercase hexadecimal digits per byte, high nibble first.
pub open spec fn hex_spec(data: Seq<u8>) -> Seq<char>
    decreases data.len(),
{
    if data.len() == 0 {
        Seq::empty()
    } else {
        hex_spec(data.drop_last()) + seq![
            hex_digit(data.last() as int / 16),
            hex_digit(data.last() as int % 16),
        ]
    }
}

/// Lowercase hexadecimal encoding, through `hex::encode`. Claims what `hex::encode` is
/// documented to produce: two lowercase digits per byte, high nibble first.
#[verifier::external_body]
pub(crate) fn hex_encode(data: &[u8]) -> (r: String)
    ensures
        r@ == hex_spec(data@),
{
    hex::encode(data)
}

/// The OCI digest text of a byte sequence.
pub open spec fn digest_spec(data: Seq<u8>) -> Seq<char> {
    seq!['s', 'h', 'a', '2', '5', '6', ':'] + hex_spec(sha256_spec(data))
}

/// Hexadecimal text holds only digits and the letters `a` to `f`.
pub proof fn lemma_hex_chars(data: Seq<u8>)
    ensures
        forall|i: int| 0 <= i < hex_spec(data).len()
            ==> ('0' <= #[trigger] hex_spec(data)[i] <= '9') || ('a' <= hex_spec(data)[i] <= 'f'),
    decreases data.len(),
{
    if data.len() > 0 {
        lemma_hex_chars(data.drop_last());
        let h = hex_spec(data.drop_last());
        let hi = data.last() as int / 16;
        let lo = data.last() as int % 16;
        assert(0 <= hi < 16 && 0 <= lo < 16);
        assert forall|i: int| 0 <= i < hex_spec(data).len()
            implies ('0' <= #[trigger] hex_spec(data)[i] <= '9') || ('a' <= hex_spec(data)[i] <= 'f') by {
            if i < h.len() {
                assert(hex_spec(data)[i] == h[i]);
            }
        }
    }
}

/// The OCI digest of `data`: `sha256:` and the lowercase hex of its SHA-256 hash.
pub fn digest_of(data: &[u8]) -> (r: String)
    ensures
        r@ == digest_spec(data@),
        r@.len() == 71,
{
    let hash = sha256(data);
    proof {
        lemma_hex_len(hash@);
    }
    let hex = hex_encode(hash.as_slice());
    proof {
        reveal_strlit("sha256:");
        assert("sha256:"@ =~= seq!['s', 'h', 'a', '2', '5', '6', ':']);
    }
    crate::text::concat("sha256:", hex.as_str())
}

pub proof fn lemma_hex_len(data: Seq<u8>)
    ensures
        hex_spec(data).len() == 2 * data.len(),
    decreases data.len(),
{
    if data.len() > 0 {
        lemma_hex_len(data.drop_last());
    }
}

} // verus!
