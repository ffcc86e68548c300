//! Content addresses of texts.

use sha2::{Digest, Sha256};
use vstd::prelude::*;
use vstd::string::*;
use vstd::utf8::*;

verus! {

/// The address of a piece of content: a 256-bit digest.
pub type TextId = [u8; 32];

/// The SHA-256 digest of a byte string.
pub uninterp spec fn sha256(data: Seq<u8>) -> Seq<u8>;

/// Calls `Digest::digest` of `sha2::Sha256`. The contract gives the digest a
/// name, `sha256`, and claims that it depends on the hashed bytes alone.
#[verifier::external_body]
fn sha256_digest(data: &[u8]) -> (digest: TextId)
    ensures
        digest@ == sha256(data@),
{
    Sha256::digest(data).into()
}

/// The UTF-8 bytes of the texts, one after the other.
pub open spec fn joined_bytes(texts: Seq<Seq<char>>) -> Seq<u8>
    decreases texts.len(),
{
    if texts.len() == 0 {
        Seq::empty()
    } else {
        joined_bytes(texts.drop_last()) + encode_utf8(texts.last())
    }
}

/// The address of a list of texts: the digest of their bytes, joined in order.
pub open spec fn text_id_of(texts: Seq<Seq<char>>) -> Seq<u8> {
    sha256(joined_bytes(texts))
}

/// The texts of a slice of string slices.
pub open spec fn views_of(texts: Seq<&str>) -> Seq<Seq<char>> {
    Seq::new(texts.len(), |i: int| texts[i]@)
}

/// Computes the address of `texts`.
pub fn new_text_id(texts: &[&str]) -> (id: TextId)
    ensures
        id@ == text_id_of(views_of(texts@)),
{
    let mut buffer: Vec<u8> = Vec::new();
    let mut i: usize = 0;
    while i < texts.len()
        invariant
            i <= texts.len(),
            buffer@ == joined_bytes(views_of(texts@.take(i as int))),
        decreases texts.len() - i,
    {
        buffer.extend_from_slice(texts[i].as_bytes());
        proof {
            assert(views_of(texts@.take(i + 1)).drop_last() =~= views_of(texts@.take(i as int)));
        }
        i += 1;
    }
    proof {
        assert(texts@.take(texts.len() as int) =~= texts@);
    }
    sha256_digest(buffer.as_slice())
}

/// Tells whether two addresses are the same.
pub fn same_id(a: &TextId, b: &TextId) -> (same: bool)
    ensures
        same == (*a == *b),
{
    let mut i: usize = 0;
    while i < 32
        invariant
            i <= 32,
            forall|j: int| 0 <= j < i ==> a@[j] == b@[j],
        decreases 32 - i,
    {
        if a[i] != b[i] {
            return false;
        }
        i += 1;
    }
    proof {
        assert(*a =~= *b);
    }
    true
}

/// Equal lists of texts have equal addresses: an address depends on nothing
/// but the texts it was computed from.
pub proof fn lemma_text_id_deterministic(first: Seq<&str>, second: Seq<&str>)
    requires
        first.len() == second.len(),
        forall|i: int| 0 <= i < first.len() ==> first[i]@ == second[i]@,
    ensures
        text_id_of(views_of(first)) == text_id_of(views_of(second)),
{
    assert(views_of(first) =~= views_of(second));
}

} // verus!
