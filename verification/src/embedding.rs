//! Embeddings: points of a fixed number of dimensions, and the order of the
//! distances between them.

use crate::utils::{new_text_id, text_id_of, TextId};
use vstd::prelude::*;

verus! {

/// What can go wrong when an embedding is turned into bytes or back.
#[derive(Debug, Clone, Copy, PartialEq, Eq, Structural)]
pub enum Error {
    CantSerialize,
    CantDeserialize,
}

impl Error {
    /// The text that describes the error.
    pub open spec fn spec_message(&self) -> Seq<char> {
        match self {
            Error::CantSerialize => "failed to serailize embedding"@,
            Error::CantDeserialize => "failed to de-serailize embedding"@,
        }
    }

    /// The text that describes the error.
    pub fn message(&self) -> (text: String)
        ensures
            text@ == self.spec_message(),
    {
        match self {
            Error::CantSerialize => "failed to serailize embedding".to_owned(),
            Error::CantDeserialize => "failed to de-serailize embedding".to_owned(),
        }
    }
}

/// The point that stands for a text. Each coordinate is a 32-bit binary
/// number of IEEE 754, held as its bit pattern; the library carries the
/// coordinates and never reads them.
#[derive(Debug, Clone)]
pub struct Embedding<const N: usize> {
    id: TextId,
    vector: [u32; N],
}

impl<const N: usize> Embedding<N> {
    /// The address of the text that the embedding was made for.
    pub closed spec fn spec_id(&self) -> TextId {
        self.id
    }

    /// The bit patterns of the coordinates.
    pub closed spec fn spec_vector(&self) -> [u32; N] {
        self.vector
    }

    /// The embedding of `text` with the given coordinates.
    pub fn new(text: &str, vector: [u32; N]) -> (embedding: Self)
        ensures
            embedding.spec_id()@ == text_id_of(seq![text@]),
            embedding.spec_vector() == vector,
    {
        let texts: [&str; 1] = [text];
        let id = new_text_id(texts.as_slice());
        proof {
            assert(crate::utils::views_of(texts@) =~= seq![text@]);
        }
        Self { id, vector }
    }

    /// The embedding with the given address and coordinates.
    pub fn from_parts(id: TextId, vector: [u32; N]) -> (embedding: Self)
        ensures
            embedding.spec_id() == id,
            embedding.spec_vector() == vector,
    {
        Self { id, vector }
    }

    /// The address of the text that the embedding was made for.
    pub fn id(&self) -> (id: TextId)
        ensures
            id == self.spec_id(),
    {
        self.id
    }

    /// The bit patterns of the coordinates.
    pub fn vector(&self) -> (vector: &[u32; N])
        ensures
            *vector == self.spec_vector(),
    {
        &self.vector
    }
}

/// The bit pattern is that of no number: the exponent's bits are all set and
/// some bit below them is.
pub open spec fn not_a_number(bits: u32) -> bool {
    if bits < 0x8000_0000 {
        bits > 0x7f80_0000
    } else {
        bits - 0x8000_0000 > 0x7f80_0000
    }
}

/// The key by which a distance is ordered, from the bit pattern of the
/// 32-bit number. Numbers keep the total order of IEEE 754: those with the
/// sign bit clear stand in the order of their bits, those with the sign bit
/// set below them, in the opposite order. A distance that is no number, as
/// that to a point of norm zero, counts as farther than every number.
pub open spec fn total_order_key(bits: u32) -> int {
    if not_a_number(bits) {
        0x8000_0000
    } else if bits < 0x8000_0000 {
        bits as int
    } else {
        0x7fff_ffff - bits
    }
}

/// Computes the key by which a distance is ordered.
pub fn distance_key(bits: u32) -> (key: i64)
    ensures
        key == total_order_key(bits),
{
    let magnitude: u32 = if bits < 0x8000_0000 {
        bits
    } else {
        bits - 0x8000_0000
    };
    if magnitude > 0x7f80_0000 {
        0x8000_0000
    } else if bits < 0x8000_0000 {
        bits as i64
    } else {
        0x7fff_ffffi64 - (bits as i64)
    }
}

/// The key tells every two numbers apart, so the order it gives them is
/// total; and every number's key is below the key of what is no number.
pub proof fn lemma_total_order_key(first: u32, second: u32)
    requires
        !not_a_number(first),
    ensures
        !not_a_number(second) ==> (total_order_key(first) == total_order_key(second) <==> first
            == second),
        not_a_number(second) ==> total_order_key(first) < total_order_key(second),
{
}

} // verus!
