//! An exchange with its embedding, on its own.

use crate::embedding::Embedding;
use vstd::prelude::*;

verus! {

/// An exchange of a query and a response, with the embedding that stands for
/// it and its rank.
#[derive(Debug, Clone)]
pub struct Experience<const N: usize> {
    embedding: Embedding<N>,
    query: String,
    response: String,
    rank: u64,
}

impl<const N: usize> Experience<N> {
    pub closed spec fn spec_embedding(&self) -> Embedding<N> {
        self.embedding
    }

    pub closed spec fn spec_query(&self) -> Seq<char> {
        self.query@
    }

    pub closed spec fn spec_response(&self) -> Seq<char> {
        self.response@
    }

    pub closed spec fn spec_rank(&self) -> u64 {
        self.rank
    }

    /// The experience made of the given parts.
    pub fn new(query: String, response: String, embedding: Embedding<N>, rank: u64) -> (experience:
        Self)
        ensures
            experience.spec_embedding() == embedding,
            experience.spec_query() == query@,
            experience.spec_response() == response@,
            experience.spec_rank() == rank,
    {
        Experience { embedding, query, response, rank }
    }

    /// The embedding.
    pub fn embedding(&self) -> (embedding: &Embedding<N>)
        ensures
            *embedding == self.spec_embedding(),
    {
        &self.embedding
    }

    /// The query.
    pub fn query(&self) -> (query: &str)
        ensures
            query@ == self.spec_query(),
    {
        self.query.as_str()
    }

    /// The response.
    pub fn response(&self) -> (response: &str)
        ensures
            response@ == self.spec_response(),
    {
        self.response.as_str()
    }
}

} // verus!
