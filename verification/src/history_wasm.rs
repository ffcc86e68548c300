//! The store as a host sees it: addresses arrive as byte strings of any
//! length and are validated before they reach the store, and the stored blob
//! travels as text.

use crate::gpt::{GptEmbedding, EMBED_DIMS};
use crate::history::{lookup, Error, LinkedExperience};
use crate::related::{begun, Search};
use crate::utils::TextId;
use base64::engine::general_purpose::STANDARD_NO_PAD;
use base64::{DecodeError, Engine};
use vstd::prelude::*;

verus! {

/// The error of `base64` when a text cannot be decoded.
#[verifier::external_type_specification]
#[verifier::external_body]
pub struct ExDecodeError(DecodeError);

/// The text that encodes a byte string in Base64, standard alphabet, without
/// padding.
pub uninterp spec fn base64_text(data: Seq<u8>) -> Seq<char>;

/// The byte string that a text decodes to, if it is Base64 of the standard
/// alphabet without padding.
pub uninterp spec fn base64_bytes(text: Seq<char>) -> Option<Seq<u8>>;

/// Calls `Engine::encode` on `STANDARD_NO_PAD` of `base64`. The contract
/// names the text and claims that it depends on the bytes alone, and that
/// the same engine decodes the text to the bytes it was made from, as the
/// round-trip tests in the crate's source assert for every engine. The call
/// fails where the text's length would overflow; the bound leaves that out.
#[verifier::external_body]
fn base64_encode(data: &[u8]) -> (text: String)
    requires
        data@.len() <= usize::MAX / 2,
    ensures
        text@ == base64_text(data@),
        base64_bytes(text@) == Some(data@),
{
    STANDARD_NO_PAD.encode(data)
}

/// Calls `Engine::decode` on `STANDARD_NO_PAD` of `base64`. The contract
/// names the outcome and claims that it depends on the text alone: the bytes
/// where the call succeeds, nothing where it fails.
#[verifier::external_body]
fn base64_decode(text: &str) -> (decoded: Result<Vec<u8>, DecodeError>)
    ensures
        match decoded {
            Ok(bytes) => base64_bytes(text@) == Some(bytes@),
            Err(_) => base64_bytes(text@) is None,
        },
{
    STANDARD_NO_PAD.decode(text)
}

/// The text under which a serialized store is kept. `blob_bytes` reads the
/// bytes back from it.
pub fn blob_text(data: &[u8]) -> (text: String)
    requires
        data@.len() <= usize::MAX / 2,
    ensures
        text@ == base64_text(data@),
        base64_bytes(text@) == Some(data@),
{
    base64_encode(data)
}

/// What a decoding attempt means for the store: its bytes, or that the
/// store cannot be accessed.
pub fn blob_from_decoded(decoded: Result<Vec<u8>, DecodeError>) -> (result: Result<Vec<u8>, Error>)
    ensures
        match (decoded, result) {
            (Ok(bytes), Ok(data)) => data == bytes,
            (Err(_), Err(e)) => e == Error::CantAccessHistory,
            _ => false,
        },
{
    match decoded {
        Ok(bytes) => Ok(bytes),
        Err(_) => Err(Error::CantAccessHistory),
    }
}

/// The serialized store that a kept text stands for.
pub fn blob_bytes(text: &str) -> (result: Result<Vec<u8>, Error>)
    ensures
        match result {
            Ok(data) => base64_bytes(text@) == Some(data@),
            Err(e) => e == Error::CantAccessHistory && base64_bytes(text@) is None,
        },
{
    blob_from_decoded(base64_decode(text))
}

/// The address with the given bytes, if they are as many as an address has.
pub open spec fn id_of_bytes(bytes: Seq<u8>) -> Option<TextId> {
    if exists|id: TextId| id@ == bytes {
        Some(choose|id: TextId| id@ == bytes)
    } else {
        None
    }
}

/// The addresses with the given bytes, if each list of bytes is as long as an
/// address.
pub open spec fn ids_of_bytes(lists: Seq<Vec<u8>>) -> Option<Seq<TextId>> {
    if forall|i: int| 0 <= i < lists.len() ==> id_of_bytes(#[trigger] lists[i]@) is Some {
        Some(Seq::new(lists.len(), |i: int| id_of_bytes(lists[i]@).unwrap()))
    } else {
        None
    }
}

/// The entry kept under the address with the given bytes.
pub open spec fn entry_under<const N: usize>(
    entries: Seq<LinkedExperience<N>>,
    bytes: Seq<u8>,
) -> Option<LinkedExperience<N>> {
    match id_of_bytes(bytes) {
        Some(id) => lookup(entries, id),
        None => None,
    }
}

/// Bytes are an address exactly when there are 32 of them.
pub proof fn lemma_id_of_bytes(bytes: Seq<u8>)
    ensures
        id_of_bytes(bytes) is Some ==> bytes.len() == 32 && id_of_bytes(bytes).unwrap()@ == bytes,
        bytes.len() != 32 ==> id_of_bytes(bytes) is None,
{
    if bytes.len() != 32 {
        assert forall|id: TextId| id@ != bytes by {
            assert(id@.len() == 32);
        }
    }
}

/// Reads an address from bytes: there must be exactly 32 of them. Any
/// other number is refused as no address.
pub fn text_id_from_bytes(bytes: &[u8]) -> (result: Result<TextId, Error>)
    ensures
        result is Ok <==> bytes@.len() == 32,
        match result {
            Ok(id) => id@ == bytes@ && id_of_bytes(bytes@) == Some(id),
            Err(e) => e == Error::InvalidTextId && id_of_bytes(bytes@) is None,
        },
{
    if bytes.len() != 32 {
        proof {
            lemma_id_of_bytes(bytes@);
        }
        return Err(Error::InvalidTextId);
    }
    let mut id: TextId = [0u8; 32];
    let mut i: usize = 0;
    while i < 32
        invariant
            i <= 32,
            bytes@.len() == 32,
            forall|j: int| 0 <= j < i ==> id@[j] == bytes@[j],
        decreases 32 - i,
    {
        id[i] = bytes[i];
        i += 1;
    }
    proof {
        assert(id@ =~= bytes@);
        let chosen = id_of_bytes(bytes@).unwrap();
        assert(chosen@ == bytes@);
        assert(chosen =~= id);
    }
    Ok(id)
}

/// Reads a list of addresses from lists of bytes: each must hold exactly 32.
pub fn text_ids_from_bytes(lists: &Vec<Vec<u8>>) -> (result: Result<Vec<TextId>, Error>)
    ensures
        match result {
            Ok(ids) => ids_of_bytes(lists@) == Some(ids@),
            Err(e) => e == Error::InvalidTextId && ids_of_bytes(lists@) is None,
        },
{
    let mut ids: Vec<TextId> = Vec::new();
    let mut i: usize = 0;
    while i < lists.len()
        invariant
            i <= lists.len(),
            ids@.len() == i,
            forall|j: int| 0 <= j < i ==> id_of_bytes(#[trigger] lists@[j]@) == Some(ids@[j]),
        decreases lists.len() - i,
    {
        match text_id_from_bytes(lists[i].as_slice()) {
            Ok(id) => {
                ids.push(id);
            },
            Err(_) => {
                proof {
                    assert(id_of_bytes(lists@[i as int]@) is None);
                }
                return Err(Error::InvalidTextId);
            },
        }
        i += 1;
    }
    proof {
        assert(ids_of_bytes(lists@).unwrap() =~= ids@);
    }
    Ok(ids)
}

/// The store of the embeddings in use, as the host reaches it: what arrives
/// as bytes is validated first.
#[derive(Debug)]
pub struct History(crate::history::History<EMBED_DIMS>);

impl History {
    /// The store behind the boundary.
    pub closed spec fn inner(&self) -> crate::history::History<EMBED_DIMS> {
        self.0
    }

    /// The store's invariant holds.
    pub open spec fn wf(&self) -> bool {
        self.inner().wf()
    }

    /// Puts a store behind the boundary.
    pub fn new(history: crate::history::History<EMBED_DIMS>) -> (wrapped: History)
        ensures
            wrapped.inner() == history,
    {
        History(history)
    }

    /// The store behind the boundary.
    pub fn history(&self) -> (history: &crate::history::History<EMBED_DIMS>)
        ensures
            *history == self.inner(),
    {
        &self.0
    }

    /// Pushes an exchange whose links arrive as bytes. Links that are no
    /// addresses are refused, and the store then stays as it was.
    pub fn push(
        &mut self,
        query: &str,
        response: &str,
        embedding: GptEmbedding,
        links: &Vec<Vec<u8>>,
    ) -> (result: Result<TextId, Error>)
        requires
            old(self).wf(),
        ensures
            final(self).wf(),
            result is Ok <==> ids_of_bytes(links@) is Some,
            match result {
                Ok(id) => old(self).inner().pushed(
                    final(self).inner(),
                    id,
                    query@,
                    response@,
                    embedding,
                    ids_of_bytes(links@).unwrap(),
                ),
                Err(e) => final(self).inner() == old(self).inner() && e == Error::InvalidTextId,
            },
    {
        let links = match text_ids_from_bytes(links) {
            Ok(links) => links,
            Err(e) => {
                return Err(e);
            },
        };
        self.0.push(query, response, embedding, links)
    }

    /// Begins the walk for up to `num` related experiences.
    pub fn related_ids(&self, num: u32) -> (search: Search)
        ensures
            search.wf(&self.inner()),
            search@ == begun(self.inner().last_id(), num as nat),
    {
        self.0.related(num as usize)
    }

    /// The query of the experience whose address has the given bytes. Bytes
    /// that are no address are refused as such; an address under which
    /// nothing is stored is answered as not accessible.
    pub fn get_query(&self, text_id: &[u8]) -> (result: Result<String, Error>)
        ensures
            match result {
                Ok(query) => entry_under(self.inner().entries(), text_id@) is Some && query@
                    == entry_under(self.inner().entries(), text_id@).unwrap().experience.query@,
                Err(e) => match id_of_bytes(text_id@) {
                    None => e == Error::InvalidTextId,
                    Some(id) => e == Error::CantAccessExperience && lookup(
                        self.inner().entries(),
                        id,
                    ) is None,
                },
            },
    {
        let id = match text_id_from_bytes(text_id) {
            Ok(id) => id,
            Err(e) => {
                return Err(e);
            },
        };
        match self.0.get(&id) {
            Some(experience) => Ok(experience.query.clone()),
            None => Err(Error::CantAccessExperience),
        }
    }

    /// The response of the experience whose address has the given bytes, with
    /// the errors of `get_query`.
    pub fn get_response(&self, text_id: &[u8]) -> (result: Result<String, Error>)
        ensures
            match result {
                Ok(response) => entry_under(self.inner().entries(), text_id@) is Some && response@
                    == entry_under(self.inner().entries(), text_id@).unwrap().experience.response@,
                Err(e) => match id_of_bytes(text_id@) {
                    None => e == Error::InvalidTextId,
                    Some(id) => e == Error::CantAccessExperience && lookup(
                        self.inner().entries(),
                        id,
                    ) is None,
                },
            },
    {
        let id = match text_id_from_bytes(text_id) {
            Ok(id) => id,
            Err(e) => {
                return Err(e);
            },
        };
        match self.0.get(&id) {
            Some(experience) => Ok(experience.response.clone()),
            None => Err(Error::CantAccessExperience),
        }
    }

    /// The rank of the experience whose address has the given bytes, with the
    /// errors of `get_query`.
    pub fn get_rank(&self, text_id: &[u8]) -> (result: Result<u32, Error>)
        ensures
            match result {
                Ok(rank) => entry_under(self.inner().entries(), text_id@) is Some && rank
                    == entry_under(self.inner().entries(), text_id@).unwrap().experience.rank,
                Err(e) => match id_of_bytes(text_id@) {
                    None => e == Error::InvalidTextId,
                    Some(id) => e == Error::CantAccessExperience && lookup(
                        self.inner().entries(),
                        id,
                    ) is None,
                },
            },
    {
        let id = match text_id_from_bytes(text_id) {
            Ok(id) => id,
            Err(e) => {
                return Err(e);
            },
        };
        match self.0.get(&id) {
            Some(experience) => Ok(experience.rank),
            None => Err(Error::CantAccessExperience),
        }
    }

    /// The number of entries, as far as 32 bits hold it.
    pub fn len(&self) -> (len: u32)
        ensures
            len == self.inner().entries().len() % 0x1_0000_0000,
    {
        let len: u64 = self.0.len() as u64;
        (len % 0x1_0000_0000) as u32
    }
}

} // verus!
