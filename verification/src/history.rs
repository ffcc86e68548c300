//! The store of experiences: a content-addressed collection of exchanges,
//! each with links to the exchanges it is related to.

use crate::embedding::{total_order_key, Embedding};
use crate::related::{
    begun, lemma_advance, lemma_begun_from, lemma_walk_by_lookups, lemma_nothing_related_without_start,
    lemma_scored_step, lemma_walk_ends, lemma_walk_stays, reaches, related_ok, scored_by,
    supplied, walked, Action, Search,
};
use crate::utils::{new_text_id, same_id, text_id_of, views_of, TextId};
use vstd::prelude::*;

verus! {

/// What can go wrong at the store's boundary.
#[derive(Debug, Clone, Copy, PartialEq, Eq, Structural)]
pub enum Error {
    CantStoreHistory,
    CantAccessHistory,
    CantBuildExperience,
    CantAccessExperience,
    InvalidEmbedding,
    InvalidTextId,
    CantBuildMessages,
}

impl Error {
    /// The text that describes the error.
    pub open spec fn spec_message(&self) -> Seq<char> {
        match self {
            Error::CantStoreHistory => "failed to store the history"@,
            Error::CantAccessHistory => "failed to access the history"@,
            Error::CantBuildExperience => "failed to build the experience"@,
            Error::CantAccessExperience => "failed to access the experience"@,
            Error::InvalidEmbedding => "failed to parse the embedding"@,
            Error::InvalidTextId => "failed to parse the text ID"@,
            Error::CantBuildMessages => "failed to build messages"@,
        }
    }

    /// The text that describes the error.
    pub fn message(&self) -> (text: String)
        ensures
            text@ == self.spec_message(),
    {
        match self {
            Error::CantStoreHistory => "failed to store the history".to_owned(),
            Error::CantAccessHistory => "failed to access the history".to_owned(),
            Error::CantBuildExperience => "failed to build the experience".to_owned(),
            Error::CantAccessExperience => "failed to access the experience".to_owned(),
            Error::InvalidEmbedding => "failed to parse the embedding".to_owned(),
            Error::InvalidTextId => "failed to parse the text ID".to_owned(),
            Error::CantBuildMessages => "failed to build messages".to_owned(),
        }
    }
}

/// One stored exchange.
#[derive(Debug, Clone)]
pub struct Experience<const N: usize> {
    pub id: TextId,
    pub embedding: Embedding<N>,
    pub query: String,
    pub response: String,
    pub rank: u32,
}

/// A stored exchange with the addresses of the exchanges it is linked to.
#[derive(Debug)]
pub struct LinkedExperience<const N: usize> {
    pub experience: Experience<N>,
    pub links: Vec<TextId>,
}

/// The store: the experiences, those pushed in the order in which they were
/// first pushed, the address that was pushed last, and the number of pushes
/// so far. What the store answers depends on which entries it holds, not on
/// their order.
#[derive(Debug)]
pub struct History<const N: usize> {
    experiences: Vec<LinkedExperience<N>>,
    last_id: Option<TextId>,
    next_rank: u32,
}

/// The entry kept under `id`, if there is one.
pub open spec fn lookup<const N: usize>(
    entries: Seq<LinkedExperience<N>>,
    id: TextId,
) -> Option<LinkedExperience<N>>
    decreases entries.len(),
{
    if entries.len() == 0 {
        None
    } else if entries.last().experience.id == id {
        Some(entries.last())
    } else {
        lookup(entries.drop_last(), id)
    }
}

/// The place of the entry kept under `id`, or -1 if there is none.
pub open spec fn index_of<const N: usize>(entries: Seq<LinkedExperience<N>>, id: TextId) -> int
    decreases entries.len(),
{
    if entries.len() == 0 {
        -1
    } else if entries.last().experience.id == id {
        entries.len() - 1
    } else {
        index_of(entries.drop_last(), id)
    }
}

/// The distance of each stored experience when `distances` lists, entry by
/// entry, the bit patterns of the distances.
pub open spec fn distance_by_entry<const N: usize>(
    entries: Seq<LinkedExperience<N>>,
    distances: Seq<u32>,
) -> spec_fn(TextId) -> i64 {
    |id: TextId| total_order_key(distances[index_of(entries, id)]) as i64
}

/// The count of pushes after one more push: one more, but for the largest
/// count that 32 bits hold, where it stays.
pub open spec fn next_count(count: u32) -> u32 {
    if count < u32::MAX {
        (count + 1) as u32
    } else {
        count
    }
}

/// Every entry is kept under the address of its own query and response.
pub open spec fn content_addressed<const N: usize>(entries: Seq<LinkedExperience<N>>) -> bool {
    forall|i: int|
        0 <= i < entries.len() ==> (#[trigger] entries[i]).experience.id@ == text_id_of(
            seq![entries[i].experience.query@, entries[i].experience.response@],
        )
}

/// No address is the key of two entries.
pub open spec fn distinct_ids<const N: usize>(entries: Seq<LinkedExperience<N>>) -> bool {
    forall|i: int, j: int|
        0 <= i < j < entries.len() ==> entries[i].experience.id != entries[j].experience.id
}

/// An address has no entry exactly when no entry carries it, and the entry
/// found under an address carries it and is one of the entries.
pub proof fn lemma_lookup<const N: usize>(entries: Seq<LinkedExperience<N>>, id: TextId)
    ensures
        lookup(entries, id) is None <==> forall|i: int|
            0 <= i < entries.len() ==> entries[i].experience.id != id,
        lookup(entries, id) is Some ==> lookup(entries, id).unwrap().experience.id == id
            && entries.contains(lookup(entries, id).unwrap()),
    decreases entries.len(),
{
    if entries.len() > 0 {
        let front = entries.drop_last();
        lemma_lookup(front, id);
        if entries.last().experience.id != id {
            assert forall|i: int| 0 <= i < front.len() implies front[i] == entries[i] by {}
            if lookup(front, id) is Some {
                let found = lookup(front, id).unwrap();
                let k = choose|k: int| 0 <= k < front.len() && front[k] == found;
                assert(entries[k] == found);
            }
        } else {
            assert(entries[entries.len() - 1] == entries.last());
        }
    }
}

impl<const N: usize> History<N> {
    /// The entries, in the order in which they were first pushed.
    pub closed spec fn entries(&self) -> Seq<LinkedExperience<N>> {
        self.experiences@
    }

    /// The address that was pushed last.
    pub closed spec fn last_id(&self) -> Option<TextId> {
        self.last_id
    }

    /// The number of pushes so far, which is the rank of the next new entry.
    pub closed spec fn next_rank(&self) -> u32 {
        self.next_rank
    }

    /// The store's invariant: no address is the key of two entries.
    pub open spec fn wf(&self) -> bool {
        distinct_ids(self.entries())
    }

    /// How a push of the exchange of `query` and `response` changes the
    /// store, and which address it returns. `id` is the address of the
    /// exchange. It becomes the address pushed last, and the count of pushes
    /// grows by one, as far as 32 bits hold it. If the address has an entry,
    /// the entries stay as they
    /// are. If not, one entry joins them at the end: the exchange with its
    /// embedding and links as given, ranked by the count of earlier pushes.
    pub open spec fn pushed(
        &self,
        after: History<N>,
        id: TextId,
        query: Seq<char>,
        response: Seq<char>,
        embedding: Embedding<N>,
        links: Seq<TextId>,
    ) -> bool {
        &&& id@ == text_id_of(seq![query, response])
        &&& after.last_id() == Some(id)
        &&& after.next_rank() == next_count(self.next_rank())
        &&& lookup(self.entries(), id) is Some ==> after.entries() == self.entries()
        &&& lookup(self.entries(), id) is None ==> {
            let entry = after.entries().last();
            &&& after.entries().len() == self.entries().len() + 1
            &&& after.entries().drop_last() == self.entries()
            &&& entry.experience.id == id
            &&& entry.experience.embedding == embedding
            &&& entry.experience.query@ == query
            &&& entry.experience.response@ == response
            &&& entry.experience.rank == self.next_rank()
            &&& entry.links@ == links
        }
    }

    /// Every entry is kept under the address of its own query and response.
    /// So it is in a store that was filled by pushes alone.
    pub open spec fn content_addressed(&self) -> bool {
        content_addressed(self.entries())
    }

    /// An empty store.
    pub fn new() -> (history: History<N>)
        ensures
            history.wf(),
            history.content_addressed(),
            history.entries().len() == 0,
            history.last_id() is None,
            history.next_rank() == 0,
    {
        History { experiences: Vec::new(), last_id: None, next_rank: 0 }
    }

    /// The number of entries.
    pub fn len(&self) -> (len: usize)
        ensures
            len == self.entries().len(),
    {
        self.experiences.len()
    }

    /// The address that was pushed last.
    pub fn last_pushed(&self) -> (id: Option<TextId>)
        ensures
            id == self.last_id(),
    {
        self.last_id
    }

    /// The number of pushes so far.
    pub fn pushes(&self) -> (count: u32)
        ensures
            count == self.next_rank(),
    {
        self.next_rank
    }

    /// The entry at place `i`, in the order of first pushes.
    pub fn entry_at(&self, i: usize) -> (entry: &LinkedExperience<N>)
        requires
            i < self.entries().len(),
        ensures
            *entry == self.entries()[i as int],
    {
        &self.experiences[i]
    }

    /// The store made of the given parts, unless two of the entries have the
    /// same address.
    pub fn from_parts(
        experiences: Vec<LinkedExperience<N>>,
        last_id: Option<TextId>,
        next_rank: u32,
    ) -> (history: Option<History<N>>)
        ensures
            history is Some <==> distinct_ids(experiences@),
            history is Some ==> {
                &&& history.unwrap().wf()
                &&& history.unwrap().entries() == experiences@
                &&& history.unwrap().last_id() == last_id
                &&& history.unwrap().next_rank() == next_rank
            },
    {
        let mut j: usize = 0;
        while j < experiences.len()
            invariant
                j <= experiences.len(),
                distinct_ids(experiences@.take(j as int)),
            decreases experiences.len() - j,
        {
            let mut i: usize = 0;
            while i < j
                invariant
                    i <= j < experiences.len(),
                    forall|k: int|
                        0 <= k < i ==> experiences@[k].experience.id
                            != experiences@[j as int].experience.id,
                decreases j - i,
            {
                if same_id(&experiences[i].experience.id, &experiences[j].experience.id) {
                    return None;
                }
                i += 1;
            }
            j += 1;
        }
        proof {
            assert(experiences@.take(experiences.len() as int) =~= experiences@);
        }
        Some(History { experiences, last_id, next_rank })
    }

    /// The place of the entry kept under `id`.
    pub(crate) fn find(&self, id: &TextId) -> (place: Option<usize>)
        ensures
            match place {
                Some(i) => i < self.entries().len() && i == index_of(self.entries(), *id)
                    && lookup(self.entries(), *id) == Some(self.entries()[i as int]),
                None => lookup(self.entries(), *id) is None,
            },
    {
        let mut i: usize = self.experiences.len();
        proof {
            assert(self.entries().take(i as int) =~= self.entries());
        }
        while i > 0
            invariant
                i <= self.experiences.len(),
                lookup(self.entries(), *id) == lookup(self.entries().take(i as int), *id),
                index_of(self.entries(), *id) == index_of(self.entries().take(i as int), *id),
            decreases i,
        {
            if same_id(&self.experiences[i - 1].experience.id, id) {
                return Some(i - 1);
            }
            proof {
                assert(self.entries().take(i as int).drop_last() =~= self.entries().take(
                    i - 1,
                ));
            }
            i -= 1;
        }
        None
    }

    /// The links of the entry at place `i`.
    pub(crate) fn links_at(&self, i: usize) -> (links: &Vec<TextId>)
        requires
            i < self.entries().len(),
        ensures
            links@ == self.entries()[i as int].links@,
    {
        &self.experiences[i].links
    }

    /// Stores the exchange of `query` and `response` under its address, unless
    /// the address has an entry already, and returns the address. Either way
    /// the address becomes the one pushed last and the count of pushes grows
    /// by one; at the largest count that 32 bits hold it stays there.
    pub fn push(
        &mut self,
        query: &str,
        response: &str,
        embedding: Embedding<N>,
        links: Vec<TextId>,
    ) -> (result: Result<TextId, Error>)
        requires
            old(self).wf(),
        ensures
            final(self).wf(),
            result is Ok,
            old(self).pushed(*final(self), result.unwrap(), query@, response@, embedding, links@),
            old(self).content_addressed() ==> final(self).content_addressed(),
    {
        let texts: [&str; 2] = [query, response];
        let id = new_text_id(texts.as_slice());
        proof {
            assert(views_of(texts@) =~= seq![query@, response@]);
        }
        if self.find(&id).is_none() {
            proof {
                lemma_lookup(self.entries(), id);
            }
            self.experiences.push(
                LinkedExperience {
                    experience: Experience {
                        id,
                        embedding,
                        query: query.to_owned(),
                        response: response.to_owned(),
                        rank: self.next_rank,
                    },
                    links,
                },
            );
            proof {
                assert(self.entries().drop_last() =~= old(self).entries());
            }
        }
        self.last_id = Some(id);
        if self.next_rank < u32::MAX {
            self.next_rank += 1;
        }
        Ok(id)
    }

    /// Begins the walk that finds up to `num` experiences related to a probe,
    /// from the address pushed last. The walk goes on with `Search::next`.
    pub fn related(&self, num: usize) -> (search: Search)
        ensures
            search.wf(self),
            search@ == begun(self.last_id(), num as nat),
    {
        Search::begin(self, self.last_id, num)
    }

    /// What the walk for `num` addresses returns when `distances` lists, entry
    /// by entry, the bit patterns of the distances to the probe.
    pub open spec fn related_to(&self, distances: Seq<u32>, num: nat) -> Option<Seq<TextId>> {
        walked(
            self.entries(),
            distance_by_entry(self.entries(), distances),
            begun(self.last_id(), num),
            self.entries().len(),
        )
    }

    /// The addresses of up to `num` experiences related to a probe, nearest
    /// first, when the distance between the probe and each stored experience
    /// is at hand: `distances` lists their bit patterns, entry by entry. The
    /// whole walk is taken, from the address pushed last. It returns no more
    /// addresses than wanted, each of a stored experience that the links
    /// reach from the address pushed last, none twice.
    pub fn related_by_distances(&self, distances: &Vec<u32>, num: usize) -> (ids: Vec<TextId>)
        requires
            distances@.len() == self.entries().len(),
        ensures
            Some(ids@) == self.related_to(distances@, num as nat),
            related_ok(
                self.entries(),
                distance_by_entry(self.entries(), distances@),
                num as nat,
                ids@,
            ),
            self.last_id() is None || lookup(self.entries(), self.last_id().unwrap()) is None
                ==> ids@.len() == 0,
            forall|i: int|
                0 <= i < ids@.len() ==> reaches(self.entries(), self.last_id().unwrap(), ids@[i]),
    {
        let mut search = self.related(num);
        let ghost distance = distance_by_entry(self.entries(), distances@);
        let ghost goal = self.related_to(distances@, num as nat);
        proof {
            let start = begun(self.last_id(), num as nat);
            lemma_walk_ends(self.entries(), distance, start);
            if self.last_id() is None || lookup(self.entries(), self.last_id().unwrap()) is None {
                lemma_nothing_related_without_start(self.entries(), self.last_id(), num as nat);
            } else {
                let first = self.last_id().unwrap();
                lemma_begun_from(self.entries(), first, num as nat);
                lemma_walk_stays(self.entries(), distance, first, start, self.entries().len());
            }
        }
        loop
            invariant
                search.wf(self),
                scored_by(search@.related, distance),
                scored_by(search@.queue, distance),
                distances@.len() == self.entries().len(),
                distance == distance_by_entry(self.entries(), distances@),
                goal == self.related_to(distances@, num as nat),
                goal is Some,
                related_ok(self.entries(), distance, num as nat, goal.unwrap()),
                forall|i: int|
                    0 <= i < goal.unwrap().len() ==> reaches(
                        self.entries(),
                        self.last_id().unwrap(),
                        goal.unwrap()[i],
                    ),
                self.last_id() is None || lookup(self.entries(), self.last_id().unwrap()) is None
                    ==> goal.unwrap().len() == 0,
                search@.added.len() <= self.entries().len(),
                walked(
                    self.entries(),
                    distance,
                    search@,
                    (self.entries().len() - search@.added.len()) as nat,
                ) == goal,
            decreases self.entries().len() - search@.added.len(),
        {
            let ghost before = search@;
            match search.next(self) {
                Action::Done(ids) => {
                    return ids;
                },
                Action::Score(id) => {
                    let ghost after = search@;
                    let place = self.find(&id);
                    let i = place.unwrap();
                    search.supply(self, distances[i]);
                    proof {
                        lemma_advance(self.entries(), before);
                        lemma_scored_step(self.entries(), distance, before, id);
                        lemma_walk_ends(self.entries(), distance, search@);
                        assert(distance(id) == total_order_key(distances@[i as int]) as i64);
                        assert(search@ == supplied(after, distance(id)));
                        assert(search@.added.len() == before.added.len() + 1);
                    }
                },
            }
        }
    }

    /// The experience kept under `text_id`, if there is one.
    pub fn get(&self, text_id: &TextId) -> (found: Option<&Experience<N>>)
        ensures
            match found {
                Some(experience) => lookup(self.entries(), *text_id) is Some && *experience
                    == lookup(self.entries(), *text_id).unwrap().experience,
                None => lookup(self.entries(), *text_id) is None,
            },
    {
        match self.find(text_id) {
            Some(i) => Some(&self.experiences[i].experience),
            None => None,
        }
    }
}

/// Pushing an exchange a second time, with whatever embedding and links,
/// stores nothing: the entries stay as the first push left them, and the
/// exchange's address is still the one pushed last.
pub proof fn lemma_second_push_keeps_entries<const N: usize>(
    start: History<N>,
    once: History<N>,
    twice: History<N>,
    first_id: TextId,
    second_id: TextId,
    query: Seq<char>,
    response: Seq<char>,
    first_embedding: Embedding<N>,
    first_links: Seq<TextId>,
    second_embedding: Embedding<N>,
    second_links: Seq<TextId>,
)
    requires
        start.pushed(once, first_id, query, response, first_embedding, first_links),
        once.pushed(twice, second_id, query, response, second_embedding, second_links),
    ensures
        second_id == first_id,
        twice.entries() == once.entries(),
        twice.entries().len() == once.entries().len(),
        twice.last_id() == Some(first_id),
{
    assert(first_id =~= second_id);
    if lookup(start.entries(), first_id) is None {
        assert(once.entries().last().experience.id == first_id);
    }
}

/// Pushing an exchange whose address is stored already, with whatever
/// embedding and links, returns that address and stores nothing: the entries
/// and their number stay, and the address becomes the one pushed last.
pub proof fn lemma_push_of_stored_keeps_entries<const N: usize>(
    before: History<N>,
    after: History<N>,
    stored: TextId,
    id: TextId,
    query: Seq<char>,
    response: Seq<char>,
    embedding: Embedding<N>,
    links: Seq<TextId>,
)
    requires
        stored@ == text_id_of(seq![query, response]),
        lookup(before.entries(), stored) is Some,
        before.pushed(after, id, query, response, embedding, links),
    ensures
        id == stored,
        after.entries() == before.entries(),
        after.entries().len() == before.entries().len(),
        after.last_id() == Some(stored),
{
    assert(id =~= stored);
}

/// The two lists of entries answer every lookup alike.
pub open spec fn same_lookups<const N: usize>(
    first: Seq<LinkedExperience<N>>,
    second: Seq<LinkedExperience<N>>,
) -> bool {
    forall|id: TextId| #[trigger] lookup(first, id) == lookup(second, id)
}

/// Lists that hold the same entries, each address once, answer every lookup
/// alike, whatever the order of the entries.
pub proof fn lemma_same_entries_same_lookups<const N: usize>(
    first: Seq<LinkedExperience<N>>,
    second: Seq<LinkedExperience<N>>,
)
    requires
        distinct_ids(first),
        distinct_ids(second),
        forall|entry: LinkedExperience<N>| first.contains(entry) <==> second.contains(entry),
    ensures
        same_lookups(first, second),
{
    assert forall|id: TextId| #[trigger] lookup(first, id) == lookup(second, id) by {
        lemma_lookup(first, id);
        lemma_lookup(second, id);
        if lookup(first, id) is Some {
            let found = lookup(first, id).unwrap();
            assert(second.contains(found));
            let k = choose|k: int| 0 <= k < second.len() && second[k] == found;
            assert(second[k].experience.id == id);
            let other = lookup(second, id).unwrap();
            let j = choose|j: int| 0 <= j < second.len() && second[j] == other;
            assert(j == k);
        } else if lookup(second, id) is Some {
            let found = lookup(second, id).unwrap();
            assert(first.contains(found));
            let k = choose|k: int| 0 <= k < first.len() && first[k] == found;
            assert(first[k].experience.id == id);
        }
    }
}

/// A store that holds the entries of another, in whatever order, with the
/// same last address and the same count of pushes, is its equal in use.
/// Every lookup finds the same entry. Every walk, given the same distances,
/// returns the same addresses in the same order. And a push of the same
/// exchange has the same effect on both: the same address, the same count,
/// and, where the exchange is new, the same rank.
pub proof fn lemma_rebuilt_store<const N: usize>(
    store: History<N>,
    rebuilt: History<N>,
    distance: spec_fn(TextId) -> i64,
    num: nat,
    fuel: nat,
)
    requires
        store.wf(),
        rebuilt.wf(),
        forall|entry: LinkedExperience<N>|
            store.entries().contains(entry) <==> rebuilt.entries().contains(entry),
        rebuilt.last_id() == store.last_id(),
        rebuilt.next_rank() == store.next_rank(),
    ensures
        same_lookups(store.entries(), rebuilt.entries()),
        walked(store.entries(), distance, begun(store.last_id(), num), fuel) == walked(
            rebuilt.entries(),
            distance,
            begun(rebuilt.last_id(), num),
            fuel,
        ),
        forall|
            after: History<N>,
            again: History<N>,
            id: TextId,
            other: TextId,
            query: Seq<char>,
            response: Seq<char>,
            embedding: Embedding<N>,
            links: Seq<TextId>,
        |
            #![trigger
                store.pushed(after, id, query, response, embedding, links),
                rebuilt.pushed(again, other, query, response, embedding, links)
            ]
            store.pushed(after, id, query, response, embedding, links) && rebuilt.pushed(
                again,
                other,
                query,
                response,
                embedding,
                links,
            ) ==> {
                &&& other == id
                &&& again.last_id() == after.last_id()
                &&& again.next_rank() == after.next_rank()
                &&& again.entries().len() - rebuilt.entries().len() == after.entries().len()
                    - store.entries().len()
                &&& lookup(store.entries(), id) is None ==> again.entries().last().experience.rank
                    == after.entries().last().experience.rank
            },
{
    lemma_same_entries_same_lookups(store.entries(), rebuilt.entries());
    lemma_walk_by_lookups(
        store.entries(),
        rebuilt.entries(),
        distance,
        begun(store.last_id(), num),
        fuel,
    );
    assert forall|
        after: History<N>,
        again: History<N>,
        id: TextId,
        other: TextId,
        query: Seq<char>,
        response: Seq<char>,
        embedding: Embedding<N>,
        links: Seq<TextId>,
    |
        #![trigger
            store.pushed(after, id, query, response, embedding, links),
            rebuilt.pushed(again, other, query, response, embedding, links)
        ]
        store.pushed(after, id, query, response, embedding, links) && rebuilt.pushed(
            again,
            other,
            query,
            response,
            embedding,
            links,
        ) implies {
        &&& other == id
        &&& again.last_id() == after.last_id()
        &&& again.next_rank() == after.next_rank()
        &&& again.entries().len() - rebuilt.entries().len() == after.entries().len()
            - store.entries().len()
        &&& lookup(store.entries(), id) is None ==> again.entries().last().experience.rank
            == after.entries().last().experience.rank
    } by {
        assert(other =~= id);
        assert(lookup(store.entries(), id) == lookup(rebuilt.entries(), id));
    }
}

} // verus!
