//! The walk that finds related experiences: a best-first traversal of the
//! links, one decision at a time. The walk asks for the distance of an
//! experience when it needs one, and the caller, who can measure distances,
//! supplies it.

use crate::embedding::{distance_key, total_order_key};
use crate::history::{lookup, same_lookups, History, LinkedExperience};
use crate::utils::{same_id, TextId};
use vstd::prelude::*;

verus! {

/// An address with the key of its distance to the probe.
#[derive(Debug, Clone, Copy)]
pub struct Scored {
    pub distance: i64,
    pub id: TextId,
}

/// What the walk wants next.
#[derive(Debug)]
pub enum Action {
    /// The distance between the probe and the experience at this address.
    Score(TextId),
    /// Nothing more: these are the related addresses, nearest first.
    Done(Vec<TextId>),
}

/// The mathematical value of an `Action`.
pub enum Outcome {
    Score(TextId),
    Done(Seq<TextId>),
}

impl Action {
    pub open spec fn outcome(&self) -> Outcome {
        match self {
            Action::Score(id) => Outcome::Score(*id),
            Action::Done(ids) => Outcome::Done(ids@),
        }
    }
}

/// The state of a walk.
pub struct Walk {
    /// How many related addresses are wanted.
    pub num: nat,
    /// The visited experiences, nearest first.
    pub related: Seq<Scored>,
    /// The discovered experiences that wait for their visit, nearest first.
    pub queue: Seq<Scored>,
    /// Every address that was ever put in the queue.
    pub added: Seq<TextId>,
    /// The links that are still to be examined, in their order.
    pub pending: Seq<TextId>,
}

/// The state of a walk, as the program holds it.
#[derive(Debug)]
pub struct Search {
    num: usize,
    related: Vec<Scored>,
    queue: Vec<Scored>,
    added: Vec<TextId>,
    pending: Vec<TextId>,
    cursor: usize,
}

/// The list is in ascending order of distance.
pub open spec fn sorted(list: Seq<Scored>) -> bool {
    forall|i: int, j: int| 0 <= i < j < list.len() ==> list[i].distance <= list[j].distance
}

/// The number of leading entries of `list` that are not farther than
/// `distance`.
pub open spec fn place_of(list: Seq<Scored>, distance: i64) -> int
    decreases list.len(),
{
    if list.len() == 0 || list[0].distance > distance {
        0
    } else {
        1 + place_of(list.drop_first(), distance)
    }
}

/// `list` with `item` put behind the leading entries that are not farther
/// than it.
pub open spec fn inserted(list: Seq<Scored>, item: Scored) -> Seq<Scored> {
    list.insert(place_of(list, item.distance), item)
}

/// The addresses of a list, in its order.
pub open spec fn ids_of(list: Seq<Scored>) -> Seq<TextId> {
    Seq::new(list.len(), |i: int| list[i].id)
}

/// The address names a stored experience that was never put in the queue.
pub open spec fn needs_score<const N: usize>(
    entries: Seq<LinkedExperience<N>>,
    added: Seq<TextId>,
    id: TextId,
) -> bool {
    !added.contains(id) && lookup(entries, id) is Some
}

/// `pending` without the leading links that need no score: those already
/// discovered and those that name nothing in the store.
pub open spec fn settle<const N: usize>(
    entries: Seq<LinkedExperience<N>>,
    added: Seq<TextId>,
    pending: Seq<TextId>,
) -> Seq<TextId>
    decreases pending.len(),
{
    if pending.len() == 0 || needs_score(entries, added, pending[0]) {
        pending
    } else {
        settle(entries, added, pending.drop_first())
    }
}

/// The decisions of the walk from one state up to its next request. Links
/// that need no score are passed over. If one needs a score, the walk asks
/// for it. If none is left and enough experiences were visited, or none
/// waits, the walk is done. Else the nearest waiting experience is visited:
/// it takes its place among the related ones and its links become the links
/// to examine.
pub open spec fn advance<const N: usize>(
    entries: Seq<LinkedExperience<N>>,
    walk: Walk,
) -> (Walk, Outcome)
    decreases walk.queue.len(),
{
    let pending = settle(entries, walk.added, walk.pending);
    if pending.len() > 0 {
        (Walk { pending, ..walk }, Outcome::Score(pending[0]))
    } else if walk.related.len() >= walk.num || walk.queue.len() == 0 {
        (Walk { pending, ..walk }, Outcome::Done(ids_of(walk.related)))
    } else {
        let next = walk.queue[0];
        let queue = walk.queue.drop_first();
        match lookup(entries, next.id) {
            None => advance(entries, Walk { pending, queue, ..walk }),
            Some(entry) => advance(
                entries,
                Walk { related: inserted(walk.related, next), queue, pending: entry.links@, ..walk },
            ),
        }
    }
}

/// The state after the distance of the first pending link was supplied: the
/// link is discovered and waits in the queue.
pub open spec fn supplied(walk: Walk, distance: i64) -> Walk {
    Walk {
        added: walk.added.push(walk.pending[0]),
        queue: inserted(walk.queue, Scored { distance, id: walk.pending[0] }),
        pending: walk.pending.drop_first(),
        ..walk
    }
}

/// The state in which a walk for `num` addresses begins: nothing visited,
/// nothing discovered, and the address pushed last as the one link to examine.
pub open spec fn begun(last_id: Option<TextId>, num: nat) -> Walk {
    Walk {
        num,
        related: Seq::empty(),
        queue: Seq::empty(),
        added: Seq::empty(),
        pending: match last_id {
            Some(id) => seq![id],
            None => Seq::empty(),
        },
    }
}

/// No address occurs twice in the list.
pub open spec fn ids_distinct(list: Seq<Scored>) -> bool {
    forall|i: int, j: int| 0 <= i < j < list.len() ==> list[i].id != list[j].id
}

/// No address of the first list is one of the second.
pub open spec fn ids_apart(first: Seq<Scored>, second: Seq<Scored>) -> bool {
    forall|i: int, j: int|
        0 <= i < first.len() && 0 <= j < second.len() ==> first[i].id != second[j].id
}

/// Every address of the list is one of `added`.
pub open spec fn ids_within(list: Seq<Scored>, added: Seq<TextId>) -> bool {
    forall|i: int| 0 <= i < list.len() ==> added.contains(#[trigger] list[i].id)
}

/// What holds of every state of a walk over `entries`. Both lists are in
/// ascending order of distance, and no more experiences were visited than are
/// wanted. No address stands twice among the visited and the waiting ones,
/// and each of them was discovered. The discovered addresses are stored and
/// differ from one another.
pub open spec fn walk_wf<const N: usize>(entries: Seq<LinkedExperience<N>>, walk: Walk) -> bool {
    &&& sorted(walk.related)
    &&& sorted(walk.queue)
    &&& walk.related.len() <= walk.num
    &&& ids_distinct(walk.related)
    &&& ids_distinct(walk.queue)
    &&& ids_apart(walk.related, walk.queue)
    &&& ids_within(walk.related, walk.added)
    &&& ids_within(walk.queue, walk.added)
    &&& forall|i: int| 0 <= i < walk.added.len() ==> lookup(entries, walk.added[i]) is Some
    &&& forall|i: int, j: int| 0 <= i < j < walk.added.len() ==> walk.added[i] != walk.added[j]
}

/// Every entry of the list carries the distance of its address.
pub open spec fn scored_by(list: Seq<Scored>, distance: spec_fn(TextId) -> i64) -> bool {
    forall|i: int| 0 <= i < list.len() ==> (#[trigger] list[i]).distance == distance(list[i].id)
}

/// What holds of the addresses that a walk over `entries` returns when
/// `num` are wanted: they are no more than wanted, each is stored, none
/// stands twice, and they are in ascending order of distance.
pub open spec fn related_ok<const N: usize>(
    entries: Seq<LinkedExperience<N>>,
    distance: spec_fn(TextId) -> i64,
    num: nat,
    ids: Seq<TextId>,
) -> bool {
    &&& ids.len() <= num
    &&& forall|i: int| 0 <= i < ids.len() ==> lookup(entries, ids[i]) is Some
    &&& forall|i: int, j: int| 0 <= i < j < ids.len() ==> ids[i] != ids[j]
    &&& forall|i: int, j: int| 0 <= i < j < ids.len() ==> distance(ids[i]) <= distance(ids[j])
}

/// The entry kept under `from` has a link to `to`.
pub open spec fn linked<const N: usize>(
    entries: Seq<LinkedExperience<N>>,
    from: TextId,
    to: TextId,
) -> bool {
    lookup(entries, from) is Some && lookup(entries, from).unwrap().links@.contains(to)
}

/// Each address of the path is linked to the one behind it.
pub open spec fn is_path<const N: usize>(
    entries: Seq<LinkedExperience<N>>,
    path: Seq<TextId>,
) -> bool {
    path.len() > 0 && forall|k: int|
        0 <= k < path.len() - 1 ==> linked(entries, #[trigger] path[k], path[k + 1])
}

/// Links lead from `start` to `id`, or the two are the same.
pub open spec fn reaches<const N: usize>(
    entries: Seq<LinkedExperience<N>>,
    start: TextId,
    id: TextId,
) -> bool {
    exists|path: Seq<TextId>| is_path(entries, path) && path[0] == start && path.last() == id
}

/// The walk has kept to what the links reach from `start`: every discovered
/// address and every link under examination.
pub open spec fn walk_from<const N: usize>(
    entries: Seq<LinkedExperience<N>>,
    start: TextId,
    walk: Walk,
) -> bool {
    &&& forall|i: int| 0 <= i < walk.added.len() ==> reaches(entries, start, walk.added[i])
    &&& forall|i: int| 0 <= i < walk.pending.len() ==> reaches(entries, start, walk.pending[i])
}

/// The walk from a state to its end, when the distance of each address is
/// given by `distance`: the related addresses, or nothing if `fuel` requests
/// were not enough.
pub open spec fn walked<const N: usize>(
    entries: Seq<LinkedExperience<N>>,
    distance: spec_fn(TextId) -> i64,
    walk: Walk,
    fuel: nat,
) -> Option<Seq<TextId>>
    decreases fuel,
{
    match advance(entries, walk) {
        (_, Outcome::Done(ids)) => Some(ids),
        (after, Outcome::Score(id)) => if fuel == 0 {
            None
        } else {
            walked(entries, distance, supplied(after, distance(id)), (fuel - 1) as nat)
        },
    }
}

/// Where `place_of` points: everything before is not farther than
/// `distance`, and the entry there, if any, is farther.
pub proof fn lemma_place_of(list: Seq<Scored>, distance: i64)
    ensures
        0 <= place_of(list, distance) <= list.len(),
        forall|i: int| 0 <= i < place_of(list, distance) ==> list[i].distance <= distance,
        place_of(list, distance) < list.len() ==> list[place_of(list, distance)].distance
            > distance,
    decreases list.len(),
{
    if list.len() > 0 && list[0].distance <= distance {
        let rest = list.drop_first();
        lemma_place_of(rest, distance);
        assert forall|i: int| 0 <= i < place_of(list, distance) implies list[i].distance
            <= distance by {
            if i > 0 {
                assert(list[i] == rest[i - 1]);
            }
        }
        if place_of(list, distance) < list.len() {
            assert(list[place_of(list, distance)] == rest[place_of(rest, distance)]);
        }
    }
}

/// Inserting keeps a list in order.
pub proof fn lemma_inserted_sorted(list: Seq<Scored>, item: Scored)
    requires
        sorted(list),
    ensures
        sorted(inserted(list, item)),
        inserted(list, item).len() == list.len() + 1,
{
    lemma_place_of(list, item.distance);
    let p = place_of(list, item.distance);
    let out = inserted(list, item);
    assert forall|i: int, j: int| 0 <= i < j < out.len() implies out[i].distance
        <= out[j].distance by {
        if j < p {
            assert(out[i] == list[i] && out[j] == list[j]);
        } else if j == p {
            assert(out[i] == list[i]);
        } else if i < p {
            assert(out[i] == list[i] && out[j] == list[j - 1]);
            assert(list[p].distance > item.distance);
        } else if i == p {
            assert(out[j] == list[j - 1]);
            assert(list[p].distance > item.distance);
        } else {
            assert(out[i] == list[i - 1] && out[j] == list[j - 1]);
        }
    }
}

/// What stands at each place of a list after an insertion.
pub proof fn lemma_inserted_at(list: Seq<Scored>, item: Scored, k: int)
    requires
        0 <= k <= list.len(),
    ensures
        inserted(list, item).len() == list.len() + 1,
        0 <= place_of(list, item.distance) <= list.len(),
        inserted(list, item)[k] == if k < place_of(list, item.distance) {
            list[k]
        } else if k == place_of(list, item.distance) {
            item
        } else {
            list[k - 1]
        },
{
    lemma_place_of(list, item.distance);
}

proof fn lemma_inserted_distinct(list: Seq<Scored>, item: Scored)
    requires
        ids_distinct(list),
        forall|i: int| 0 <= i < list.len() ==> list[i].id != item.id,
    ensures
        ids_distinct(inserted(list, item)),
{
    let out = inserted(list, item);
    lemma_place_of(list, item.distance);
    assert forall|i: int, j: int| 0 <= i < j < out.len() implies out[i].id != out[j].id by {
        lemma_inserted_at(list, item, i);
        lemma_inserted_at(list, item, j);
    }
}

proof fn lemma_inserted_within(list: Seq<Scored>, item: Scored, added: Seq<TextId>)
    requires
        ids_within(list, added),
        added.contains(item.id),
    ensures
        ids_within(inserted(list, item), added),
{
    let out = inserted(list, item);
    lemma_place_of(list, item.distance);
    assert forall|i: int| 0 <= i < out.len() implies added.contains(#[trigger] out[i].id) by {
        lemma_inserted_at(list, item, i);
        let p = place_of(list, item.distance);
        if i < p {
            assert(added.contains(list[i].id));
        } else if i > p {
            assert(added.contains(list[i - 1].id));
        }
    }
}

proof fn lemma_inserted_apart(list: Seq<Scored>, item: Scored, other: Seq<Scored>)
    requires
        ids_apart(list, other),
        ids_apart(other, list),
        forall|j: int| 0 <= j < other.len() ==> other[j].id != item.id,
    ensures
        ids_apart(inserted(list, item), other),
        ids_apart(other, inserted(list, item)),
{
    let out = inserted(list, item);
    lemma_place_of(list, item.distance);
    assert forall|i: int, j: int| 0 <= i < out.len() && 0 <= j < other.len() implies out[i].id
        != other[j].id by {
        lemma_inserted_at(list, item, i);
    }
    assert forall|j: int, i: int| 0 <= j < other.len() && 0 <= i < out.len() implies other[j].id
        != out[i].id by {
        lemma_inserted_at(list, item, i);
    }
}

/// The leading link that `settle` leaves, if any, needs a score.
pub proof fn lemma_settle<const N: usize>(
    entries: Seq<LinkedExperience<N>>,
    added: Seq<TextId>,
    pending: Seq<TextId>,
)
    ensures
        settle(entries, added, pending).len() > 0 ==> needs_score(
            entries,
            added,
            settle(entries, added, pending)[0],
        ),
    decreases pending.len(),
{
    if pending.len() > 0 && !needs_score(entries, added, pending[0]) {
        lemma_settle(entries, added, pending.drop_first());
    }
}

/// A visit keeps the state one of a walk: the nearest waiting experience
/// leaves the queue and takes its place among the visited ones.
proof fn lemma_visit_wf<const N: usize>(
    entries: Seq<LinkedExperience<N>>,
    walk: Walk,
    pending: Seq<TextId>,
)
    requires
        walk_wf(entries, walk),
        walk.queue.len() > 0,
        walk.related.len() < walk.num,
    ensures
        walk_wf(entries, Walk { queue: walk.queue.drop_first(), pending, ..walk }),
        walk_wf(
            entries,
            Walk {
                related: inserted(walk.related, walk.queue[0]),
                queue: walk.queue.drop_first(),
                pending,
                ..walk
            },
        ),
{
    let next = walk.queue[0];
    let queue = walk.queue.drop_first();
    assert forall|i: int| 0 <= i < queue.len() implies queue[i] == walk.queue[i + 1] by {}
    assert(sorted(queue)) by {
        assert forall|i: int, j: int| 0 <= i < j < queue.len() implies queue[i].distance
            <= queue[j].distance by {
            assert(queue[i] == walk.queue[i + 1] && queue[j] == walk.queue[j + 1]);
        }
    }
    assert(ids_distinct(queue)) by {
        assert forall|i: int, j: int| 0 <= i < j < queue.len() implies queue[i].id
            != queue[j].id by {
            assert(queue[i] == walk.queue[i + 1] && queue[j] == walk.queue[j + 1]);
        }
    }
    assert(ids_within(queue, walk.added)) by {
        assert forall|i: int| 0 <= i < queue.len() implies walk.added.contains(
            #[trigger] queue[i].id,
        ) by {
            assert(walk.added.contains(walk.queue[i + 1].id));
        }
    }
    assert(ids_apart(walk.related, queue) && ids_apart(queue, walk.related)) by {
        assert forall|i: int, j: int|
            0 <= i < walk.related.len() && 0 <= j < queue.len() implies walk.related[i].id
            != queue[j].id by {
            assert(queue[j] == walk.queue[j + 1]);
        }
        assert forall|j: int, i: int|
            0 <= j < queue.len() && 0 <= i < walk.related.len() implies queue[j].id
            != walk.related[i].id by {
            assert(queue[j] == walk.queue[j + 1]);
        }
    }
    assert forall|j: int| 0 <= j < queue.len() implies queue[j].id != next.id by {
        assert(queue[j] == walk.queue[j + 1]);
    }
    assert(walk.added.contains(walk.queue[0].id));
    lemma_inserted_sorted(walk.related, next);
    lemma_inserted_distinct(walk.related, next);
    lemma_inserted_within(walk.related, next, walk.added);
    lemma_inserted_apart(walk.related, next, queue);
}

/// The walk's decisions keep the state one of a walk and discover nothing.
/// A request for a score names the first pending link, which needs one; and
/// when the walk is done, its answer is the visited addresses in their order.
pub proof fn lemma_advance<const N: usize>(entries: Seq<LinkedExperience<N>>, walk: Walk)
    requires
        walk_wf(entries, walk),
    ensures
        walk_wf(entries, advance(entries, walk).0),
        advance(entries, walk).0.added == walk.added,
        advance(entries, walk).0.num == walk.num,
        match advance(entries, walk).1 {
            Outcome::Score(id) => {
                &&& advance(entries, walk).0.pending.len() > 0
                &&& advance(entries, walk).0.pending[0] == id
                &&& needs_score(entries, walk.added, id)
            },
            Outcome::Done(ids) => ids == ids_of(advance(entries, walk).0.related),
        },
    decreases walk.queue.len(),
{
    let pending = settle(entries, walk.added, walk.pending);
    lemma_settle(entries, walk.added, walk.pending);
    if pending.len() == 0 && walk.related.len() < walk.num && walk.queue.len() > 0 {
        let next = walk.queue[0];
        let queue = walk.queue.drop_first();
        match lookup(entries, next.id) {
            None => {
                lemma_visit_wf(entries, walk, pending);
                lemma_advance(entries, Walk { pending, queue, ..walk });
            },
            Some(entry) => {
                lemma_visit_wf(entries, walk, entry.links@);
                lemma_advance(
                    entries,
                    Walk {
                        related: inserted(walk.related, next),
                        queue,
                        pending: entry.links@,
                        ..walk
                    },
                );
            },
        }
    }
}

/// A supplied distance keeps the state one of a walk, and one more address
/// is discovered.
pub proof fn lemma_supplied<const N: usize>(
    entries: Seq<LinkedExperience<N>>,
    walk: Walk,
    distance: i64,
)
    requires
        walk_wf(entries, walk),
        walk.pending.len() > 0,
        needs_score(entries, walk.added, walk.pending[0]),
    ensures
        walk_wf(entries, supplied(walk, distance)),
        supplied(walk, distance).added.len() == walk.added.len() + 1,
        supplied(walk, distance).num == walk.num,
{
    let link = walk.pending[0];
    let item = Scored { distance, id: link };
    let added = walk.added.push(link);
    assert(added[walk.added.len() as int] == link);
    assert forall|id: TextId| walk.added.contains(id) implies added.contains(id) by {
        let k = choose|k: int| 0 <= k < walk.added.len() && walk.added[k] == id;
        assert(added[k] == id);
    }
    assert forall|i: int| 0 <= i < walk.queue.len() implies walk.queue[i].id != link by {
        assert(walk.added.contains(walk.queue[i].id));
    }
    assert forall|i: int| 0 <= i < walk.related.len() implies walk.related[i].id != link by {
        assert(walk.added.contains(walk.related[i].id));
    }
    assert(ids_within(walk.queue, added)) by {
        assert forall|i: int| 0 <= i < walk.queue.len() implies added.contains(
            #[trigger] walk.queue[i].id,
        ) by {
            assert(walk.added.contains(walk.queue[i].id));
        }
    }
    assert(ids_within(walk.related, added)) by {
        assert forall|i: int| 0 <= i < walk.related.len() implies added.contains(
            #[trigger] walk.related[i].id,
        ) by {
            assert(walk.added.contains(walk.related[i].id));
        }
    }
    assert(ids_apart(walk.queue, walk.related)) by {
        assert forall|j: int, i: int|
            0 <= j < walk.queue.len() && 0 <= i < walk.related.len() implies walk.queue[j].id
            != walk.related[i].id by {
            assert(walk.related[i].id != walk.queue[j].id);
        }
    }
    lemma_inserted_sorted(walk.queue, item);
    lemma_inserted_distinct(walk.queue, item);
    lemma_inserted_within(walk.queue, item, added);
    lemma_inserted_apart(walk.queue, item, walk.related);
    assert forall|i: int, j: int| 0 <= i < j < added.len() implies added[i] != added[j] by {
        if j == walk.added.len() {
            assert(walk.added.contains(added[i]));
        }
    }
}

/// Addresses that are stored and differ from one another are no more than
/// the store has entries.
pub proof fn lemma_discovered_fit<const N: usize>(
    entries: Seq<LinkedExperience<N>>,
    added: Seq<TextId>,
)
    requires
        forall|i: int| 0 <= i < added.len() ==> lookup(entries, added[i]) is Some,
        forall|i: int, j: int| 0 <= i < j < added.len() ==> added[i] != added[j],
    ensures
        added.len() <= entries.len(),
    decreases entries.len(),
{
    if entries.len() == 0 {
        if added.len() > 0 {
            assert(lookup(entries, added[0]) is Some);
        }
    } else {
        let last = entries.last().experience.id;
        let front = entries.drop_last();
        if exists|k: int| 0 <= k < added.len() && added[k] == last {
            let k = choose|k: int| 0 <= k < added.len() && added[k] == last;
            let rest = added.remove(k);
            assert forall|i: int| 0 <= i < rest.len() implies lookup(front, rest[i]) is Some by {
                if i < k {
                    assert(rest[i] == added[i]);
                    assert(lookup(entries, added[i]) is Some);
                } else {
                    assert(rest[i] == added[i + 1]);
                    assert(lookup(entries, added[i + 1]) is Some);
                }
            }
            assert forall|i: int, j: int| 0 <= i < j < rest.len() implies rest[i] != rest[j] by {
                let i0 = if i < k { i } else { i + 1 };
                let j0 = if j < k { j } else { j + 1 };
                assert(rest[i] == added[i0] && rest[j] == added[j0]);
            }
            lemma_discovered_fit(front, rest);
        } else {
            assert forall|i: int| 0 <= i < added.len() implies lookup(front, added[i]) is Some by {
                assert(lookup(entries, added[i]) is Some);
            }
            lemma_discovered_fit(front, added);
        }
    }
}

proof fn lemma_inserted_scored(
    list: Seq<Scored>,
    item: Scored,
    distance: spec_fn(TextId) -> i64,
)
    requires
        scored_by(list, distance),
        item.distance == distance(item.id),
    ensures
        scored_by(inserted(list, item), distance),
{
    let out = inserted(list, item);
    lemma_place_of(list, item.distance);
    assert forall|i: int| 0 <= i < out.len() implies (#[trigger] out[i]).distance == distance(
        out[i].id,
    ) by {
        lemma_inserted_at(list, item, i);
    }
}

/// The walk's decisions leave each entry with the distance of its address.
proof fn lemma_advance_scored<const N: usize>(
    entries: Seq<LinkedExperience<N>>,
    walk: Walk,
    distance: spec_fn(TextId) -> i64,
)
    requires
        scored_by(walk.related, distance),
        scored_by(walk.queue, distance),
    ensures
        scored_by(advance(entries, walk).0.related, distance),
        scored_by(advance(entries, walk).0.queue, distance),
    decreases walk.queue.len(),
{
    let pending = settle(entries, walk.added, walk.pending);
    if pending.len() == 0 && walk.related.len() < walk.num && walk.queue.len() > 0 {
        let next = walk.queue[0];
        let queue = walk.queue.drop_first();
        assert forall|i: int| 0 <= i < queue.len() implies (#[trigger] queue[i]).distance
            == distance(queue[i].id) by {
            assert(queue[i] == walk.queue[i + 1]);
        }
        match lookup(entries, next.id) {
            None => {
                lemma_advance_scored(entries, Walk { pending, queue, ..walk }, distance);
            },
            Some(entry) => {
                lemma_inserted_scored(walk.related, next, distance);
                lemma_advance_scored(
                    entries,
                    Walk {
                        related: inserted(walk.related, next),
                        queue,
                        pending: entry.links@,
                        ..walk
                    },
                    distance,
                );
            },
        }
    }
}

/// What a link of a reached entry names is reached too.
pub proof fn lemma_reaches_link<const N: usize>(
    entries: Seq<LinkedExperience<N>>,
    start: TextId,
    via: TextId,
    to: TextId,
)
    requires
        reaches(entries, start, via),
        linked(entries, via, to),
    ensures
        reaches(entries, start, to),
{
    let path = choose|path: Seq<TextId>|
        is_path(entries, path) && path[0] == start && path.last() == via;
    let longer = path.push(to);
    assert forall|k: int| 0 <= k < longer.len() - 1 implies linked(
        entries,
        #[trigger] longer[k],
        longer[k + 1],
    ) by {
        if k < path.len() - 1 {
            assert(linked(entries, path[k], path[k + 1]));
        }
    }
    assert(is_path(entries, longer) && longer[0] == start && longer.last() == to);
}

/// A walk that begins at `start` has reached nothing else yet.
pub proof fn lemma_begun_from<const N: usize>(
    entries: Seq<LinkedExperience<N>>,
    start: TextId,
    num: nat,
)
    ensures
        walk_from(entries, start, begun(Some(start), num)),
{
    let path = seq![start];
    assert(is_path(entries, path) && path[0] == start && path.last() == start);
}

proof fn lemma_settle_suffix<const N: usize>(
    entries: Seq<LinkedExperience<N>>,
    added: Seq<TextId>,
    pending: Seq<TextId>,
    i: int,
)
    requires
        0 <= i < settle(entries, added, pending).len(),
    ensures
        pending.contains(settle(entries, added, pending)[i]),
    decreases pending.len(),
{
    if pending.len() > 0 && !needs_score(entries, added, pending[0]) {
        let rest = pending.drop_first();
        lemma_settle_suffix(entries, added, rest, i);
        let k = choose|k: int| 0 <= k < rest.len() && rest[k] == settle(entries, added, rest)[i];
        assert(pending[k + 1] == rest[k]);
    } else {
        assert(pending[i] == settle(entries, added, pending)[i]);
    }
}

/// The walk's decisions keep to what the links reach from `start`.
pub proof fn lemma_advance_from<const N: usize>(
    entries: Seq<LinkedExperience<N>>,
    start: TextId,
    walk: Walk,
)
    requires
        walk_wf(entries, walk),
        walk_from(entries, start, walk),
    ensures
        walk_from(entries, start, advance(entries, walk).0),
    decreases walk.queue.len(),
{
    let pending = settle(entries, walk.added, walk.pending);
    assert forall|i: int| 0 <= i < pending.len() implies reaches(entries, start, pending[i]) by {
        lemma_settle_suffix(entries, walk.added, walk.pending, i);
        let k = choose|k: int| 0 <= k < walk.pending.len() && walk.pending[k] == pending[i];
        assert(reaches(entries, start, walk.pending[k]));
    }
    if pending.len() == 0 && walk.related.len() < walk.num && walk.queue.len() > 0 {
        let next = walk.queue[0];
        let queue = walk.queue.drop_first();
        match lookup(entries, next.id) {
            None => {
                lemma_visit_wf(entries, walk, pending);
                lemma_advance_from(entries, start, Walk { pending, queue, ..walk });
            },
            Some(entry) => {
                let after = Walk {
                    related: inserted(walk.related, next),
                    queue,
                    pending: entry.links@,
                    ..walk
                };
                lemma_visit_wf(entries, walk, entry.links@);
                assert(walk.added.contains(walk.queue[0].id));
                let k = choose|k: int| 0 <= k < walk.added.len() && walk.added[k] == next.id;
                assert(reaches(entries, start, walk.added[k]));
                assert forall|i: int| 0 <= i < after.pending.len() implies reaches(
                    entries,
                    start,
                    after.pending[i],
                ) by {
                    assert(entry.links@.contains(entry.links@[i]));
                    lemma_reaches_link(entries, start, next.id, after.pending[i]);
                }
                lemma_advance_from(entries, start, after);
            },
        }
    }
}

/// A walk that keeps to what the links reach from `start` returns nothing
/// else.
pub proof fn lemma_walk_stays<const N: usize>(
    entries: Seq<LinkedExperience<N>>,
    distance: spec_fn(TextId) -> i64,
    start: TextId,
    walk: Walk,
    fuel: nat,
)
    requires
        walk_wf(entries, walk),
        walk_from(entries, start, walk),
        walked(entries, distance, walk, fuel) is Some,
    ensures
        forall|i: int|
            0 <= i < walked(entries, distance, walk, fuel).unwrap().len() ==> reaches(
                entries,
                start,
                walked(entries, distance, walk, fuel).unwrap()[i],
            ),
    decreases fuel,
{
    lemma_advance(entries, walk);
    lemma_advance_from(entries, start, walk);
    let (after, outcome) = advance(entries, walk);
    match outcome {
        Outcome::Done(ids) => {
            assert forall|i: int| 0 <= i < ids.len() implies reaches(entries, start, ids[i]) by {
                assert(after.added.contains(after.related[i].id));
                let k = choose|k: int| 0 <= k < after.added.len() && after.added[k] == ids[i];
                assert(reaches(entries, start, after.added[k]));
            }
        },
        Outcome::Score(id) => {
            let next = supplied(after, distance(id));
            lemma_supplied(entries, after, distance(id));
            assert forall|i: int| 0 <= i < next.added.len() implies reaches(
                entries,
                start,
                next.added[i],
            ) by {
                if i < after.added.len() {
                    assert(next.added[i] == after.added[i]);
                } else {
                    assert(next.added[i] == after.pending[0]);
                }
            }
            assert forall|i: int| 0 <= i < next.pending.len() implies reaches(
                entries,
                start,
                next.pending[i],
            ) by {
                assert(next.pending[i] == after.pending[i + 1]);
            }
            lemma_walk_stays(entries, distance, start, next, (fuel - 1) as nat);
        },
    }
}

/// A request and its answer leave each entry with the distance of its
/// address.
pub proof fn lemma_scored_step<const N: usize>(
    entries: Seq<LinkedExperience<N>>,
    distance: spec_fn(TextId) -> i64,
    walk: Walk,
    id: TextId,
)
    requires
        scored_by(walk.related, distance),
        scored_by(walk.queue, distance),
        advance(entries, walk).1 == Outcome::Score(id),
        advance(entries, walk).0.pending.len() > 0,
        advance(entries, walk).0.pending[0] == id,
    ensures
        scored_by(supplied(advance(entries, walk).0, distance(id)).related, distance),
        scored_by(supplied(advance(entries, walk).0, distance(id)).queue, distance),
{
    lemma_advance_scored(entries, walk, distance);
    let after = advance(entries, walk).0;
    lemma_inserted_scored(after.queue, Scored { distance: distance(id), id }, distance);
}

/// Every walk ends: it asks for no more distances than the store has entries
/// that it has not discovered yet, whatever the distances are. What it
/// returns are at most as many addresses as wanted, each stored, none twice,
/// nearest first.
pub proof fn lemma_walk_ends<const N: usize>(
    entries: Seq<LinkedExperience<N>>,
    distance: spec_fn(TextId) -> i64,
    walk: Walk,
)
    requires
        walk_wf(entries, walk),
        scored_by(walk.related, distance),
        scored_by(walk.queue, distance),
    ensures
        walk.added.len() <= entries.len(),
        walked(entries, distance, walk, (entries.len() - walk.added.len()) as nat) is Some,
        related_ok(
            entries,
            distance,
            walk.num,
            walked(entries, distance, walk, (entries.len() - walk.added.len()) as nat).unwrap(),
        ),
    decreases entries.len() - walk.added.len(),
{
    lemma_discovered_fit(entries, walk.added);
    lemma_advance(entries, walk);
    lemma_advance_scored(entries, walk, distance);
    let (after, outcome) = advance(entries, walk);
    match outcome {
        Outcome::Done(ids) => {
            assert forall|i: int| 0 <= i < ids.len() implies lookup(entries, ids[i]) is Some by {
                assert(after.added.contains(after.related[i].id));
            }
            assert forall|i: int, j: int| 0 <= i < j < ids.len() implies distance(ids[i])
                <= distance(ids[j]) by {
                assert(after.related[i].distance == distance(after.related[i].id));
                assert(after.related[j].distance == distance(after.related[j].id));
            }
        },
        Outcome::Score(id) => {
            let next = supplied(after, distance(id));
            lemma_supplied(entries, after, distance(id));
            lemma_inserted_scored(after.queue, Scored { distance: distance(id), id }, distance);
            lemma_discovered_fit(entries, next.added);
            lemma_walk_ends(entries, distance, next);
        },
    }
}

proof fn lemma_settle_by_lookups<const N: usize>(
    first: Seq<LinkedExperience<N>>,
    second: Seq<LinkedExperience<N>>,
    added: Seq<TextId>,
    pending: Seq<TextId>,
)
    requires
        same_lookups(first, second),
    ensures
        settle(first, added, pending) == settle(second, added, pending),
    decreases pending.len(),
{
    if pending.len() > 0 {
        assert(lookup(first, pending[0]) == lookup(second, pending[0]));
        if !needs_score(first, added, pending[0]) {
            lemma_settle_by_lookups(first, second, added, pending.drop_first());
        }
    }
}

proof fn lemma_advance_by_lookups<const N: usize>(
    first: Seq<LinkedExperience<N>>,
    second: Seq<LinkedExperience<N>>,
    walk: Walk,
)
    requires
        same_lookups(first, second),
    ensures
        advance(first, walk) == advance(second, walk),
    decreases walk.queue.len(),
{
    lemma_settle_by_lookups(first, second, walk.added, walk.pending);
    let pending = settle(first, walk.added, walk.pending);
    if pending.len() == 0 && walk.related.len() < walk.num && walk.queue.len() > 0 {
        let next = walk.queue[0];
        let queue = walk.queue.drop_first();
        assert(lookup(first, next.id) == lookup(second, next.id));
        match lookup(first, next.id) {
            None => {
                lemma_advance_by_lookups(first, second, Walk { pending, queue, ..walk });
            },
            Some(entry) => {
                lemma_advance_by_lookups(
                    first,
                    second,
                    Walk {
                        related: inserted(walk.related, next),
                        queue,
                        pending: entry.links@,
                        ..walk
                    },
                );
            },
        }
    }
}

/// A walk depends on the entries only through what the lookups find: over
/// lists that answer every lookup alike it takes the same course and
/// returns the same addresses.
pub proof fn lemma_walk_by_lookups<const N: usize>(
    first: Seq<LinkedExperience<N>>,
    second: Seq<LinkedExperience<N>>,
    distance: spec_fn(TextId) -> i64,
    walk: Walk,
    fuel: nat,
)
    requires
        same_lookups(first, second),
    ensures
        advance(first, walk) == advance(second, walk),
        walked(first, distance, walk, fuel) == walked(second, distance, walk, fuel),
    decreases fuel,
{
    lemma_advance_by_lookups(first, second, walk);
    match advance(first, walk) {
        (_, Outcome::Done(_)) => {},
        (after, Outcome::Score(id)) => {
            if fuel > 0 {
                lemma_walk_by_lookups(
                    first,
                    second,
                    distance,
                    supplied(after, distance(id)),
                    (fuel - 1) as nat,
                );
            }
        },
    }
}

/// A walk that begins at no address, or at one that names nothing in the
/// store, is done at once and finds nothing. So it is on every empty store.
pub proof fn lemma_nothing_related_without_start<const N: usize>(
    entries: Seq<LinkedExperience<N>>,
    last_id: Option<TextId>,
    num: nat,
)
    requires
        entries.len() == 0 || last_id is None || lookup(entries, last_id.unwrap()) is None,
    ensures
        advance(entries, begun(last_id, num)).1 == Outcome::Done(Seq::empty()),
{
    let walk = begun(last_id, num);
    let pending = settle(entries, walk.added, walk.pending);
    if walk.pending.len() > 0 {
        assert(walk.pending.drop_first().len() == 0);
        assert(settle(entries, walk.added, walk.pending.drop_first()).len() == 0);
    }
    assert(pending.len() == 0);
    assert(ids_of(walk.related) =~= Seq::empty());
}

/// Puts `item` in its place in a list that is kept in ascending order of
/// distance: behind every entry that is not farther.
pub fn insert_sorted(list: &mut Vec<Scored>, item: Scored)
    ensures
        final(list)@ == inserted(old(list)@, item),
{
    let mut i: usize = 0;
    proof {
        assert(list@.skip(0) =~= list@);
    }
    while i < list.len() && list[i].distance <= item.distance
        invariant
            i <= list.len(),
            list@ == old(list)@,
            place_of(list@, item.distance) == i + place_of(list@.skip(i as int), item.distance),
        decreases list.len() - i,
    {
        proof {
            assert(list@.skip(i as int).drop_first() =~= list@.skip(i + 1));
        }
        i += 1;
    }
    list.insert(i, item);
}

/// Tells whether `id` is in `list`.
fn contains_id(list: &Vec<TextId>, id: &TextId) -> (found: bool)
    ensures
        found == list@.contains(*id),
{
    let mut i: usize = 0;
    while i < list.len()
        invariant
            i <= list.len(),
            forall|j: int| 0 <= j < i ==> list@[j] != *id,
        decreases list.len() - i,
    {
        if same_id(&list[i], id) {
            return true;
        }
        i += 1;
    }
    false
}

/// A copy of a list of addresses.
fn copy_ids(list: &Vec<TextId>) -> (copy: Vec<TextId>)
    ensures
        copy@ == list@,
{
    let mut copy: Vec<TextId> = Vec::new();
    let mut i: usize = 0;
    while i < list.len()
        invariant
            i <= list.len(),
            copy@ == list@.take(i as int),
        decreases list.len() - i,
    {
        copy.push(list[i]);
        proof {
            assert(list@.take(i as int).push(list@[i as int]) =~= list@.take(i + 1));
        }
        i += 1;
    }
    proof {
        assert(list@.take(list.len() as int) =~= list@);
    }
    copy
}

/// The addresses of a list, in its order.
fn collect_ids(list: &Vec<Scored>) -> (ids: Vec<TextId>)
    ensures
        ids@ == ids_of(list@),
{
    let mut ids: Vec<TextId> = Vec::new();
    let mut i: usize = 0;
    while i < list.len()
        invariant
            i <= list.len(),
            ids@ == ids_of(list@.take(i as int)),
        decreases list.len() - i,
    {
        ids.push(list[i].id);
        proof {
            assert(ids_of(list@.take(i as int)).push(list@[i as int].id) =~= ids_of(
                list@.take(i + 1),
            ));
        }
        i += 1;
    }
    proof {
        assert(list@.take(list.len() as int) =~= list@);
    }
    ids
}

impl View for Search {
    type V = Walk;

    closed spec fn view(&self) -> Walk {
        Walk {
            num: self.num as nat,
            related: self.related@,
            queue: self.queue@,
            added: self.added@,
            pending: self.pending@.skip(self.cursor as int),
        }
    }
}

impl Search {
    /// The cursor stands inside the links under examination.
    pub closed spec fn inv(&self) -> bool {
        self.cursor <= self.pending.len()
    }

    /// The state is one of a walk over `store`.
    pub open spec fn wf<const N: usize>(&self, store: &History<N>) -> bool {
        self.inv() && walk_wf(store.entries(), self@)
    }

    /// The walk waits for the distance of its first pending link.
    pub open spec fn awaits<const N: usize>(&self, store: &History<N>) -> bool {
        self@.pending.len() > 0 && needs_score(store.entries(), self@.added, self@.pending[0])
    }

    /// Begins a walk for `num` addresses from the address `last_id`.
    pub(crate) fn begin<const N: usize>(
        store: &History<N>,
        last_id: Option<TextId>,
        num: usize,
    ) -> (search: Search)
        ensures
            search.wf(store),
            search@ == begun(last_id, num as nat),
    {
        let mut pending: Vec<TextId> = Vec::new();
        if let Some(id) = last_id {
            pending.push(id);
        }
        let search = Search {
            num,
            related: Vec::new(),
            queue: Vec::new(),
            added: Vec::new(),
            pending,
            cursor: 0,
        };
        proof {
            assert(search@.pending =~= begun(last_id, num as nat).pending);
        }
        search
    }

    /// Takes the walk's decisions up to its next request, and returns the
    /// request.
    pub fn next<const N: usize>(&mut self, store: &History<N>) -> (action: Action)
        requires
            old(self).wf(store),
        ensures
            final(self).wf(store),
            final(self)@ == advance(store.entries(), old(self)@).0,
            action.outcome() == advance(store.entries(), old(self)@).1,
            action is Score ==> final(self).awaits(store) && final(self)@.pending[0]
                == action->Score_0,
    {
        loop
            invariant
                self.inv(),
                old(self).wf(store),
                advance(store.entries(), self@) == advance(store.entries(), old(self)@),
            decreases self.queue.len(), self.pending.len() - self.cursor,
        {
            let ghost before = self@;
            if self.cursor < self.pending.len() {
                let link = self.pending[self.cursor];
                if !contains_id(&self.added, &link) && store.find(&link).is_some() {
                    proof {
                        assert(Walk { pending: before.pending, ..before } == before);
                        lemma_advance(store.entries(), old(self)@);
                    }
                    return Action::Score(link);
                }
                self.cursor += 1;
                proof {
                    assert(self@.pending =~= before.pending.drop_first());
                }
            } else if self.related.len() >= self.num || self.queue.len() == 0 {
                proof {
                    assert(Walk { pending: before.pending, ..before } == before);
                    lemma_advance(store.entries(), old(self)@);
                }
                return Action::Done(collect_ids(&self.related));
            } else {
                let next = self.queue.remove(0);
                proof {
                    assert(self.queue@ =~= before.queue.drop_first());
                }
                match store.find(&next.id) {
                    None => {
                        proof {
                            assert(self@ == Walk {
                                pending: before.pending,
                                queue: before.queue.drop_first(),
                                ..before
                            });
                        }
                    },
                    Some(i) => {
                        insert_sorted(&mut self.related, next);
                        self.pending = copy_ids(store.links_at(i));
                        self.cursor = 0;
                        proof {
                            let entry = lookup(store.entries(), next.id).unwrap();
                            assert(self@.pending =~= entry.links@);
                            assert(self@ == Walk {
                                related: inserted(before.related, next),
                                queue: before.queue.drop_first(),
                                pending: entry.links@,
                                ..before
                            });
                        }
                    },
                }
            }
        }
    }

    /// Hands the walk the distance it asked for, as the bit pattern of a
    /// 32-bit binary number of IEEE 754. The link it asked about is
    /// discovered and joins the queue at the place of its distance.
    pub fn supply<const N: usize>(&mut self, store: &History<N>, distance: u32)
        requires
            old(self).wf(store),
            old(self).awaits(store),
        ensures
            final(self).wf(store),
            final(self)@ == supplied(old(self)@, total_order_key(distance) as i64),
    {
        let ghost before = self@;
        let link = self.pending[self.cursor];
        let item = Scored { distance: distance_key(distance), id: link };
        self.added.push(link);
        insert_sorted(&mut self.queue, item);
        self.cursor += 1;
        proof {
            lemma_supplied(store.entries(), before, item.distance);
            assert(self@.pending =~= before.pending.drop_first());
            assert(self@ == supplied(before, item.distance));
        }
    }
}

} // verus!
