use ait_lib::embedding::Embedding;
use ait_lib::history::{History, LinkedExperience, Experience};
use ait_lib::related::{Action, Search};
use ait_lib::utils::{new_text_id, TextId};

fn embedding(vector: [f32; 2]) -> Embedding<2> {
    Embedding::new("", [vector[0].to_bits(), vector[1].to_bits()])
}

fn coordinates(embedding: &Embedding<2>) -> [f32; 2] {
    let bits = embedding.vector();
    [f32::from_bits(bits[0]), f32::from_bits(bits[1])]
}

fn cosine_distance(a: &Embedding<2>, b: &Embedding<2>) -> f32 {
    let (a, b) = (coordinates(a), coordinates(b));
    let dot: f32 = a.iter().zip(b.iter()).map(|(x, y)| x * y).sum();
    let norm_a = a.iter().map(|x| x * x).sum::<f32>().sqrt();
    let norm_b = b.iter().map(|x| x * x).sum::<f32>().sqrt();
    1.0 - dot / (norm_a * norm_b)
}

fn walk(history: &History<2>, mut search: Search, probe: &Embedding<2>) -> (Vec<TextId>, usize) {
    let mut asked = 0;
    loop {
        match search.next(history) {
            Action::Score(id) => {
                asked += 1;
                let experience = history.get(&id).unwrap();
                let distance = cosine_distance(&experience.embedding, probe);
                search.supply(history, distance.to_bits());
            }
            Action::Done(ids) => return (ids, asked),
        }
    }
}

fn related(history: &History<2>, probe: &Embedding<2>, num: usize) -> Vec<TextId> {
    walk(history, history.related(num), probe).0
}

#[test]
fn history_pushes_and_gets() {
    let mut history = History::<2>::new();
    let e1 = embedding([0.0, 1.0]);
    let e2 = embedding([1.0, 0.0]);
    let id1 = history.push("q1", "r1", e1, vec![]).unwrap();
    let id2 = history.push("q2", "r2", e2, vec![]).unwrap();
    assert_eq!(history.get(&id1).unwrap().query, "q1");
    assert_eq!(history.get(&id2).unwrap().query, "q2");
}

#[test]
fn history_pushes_and_gets_related() {
    let mut history = History::<2>::new();
    let e1 = embedding([0.0, 1.0]);
    let e2 = embedding([1.0, 0.0]);
    let e3 = embedding([1.0, 1.0]);
    let e4 = embedding([1.0, 2.0]);
    let id1 = history.push("q1", "r1", e1, vec![]).unwrap();
    let id2 = history.push("q2", "r2", e2, vec![]).unwrap();
    let id3 = history.push("q3", "r3", e3, vec![id2.clone()]).unwrap();
    let id4 = history
        .push("q4", "r4", e4, vec![id3.clone(), id1.clone()])
        .unwrap();
    let ids = related(&history, &embedding([1.0, 0.0]), 2);
    assert_eq!(ids, vec![id3.clone(), id4.clone()]);
    let ids = related(&history, &embedding([0.0, 1.0]), 2);
    assert_eq!(ids, vec![id1.clone(), id4.clone()]);
}

#[test]
fn push_returns_the_address_of_the_exchange() {
    let mut history = History::<2>::new();
    let id = history.push("q1", "r1", embedding([0.0, 1.0]), vec![]).unwrap();
    assert_eq!(id, new_text_id(&["q1", "r1"]));
    let experience = history.get(&id).unwrap();
    assert_eq!(experience.id, id);
    assert_eq!(experience.query, "q1");
    assert_eq!(experience.response, "r1");
    assert_eq!(experience.rank, 0);
    assert_eq!(experience.embedding.vector(), &[0.0f32.to_bits(), 1.0f32.to_bits()]);
    assert_eq!(history.last_pushed(), Some(id));
    assert_eq!(history.pushes(), 1);
    assert_eq!(history.len(), 1);
}

#[test]
fn push_accepts_empty_texts() {
    let mut history = History::<2>::new();
    let id = history.push("", "", embedding([0.0, 0.0]), vec![]).unwrap();
    assert_eq!(id, new_text_id(&["", ""]));
    assert_eq!(history.get(&id).unwrap().query, "");
}

#[test]
fn second_push_of_an_exchange_stores_nothing() {
    let mut history = History::<2>::new();
    let id1 = history.push("q1", "r1", embedding([0.0, 1.0]), vec![]).unwrap();
    let id2 = history.push("q2", "r2", embedding([1.0, 0.0]), vec![]).unwrap();
    assert_eq!(history.len(), 2);
    assert_eq!(history.last_pushed(), Some(id2));
    let again = history.push("q1", "r1", embedding([5.0, 5.0]), vec![id2]).unwrap();
    assert_eq!(again, id1);
    assert_eq!(history.len(), 2);
    assert_eq!(history.last_pushed(), Some(id1));
    assert_eq!(history.pushes(), 3);
    let kept = history.entry_at(0);
    assert_eq!(kept.experience.rank, 0);
    assert_eq!(kept.experience.embedding.vector(), &[0.0f32.to_bits(), 1.0f32.to_bits()]);
    assert!(kept.links.is_empty());
    let id3 = history.push("q3", "r3", embedding([1.0, 1.0]), vec![]).unwrap();
    assert_eq!(history.get(&id3).unwrap().rank, 3);
}

#[test]
fn get_finds_nothing_under_an_unknown_address() {
    let mut history = History::<2>::new();
    history.push("q1", "r1", embedding([0.0, 1.0]), vec![]).unwrap();
    assert!(history.get(&[7u8; 32]).is_none());
    assert!(History::<2>::new().get(&new_text_id(&["q1", "r1"])).is_none());
}

#[test]
fn nothing_is_related_in_an_empty_store() {
    let history = History::<2>::new();
    assert_eq!(history.len(), 0);
    assert_eq!(related(&history, &embedding([1.0, 0.0]), 3), Vec::<TextId>::new());
    assert_eq!(related(&history, &embedding([0.0, 0.0]), 0), Vec::<TextId>::new());
}

#[test]
fn nothing_is_related_when_none_is_wanted() {
    let mut history = History::<2>::new();
    history.push("q1", "r1", embedding([0.0, 1.0]), vec![]).unwrap();
    assert_eq!(related(&history, &embedding([1.0, 0.0]), 0), Vec::<TextId>::new());
}

#[test]
fn walk_stays_on_what_the_links_reach() {
    let mut history = History::<2>::new();
    let id1 = history.push("q1", "r1", embedding([1.0, 0.0]), vec![]).unwrap();
    let id2 = history.push("q2", "r2", embedding([0.0, 1.0]), vec![]).unwrap();
    assert_ne!(id1, id2);
    // the nearest experience is stored but no link leads to it
    assert_eq!(related(&history, &embedding([1.0, 0.0]), 5), vec![id2]);
}

#[test]
fn walk_passes_over_dangling_links() {
    let mut history = History::<2>::new();
    let id1 = history.push("q1", "r1", embedding([1.0, 0.0]), vec![]).unwrap();
    let missing = new_text_id(&["never", "pushed"]);
    let id2 = history
        .push("q2", "r2", embedding([0.0, 1.0]), vec![missing, id1])
        .unwrap();
    let (ids, asked) = walk(&history, history.related(5), &embedding([1.0, 0.0]));
    assert_eq!(ids, vec![id1, id2]);
    assert_eq!(asked, 2);
}

#[test]
fn walk_visits_an_experience_once() {
    let mut history = History::<2>::new();
    let own = new_text_id(&["q2", "r2"]);
    let id1 = history.push("q1", "r1", embedding([1.0, 0.0]), vec![own]).unwrap();
    let id2 = history
        .push("q2", "r2", embedding([0.0, 1.0]), vec![own, id1, id1])
        .unwrap();
    assert_eq!(own, id2);
    let (ids, asked) = walk(&history, history.related(5), &embedding([1.0, 0.0]));
    assert_eq!(ids, vec![id1, id2]);
    assert_eq!(asked, 2);
}

#[test]
fn walk_asks_only_for_the_distances_it_needs() {
    let mut history = History::<2>::new();
    let id1 = history.push("q1", "r1", embedding([0.0, 1.0]), vec![]).unwrap();
    let id2 = history.push("q2", "r2", embedding([1.0, 0.0]), vec![]).unwrap();
    let id3 = history.push("q3", "r3", embedding([1.0, 1.0]), vec![id2]).unwrap();
    let id4 = history.push("q4", "r4", embedding([1.0, 2.0]), vec![id3, id1]).unwrap();
    let (ids, asked) = walk(&history, history.related(1), &embedding([1.0, 0.0]));
    assert_eq!(ids, vec![id4]);
    assert_eq!(asked, 3);
    let (ids, asked) = walk(&history, history.related(4), &embedding([1.0, 0.0]));
    assert_eq!(ids, vec![id2, id3, id4, id1]);
    assert_eq!(asked, 4);
}

#[test]
fn walk_counts_a_point_of_norm_zero_as_farthest() {
    let mut history = History::<2>::new();
    let id1 = history.push("q1", "r1", embedding([0.0, 0.0]), vec![]).unwrap();
    let id2 = history.push("q2", "r2", embedding([-1.0, 0.0]), vec![]).unwrap();
    let id3 = history.push("q3", "r3", embedding([1.0, 0.0]), vec![id1, id2]).unwrap();
    assert_eq!(related(&history, &embedding([1.0, 0.0]), 3), vec![id3, id2, id1]);
}

#[test]
fn walk_visits_equal_distances_in_the_order_of_discovery() {
    let mut history = History::<2>::new();
    let id1 = history.push("q1", "r1", embedding([2.0, 0.0]), vec![]).unwrap();
    let id2 = history.push("q2", "r2", embedding([3.0, 0.0]), vec![]).unwrap();
    let id3 = history.push("q3", "r3", embedding([0.0, 1.0]), vec![id2, id1]).unwrap();
    assert_eq!(related(&history, &embedding([1.0, 0.0]), 3), vec![id2, id1, id3]);
}

#[test]
fn store_is_rebuilt_from_its_parts() {
    let mut history = History::<2>::new();
    let id1 = history.push("q1", "r1", embedding([0.0, 1.0]), vec![]).unwrap();
    let id2 = history.push("q2", "r2", embedding([1.0, 0.0]), vec![id1]).unwrap();
    let mut entries = Vec::new();
    for i in 0..history.len() {
        let entry = history.entry_at(i);
        entries.push(LinkedExperience {
            experience: entry.experience.clone(),
            links: entry.links.clone(),
        });
    }
    let rebuilt = History::from_parts(entries, history.last_pushed(), history.pushes()).unwrap();
    assert_eq!(rebuilt.len(), 2);
    assert_eq!(rebuilt.last_pushed(), Some(id2));
    assert_eq!(rebuilt.pushes(), 2);
    assert_eq!(rebuilt.get(&id1).unwrap().query, "q1");
    assert_eq!(rebuilt.entry_at(1).links, vec![id1]);
    assert_eq!(related(&rebuilt, &embedding([0.0, 1.0]), 2), vec![id1, id2]);
}

#[test]
fn store_refuses_parts_with_a_repeated_address() {
    let id = new_text_id(&["q", "r"]);
    let entry = |rank: u32| LinkedExperience {
        experience: Experience {
            id,
            embedding: embedding([0.0, 1.0]),
            query: "q".to_string(),
            response: "r".to_string(),
            rank,
        },
        links: vec![],
    };
    assert!(History::from_parts(vec![entry(0), entry(1)], None, 2).is_none());
    assert!(History::from_parts(vec![entry(0)], None, 1).is_some());
    assert!(History::<2>::from_parts(vec![], Some(id), 0).is_some());
}

#[test]
fn walk_finds_nothing_from_a_last_address_that_is_not_stored() {
    let id = new_text_id(&["q", "r"]);
    let history = History::<2>::from_parts(vec![], Some(id), 1).unwrap();
    assert_eq!(related(&history, &embedding([0.0, 1.0]), 2), Vec::<TextId>::new());
}

fn distances(history: &History<2>, probe: &Embedding<2>) -> Vec<u32> {
    (0..history.len())
        .map(|i| cosine_distance(&history.entry_at(i).experience.embedding, probe).to_bits())
        .collect()
}

#[test]
fn related_by_distances_takes_the_same_walk() {
    let mut history = History::<2>::new();
    let id1 = history.push("q1", "r1", embedding([0.0, 1.0]), vec![]).unwrap();
    let id2 = history.push("q2", "r2", embedding([1.0, 0.0]), vec![]).unwrap();
    let id3 = history.push("q3", "r3", embedding([1.0, 1.0]), vec![id2]).unwrap();
    let id4 = history.push("q4", "r4", embedding([1.0, 2.0]), vec![id3, id1]).unwrap();
    let probe = embedding([1.0, 0.0]);
    let table = distances(&history, &probe);
    assert_eq!(history.related_by_distances(&table, 2), vec![id3, id4]);
    assert_eq!(history.related_by_distances(&table, 1), vec![id4]);
    assert_eq!(history.related_by_distances(&table, 0), Vec::<TextId>::new());
    assert_eq!(history.related_by_distances(&table, 9), vec![id2, id3, id4, id1]);
    let probe = embedding([0.0, 1.0]);
    let table = distances(&history, &probe);
    assert_eq!(history.related_by_distances(&table, 2), vec![id1, id4]);
    for num in 0..6 {
        assert_eq!(history.related_by_distances(&table, num), related(&history, &probe, num));
    }
}

#[test]
fn related_by_distances_reads_the_distance_of_each_entry() {
    let mut history = History::<2>::new();
    let id1 = history.push("q1", "r1", embedding([0.0, 1.0]), vec![]).unwrap();
    let id2 = history.push("q2", "r2", embedding([1.0, 0.0]), vec![]).unwrap();
    let id3 = history.push("q3", "r3", embedding([1.0, 1.0]), vec![id1, id2]).unwrap();
    let table = vec![3.0f32.to_bits(), 2.0f32.to_bits(), 1.0f32.to_bits()];
    assert_eq!(history.related_by_distances(&table, 3), vec![id3, id2, id1]);
    let table = vec![(-3.0f32).to_bits(), 2.0f32.to_bits(), 1.0f32.to_bits()];
    assert_eq!(history.related_by_distances(&table, 3), vec![id1, id3, id2]);
    let table = vec![1.0f32.to_bits(), f32::NAN.to_bits(), f32::INFINITY.to_bits()];
    assert_eq!(history.related_by_distances(&table, 3), vec![id1, id3, id2]);
}

#[test]
fn related_by_distances_finds_nothing_in_an_empty_store() {
    let history = History::<2>::new();
    assert_eq!(history.related_by_distances(&vec![], 4), Vec::<TextId>::new());
}

#[test]
fn second_push_stores_nothing_even_when_the_count_is_full() {
    let mut history = History::<2>::from_parts(vec![], None, u32::MAX - 1).unwrap();
    let id1 = history.push("q1", "r1", embedding([0.0, 1.0]), vec![]).unwrap();
    assert_eq!(history.get(&id1).unwrap().rank, u32::MAX - 1);
    assert_eq!(history.pushes(), u32::MAX);
    let id2 = history.push("q2", "r2", embedding([1.0, 0.0]), vec![id1]).unwrap();
    assert_eq!(history.get(&id2).unwrap().rank, u32::MAX);
    assert_eq!(history.pushes(), u32::MAX);
    assert_eq!(history.len(), 2);
    let again = history.push("q1", "r1", embedding([3.0, 3.0]), vec![id2]).unwrap();
    assert_eq!(again, id1);
    assert_eq!(history.len(), 2);
    assert_eq!(history.last_pushed(), Some(id1));
    assert_eq!(history.pushes(), u32::MAX);
    assert!(history.entry_at(0).links.is_empty());
}

fn copy_of(entry: &LinkedExperience<2>) -> LinkedExperience<2> {
    LinkedExperience { experience: entry.experience.clone(), links: entry.links.clone() }
}

#[test]
fn store_rebuilt_in_another_order_answers_alike() {
    let mut history = History::<2>::new();
    let id1 = history.push("q1", "r1", embedding([0.0, 1.0]), vec![]).unwrap();
    let id2 = history.push("q2", "r2", embedding([1.0, 0.0]), vec![]).unwrap();
    let id3 = history.push("q3", "r3", embedding([1.0, 1.0]), vec![id2]).unwrap();
    let id4 = history.push("q4", "r4", embedding([1.0, 2.0]), vec![id3, id1]).unwrap();
    let entries: Vec<LinkedExperience<2>> =
        [2, 0, 3, 1].iter().map(|&i| copy_of(history.entry_at(i))).collect();
    let mut rebuilt =
        History::from_parts(entries, history.last_pushed(), history.pushes()).unwrap();
    assert_eq!(rebuilt.len(), history.len());
    for id in [id1, id2, id3, id4] {
        let (kept, found) = (history.get(&id).unwrap(), rebuilt.get(&id).unwrap());
        assert_eq!(found.id, kept.id);
        assert_eq!(found.query, kept.query);
        assert_eq!(found.response, kept.response);
        assert_eq!(found.rank, kept.rank);
        assert_eq!(found.embedding.vector(), kept.embedding.vector());
    }
    assert_eq!(rebuilt.entry_at(2).links, vec![id3, id1]);
    for probe in [[1.0, 0.0], [0.0, 1.0], [1.0, 1.0], [-1.0, 2.0]] {
        for num in 0..6 {
            let probe = embedding(probe);
            assert_eq!(related(&rebuilt, &probe, num), related(&history, &probe, num));
        }
    }
    assert_eq!(related(&rebuilt, &embedding([1.0, 0.0]), 2), vec![id3, id4]);
    let id5 = history.push("q5", "r5", embedding([2.0, 1.0]), vec![id4]).unwrap();
    let other = rebuilt.push("q5", "r5", embedding([2.0, 1.0]), vec![id4]).unwrap();
    assert_eq!(other, id5);
    assert_eq!(rebuilt.get(&other).unwrap().rank, 4);
    assert_eq!(rebuilt.get(&other).unwrap().rank, history.get(&id5).unwrap().rank);
    assert_eq!(rebuilt.pushes(), history.pushes());
    assert_eq!(rebuilt.last_pushed(), history.last_pushed());
}
