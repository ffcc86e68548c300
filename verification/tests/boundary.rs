use ait_lib::embedding::Embedding;
use ait_lib::experience::Experience;
use ait_lib::gpt::{
    embedding_model_size, with_system_message, ChatCompletionMessage, ChatCompletionMessageRole,
    EmbeddingModel, GptEmbedding, EMBED_DIMS, SYSTEM_MESSAGE,
};
use ait_lib::history::Error;
use ait_lib::history_wasm::{blob_bytes, blob_text, text_id_from_bytes, text_ids_from_bytes};
use ait_lib::related::Action;
use ait_lib::utils::new_text_id;
use ait_lib::{chat_messages, History, Message};

fn point(first: f32) -> GptEmbedding {
    let mut vector = [0u32; EMBED_DIMS];
    vector[0] = first.to_bits();
    Embedding::new("", vector)
}

fn empty() -> History {
    History::new(ait_lib::history::History::new())
}

#[test]
fn blob_text_is_base64_without_padding() {
    assert_eq!(blob_text(b"hello"), "aGVsbG8");
    assert_eq!(blob_text(b""), "");
    assert_eq!(blob_text(&[0xfb, 0xff]), "+/8");
}

#[test]
fn blob_bytes_reads_what_blob_text_wrote() {
    assert_eq!(blob_bytes("aGVsbG8"), Ok(b"hello".to_vec()));
    assert_eq!(blob_bytes(""), Ok(vec![]));
    let data: Vec<u8> = (0..=255).collect();
    assert_eq!(blob_bytes(&blob_text(&data)), Ok(data));
}

#[test]
fn blob_bytes_refuses_what_is_no_base64() {
    assert_eq!(blob_bytes("aGVsbG8="), Err(Error::CantAccessHistory));
    assert_eq!(blob_bytes("!!!!"), Err(Error::CantAccessHistory));
    assert_eq!(blob_bytes("a"), Err(Error::CantAccessHistory));
}

#[test]
fn address_has_exactly_32_bytes() {
    let id = new_text_id(&["q", "r"]);
    assert_eq!(text_id_from_bytes(&id), Ok(id));
    assert_eq!(text_id_from_bytes(&id[..31]), Err(Error::InvalidTextId));
    assert_eq!(text_id_from_bytes(&[0u8; 33]), Err(Error::InvalidTextId));
    assert_eq!(text_id_from_bytes(&[]), Err(Error::InvalidTextId));
}

#[test]
fn every_link_has_exactly_32_bytes() {
    let a = new_text_id(&["a"]);
    let b = new_text_id(&["b"]);
    assert_eq!(text_ids_from_bytes(&vec![a.to_vec(), b.to_vec()]), Ok(vec![a, b]));
    assert_eq!(text_ids_from_bytes(&vec![]), Ok(vec![]));
    assert_eq!(
        text_ids_from_bytes(&vec![a.to_vec(), vec![1, 2, 3]]),
        Err(Error::InvalidTextId)
    );
}

#[test]
fn boundary_pushes_and_reads_back() {
    let mut history = empty();
    let id1 = history.push("q1", "r1", point(1.0), &vec![]).unwrap();
    let id2 = history.push("q2", "r2", point(2.0), &vec![id1.to_vec()]).unwrap();
    assert_eq!(id1, new_text_id(&["q1", "r1"]));
    assert_eq!(history.len(), 2);
    assert_eq!(history.get_query(&id1), Ok("q1".to_string()));
    assert_eq!(history.get_response(&id1), Ok("r1".to_string()));
    assert_eq!(history.get_rank(&id1), Ok(0));
    assert_eq!(history.get_query(&id2), Ok("q2".to_string()));
    assert_eq!(history.get_response(&id2), Ok("r2".to_string()));
    assert_eq!(history.get_rank(&id2), Ok(1));
    assert_eq!(history.history().entry_at(1).links, vec![id1]);
}

#[test]
fn boundary_refuses_links_that_are_no_addresses() {
    let mut history = empty();
    let result = history.push("q1", "r1", point(1.0), &vec![vec![0u8; 31]]);
    assert_eq!(result, Err(Error::InvalidTextId));
    assert_eq!(history.len(), 0);
    assert_eq!(history.history().last_pushed(), None);
    assert_eq!(history.history().pushes(), 0);
}

#[test]
fn boundary_pushes_when_the_count_is_full() {
    let full = ait_lib::history::History::from_parts(vec![], None, u32::MAX).unwrap();
    let mut history = History::new(full);
    let id = history.push("q1", "r1", point(1.0), &vec![]).unwrap();
    assert_eq!(id, new_text_id(&["q1", "r1"]));
    assert_eq!(history.len(), 1);
    assert_eq!(history.get_rank(&id), Ok(u32::MAX));
    assert_eq!(history.history().last_pushed(), Some(id));
    assert_eq!(history.history().pushes(), u32::MAX);
}

#[test]
fn boundary_tells_a_malformed_address_from_an_unknown_one() {
    let mut history = empty();
    let id1 = history.push("q1", "r1", point(1.0), &vec![]).unwrap();
    let unknown = new_text_id(&["q2", "r2"]);
    assert_eq!(history.get_query(&unknown), Err(Error::CantAccessExperience));
    assert_eq!(history.get_response(&unknown), Err(Error::CantAccessExperience));
    assert_eq!(history.get_rank(&unknown), Err(Error::CantAccessExperience));
    assert_eq!(history.get_query(&[1, 2]), Err(Error::InvalidTextId));
    assert_eq!(history.get_response(&[]), Err(Error::InvalidTextId));
    assert_eq!(history.get_rank(&[0u8; 64]), Err(Error::InvalidTextId));
    assert_eq!(history.get_query(&id1[..31]), Err(Error::InvalidTextId));
    let mut longer = id1.to_vec();
    longer.push(0);
    assert_eq!(history.get_query(&longer), Err(Error::InvalidTextId));
    assert_eq!(history.get_query(&id1), Ok("q1".to_string()));
    assert_eq!(history.len(), 1);
    assert_eq!(history.history().last_pushed(), Some(id1));
    assert_eq!(history.history().pushes(), 1);
}

#[test]
fn boundary_walks_from_the_last_push() {
    let mut history = empty();
    let id1 = history.push("q1", "r1", point(1.0), &vec![]).unwrap();
    let id2 = history.push("q2", "r2", point(2.0), &vec![id1.to_vec()]).unwrap();
    let mut search = history.related_ids(2);
    let mut asked = Vec::new();
    let ids = loop {
        match search.next(history.history()) {
            Action::Score(id) => {
                asked.push(id);
                let distance = if id == id1 { 0.25f32 } else { 0.5f32 };
                search.supply(history.history(), distance.to_bits());
            }
            Action::Done(ids) => break ids,
        }
    };
    assert_eq!(asked, vec![id2, id1]);
    assert_eq!(ids, vec![id1, id2]);
    match empty().related_ids(2).next(empty().history()) {
        Action::Done(ids) => assert!(ids.is_empty()),
        Action::Score(_) => panic!("an empty store has nothing to score"),
    }
}

#[test]
fn errors_describe_themselves() {
    assert_eq!(Error::CantStoreHistory.message(), "failed to store the history");
    assert_eq!(Error::CantAccessHistory.message(), "failed to access the history");
    assert_eq!(Error::CantBuildExperience.message(), "failed to build the experience");
    assert_eq!(Error::CantAccessExperience.message(), "failed to access the experience");
    assert_eq!(Error::InvalidEmbedding.message(), "failed to parse the embedding");
    assert_eq!(Error::InvalidTextId.message(), "failed to parse the text ID");
    assert_eq!(Error::CantBuildMessages.message(), "failed to build messages");
    assert_eq!(
        ait_lib::gpt::Error::InvalidTextCompletion.message(),
        "failed to request text completion"
    );
    assert_eq!(
        ait_lib::gpt::Error::InvalidChatCompletion.message(),
        "failed to request chat completion"
    );
    assert_eq!(ait_lib::gpt::Error::InvalidEmbedding.message(), "failed to request embedding");
    assert_eq!(ait_lib::gpt::Error::CantSerialize.message(), "failed to serailize embedding");
    assert_eq!(ait_lib::gpt::Error::CantDeserialize.message(), "failed to de-serailize embedding");
    assert_eq!(
        ait_lib::embedding::Error::CantSerialize.message(),
        "failed to serailize embedding"
    );
    assert_eq!(
        ait_lib::embedding::Error::CantDeserialize.message(),
        "failed to de-serailize embedding"
    );
    assert_eq!(ait_lib::Error::ArrayError.message(), "Array contains incorrect values.");
    assert_eq!(
        ait_lib::Error::GptError(ait_lib::gpt::Error::InvalidEmbedding).message(),
        "failed to request embedding"
    );
    assert_eq!(
        ait_lib::Error::EmbeddingError(ait_lib::embedding::Error::CantDeserialize).message(),
        "failed to de-serailize embedding"
    );
}

#[test]
fn embedding_model_has_1536_dimensions() {
    assert_eq!(embedding_model_size(EmbeddingModel::TextEmbeddingAda002), 1536);
    assert_eq!(EMBED_DIMS, 1536);
}

#[test]
fn chat_alternates_user_and_assistant() {
    let messages = vec![
        Message { query: "q1".to_string(), response: "r1".to_string() },
        Message { query: "q2".to_string(), response: "r2".to_string() },
    ];
    let chat = chat_messages(&messages);
    let seen: Vec<(ChatCompletionMessageRole, &str)> =
        chat.iter().map(|message| (message.role, message.content.as_str())).collect();
    assert_eq!(
        seen,
        vec![
            (ChatCompletionMessageRole::User, "q1"),
            (ChatCompletionMessageRole::Assistant, "r1"),
            (ChatCompletionMessageRole::User, "q2"),
            (ChatCompletionMessageRole::Assistant, "r2"),
        ]
    );
    assert!(chat_messages(&vec![]).is_empty());
}

#[test]
fn chat_opens_with_the_system_message() {
    let messages = vec![ChatCompletionMessage {
        role: ChatCompletionMessageRole::User,
        content: "hello".to_string(),
    }];
    let all = with_system_message(messages);
    assert_eq!(all.len(), 2);
    assert_eq!(all[0].role, ChatCompletionMessageRole::System);
    assert_eq!(all[0].content, SYSTEM_MESSAGE);
    assert!(all[0].content.starts_with("You are Ait, a helpful AI assistant. You have"));
    assert!(all[0].content.ends_with("You instead state that you do not know the answer."));
    assert_eq!(all[1].role, ChatCompletionMessageRole::User);
    assert_eq!(all[1].content, "hello");
    let alone = with_system_message(vec![]);
    assert_eq!(alone.len(), 1);
    assert_eq!(alone[0].role, ChatCompletionMessageRole::System);
}

#[test]
fn experience_hands_out_its_parts() {
    let experience =
        Experience::<2>::new("q".to_string(), "r".to_string(), Embedding::new("q", [1, 2]), 7);
    assert_eq!(experience.query(), "q");
    assert_eq!(experience.response(), "r");
    assert_eq!(experience.embedding().vector(), &[1, 2]);
    assert_eq!(experience.embedding().id(), new_text_id(&["q"]));
}
