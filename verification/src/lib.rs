//! An associative memory for a conversational agent: past exchanges are kept
//! under a content address, tied to one another by links, and found again by a
//! guided walk over those links.

use crate::gpt::{ChatCompletionMessage, ChatCompletionMessageRole};
use vstd::prelude::*;

pub mod embedding;
pub mod experience;
pub mod gpt;
pub mod history;
pub mod history_wasm;
pub mod related;
pub mod utils;

pub use history_wasm::History;

verus! {

/// What can go wrong in any part of the library.
#[derive(Debug, Clone, Copy, PartialEq, Eq, Structural)]
pub enum Error {
    ArrayError,
    GptError(gpt::Error),
    EmbeddingError(embedding::Error),
}

impl Error {
    /// The text that describes the error: its own, or that of the error it
    /// passes on.
    pub open spec fn spec_message(&self) -> Seq<char> {
        match self {
            Error::ArrayError => "Array contains incorrect values."@,
            Error::GptError(inner) => inner.spec_message(),
            Error::EmbeddingError(inner) => inner.spec_message(),
        }
    }

    /// The text that describes the error.
    pub fn message(&self) -> (text: String)
        ensures
            text@ == self.spec_message(),
    {
        match self {
            Error::ArrayError => "Array contains incorrect values.".to_owned(),
            Error::GptError(inner) => inner.message(),
            Error::EmbeddingError(inner) => inner.message(),
        }
    }
}

/// One past exchange, as a chat takes it up.
#[derive(Debug)]
pub struct Message {
    pub query: String,
    pub response: String,
}

/// The chat that past exchanges stand for: for each exchange, in order, the
/// query as a message of the user and the response as one of the assistant.
pub fn chat_messages(messages: &Vec<Message>) -> (chat: Vec<ChatCompletionMessage>)
    ensures
        chat@.len() == 2 * messages@.len(),
        forall|i: int|
            0 <= i < messages@.len() ==> {
                &&& (#[trigger] chat@[2 * i]).role == ChatCompletionMessageRole::User
                &&& chat@[2 * i].content@ == messages@[i].query@
                &&& chat@[2 * i + 1].role == ChatCompletionMessageRole::Assistant
                &&& chat@[2 * i + 1].content@ == messages@[i].response@
            },
{
    let mut chat: Vec<ChatCompletionMessage> = Vec::new();
    let mut k: usize = 0;
    while k < messages.len()
        invariant
            k <= messages@.len(),
            chat@.len() == 2 * k,
            forall|i: int|
                0 <= i < k ==> {
                    &&& (#[trigger] chat@[2 * i]).role == ChatCompletionMessageRole::User
                    &&& chat@[2 * i].content@ == messages@[i].query@
                    &&& chat@[2 * i + 1].role == ChatCompletionMessageRole::Assistant
                    &&& chat@[2 * i + 1].content@ == messages@[i].response@
                },
        decreases messages@.len() - k,
    {
        chat.push(
            ChatCompletionMessage {
                role: ChatCompletionMessageRole::User,
                content: messages[k].query.clone(),
            },
        );
        chat.push(
            ChatCompletionMessage {
                role: ChatCompletionMessageRole::Assistant,
                content: messages[k].response.clone(),
            },
        );
        k += 1;
    }
    chat
}

} // verus!
