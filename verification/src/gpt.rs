//! What the exchange with a remote language model needs besides transport:
//! the models' names, the messages of a chat, and the errors.

use crate::embedding::Embedding;
use vstd::prelude::*;

verus! {

/// What can go wrong in an exchange with the remote model.
#[derive(Debug, Clone, Copy, PartialEq, Eq, Structural)]
pub enum Error {
    InvalidTextCompletion,
    InvalidChatCompletion,
    InvalidEmbedding,
    CantSerialize,
    CantDeserialize,
}

impl Error {
    /// The text that describes the error.
    pub open spec fn spec_message(&self) -> Seq<char> {
        match self {
            Error::InvalidTextCompletion => "failed to request text completion"@,
            Error::InvalidChatCompletion => "failed to request chat completion"@,
            Error::InvalidEmbedding => "failed to request embedding"@,
            Error::CantSerialize => "failed to serailize embedding"@,
            Error::CantDeserialize => "failed to de-serailize embedding"@,
        }
    }

    /// The text that describes the error.
    pub fn message(&self) -> (text: String)
        ensures
            text@ == self.spec_message(),
    {
        match self {
            Error::InvalidTextCompletion => "failed to request text completion".to_owned(),
            Error::InvalidChatCompletion => "failed to request chat completion".to_owned(),
            Error::InvalidEmbedding => "failed to request embedding".to_owned(),
            Error::CantSerialize => "failed to serailize embedding".to_owned(),
            Error::CantDeserialize => "failed to de-serailize embedding".to_owned(),
        }
    }
}

/// Who speaks in a message of a chat.
#[derive(Debug, Clone, Copy, PartialEq, Eq, Structural)]
pub enum ChatCompletionMessageRole {
    System,
    Assistant,
    User,
}

/// One message of a chat.
#[derive(Debug)]
pub struct ChatCompletionMessage {
    pub role: ChatCompletionMessageRole,
    pub content: String,
}

/// The models that compute embeddings.
#[derive(Debug, Clone, Copy, PartialEq, Eq, Structural)]
pub enum EmbeddingModel {
    TextEmbeddingAda002,
}

/// The number of dimensions of the embeddings that `model` computes.
pub open spec fn spec_embedding_model_size(model: EmbeddingModel) -> usize {
    match model {
        EmbeddingModel::TextEmbeddingAda002 => 1536,
    }
}

/// The number of dimensions of the embeddings that `model` computes.
pub fn embedding_model_size(model: EmbeddingModel) -> (size: usize)
    ensures
        size == spec_embedding_model_size(model),
{
    match model {
        EmbeddingModel::TextEmbeddingAda002 => 1536,
    }
}

/// The number of dimensions of the embeddings in use.
pub const EMBED_DIMS: usize = 1536;

/// An embedding of the model in use.
pub type GptEmbedding = Embedding<EMBED_DIMS>;

/// The message that opens every chat.
pub const SYSTEM_MESSAGE: &'static str = "\
You are Ait, a helpful AI assistant. \
You have extensive knowledge of many facts documented on the world wide web. \
However, you are not able to perfectly recall those facts. \
When you are unsure about a detail, do not attempt to provide an answer. \
You instead state that you do not know the answer.\
";

/// The messages of a chat as they are sent: the system's message first, then
/// the given messages in their order.
pub fn with_system_message(messages: Vec<ChatCompletionMessage>) -> (all: Vec<
    ChatCompletionMessage,
>)
    ensures
        all@.len() == messages@.len() + 1,
        all@[0].role == ChatCompletionMessageRole::System,
        all@[0].content@ == SYSTEM_MESSAGE@,
        all@.skip(1) == messages@,
{
    let mut all = messages;
    all.insert(
        0,
        ChatCompletionMessage {
            role: ChatCompletionMessageRole::System,
            content: SYSTEM_MESSAGE.to_owned(),
        },
    );
    proof {
        assert(all@.skip(1) =~= messages@);
    }
    all
}

} // verus!
