//! Language-model providers used to synthesize workflows.

use vstd::prelude::*;

verus! {

/// An OpenAI-compatible chat endpoint.
pub struct OpenAiCompat {
    pub base_url: String,
    pub api_key: String,
    pub model: String,
}

impl OpenAiCompat {
    /// The chat-completions URL: the base URL followed by `/chat/completions`.
    pub fn chat_url(&self) -> (r: String)
        ensures
            r@ == self.base_url@ + "/chat/completions"@,
    {
        let mut u = self.base_url.clone();
        u.append("/chat/completions");
        u
    }
}

/// A provider that always answers with the same text.
pub struct MockLlm(pub String);

impl MockLlm {
    /// The fixed answer, whatever the prompts.
    pub fn complete(&self, system: &str, user: &str) -> (r: String)
        ensures
            r@ == self.0@,
    {
        self.0.clone()
    }
}

/// One workflow node proposed by a model: id, kind and arguments (JSON text).
pub struct NodeSpec {
    pub id: String,
    pub kind: String,
    pub args: String,
}

} // verus!
