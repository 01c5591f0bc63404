use vstd::prelude::*;

verus! {

/// A request to the chat completion service: the model and the messages.
pub struct ChatRequest<'a> {
    pub model: &'a str,
    pub messages: Vec<Message<'a>>,
}

/// One message of a request: who says it, and what.
pub struct Message<'a> {
    pub role: &'a str,
    pub content: &'a str,
}

/// The service's answer: the choices it made.
pub struct ChatResponse {
    pub choices: Vec<Choice>,
}

pub struct Choice {
    pub message: MessageResponse,
}

pub struct MessageResponse {
    pub content: String,
    pub role: String,
}

/// Access to the chat completion service: a credential and a model name.
pub struct ChatGPT {
    api_key: String,
    model: String,
}

impl ChatGPT {
    pub closed spec fn spec_api_key(&self) -> Seq<char> {
        self.api_key@
    }

    pub closed spec fn spec_model(&self) -> Seq<char> {
        self.model@
    }

    pub fn new(api_key: String, model: String) -> (r: Self)
        ensures
            r.spec_api_key() == api_key@,
            r.spec_model() == model@,
    {
        ChatGPT { api_key, model }
    }

    pub fn api_key(&self) -> (r: &str)
        ensures
            r@ == self.spec_api_key(),
    {
        self.api_key.as_str()
    }

    pub fn model(&self) -> (r: &str)
        ensures
            r@ == self.spec_model(),
    {
        self.model.as_str()
    }

    /// The request that asks for a reply to `content`: this model, and one
    /// message from the user.
    pub fn request<'a>(&'a self, content: &'a str) -> (r: ChatRequest<'a>)
        ensures
            r.model@ == self.spec_model(),
            r.messages@.len() == 1,
            r.messages@[0].role@ == "user"@,
            r.messages@[0].content@ == content@,
    {
        let mut messages: Vec<Message<'a>> = Vec::new();
        messages.push(Message { role: "user", content });
        ChatRequest { model: self.model.as_str(), messages }
    }
}

/// The text of the first choice of a response, if it made any.
pub fn reply_text(res: &ChatResponse) -> (r: Option<String>)
    ensures
        res.choices@.len() == 0 ==> r is None,
        res.choices@.len() > 0 ==> r is Some && r->0@ == res.choices@[0].message.content@,
{
    if res.choices.len() == 0 {
        None
    } else {
        Some(res.choices[0].message.content.clone())
    }
}

} // verus!
