use crate::document::{decimal, push_decimal};
use vstd::prelude::*;
use vstd::string::StringExecFns;

verus! {

/// The credentials sent with each request.
pub struct MistralAuth {
    api_key: String,
}

impl View for MistralAuth {
    type V = Seq<char>;

    closed spec fn view(&self) -> Seq<char> {
        self.api_key@
    }
}

impl MistralAuth {
    pub fn new(api_key: String) -> (r: Self)
        ensures
            r@ == api_key@,
    {
        Self { api_key }
    }

    /// The key given to `new`.
    pub fn api_key(&self) -> (r: &str)
        ensures
            r@ == self@,
    {
        self.api_key.as_str()
    }
}

/// Why a chat exchange did not produce a reply.
#[derive(Clone, Copy, Debug, PartialEq, Eq, Structural)]
pub enum SdkError {
    /// `chat` was called on a client that has no default agent.
    NoDefaultAgent,
    /// The service answered with a status code outside 200..=299.
    Status(u16),
    /// The service's answer held no choice.
    NoChoices,
}

/// Message of `SdkError::NoDefaultAgent`.
pub open spec fn no_agent_text() -> Seq<char> {
    "no default agent configured. please specify one when constructing the SKD"@
}

/// Message of `SdkError::NoChoices`.
pub open spec fn no_choices_text() -> Seq<char> {
    "the response holds no choice"@
}

/// Message of `SdkError::Status`.
pub open spec fn status_text(code: u16) -> Seq<char> {
    "received status code "@ + decimal(code as nat)
}

impl SdkError {
    /// A sentence that describes the error.
    pub fn message(&self) -> (r: String)
        ensures
            r@ == match *self {
                SdkError::NoDefaultAgent => no_agent_text(),
                SdkError::Status(code) => status_text(code),
                SdkError::NoChoices => no_choices_text(),
            },
    {
        match self {
            SdkError::NoDefaultAgent => String::from_str(
                "no default agent configured. please specify one when constructing the SKD",
            ),
            SdkError::Status(code) => {
                let mut r = String::from_str("received status code ");
                push_decimal(&mut r, *code as usize);
                r
            },
            SdkError::NoChoices => String::from_str("the response holds no choice"),
        }
    }
}

/// One message of a conversation.
#[derive(Debug, PartialEq, Eq)]
pub struct MistralAgentMessage {
    pub content: String,
    pub role: String,
}

/// The body of a request to an agent.
#[derive(Debug, PartialEq, Eq)]
pub struct MistralAgentCompletionRequest {
    pub agent_id: String,
    pub messages: Vec<MistralAgentMessage>,
}

/// One answer that the agent proposes.
#[derive(Debug, PartialEq, Eq)]
pub struct MistralChatCompletionChoice {
    pub message: MistralAgentMessage,
}

/// The body of the service's answer.
#[derive(Debug, PartialEq, Eq)]
pub struct MistralAgentCompletionResponse {
    pub choices: Vec<MistralChatCompletionChoice>,
}

/// A client's settings: its credentials and the agent that `chat` talks to.
pub struct MistralSDK {
    auth: MistralAuth,
    agent: Option<String>,
}

impl View for MistralSDK {
    type V = (Seq<char>, Option<Seq<char>>);

    closed spec fn view(&self) -> (Seq<char>, Option<Seq<char>>) {
        (
            self.auth@,
            match self.agent {
                Some(a) => Some(a@),
                None => None,
            },
        )
    }
}

impl MistralSDK {
    /// A client with no default agent.
    pub fn new(auth: MistralAuth) -> (r: Self)
        ensures
            r@ == (auth@, None::<Seq<char>>),
    {
        Self { auth, agent: None }
    }

    /// The same client, talking to `agent_id` by default.
    pub fn with_default_agent(self, agent_id: String) -> (r: Self)
        ensures
            r@ == (self@.0, Some(agent_id@)),
    {
        let mut s = self;
        s.agent = Some(agent_id);
        s
    }

    /// The client's credentials.
    pub fn auth(&self) -> (r: &MistralAuth)
        ensures
            r@ == self@.0,
    {
        &self.auth
    }

    /// The agent that `chat` talks to, or `NoDefaultAgent` where none was set.
    pub fn default_agent(&self) -> (r: Result<String, SdkError>)
        ensures
            match self@.1 {
                Some(a) => r is Ok && r->Ok_0@ == a,
                None => r == Err::<String, SdkError>(SdkError::NoDefaultAgent),
            },
    {
        match &self.agent {
            Some(a) => Ok(a.clone()),
            None => Err(SdkError::NoDefaultAgent),
        }
    }
}

/// The request that sends `message` as the user to the agent `agent_id`.
pub fn completion_request(message: &str, agent_id: &str) -> (r: MistralAgentCompletionRequest)
    ensures
        r.agent_id@ == agent_id@,
        r.messages@.len() == 1,
        r.messages@[0].content@ == message@,
        r.messages@[0].role@ == "user"@,
{
    let m = MistralAgentMessage {
        content: String::from_str(message),
        role: String::from_str("user"),
    };
    let mut messages: Vec<MistralAgentMessage> = Vec::new();
    messages.push(m);
    MistralAgentCompletionRequest { agent_id: String::from_str(agent_id), messages }
}

/// Accepts a status code in 200..=299; any other is `SdkError::Status`.
pub fn check_status(code: u16) -> (r: Result<(), SdkError>)
    ensures
        200 <= code <= 299 ==> r == Ok::<(), SdkError>(()),
        !(200 <= code <= 299) ==> r == Err::<(), SdkError>(SdkError::Status(code)),
{
    if 200 <= code && code <= 299 {
        Ok(())
    } else {
        Err(SdkError::Status(code))
    }
}

/// The content of the first choice of the answer, or `NoChoices` where it has
/// none.
pub fn reply_content(response: &MistralAgentCompletionResponse) -> (r: Result<String, SdkError>)
    ensures
        response.choices@.len() > 0 ==> r is Ok && r->Ok_0@
            == response.choices@[0].message.content@,
        response.choices@.len() == 0 ==> r == Err::<String, SdkError>(SdkError::NoChoices),
{
    if response.choices.len() == 0 {
        Err(SdkError::NoChoices)
    } else {
        Ok(response.choices[0].message.content.clone())
    }
}

} // verus!
