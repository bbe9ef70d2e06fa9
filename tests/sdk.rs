use mistral_sdk::mistral::{
    check_status, completion_request, reply_content, MistralAgentCompletionResponse,
    MistralAgentMessage, MistralAuth, MistralChatCompletionChoice, MistralSDK, SdkError,
};

fn choice(content: &str) -> MistralChatCompletionChoice {
    MistralChatCompletionChoice {
        message: MistralAgentMessage { content: content.to_string(), role: "assistant".to_string() },
    }
}

#[test]
fn auth_keeps_key() {
    let auth = MistralAuth::new("SECRET-REDACTED".to_string());
    assert_eq!(auth.api_key(), "SECRET-REDACTED");
    let sdk = MistralSDK::new(auth);
    assert_eq!(sdk.auth().api_key(), "SECRET-REDACTED");
}

#[test]
fn chat_needs_a_default_agent() {
    let sdk = MistralSDK::new(MistralAuth::new("k".to_string()));
    assert_eq!(sdk.default_agent(), Err(SdkError::NoDefaultAgent));
    let sdk = sdk.with_default_agent("agent-7".to_string());
    assert_eq!(sdk.default_agent(), Ok("agent-7".to_string()));
}

#[test]
fn request_carries_user_message() {
    let r = completion_request("yowza?!", "ag");
    assert_eq!(r.agent_id, "ag");
    assert_eq!(
        r.messages,
        vec![MistralAgentMessage { content: "yowza?!".to_string(), role: "user".to_string() }]
    );
}

#[test]
fn status_codes() {
    assert_eq!(check_status(200), Ok(()));
    assert_eq!(check_status(299), Ok(()));
    assert_eq!(check_status(199), Err(SdkError::Status(199)));
    assert_eq!(check_status(300), Err(SdkError::Status(300)));
    assert_eq!(check_status(404), Err(SdkError::Status(404)));
}

#[test]
fn error_messages() {
    assert_eq!(SdkError::Status(404).message(), "received status code 404");
    assert_eq!(SdkError::Status(0).message(), "received status code 0");
    assert_eq!(
        SdkError::NoDefaultAgent.message(),
        "no default agent configured. please specify one when constructing the SKD"
    );
    assert_eq!(SdkError::NoChoices.message(), "the response holds no choice");
}

#[test]
fn reply_is_first_choice() {
    let resp = MistralAgentCompletionResponse { choices: vec![choice("one"), choice("two")] };
    assert_eq!(reply_content(&resp), Ok("one".to_string()));
    let empty = MistralAgentCompletionResponse { choices: vec![] };
    assert_eq!(reply_content(&empty), Err(SdkError::NoChoices));
}
