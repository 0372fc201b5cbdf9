use tgchatgpt::data_struct::{
    APIError, ChatCompletion, ChatContext, ChatGPTAPIContext, ChatUsage, Message, PersistError,
    ResponseChatChoice, Role,
};

fn sample_session() -> ChatGPTAPIContext {
    let mut ctx = ChatGPTAPIContext::build("secret-key".to_owned(), "https://example.test/v1".to_owned());
    ctx.chat_context.add_user_chat("first question".to_owned());
    ctx.chat_context.add_message(Message {
        role: Role::Assistant,
        content: "first answer".to_owned(),
    });
    ctx
}

#[test]
fn new_log_is_empty() {
    let log = ChatContext::new();
    assert_eq!(log.messages.len(), 0);
    assert!(log.latest().is_none());
}

#[test]
fn append_then_latest() {
    let mut log = ChatContext::new();
    log.add_user_chat("hi".to_owned());
    let m = log.latest().expect("one entry");
    assert_eq!(m.role, Role::User);
    assert_eq!(m.content, "hi");
}

#[test]
fn pop_latest_on_empty_fails() {
    let mut log = ChatContext::new();
    assert!(log.pop_latest().is_err());
    assert_eq!(log.messages.len(), 0);
}

#[test]
fn pop_latest_removes_exactly_one() {
    let mut log = ChatContext::new();
    log.add_user_chat("a".to_owned());
    log.add_user_chat("b".to_owned());
    assert!(log.pop_latest().is_ok());
    assert_eq!(log.messages.len(), 1);
    assert_eq!(log.latest().unwrap().content, "a");
}

#[test]
fn clear_always_empties_and_is_idempotent() {
    let mut ctx = sample_session();
    assert_eq!(ctx.chat_context.messages.len(), 2);
    ctx.reset();
    assert_eq!(ctx.chat_context.messages.len(), 0);
    assert_eq!(ctx.api_key, "secret-key");
    ctx.reset();
    assert_eq!(ctx.chat_context.messages.len(), 0);
}

#[test]
fn successful_turn_grows_log_by_two() {
    let mut ctx = sample_session();
    let n = ctx.chat_context.messages.len();
    ctx.begin_chat_turn("what now?".to_owned());
    let outcome = Ok(Message { role: Role::Assistant, content: "this now".to_owned() });
    assert!(ctx.apply_completion_outcome(outcome).is_ok());
    assert_eq!(ctx.chat_context.messages.len(), n + 2);
    assert_eq!(ctx.chat_context.messages[n].role, Role::User);
    assert_eq!(ctx.chat_context.messages[n].content, "what now?");
    assert_eq!(ctx.chat_context.messages[n + 1].role, Role::Assistant);
    assert_eq!(ctx.chat_context.messages[n + 1].content, "this now");
}

#[test]
fn failed_turn_rolls_back_to_original_length() {
    let mut ctx = sample_session();
    let n = ctx.chat_context.messages.len();
    let before: Vec<(Role, String)> = ctx
        .chat_context
        .messages
        .iter()
        .map(|m| (m.role, m.content.clone()))
        .collect();
    ctx.begin_chat_turn("doomed".to_owned());
    let outcome = Err(APIError::NetworkError("connection refused".to_owned()));
    assert!(ctx.apply_completion_outcome(outcome).is_err());
    assert_eq!(ctx.chat_context.messages.len(), n);
    for (i, (role, content)) in before.iter().enumerate() {
        assert_eq!(ctx.chat_context.messages[i].role, *role);
        assert_eq!(&ctx.chat_context.messages[i].content, content);
    }
}

#[test]
fn failure_without_pending_user_turn_leaves_log_alone() {
    // The defensive branch: the log does not end in a user turn, so a
    // failure must not remove anything.
    let mut ctx = sample_session();
    let n = ctx.chat_context.messages.len();
    let outcome = Err(APIError::ParseError("empty response".to_owned()));
    assert!(ctx.apply_completion_outcome(outcome).is_err());
    assert_eq!(ctx.chat_context.messages.len(), n);
}

#[test]
fn read_context_failure_changes_nothing() {
    let mut ctx = sample_session();
    let outcome = Err(PersistError::IoError("no such file".to_owned()));
    assert!(ctx.apply_read_context(outcome).is_err());
    assert_eq!(ctx.api_key, "secret-key");
    assert_eq!(ctx.api_url, "https://example.test/v1");
    assert_eq!(ctx.chat_context.messages.len(), 2);
    assert_eq!(ctx.chat_context.messages[0].role, Role::User);
    assert_eq!(ctx.chat_context.messages[0].content, "first question");
    assert_eq!(ctx.chat_context.messages[1].role, Role::Assistant);
    assert_eq!(ctx.chat_context.messages[1].content, "first answer");
}

#[test]
fn read_context_success_replaces_whole_session() {
    let mut ctx = sample_session();
    let replacement = ChatGPTAPIContext::build("other-key".to_owned(), "other-url".to_owned());
    assert!(ctx.apply_read_context(Ok(replacement)).is_ok());
    assert_eq!(ctx.api_key, "other-key");
    assert_eq!(ctx.api_url, "other-url");
    assert_eq!(ctx.chat_context.messages.len(), 0);
}

#[test]
fn first_choice_of_empty_response_is_shape_error() {
    let completion = ChatCompletion {
        id: "c1".to_owned(),
        object: "chat.completion".to_owned(),
        created: 0,
        choices: Vec::new(),
        usage: ChatUsage { prompt_tokens: 0, completion_tokens: 0, total_tokens: 0 },
    };
    match completion.first_choice() {
        Err(APIError::ParseError(_)) => {}
        _ => panic!("a response without choices must be a shape failure"),
    }
}

#[test]
fn first_choice_returns_first_message() {
    let completion = ChatCompletion {
        id: "c2".to_owned(),
        object: "chat.completion".to_owned(),
        created: 7,
        choices: vec![
            ResponseChatChoice {
                index: 0,
                message: Message { role: Role::Assistant, content: "pick me".to_owned() },
                finish_reason: "stop".to_owned(),
            },
            ResponseChatChoice {
                index: 1,
                message: Message { role: Role::Assistant, content: "not me".to_owned() },
                finish_reason: "stop".to_owned(),
            },
        ],
        usage: ChatUsage { prompt_tokens: 1, completion_tokens: 2, total_tokens: 3 },
    };
    match completion.first_choice() {
        Ok(m) => {
            assert_eq!(m.role, Role::Assistant);
            assert_eq!(m.content, "pick me");
        }
        _ => panic!("a response with choices must yield its first message"),
    }
}

#[test]
fn request_payload_uses_fixed_model_and_full_log() {
    let ctx = sample_session();
    let payload = ctx.request_payload();
    assert_eq!(payload.model, "gpt-3.5-turbo");
    assert_eq!(payload.messages.len(), 2);
    assert_eq!(payload.messages[0].content, "first question");
}
