use tgchatgpt::codec::{decode_session, encode_session};
use tgchatgpt::data_struct::{ChatGPTAPIContext, Message, Role};

fn assert_sessions_equal(a: &ChatGPTAPIContext, b: &ChatGPTAPIContext) {
    assert_eq!(a.api_key, b.api_key);
    assert_eq!(a.api_url, b.api_url);
    assert_eq!(a.chat_context.messages.len(), b.chat_context.messages.len());
    for i in 0..a.chat_context.messages.len() {
        assert_eq!(a.chat_context.messages[i].role, b.chat_context.messages[i].role);
        assert_eq!(a.chat_context.messages[i].content, b.chat_context.messages[i].content);
    }
}

#[test]
fn round_trip_of_populated_session() {
    let mut ctx = ChatGPTAPIContext::build(
        "sk-0123456789".to_owned(),
        "https://api.example.test/v1/chat/completions".to_owned(),
    );
    ctx.chat_context.add_user_chat("hello there".to_owned());
    ctx.chat_context.add_message(Message {
        role: Role::Assistant,
        content: "General greeting received.".to_owned(),
    });
    ctx.chat_context.add_user_chat("lines\nand   spaces\tand digits 0123".to_owned());
    ctx.chat_context.add_message(Message {
        role: Role::Assistant,
        content: "unicode: héllo ✓ ≠ ascii".to_owned(),
    });
    let encoded = encode_session(&ctx);
    let decoded = decode_session(&encoded).expect("an encoding must decode");
    assert_sessions_equal(&ctx, &decoded);
}

#[test]
fn round_trip_of_empty_session() {
    let ctx = ChatGPTAPIContext::build("".to_owned(), "".to_owned());
    let encoded = encode_session(&ctx);
    let decoded = decode_session(&encoded).expect("an encoding must decode");
    assert_sessions_equal(&ctx, &decoded);
}

#[test]
fn round_trip_of_content_that_looks_like_tags() {
    // Content made of role tags and digits must not confuse the
    // length-prefixed format.
    let mut ctx = ChatGPTAPIContext::build("k".to_owned(), "u".to_owned());
    ctx.chat_context.add_user_chat("u00000000000000000001a".to_owned());
    let encoded = encode_session(&ctx);
    let decoded = decode_session(&encoded).expect("an encoding must decode");
    assert_sessions_equal(&ctx, &decoded);
}

#[test]
fn encoding_of_minimal_session_is_exact() {
    let ctx = ChatGPTAPIContext::build("k".to_owned(), "u".to_owned());
    let encoded = encode_session(&ctx);
    assert_eq!(
        encoded,
        "00000000000000000001k00000000000000000001u00000000000000000000"
    );
}

#[test]
fn encoding_of_one_turn_is_exact() {
    let mut ctx = ChatGPTAPIContext::build("key".to_owned(), "url".to_owned());
    ctx.chat_context.add_user_chat("hi".to_owned());
    let encoded = encode_session(&ctx);
    assert_eq!(
        encoded,
        "00000000000000000003key00000000000000000003url00000000000000000001u00000000000000000002hi"
    );
}

#[test]
fn decode_rejects_garbage() {
    assert!(decode_session("not a session").is_err());
    assert!(decode_session("").is_err());
}

#[test]
fn decode_rejects_truncated_input() {
    let ctx = ChatGPTAPIContext::build("key".to_owned(), "url".to_owned());
    let encoded = encode_session(&ctx);
    let truncated: String = encoded.chars().take(encoded.chars().count() - 1).collect();
    assert!(decode_session(&truncated).is_err());
}

#[test]
fn decode_rejects_trailing_input() {
    let ctx = ChatGPTAPIContext::build("key".to_owned(), "url".to_owned());
    let mut encoded = encode_session(&ctx);
    encoded.push('x');
    assert!(decode_session(&encoded).is_err());
}

#[test]
fn decode_rejects_unknown_role_tag() {
    let encoded = "00000000000000000001k00000000000000000001u00000000000000000001x00000000000000000002hi";
    assert!(decode_session(encoded).is_err());
}

#[test]
fn decode_rejects_nondigit_length() {
    let encoded = "0000000000000000000Xk00000000000000000001u00000000000000000000";
    assert!(decode_session(encoded).is_err());
}

#[test]
fn decode_accepts_handwritten_encoding() {
    let encoded = "00000000000000000002ab00000000000000000001c00000000000000000002u00000000000000000001qa00000000000000000001r";
    let decoded = decode_session(encoded).expect("a well-formed encoding must decode");
    assert_eq!(decoded.api_key, "ab");
    assert_eq!(decoded.api_url, "c");
    assert_eq!(decoded.chat_context.messages.len(), 2);
    assert_eq!(decoded.chat_context.messages[0].role, Role::User);
    assert_eq!(decoded.chat_context.messages[0].content, "q");
    assert_eq!(decoded.chat_context.messages[1].role, Role::Assistant);
    assert_eq!(decoded.chat_context.messages[1].content, "r");
}
