//! The session data model and the turn protocol.
//!
//! A [`ChatContext`] is the ordered conversation log: entries are only ever
//! appended, the single most recent entry removed (rollback), or the whole
//! log cleared. A [`ChatGPTAPIContext`] is the full session — credential,
//! endpoint and log — and carries the optimistic-append/rollback protocol
//! for chat turns: the user turn is appended before the remote call, and a
//! failed call removes exactly that turn again.

use vstd::prelude::*;

verus! {

/// Who produced a turn.
#[derive(Clone, Copy, PartialEq, Eq, Debug, Structural)]
pub enum Role {
    User,
    Assistant,
}

/// The mathematical value of one turn.
#[verifier::ext_equal]
pub struct MessageView {
    pub role: Role,
    pub content: Seq<char>,
}

/// One turn of the conversation: who spoke, and what was said.
pub struct Message {
    pub role: Role,
    pub content: String,
}

impl View for Message {
    type V = MessageView;

    open spec fn view(&self) -> MessageView {
        MessageView { role: self.role, content: self.content@ }
    }
}

/// The body sent to the completion service: a model identifier and the
/// full turn sequence so far.
pub struct RequestPayload<'a> {
    pub model: String,
    pub messages: &'a Vec<Message>,
}

/// One candidate reply in a completion response.
pub struct ResponseChatChoice {
    pub index: usize,
    pub message: Message,
    pub finish_reason: String,
}

/// Token accounting reported by the completion service.
pub struct ChatUsage {
    pub prompt_tokens: usize,
    pub completion_tokens: usize,
    pub total_tokens: usize,
}

/// A decoded completion response.
pub struct ChatCompletion {
    pub id: String,
    pub object: String,
    pub created: u64,
    pub choices: Vec<ResponseChatChoice>,
    pub usage: ChatUsage,
}

impl ChatCompletion {
    /// The usable turn of a completed response: its first choice's
    /// message. A response with no choice at all is the shape failure the
    /// turn protocol rolls back on.
    pub fn first_choice(self) -> (r: Result<Message, APIError>)
        ensures
            self.choices@.len() > 0 ==> (r matches Ok(m) && m == self.choices@[0].message),
            self.choices@.len() == 0 ==> (r matches Err(e) && e is ParseError),
    {
        let mut choices = self.choices;
        if choices.len() == 0 {
            Err(APIError::ParseError("error decoding response: encounts None.".to_owned()))
        } else {
            let c = choices.remove(0);
            Ok(c.message)
        }
    }
}

/// The ordered conversation log. Its view is the sequence of turn values,
/// oldest first; the order is never changed, only the end moves.
pub struct ChatContext {
    pub messages: Vec<Message>,
}

impl View for ChatContext {
    type V = Seq<MessageView>;

    open spec fn view(&self) -> Seq<MessageView> {
        self.messages@.map_values(|m: Message| m@)
    }
}

/// Rollback was asked of an empty log.
#[derive(Debug)]
pub struct EmptyLogError;

/// A completion call that did not produce a usable turn: the transport
/// failed, or the response carried no choice.
#[derive(Debug)]
pub enum APIError {
    NetworkError(String),
    ParseError(String),
}

/// A persistence failure: the durable location could not be read or
/// written, or its content is not a session encoding.
#[derive(Debug)]
pub enum PersistError {
    IoError(String),
    EncodingError(String),
}

impl ChatContext {
    /// An empty log.
    pub fn new() -> (c: Self)
        ensures
            c@ == Seq::<MessageView>::empty(),
    {
        let c = ChatContext { messages: Vec::new() };
        proof {
            assert(c@ =~= Seq::<MessageView>::empty());
        }
        c
    }

    /// The most recent entry, or `None` on an empty log.
    pub fn latest(&self) -> (r: Option<&Message>)
        ensures
            match r {
                Some(m) => self@.len() > 0 && m@ == self@.last(),
                None => self@.len() == 0,
            },
    {
        let n: usize = self.messages.len();
        if n == 0 {
            None
        } else {
            Some(&self.messages[n - 1])
        }
    }

    /// Removes the most recent entry; an empty log is reported, not
    /// touched.
    pub fn pop_latest(&mut self) -> (r: Result<(), EmptyLogError>)
        ensures
            old(self)@.len() > 0 ==> r is Ok && final(self)@ == old(self)@.drop_last(),
            old(self)@.len() == 0 ==> r is Err && final(self)@ == old(self)@,
    {
        if self.messages.len() == 0 {
            Err(EmptyLogError)
        } else {
            let _ = self.messages.pop();
            proof {
                assert(self@ =~= old(self)@.drop_last());
            }
            Ok(())
        }
    }

    /// Empties the log unconditionally.
    pub fn clear(&mut self)
        ensures
            final(self)@ == Seq::<MessageView>::empty(),
    {
        self.messages.clear();
        proof {
            assert(self@ =~= Seq::<MessageView>::empty());
        }
    }

    /// Appends a user turn holding `txt` verbatim.
    pub fn add_user_chat(&mut self, txt: String)
        ensures
            final(self)@ == old(self)@.push(MessageView { role: Role::User, content: txt@ }),
    {
        let ghost before = self@;
        self.messages.push(Message { role: Role::User, content: txt });
        proof {
            assert(self@ =~= before.push(MessageView { role: Role::User, content: txt@ }));
        }
    }

    /// Appends an already-built turn.
    pub fn add_message(&mut self, msg: Message)
        ensures
            final(self)@ == old(self)@.push(msg@),
    {
        let ghost before = self@;
        let ghost mv = msg@;
        self.messages.push(msg);
        proof {
            assert(self@ =~= before.push(mv));
        }
    }
}

/// The mathematical value of a full session.
#[verifier::ext_equal]
pub struct SessionView {
    pub api_key: Seq<char>,
    pub api_url: Seq<char>,
    pub log: Seq<MessageView>,
}

/// The full persistable session: credential, endpoint and conversation
/// log. Exactly one lives per running controller.
pub struct ChatGPTAPIContext {
    pub api_key: String,
    pub api_url: String,
    pub chat_context: ChatContext,
}

impl View for ChatGPTAPIContext {
    type V = SessionView;

    open spec fn view(&self) -> SessionView {
        SessionView { api_key: self.api_key@, api_url: self.api_url@, log: self.chat_context@ }
    }
}

/// A session with its log cleared and everything else kept.
pub open spec fn cleared(v: SessionView) -> SessionView {
    SessionView { log: Seq::<MessageView>::empty(), ..v }
}

impl ChatGPTAPIContext {
    /// A fresh session: the given credential and endpoint, an empty log.
    pub fn build(api_key: String, api_url: String) -> (r: Self)
        ensures
            r@ == (SessionView { api_key: api_key@, api_url: api_url@, log: Seq::<MessageView>::empty() }),
    {
        let r = ChatGPTAPIContext { api_key, api_url, chat_context: ChatContext::new() };
        proof {
            assert(r@ =~= SessionView { api_key: r.api_key@, api_url: r.api_url@, log: Seq::<MessageView>::empty() });
        }
        r
    }

    /// Clears the conversation log; credential and endpoint stay.
    pub fn reset(&mut self)
        ensures
            final(self)@ == cleared(old(self)@),
    {
        self.chat_context.clear();
        proof {
            assert(self@ =~= cleared(old(self)@));
        }
    }

    /// The request body for the completion service: the fixed model
    /// identifier and a borrow of the full turn sequence.
    pub fn request_payload(&self) -> (r: RequestPayload)
        ensures
            r.model@ == "gpt-3.5-turbo"@,
            r.messages@ == self.chat_context.messages@,
    {
        RequestPayload { model: "gpt-3.5-turbo".to_owned(), messages: &self.chat_context.messages }
    }

    /// Step one of a chat turn: the optimistic append of the user's text,
    /// done before the remote call is dispatched.
    pub fn begin_chat_turn(&mut self, text: String)
        ensures
            final(self)@ == (SessionView {
                log: old(self)@.log.push(MessageView { role: Role::User, content: text@ }),
                ..old(self)@
            }),
    {
        self.chat_context.add_user_chat(text);
        proof {
            assert(self@ =~= SessionView {
                log: old(self)@.log.push(MessageView { role: Role::User, content: text@ }),
                ..old(self)@
            });
        }
    }

    /// Step two of a chat turn: fold the outcome of the completion call
    /// into the log. A returned turn is appended; on failure the turn just
    /// appended by [`Self::begin_chat_turn`] is rolled back — guarded by a
    /// role check, so a log that does not end in a user turn is left
    /// untouched. Credential and endpoint never change here.
    pub fn apply_completion_outcome(&mut self, outcome: Result<Message, APIError>) -> (r: Result<
        (),
        APIError,
    >)
        ensures
            final(self)@.api_key == old(self)@.api_key,
            final(self)@.api_url == old(self)@.api_url,
            match outcome {
                Ok(m) => r is Ok && final(self)@.log == old(self)@.log.push(m@),
                Err(e) => {
                    &&& r == Err::<(), APIError>(e)
                    &&& if old(self)@.log.len() > 0 && old(self)@.log.last().role == Role::User {
                        final(self)@.log == old(self)@.log.drop_last()
                    } else {
                        final(self)@.log == old(self)@.log
                    }
                },
            },
    {
        match outcome {
            Ok(m) => {
                self.chat_context.add_message(m);
                Ok(())
            },
            Err(e) => {
                let ends_in_user = match self.chat_context.latest() {
                    Some(m) => m.role == Role::User,
                    None => false,
                };
                if ends_in_user {
                    let _ = self.chat_context.pop_latest();
                }
                Err(e)
            },
        }
    }

    /// Folds the outcome of loading a session from a locator: a loaded
    /// session replaces this one wholesale; on failure this session is
    /// left completely unchanged and the failure is passed on.
    pub fn apply_read_context(&mut self, loaded: Result<ChatGPTAPIContext, PersistError>) -> (r:
        Result<(), PersistError>)
        ensures
            match loaded {
                Ok(c) => r is Ok && final(self)@ == c@,
                Err(e) => r == Err::<(), PersistError>(e) && final(self)@ == old(self)@,
            },
    {
        match loaded {
            Ok(c) => {
                *self = c;
                Ok(())
            },
            Err(e) => Err(e),
        }
    }
}

/// Law: a successful chat turn grows the log by exactly two entries — the
/// submitted text as a user turn, then the returned turn — and leaves every
/// earlier entry in place.
pub proof fn lemma_successful_turn(log: Seq<MessageView>, text: Seq<char>, reply: MessageView)
    ensures
        ({
            let after = log.push(MessageView { role: Role::User, content: text }).push(reply);
            &&& after.len() == log.len() + 2
            &&& after[log.len() as int] == MessageView { role: Role::User, content: text }
            &&& after[log.len() as int + 1] == reply
            &&& forall|i: int| 0 <= i < log.len() ==> after[i] == log[i]
        }),
{
}

/// Law: a failed chat turn leaves the log exactly as it was — the
/// optimistic append always leaves a user turn last, so the guarded
/// rollback removes precisely that turn.
pub proof fn lemma_failed_turn(log: Seq<MessageView>, text: Seq<char>)
    ensures
        ({
            let appended = log.push(MessageView { role: Role::User, content: text });
            &&& appended.len() > 0
            &&& appended.last().role == Role::User
            &&& appended.drop_last() == log
        }),
{
    let appended = log.push(MessageView { role: Role::User, content: text });
    assert(appended.drop_last() =~= log);
}

/// Law: clearing the log is idempotent — clearing an already cleared
/// session changes nothing — and its result does not depend on what the
/// log held before.
pub proof fn lemma_clear_idempotent(v: SessionView)
    ensures
        cleared(cleared(v)) == cleared(v),
        cleared(v).log.len() == 0,
{
    assert(cleared(cleared(v)) =~= cleared(v));
}

} // verus!
