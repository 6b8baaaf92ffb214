//! The answers of the API: how much of a body is read, and what is made of an
//! answer that reports an error.
use crate::outside::{lossy_text, read_lossy};
use crate::text::{texts, trim, trimmed};
use crate::timeweb::{TimewebError, TimewebErrorModel, API_BODY_LIMIT};
use vstd::prelude::*;
use vstd::string::*;

verus! {

/// No more than this many characters of an error message are kept.
pub const MESSAGE_LIMIT: usize = 1024;

// ---------------------------------------------------------------------------
// Bodies
// ---------------------------------------------------------------------------

/// A body that is read piece by piece. It never holds more than the limit.
pub struct BodyBuffer {
    bytes: Vec<u8>,
}

impl View for BodyBuffer {
    type V = Seq<u8>;

    closed spec fn view(&self) -> Seq<u8> {
        self.bytes@
    }
}

impl BodyBuffer {
    #[verifier::type_invariant]
    spec fn within_limit(self) -> bool {
        self.bytes@.len() <= API_BODY_LIMIT
    }

    /// Nothing read yet.
    pub fn new() -> (r: BodyBuffer)
        ensures
            r@ == Seq::<u8>::empty(),
    {
        BodyBuffer { bytes: Vec::new() }
    }

    /// Takes the next piece, unless the body would exceed the limit.
    pub fn push(&mut self, chunk: &[u8]) -> (r: Result<(), TimewebError>)
        ensures
            match r {
                Ok(()) => {
                    &&& old(self)@.len() + chunk@.len() <= API_BODY_LIMIT
                    &&& final(self)@ == old(self)@ + chunk@
                },
                Err(error) => {
                    &&& old(self)@.len() + chunk@.len() > API_BODY_LIMIT
                    &&& final(self)@ == old(self)@
                    &&& error@ == TimewebErrorModel::BodyTooLarge
                },
            },
    {
        proof {
            use_type_invariant(&*self);
        }
        let held: usize = self.bytes.len();
        if chunk.len() > API_BODY_LIMIT - held {
            return Err(TimewebError::BodyTooLarge);
        }
        let mut bytes: Vec<u8> = Vec::new();
        std::mem::swap(&mut bytes, &mut self.bytes);
        bytes.extend_from_slice(chunk);
        assert(bytes@ =~= old(self)@ + chunk@);
        self.bytes = bytes;
        Ok(())
    }

    /// What was read.
    pub fn into_bytes(self) -> (r: Vec<u8>)
        ensures
            r@ == self@,
            r@.len() <= API_BODY_LIMIT,
    {
        proof {
            use_type_invariant(&self);
        }
        self.bytes
    }
}

// ---------------------------------------------------------------------------
// Errors
// ---------------------------------------------------------------------------

/// What an answer says about an error: one text or several.
#[derive(Debug)]
pub enum ApiErrorMessage {
    Text(String),
    List(Vec<String>),
}

/// A message by its texts.
pub enum MessageModel {
    Text(Seq<char>),
    List(Seq<Seq<char>>),
}

impl View for ApiErrorMessage {
    type V = MessageModel;

    open spec fn view(&self) -> MessageModel {
        match self {
            ApiErrorMessage::Text(message) => MessageModel::Text(message@),
            ApiErrorMessage::List(messages) => MessageModel::List(texts(messages@)),
        }
    }
}

/// An optional message by its texts.
pub open spec fn opt_message(message: Option<ApiErrorMessage>) -> Option<MessageModel> {
    match message {
        Some(message) => Some(message@),
        None => None,
    }
}

/// The beginning of a message, up to the limit.
pub open spec fn truncated(message: Seq<char>) -> Seq<char> {
    if message.len() <= MESSAGE_LIMIT {
        message
    } else {
        message.take(MESSAGE_LIMIT as int)
    }
}

/// The texts one after the other, with a semicolon and a space in between.
pub open spec fn listed_messages(messages: Seq<Seq<char>>) -> Seq<char>
    decreases messages.len(),
{
    if messages.len() == 0 {
        Seq::empty()
    } else if messages.len() == 1 {
        messages[0]
    } else {
        listed_messages(messages.drop_last()) + "; "@ + messages.last()
    }
}

impl MessageModel {
    /// The message in words.
    pub open spec fn words(self) -> Seq<char> {
        match self {
            MessageModel::Text(message) => truncated(message),
            MessageModel::List(messages) => truncated(listed_messages(messages)),
        }
    }
}

/// What is said of an answer with an error status: its message, if it has one
/// that says something, else its body as text, else that it is empty.
pub open spec fn status_message(message: Option<MessageModel>, body: Seq<u8>) -> Seq<char> {
    if message is Some && message->0.words().len() > 0 {
        message->0.words()
    } else if trimmed(lossy_text(body)).len() == 0 {
        "empty response body"@
    } else {
        truncated(trimmed(lossy_text(body)))
    }
}

/// The statuses that report success.
pub open spec fn is_success(status: u16) -> bool {
    200 <= status < 300
}

/// The beginning of a message, up to the limit.
pub fn truncate_message(message: &str) -> (r: String)
    ensures
        r@ == truncated(message@),
        r@.len() <= MESSAGE_LIMIT,
{
    if message.unicode_len() <= MESSAGE_LIMIT {
        message.to_owned()
    } else {
        let first = message.substring_char(0, MESSAGE_LIMIT);
        assert(first@ =~= message@.take(MESSAGE_LIMIT as int));
        first.to_owned()
    }
}

/// The texts one after the other, with a semicolon and a space in between.
fn list_messages(messages: &Vec<String>) -> (r: String)
    ensures
        r@ == listed_messages(texts(messages@)),
{
    let ghost model = texts(messages@);
    let mut r = String::new();
    let mut i: usize = 0;
    assert(r@ =~= listed_messages(model.take(0)));
    while i < messages.len()
        invariant
            i <= messages.len(),
            model == texts(messages@),
            r@ == listed_messages(model.take(i as int)),
        decreases messages.len() - i,
    {
        assert(model.take(i + 1).drop_last() =~= model.take(i as int));
        assert(model.take(i + 1).last() == messages@[i as int]@);
        let ghost before = r@;
        if i > 0 {
            r.append("; ");
        }
        r.append(messages[i].as_str());
        i += 1;
        assert(r@ =~= listed_messages(model.take(i as int)));
    }
    assert(model.take(model.len() as int) =~= model);
    r
}

impl ApiErrorMessage {
    /// The message in words.
    pub fn text(&self) -> (r: String)
        ensures
            r@ == self@.words(),
    {
        match self {
            ApiErrorMessage::Text(message) => truncate_message(message.as_str()),
            ApiErrorMessage::List(messages) => truncate_message(list_messages(messages).as_str()),
        }
    }
}

/// The failure that an answer with an error status stands for. `message` is what
/// its body says in the form of the API's errors, if it has that form.
pub fn api_status_error(status: u16, message: Option<ApiErrorMessage>, body: &[u8]) -> (r:
    TimewebError)
    ensures
        r@ == (TimewebErrorModel::HttpStatus {
            status,
            message: status_message(opt_message(message), body@),
        }),
{
    if let Some(message) = message {
        let text = message.text();
        if !text.as_str().is_empty() {
            return TimewebError::HttpStatus { status, message: text };
        }
    }
    let whole = read_lossy(body);
    let text = trim(whole.as_str());
    let message = if text.is_empty() {
        "empty response body".to_owned()
    } else {
        truncate_message(text)
    };
    TimewebError::HttpStatus { status, message }
}

/// Whether an answer reports success.
pub fn status_is_success(status: u16) -> (r: bool)
    ensures
        r == is_success(status),
{
    200 <= status && status < 300
}

/// What is said of an error status is never empty and never longer than the limit.
pub proof fn law_status_message_is_bounded(message: Option<MessageModel>, body: Seq<u8>)
    ensures
        0 < status_message(message, body).len() <= MESSAGE_LIMIT,
{
    reveal_strlit("empty response body");
}

/// A message is cut to its first 1024 characters, and kept whole if it has no more.
pub proof fn law_messages_are_cut(message: Seq<char>, i: int)
    ensures
        truncated(message).len() <= 1024,
        message.len() <= 1024 ==> truncated(message).len() == message.len(),
        message.len() > 1024 ==> truncated(message).len() == 1024,
        0 <= i < truncated(message).len() ==> truncated(message)[i] == message[i],
{
}

/// Messages are joined by a semicolon and a space, all of them and in order.
pub proof fn law_messages_are_joined(a: Seq<Seq<char>>, b: Seq<Seq<char>>, message: Seq<char>)
    requires
        a.len() > 0,
        b.len() > 0,
    ensures
        listed_messages(a + b) == listed_messages(a) + seq![';', ' '] + listed_messages(b),
        listed_messages(seq![message]) == message,
        listed_messages(Seq::empty()).len() == 0,
    decreases b.len(),
{
    reveal_strlit("; ");
    assert("; "@ =~= seq![';', ' ']);
    let whole = a + b;
    assert(whole.last() == b.last());
    assert(whole.drop_last() =~= a + b.drop_last());
    if b.len() == 1 {
        assert(b.drop_last() =~= Seq::empty());
        assert(a + b.drop_last() =~= a);
    } else {
        law_messages_are_joined(a, b.drop_last(), message);
        let x = listed_messages(a);
        let y = listed_messages(b.drop_last());
        assert(x + seq![';', ' '] + y + "; "@ + b.last() =~= x + seq![';', ' '] + (y + "; "@
            + b.last()));
    }
}

/// What is said of an error status is the message of the answer, cut, if that says
/// something; else the body as text without white space around it, cut, if that says
/// something; else that it is empty.
pub proof fn law_status_messages(
    message: Seq<char>,
    messages: Seq<Seq<char>>,
    body: Seq<u8>,
)
    ensures
        message.len() > 0 ==> status_message(Some(MessageModel::Text(message)), body) == truncated(
            message,
        ),
        listed_messages(messages).len() > 0 ==> status_message(
            Some(MessageModel::List(messages)),
            body,
        ) == truncated(listed_messages(messages)),
        message.len() == 0 ==> status_message(Some(MessageModel::Text(message)), body)
            == status_message(None, body),
        listed_messages(messages).len() == 0 ==> status_message(
            Some(MessageModel::List(messages)),
            body,
        ) == status_message(None, body),
        trimmed(lossy_text(body)).len() > 0 ==> status_message(None, body) == truncated(
            trimmed(lossy_text(body)),
        ),
        trimmed(lossy_text(body)).len() == 0 ==> status_message(None, body)
            == "empty response body"@,
{
}

/// The statuses in the two hundreds report success, and no others.
pub proof fn law_success(status: u16)
    ensures
        is_success(status) <==> status / 100 == 2,
{
}

} // verus!
