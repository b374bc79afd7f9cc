//! The chat message as the UI, the engine and the wire all see it.
use vstd::prelude::*;
use vstd::utf8::encode_utf8;

verus! {

/// A single chat message. Equality and hashing are over all three fields
/// jointly. Timestamps are signed epoch values; negative values are allowed.
#[derive(Debug, Clone, PartialEq, Eq, Hash)]
pub struct ChatMessage {
    pub content: String,
    pub nickname: String,
    pub timestamp: i64,
}

/// Mathematical model of a chat message: the two texts as character
/// sequences and the timestamp as an unbounded integer.
#[verifier::ext_equal]
pub ghost struct ChatMessageModel {
    pub content: Seq<char>,
    pub nickname: Seq<char>,
    pub timestamp: int,
}

impl ChatMessageModel {
    /// A message can be put on the wire when each text's UTF-8 encoding
    /// fits the wire format's four-byte length field and the timestamp
    /// fits a signed 64-bit integer.
    pub open spec fn wf(self) -> bool {
        &&& encode_utf8(self.content).len() < 0x1_0000_0000
        &&& encode_utf8(self.nickname).len() < 0x1_0000_0000
        &&& i64::MIN <= self.timestamp <= i64::MAX
    }
}

impl View for ChatMessage {
    type V = ChatMessageModel;

    open spec fn view(&self) -> ChatMessageModel {
        ChatMessageModel {
            content: self.content@,
            nickname: self.nickname@,
            timestamp: self.timestamp as int,
        }
    }
}

/// An intent handed from the UI to the engine. Sending a message is the
/// only operation today; the union leaves room for more.
pub enum Command {
    SendMessage(ChatMessage),
}

/// Model of a command.
pub ghost enum CommandModel {
    SendMessage(ChatMessageModel),
}

impl View for Command {
    type V = CommandModel;

    open spec fn view(&self) -> CommandModel {
        match self {
            Command::SendMessage(m) => CommandModel::SendMessage(m@),
        }
    }
}

/// The message a command asks the engine to send.
pub open spec fn command_message(c: CommandModel) -> ChatMessageModel {
    match c {
        CommandModel::SendMessage(m) => m,
    }
}

impl ChatMessage {
    /// True exactly when the message can be encoded for the wire.
    pub fn encodable(&self) -> (r: bool)
        ensures
            r == self@.wf(),
    {
        let cb: u64 = self.content.as_str().as_bytes().len() as u64;
        let nb: u64 = self.nickname.as_str().as_bytes().len() as u64;
        cb < 0x1_0000_0000 && nb < 0x1_0000_0000
    }
}

} // verus!
