//! The commands that the client app sends to the device.
use vstd::prelude::*;

verus! {

/// The port on which the device's websocket server listens.
pub const MESSAGE_PORT: u16 = 420;

/// A command sent from the client app to the device.
#[derive(Debug, PartialEq, Eq, Structural, Clone, Copy)]
pub enum Message {
    On,
    Off,
}

impl Message {
    /// The text by which a message travels over the websocket.
    pub open spec fn text(self) -> Seq<char> {
        match self {
            Message::On => seq!['O', 'n'],
            Message::Off => seq!['O', 'f', 'f'],
        }
    }

    /// The message that a text names, if any.
    pub open spec fn parse(s: Seq<char>) -> Option<Message> {
        if s == seq!['O', 'n'] {
            Some(Message::On)
        } else if s == seq!['O', 'f', 'f'] {
            Some(Message::Off)
        } else {
            None
        }
    }

    /// The text of the message.
    pub fn to_str(&self) -> (s: &'static str)
        ensures
            s@ == self.text(),
    {
        proof {
            reveal_strlit("On");
            reveal_strlit("Off");
        }
        match self {
            Message::On => "On",
            Message::Off => "Off",
        }
    }

    /// The message that a text names, if any.
    pub fn from_str(s: &str) -> (m: Option<Message>)
        ensures
            m == Message::parse(s@),
    {
        let n = s.unicode_len();
        if n == 2 {
            if s.get_char(0) == 'O' && s.get_char(1) == 'n' {
                assert(s@ =~= seq!['O', 'n']);
                return Some(Message::On);
            }
        } else if n == 3 {
            if s.get_char(0) == 'O' && s.get_char(1) == 'f' && s.get_char(2) == 'f' {
                assert(s@ =~= seq!['O', 'f', 'f']);
                return Some(Message::Off);
            }
        }
        None
    }
}

/// Reading back the text of a message gives the message, and only the text of a
/// message reads as that message.
pub proof fn lemma_message_text_roundtrip(m: Message, s: Seq<char>)
    ensures
        Message::parse(m.text()) == Some(m),
        Message::parse(s) == Some(m) ==> s == m.text(),
{
    assert(seq!['O', 'n'] != seq!['O', 'f', 'f']) by {
        assert(seq!['O', 'n'].len() != seq!['O', 'f', 'f'].len());
    }
}

} // verus!
