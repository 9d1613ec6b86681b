//! A chat transcript: who said what, in order.

use vstd::prelude::*;

verus! {

/// One chat message: whether the user sent it, and its text.
#[derive(Clone, Debug)]
pub struct Message {
    pub is_user: bool,
    pub text: String,
}

/// An ordered transcript of messages.
#[derive(Clone, Debug)]
pub struct Conversation {
    pub messages: Vec<Message>,
}

impl Conversation {
    /// An empty transcript.
    pub fn new() -> (r: Conversation)
        ensures
            r.messages@.len() == 0,
    {
        Conversation { messages: Vec::new() }
    }
}

impl Default for Conversation {
    fn default() -> (r: Conversation)
        ensures
            r.messages@.len() == 0,
    {
        Conversation::new()
    }
}

} // verus!
