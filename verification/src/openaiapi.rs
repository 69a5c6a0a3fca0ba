//! The shape of a chat-completion answer as the translation client reads
//! it: a list of choices, each carrying a message with its text content.
//! Parsing the wire form into these records is the caller's concern; the
//! library only holds and hands back the plain values.

use vstd::prelude::*;

verus! {

/// The message of one completion choice.
pub struct Message {
    pub content: String,
}

/// One completion choice: its index in the answer and its message.
pub struct Choice {
    index: usize,
    pub message: Message,
}

impl Choice {
    /// The position of this choice in the answer's list.
    pub closed spec fn spec_index(self) -> usize {
        self.index
    }

    /// The message this choice carries.
    pub closed spec fn spec_message(self) -> Message {
        self.message
    }

    pub fn new(index: usize, message: Message) -> (r: Self)
        ensures
            r.spec_index() == index,
            r.spec_message() == message,
    {
        Self { index, message }
    }

    pub fn index(&self) -> (i: usize)
        ensures
            i == self.spec_index(),
    {
        self.index
    }
}

} // verus!
