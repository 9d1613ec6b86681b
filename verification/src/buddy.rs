//! The conversation record a chat client persists between runs.

use crate::assistant::ThreadId;
use vstd::prelude::*;

verus! {

/// A conversation: the thread it runs on.
#[derive(Clone, Debug)]
pub struct Conv {
    thread_id: ThreadId,
}

impl View for Conv {
    type V = Seq<char>;

    closed spec fn view(&self) -> Seq<char> {
        self.thread_id@
    }
}

impl Conv {
    /// Record the thread a conversation runs on.
    pub fn new(thread_id: ThreadId) -> (r: Conv)
        ensures
            r@ == thread_id@,
    {
        Conv { thread_id }
    }

    /// The thread this conversation runs on.
    pub fn thread_id(&self) -> (r: &ThreadId)
        ensures
            r@ == self@,
    {
        &self.thread_id
    }
}

} // verus!
