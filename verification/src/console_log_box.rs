use vstd::prelude::*;

verus! {

/// Exactly one message was appended to the log; everything already logged is
/// kept, in place and unchanged.
pub open spec fn appends_one(pre: ConsoleLogBox, post: ConsoleLogBox) -> bool {
    &&& post.limit == pre.limit
    &&& exists|m: String| post.messages@ == pre.messages@.push(m)
}

/// The log only ever grows: every message already logged is kept, in place
/// and unchanged (zero or more messages may have been appended).
pub open spec fn append_only(pre: ConsoleLogBox, post: ConsoleLogBox) -> bool {
    &&& post.limit == pre.limit
    &&& pre.messages@.len() <= post.messages@.len()
    &&& forall|i: int| 0 <= i < pre.messages@.len() ==> post.messages@[i] == pre.messages@[i]
}

/// Appending one message is a special case of growing the log.
pub proof fn lemma_appends_one_grows(pre: ConsoleLogBox, post: ConsoleLogBox)
    requires
        appends_one(pre, post),
    ensures
        append_only(pre, post),
        post.messages@.len() == pre.messages@.len() + 1,
{
    let m = choose|m: String| post.messages@ == pre.messages@.push(m);
    assert(post.messages@ == pre.messages@.push(m));
}

/// Growing the log is transitive across successive operations.
pub proof fn lemma_append_only_trans(a: ConsoleLogBox, b: ConsoleLogBox, c: ConsoleLogBox)
    requires
        append_only(a, b),
        append_only(b, c),
    ensures
        append_only(a, c),
{
    assert forall|i: int| 0 <= i < a.messages@.len() implies c.messages@[i] == a.messages@[i] by {
        assert(b.messages@[i] == a.messages@[i]);
        assert(c.messages@[i] == b.messages@[i]);
    }
}

/// One step of the state machine either appends one message or leaves the
/// log alone; either way the log only grew.
pub proof fn lemma_log_step(a: ConsoleLogBox, b: ConsoleLogBox)
    requires
        appends_one(a, b) || a == b,
    ensures
        append_only(a, b),
{
    if appends_one(a, b) {
        lemma_appends_one_grows(a, b);
    }
}

/// An append-only log of human-readable event messages. The core only appends;
/// a host renders the most recent `limit` entries for diagnostics.
pub struct ConsoleLogBox {
    pub messages: Vec<String>,
    pub limit: u32,
}

impl ConsoleLogBox {
    pub fn new() -> (b: ConsoleLogBox)
        ensures
            b.messages@.len() == 0,
            b.limit == 30,
    {
        ConsoleLogBox { messages: Vec::new(), limit: 30 }
    }

    pub fn add_message(&mut self, message: String)
        ensures
            final(self).messages@ == old(self).messages@.push(message),
            final(self).limit == old(self).limit,
    {
        self.messages.push(message);
    }

    /// Read access to the whole message log, oldest first.
    pub fn messages(&self) -> (m: &Vec<String>)
        ensures
            m@ == self.messages@,
    {
        &self.messages
    }
}

} // verus!
