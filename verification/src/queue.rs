//! A queue of messages between several writers and one reader. What was
//! pushed first is popped first.
use vstd::prelude::*;
use std::collections::VecDeque;

verus! {

/// A queue of messages. Its view lists them, the newest in front and the
/// oldest at the end.
pub struct TwoWayQueue {
    data: VecDeque<String>,
}

impl View for TwoWayQueue {
    type V = Seq<Seq<char>>;

    closed spec fn view(&self) -> Seq<Seq<char>> {
        self.data.deep_view()
    }
}

impl TwoWayQueue {
    /// A queue without messages.
    pub fn new() -> (r: Self)
        ensures
            r@.len() == 0,
    {
        TwoWayQueue { data: VecDeque::new() }
    }

    /// Puts `value` in front of the messages that wait.
    pub fn push(&mut self, value: String)
        ensures
            final(self)@ == seq![value@] + old(self)@,
    {
        let ghost was = self.data.deep_view();
        self.data.push_front(value);
        assert(self.data.deep_view() =~= seq![value@] + was);
    }

    /// Takes the message that has waited longest. An empty queue gives
    /// nothing and stays as it is.
    pub fn pop(&mut self) -> (r: Option<String>)
        ensures
            old(self)@.len() == 0 ==> r is None && final(self)@ == old(self)@,
            old(self)@.len() > 0 ==> r is Some && r->Some_0@ == old(self)@.last() && final(self)@
                == old(self)@.drop_last(),
    {
        let ghost was = self.data.deep_view();
        let r = self.data.pop_back();
        proof {
            if was.len() > 0 {
                assert(self.data.deep_view() =~= was.drop_last());
            } else {
                assert(self.data.deep_view() =~= was);
            }
        }
        r
    }

    /// The number of messages that wait.
    pub fn len(&self) -> (n: usize)
        ensures
            n == self@.len(),
    {
        self.data.len()
    }
}

} // verus!
