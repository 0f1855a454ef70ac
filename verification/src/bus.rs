use vstd::prelude::*;
use std::collections::VecDeque;
use crate::ingest::{broadcast_text, format_event, NormalizedEvent};

verus! {

/// The ordered queue between the producers of broadcast messages and the
/// dispatch loop. Its view is the sequence of waiting messages, oldest first.
pub struct EventBus {
    queue: VecDeque<String>,
}

impl View for EventBus {
    type V = Seq<String>;

    closed spec fn view(&self) -> Seq<String> {
        self.queue@
    }
}

impl EventBus {
    /// An empty bus.
    pub fn new() -> (bus: Self)
        ensures
            bus@ == Seq::<String>::empty(),
    {
        EventBus { queue: VecDeque::new() }
    }

    /// The number of messages that wait.
    pub fn len(&self) -> (n: usize)
        ensures
            n == self@.len(),
    {
        self.queue.len()
    }

    /// Whether no message waits.
    pub fn is_empty(&self) -> (b: bool)
        ensures
            b == (self@.len() == 0),
    {
        self.queue.len() == 0
    }

    /// Puts `message` behind all the messages that wait, as it is.
    pub fn notify(&mut self, message: String)
        ensures
            final(self)@ == old(self)@.push(message),
    {
        self.queue.push_back(message);
    }

    /// Puts the payload of a chat event behind all the messages that wait.
    pub fn publish(&mut self, event: NormalizedEvent)
        ensures
            final(self)@.len() == old(self)@.len() + 1,
            final(self)@.drop_last() == old(self)@,
            final(self)@.last()@ == broadcast_text(event.username@, event.text@),
    {
        let payload = format_event(event);
        self.queue.push_back(payload);
        assert(final(self)@.drop_last() =~= old(self)@);
    }

    /// Takes the oldest message off the bus, if there is one.
    pub fn next_message(&mut self) -> (message: Option<String>)
        ensures
            old(self)@.len() == 0 ==> message.is_none() && final(self)@ == old(self)@,
            old(self)@.len() > 0 ==> message == Some(old(self)@[0]) && final(self)@ == old(
                self,
            )@.drop_first(),
    {
        let message = self.queue.pop_front();
        proof {
            if old(self)@.len() > 0 {
                assert(final(self)@ =~= old(self)@.drop_first());
            }
        }
        message
    }
}

/// Messages leave the bus in the order in which they came: after the
/// `waiting` messages have been taken, `first` leaves before `second`.
pub proof fn lemma_bus_is_fifo(waiting: Seq<String>, first: String, second: String)
    ensures
        waiting.push(first).push(second).skip(waiting.len() as int) == seq![first, second],
        waiting.push(first).push(second).take(waiting.len() as int) == waiting,
{
    let all = waiting.push(first).push(second);
    assert(all.skip(waiting.len() as int) =~= seq![first, second]);
    assert(all.take(waiting.len() as int) =~= waiting);
}

} // verus!
