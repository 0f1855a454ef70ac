use vstd::prelude::*;
use vstd::string::{StrSliceExecFns, StringExecFns};

verus! {

/// The command prefix: a chat message qualifies when its text begins with it.
pub const COMMAND_PREFIX: char = '!';

/// Whether a chat text, seen as its sequence of characters, is a command.
pub open spec fn is_command(text: Seq<char>) -> bool {
    text.len() > 0 && text[0] == COMMAND_PREFIX
}

/// What is kept of a qualifying chat message: who sent it, the whole text
/// with its prefix, and when it was received.
#[derive(Clone, Debug, PartialEq, Eq)]
pub struct NormalizedEvent {
    pub username: String,
    pub text: String,
    pub received_at: u64,
}

/// What the chat source can hand to the ingestor.
#[derive(Clone, Debug, PartialEq, Eq)]
pub enum SourceEvent {
    /// A chat message.
    Message { sender: String, text: String, received_at: u64 },
    /// Any other frame of the protocol, or one that could not be read.
    Other,
    /// The endpoint could not be reached, or the channel could not be joined.
    ConnectFailed,
    /// The source closed the stream, or reading from it failed.
    StreamEnded,
}

/// Why the ingestor stopped.
#[derive(Clone, Copy, Debug, PartialEq, Eq)]
pub enum IngestError {
    ConnectFailed,
    StreamEnded,
}

/// What the caller does after handing one event to the ingestor.
#[derive(Clone, Debug, PartialEq, Eq)]
pub enum IngestAction {
    /// Pass the event on.
    Emit(NormalizedEvent),
    /// Nothing to do: the input did not qualify.
    Discard,
    /// Report the failure; the ingestor has stopped and does not reconnect.
    Fail(IngestError),
}

/// The action that the ingestor owes for `event`, given whether it had
/// stopped before.
pub open spec fn action_for(stopped: bool, event: SourceEvent) -> IngestAction {
    if stopped {
        IngestAction::Discard
    } else {
        match event {
            SourceEvent::Message { sender, text, received_at } => if is_command(text@) {
                IngestAction::Emit(NormalizedEvent { username: sender, text, received_at })
            } else {
                IngestAction::Discard
            },
            SourceEvent::Other => IngestAction::Discard,
            SourceEvent::ConnectFailed => IngestAction::Fail(IngestError::ConnectFailed),
            SourceEvent::StreamEnded => IngestAction::Fail(IngestError::StreamEnded),
        }
    }
}

/// The payload under which an event travels to the subscribers: the
/// sender's name, one space, and the whole text of the message.
pub open spec fn broadcast_text(username: Seq<char>, text: Seq<char>) -> Seq<char> {
    username + seq![' '] + text
}

/// Whether the ingestor is stopped after `event`.
pub open spec fn stopped_after(stopped: bool, event: SourceEvent) -> bool {
    stopped || event is ConnectFailed || event is StreamEnded
}

/// Whether `text` begins with the command prefix.
pub fn qualifies(text: &str) -> (b: bool)
    ensures
        b == is_command(text@),
{
    if text.is_empty() {
        false
    } else {
        text.get_char(0) == COMMAND_PREFIX
    }
}

/// The event for a chat message, if the message is a command.
pub fn normalize(username: String, text: String, received_at: u64) -> (event: Option<NormalizedEvent>)
    ensures
        event == if is_command(text@) {
            Some(NormalizedEvent { username, text, received_at })
        } else {
            None
        },
{
    if qualifies(text.as_str()) {
        Some(NormalizedEvent { username, text, received_at })
    } else {
        None
    }
}

/// Turns an event into the payload that is broadcast for it.
pub fn format_event(event: NormalizedEvent) -> (payload: String)
    ensures
        payload@ == broadcast_text(event.username@, event.text@),
{
    let NormalizedEvent { username, text, received_at: _ } = event;
    let mut payload = username;
    proof {
        reveal_strlit(" ");
        assert(" "@ =~= seq![' ']);
    }
    payload.append(" ");
    payload.append(text.as_str());
    payload
}

/// The decisions of the read loop: it runs until the source fails or ends,
/// and then stays stopped.
pub struct Ingestor {
    stopped: bool,
}

impl Ingestor {
    /// The read loop has ended.
    pub closed spec fn stopped(&self) -> bool {
        self.stopped
    }

    /// A running ingestor.
    pub fn new() -> (g: Self)
        ensures
            !g.stopped(),
    {
        Ingestor { stopped: false }
    }

    /// Whether the read loop has ended.
    pub fn is_stopped(&self) -> (b: bool)
        ensures
            b == self.stopped(),
    {
        self.stopped
    }

    /// Takes one event from the source and says what to do with it.
    pub fn step(&mut self, event: SourceEvent) -> (action: IngestAction)
        ensures
            action == action_for(old(self).stopped(), event),
            final(self).stopped() == stopped_after(old(self).stopped(), event),
    {
        if self.stopped {
            return IngestAction::Discard;
        }
        match event {
            SourceEvent::Message { sender, text, received_at } => {
                match normalize(sender, text, received_at) {
                    Some(ev) => IngestAction::Emit(ev),
                    None => IngestAction::Discard,
                }
            },
            SourceEvent::Other => IngestAction::Discard,
            SourceEvent::ConnectFailed => {
                self.stopped = true;
                IngestAction::Fail(IngestError::ConnectFailed)
            },
            SourceEvent::StreamEnded => {
                self.stopped = true;
                IngestAction::Fail(IngestError::StreamEnded)
            },
        }
    }
}

/// A message that does not begin with the prefix never yields an event, and
/// one that does yields exactly the event with its sender and its whole text.
pub proof fn lemma_emit_iff_command(sender: String, text: String, received_at: u64)
    ensures
        is_command(text@) <==> action_for(
            false,
            SourceEvent::Message { sender, text, received_at },
        ) is Emit,
        is_command(text@) ==> action_for(false, SourceEvent::Message { sender, text, received_at })
            == IngestAction::Emit(NormalizedEvent { username: sender, text, received_at }),
        !is_command(text@) ==> action_for(false, SourceEvent::Message { sender, text, received_at })
            == IngestAction::Discard,
{
}

/// Once stopped, the ingestor emits nothing and stays stopped.
pub proof fn lemma_stopped_is_final(event: SourceEvent)
    ensures
        action_for(true, event) == IngestAction::Discard,
        stopped_after(true, event),
{
}

} // verus!
