use vstd::prelude::*;
use warp::ws::Message;

verus! {

/// warp's WebSocket message. Nothing inside it is visible to the proofs.
#[verifier::external_type_specification]
#[verifier::external_body]
pub struct ExMessage(Message);

/// The frame that warp's `Message::text` builds for a text.
pub uninterp spec fn text_message(payload: Seq<char>) -> Message;

/// Calls warp's `Message::text`. Trusted: the frame that comes back depends
/// on the text alone. In warp it is a text message that holds the text
/// unchanged, so `to_str` on it gives the text back.
#[verifier::external_body]
pub(crate) fn text_frame(payload: &str) -> (frame: Message)
    ensures
        frame == text_message(payload@),
{
    Message::text(payload)
}

} // verus!
