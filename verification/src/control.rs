//! What the feed client does with a call from the control plane.
use vstd::prelude::*;
use vstd::utf8::{decode_utf8, valid_utf8};
use crate::queue::TwoWayQueue;
use crate::text::same_text;

verus! {

/// A call to the feed client.
pub enum Call {
    NewLine(String),
}

/// What the client does with a call.
pub enum CallAction {
    /// Close the connection normally, with this parting word.
    Close(String),
    /// Send this text to the feed.
    Send(String),
}

impl Call {
    /// The action a call asks for: the line `exit` closes the connection
    /// with the word `adios!`, every other line is sent as it is.
    pub fn action(self) -> (r: CallAction)
        ensures
            match self {
                Call::NewLine(line) => if line@ == "exit"@ {
                    r matches CallAction::Close(word) && word@ == "adios!"@
                } else {
                    r matches CallAction::Send(text) && text@ == line@
                },
            },
    {
        match self {
            Call::NewLine(line) => {
                if same_text(line.as_str(), "exit") {
                    CallAction::Close(String::from_str("adios!"))
                } else {
                    CallAction::Send(line)
                }
            },
        }
    }
}

/// `std::str::from_utf8`: the text that the bytes encode, where they are
/// UTF-8 at all.
#[verifier::external_body]
fn text_of<'a>(body: &'a [u8]) -> (r: Option<&'a str>)
    ensures
        r is Some <==> valid_utf8(body@),
        r is Some ==> r->Some_0@ == decode_utf8(body@),
{
    std::str::from_utf8(body).ok()
}

/// The answer to a request: a status code and a word for the caller.
pub struct Reply {
    pub status: u16,
    pub text: String,
}

/// Takes in the body of a request to send a message. A body that is UTF-8
/// is queued as a message and answered with 200; any other body is turned
/// down with 400 and the queue stays as it is.
pub fn send_message(queue: &mut TwoWayQueue, body: &[u8]) -> (r: Reply)
    ensures
        valid_utf8(body@) ==> r.status == 200 && r.text@ == "Message received"@ && final(queue)@
            == seq![decode_utf8(body@)] + old(queue)@,
        !valid_utf8(body@) ==> r.status == 400 && r.text@ == "Invalid message"@ && final(queue)@
            == old(queue)@,
{
    match text_of(body) {
        Some(message) => {
            queue.push(String::from_str(message));
            Reply { status: 200, text: String::from_str("Message received") }
        },
        None => Reply { status: 400, text: String::from_str("Invalid message") },
    }
}

/// The status that answers a request to stop the feed client, given what
/// closing the connection came to: 200 where it closed, 500 where it did
/// not or could not be asked.
pub fn stop_status(closed: &Result<bool, String>) -> (status: u16)
    ensures
        status == 200 <==> closed == Ok::<bool, String>(true),
        status == 200 || status == 500,
{
    match closed {
        Ok(true) => 200,
        Ok(false) => 500,
        Err(_) => 500,
    }
}

} // verus!
