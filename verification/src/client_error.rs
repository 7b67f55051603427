//! What a client is told when a response is not the one it waited for.

use vstd::prelude::*;

use crate::broker::protocol;
use crate::broker::protocol::push_hex_byte;

verus! {

/// Why a request did not succeed.
#[derive(Debug)]
pub enum ClientError {
    /// The broker refused the request, or its response could not be decoded.
    Other(String),
    /// The response does not belong to the request.
    InvalidData(String),
}

/// A `ClientError` with its text as a character sequence.
pub enum ClientErrorView {
    Other(Seq<char>),
    InvalidData(Seq<char>),
}

impl View for ClientError {
    type V = ClientErrorView;

    open spec fn view(&self) -> ClientErrorView {
        match self {
            ClientError::Other(text) => ClientErrorView::Other(text@),
            ClientError::InvalidData(text) => ClientErrorView::InvalidData(text@),
        }
    }
}

/// What a producer is told of an error response.
pub open spec fn broker_error_text(code: u8, message: Seq<char>) -> Seq<char> {
    "broker error "@ + protocol::hex_byte(code) + ": "@ + message
}

/// What a producer is told of an error response.
pub fn broker_error(code: u8, message: &String) -> (e: ClientError)
    ensures
        e@ == ClientErrorView::Other(broker_error_text(code, message@)),
{
    let mut out = String::from_str("broker error ");
    push_hex_byte(&mut out, code);
    out.append(": ");
    out.append(message.as_str());
    ClientError::Other(out)
}

/// What a client is told of a response that does not belong to its request.
pub fn invalid_data(text: &str) -> (e: ClientError)
    ensures
        e@ == ClientErrorView::InvalidData(text@),
{
    ClientError::InvalidData(String::from_str(text))
}

} // verus!
