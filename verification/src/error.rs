//! Error types the client and server surface to their launchers.

use vstd::prelude::*;

verus! {

/// A client-side fault, in words.
#[derive(Debug, Clone)]
pub struct ClientError {
    message: String,
}

impl ClientError {
    /// The description this error carries, as spec text.
    pub closed spec fn spec_message(&self) -> Seq<char> {
        self.message@
    }

    /// Wraps a description of what went wrong.
    pub fn new(message: &str) -> (r: ClientError)
        ensures
            r.spec_message() == message@,
    {
        ClientError { message: message.to_owned() }
    }

    /// The description this error carries.
    pub fn message(&self) -> (r: &String)
        ensures
            r@ == self.spec_message(),
    {
        &self.message
    }
}

/// A server-side fault, in words.
#[derive(Debug, Clone)]
pub struct ServerError {
    message: String,
}

impl ServerError {
    /// The description this error carries, as spec text.
    pub closed spec fn spec_message(&self) -> Seq<char> {
        self.message@
    }

    /// Wraps a description of what went wrong.
    pub fn new(message: &str) -> (r: ServerError)
        ensures
            r.spec_message() == message@,
    {
        ServerError { message: message.to_owned() }
    }

    /// The description this error carries.
    pub fn message(&self) -> (r: &String)
        ensures
            r@ == self.spec_message(),
    {
        &self.message
    }
}

} // verus!
