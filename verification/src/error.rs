use vstd::prelude::*;

verus! {

/// Machine-readable category of a request failure.
#[derive(Clone, Copy, Debug, PartialEq, Eq, Structural)]
pub enum Code {
    InternalError,
    OrderNotFound,
    TooManyTickets,
    OrderCompleted,
    InvalidIdToken,
    MissingCookie,
    TicketNotFound,
}

/// An error as reported to a client: a category plus a human-readable message.
#[derive(Debug)]
pub struct ResponseError {
    pub code: Code,
    pub message: String,
}

impl ResponseError {
    pub fn new(code: Code, message: String) -> (r: Self)
        ensures
            r.code == code,
            r.message == message,
    {
        Self { code, message }
    }
}

} // verus!
