//! The errors that a request is answered with.

use vstd::prelude::*;

verus! {

/// An error that a control request is answered with.
#[derive(Debug)]
pub enum HttpError {
    /// The request body could not be understood; the string is what the
    /// answer carries under `"Err"`.
    BadRequest(String),
}

/// The text that a bad request is answered with when no other is given.
pub open spec fn default_bad_request() -> Seq<char> {
    "Bad Request"@
}

impl Clone for HttpError {
    fn clone(&self) -> (res: Self)
        ensures
            res == *self,
    {
        match self {
            HttpError::BadRequest(s) => HttpError::BadRequest(s.clone()),
        }
    }
}

impl HttpError {
    /// The status code of the answer.
    pub open spec fn spec_status_code(&self) -> u16 {
        400
    }

    /// The text under `"Err"` in the answer.
    pub open spec fn spec_message(&self) -> Seq<char> {
        match self {
            HttpError::BadRequest(s) => s@,
        }
    }

    /// A bad request with the given text, or with `Bad Request` where none
    /// is given.
    pub fn bad_request(message: Option<String>) -> (res: Self)
        ensures
            res.spec_message() == match message {
                Some(m) => m@,
                None => default_bad_request(),
            },
    {
        match message {
            Some(m) => HttpError::BadRequest(m),
            None => HttpError::BadRequest("Bad Request".to_owned()),
        }
    }

    /// The status code of the answer: always 400.
    pub fn status_code(&self) -> (res: u16)
        ensures
            res == self.spec_status_code(),
    {
        400
    }

    /// The text under `"Err"` in the answer.
    pub fn message(&self) -> (res: &str)
        ensures
            res@ == self.spec_message(),
    {
        match self {
            HttpError::BadRequest(s) => s.as_str(),
        }
    }
}

} // verus!
