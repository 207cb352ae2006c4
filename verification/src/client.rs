//! The address that log messages are posted to.

use vstd::prelude::*;
use vstd::string::StringExecFns;

verus! {

/// The path under the ingest address that log messages are posted to.
pub open spec fn logs_path() -> Seq<char> {
    "/logs"@
}

/// The sender of log messages to the ingest endpoint. It holds the base
/// address; the request itself is made outside this library.
pub struct IngestClient {
    uri: String,
}

impl View for IngestClient {
    type V = Seq<char>;

    closed spec fn view(&self) -> Seq<char> {
        self.uri@
    }
}

impl IngestClient {
    /// A client for the endpoint at `uri`.
    pub fn new(uri: &str) -> (res: Self)
        ensures
            res@ == uri@,
    {
        IngestClient { uri: uri.to_owned() }
    }

    /// The address that each message is posted to: the base address
    /// followed by `/logs`.
    pub fn url(&self) -> (res: String)
        ensures
            res@ == self@ + logs_path(),
    {
        self.uri.clone().concat("/logs")
    }
}

} // verus!
