use vstd::prelude::*;
use vstd::string::StringExecFns;

verus! {

/// The library's own error type. Failures of outside collaborators
/// (request building, URL parsing) are mapped into `RequestError`
/// by the callers that meet them.
#[derive(Debug)]
pub enum DecktError {
    RequestError { msg: String },
    Unknown,
}

impl DecktError {
    /// The human-readable description of the error.
    pub fn message(&self) -> (s: String)
        ensures
            (match *self {
                DecktError::RequestError { msg } => s@ == "Unable to build request - Reason > "@
                    + msg@,
                DecktError::Unknown => s@ == "An unknown error occured."@,
            }),
    {
        match self {
            DecktError::RequestError { msg } => {
                let mut s = String::from_str("Unable to build request - Reason > ");
                s.append(msg.as_str());
                s
            },
            DecktError::Unknown => String::from_str("An unknown error occured."),
        }
    }
}

} // verus!
