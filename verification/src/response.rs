//! The plain reply shapes that the HTTP layer serialises.
//!
//! These carry no behaviour beyond their constructors; the serialisation
//! itself (and the derives it needs) lives with the HTTP glue outside this
//! crate, which copies these fields one for one.

use vstd::prelude::*;
use crate::measurement::Measurement;

verus! {

/// A status-only reply: success, or failure with a message.
pub struct Response {
    pub success: bool,
    pub message: Option<String>,
}

impl Response {
    /// The affirmative reply: success, no message.
    pub fn ok() -> (r: Response)
        ensures
            r.success,
            r.message is None,
    {
        Response { success: true, message: None }
    }

    /// A failure reply carrying the given message.
    pub fn err(msg: &str) -> (r: Response)
        ensures
            !r.success,
            r.message matches Some(m) && m@ == msg@,
    {
        Response { success: false, message: Some(msg.to_owned()) }
    }
}

/// A reply carrying a run of measurements.
pub struct DataResponse {
    pub success: bool,
    pub data: Vec<Measurement>,
}

impl DataResponse {
    /// Wraps a run of measurements as a successful reply.
    pub fn new(data: Vec<Measurement>) -> (r: DataResponse)
        ensures
            r.success,
            r.data@ == data@,
    {
        DataResponse { success: true, data }
    }
}

} // verus!
