use vstd::prelude::*;
use vstd::string::*;

verus! {

/// Misuse of the tracing setup or teardown.
#[derive(Debug)]
pub enum TimedError {
    /// Tracing outputs were installed a second time.
    TracingInitializationFailed,
    /// A session could not be finished; the text says why.
    TracingFinishFailed(String),
}

impl TimedError {
    pub open spec fn message_text(&self) -> Seq<char> {
        match self {
            TimedError::TracingInitializationFailed => "Tracing can only be initialized once"@,
            TimedError::TracingFinishFailed(why) => "Tracing finish failed: "@ + why@,
        }
    }

    /// A sentence that describes the error.
    pub fn message(&self) -> (r: String)
        ensures
            r@ == self.message_text(),
    {
        match self {
            TimedError::TracingInitializationFailed => String::from_str("Tracing can only be initialized once"),
            TimedError::TracingFinishFailed(why) => {
                let mut out = String::from_str("Tracing finish failed: ");
                out.append(why.as_str());
                out
            },
        }
    }
}

} // verus!
