use vstd::prelude::*;

verus! {

/// Reason given with every protocol violation, as the wire peer sees it.
pub const BAD_REQUEST: &'static str = "bad request";

/// The error result of a parse attempt. Exactly one of three conditions
/// holds of a value:
/// - empty (`is_empty`): the peer closed the connection before the message
///   was complete — an orderly teardown signal, not a fault;
/// - a protocol violation (`is_violation`): malformed input;
/// - a transport failure (`is_io`): the byte source reported an error.
pub struct ParseError {
    ioe: Option<String>,
    ue: Option<&'static str>,
}

impl ParseError {
    /// True of errors carrying a transport failure.
    pub closed spec fn spec_io(self) -> bool {
        self.ioe is Some
    }

    /// True of errors carrying a protocol violation.
    pub closed spec fn spec_violation(self) -> bool {
        self.ioe is None && self.ue is Some
    }

    /// True of the empty error, the orderly-close signal.
    pub closed spec fn spec_empty(self) -> bool {
        self.ioe is None && self.ue is None
    }

    /// Builds a transport-failure error from the transport's message.
    pub fn ioe(v: String) -> (r: Self)
        ensures
            r.spec_io(),
            !r.spec_violation(),
            !r.spec_empty(),
    {
        Self { ioe: Some(v), ue: None }
    }

    /// Builds a protocol-violation error with its reason.
    pub fn ue(v: &'static str) -> (r: Self)
        ensures
            r.spec_violation(),
            !r.spec_io(),
            !r.spec_empty(),
    {
        Self { ioe: None, ue: Some(v) }
    }

    /// Builds the empty error: the peer closed before the message was done.
    pub fn empty() -> (r: Self)
        ensures
            r.spec_empty(),
            !r.spec_io(),
            !r.spec_violation(),
    {
        Self { ioe: None, ue: None }
    }

    /// True iff this is the orderly-close signal.
    pub fn is_empty(&self) -> (r: bool)
        ensures
            r == self.spec_empty(),
    {
        self.ioe.is_none() && self.ue.is_none()
    }

    /// True iff this reports malformed input.
    pub fn is_violation(&self) -> (r: bool)
        ensures
            r == self.spec_violation(),
    {
        self.ioe.is_none() && self.ue.is_some()
    }

    /// True iff this reports a transport failure.
    pub fn is_io(&self) -> (r: bool)
        ensures
            r == self.spec_io(),
    {
        self.ioe.is_some()
    }

    /// A readable account of the error, for logs and diagnostics.
    pub fn describe(&self) -> (r: String)
        ensures
            self.spec_empty() ==> r@ == "empty parse error"@,
    {
        match &self.ioe {
            Some(m) => m.clone(),
            None => match &self.ue {
                Some(u) => (*u).to_owned(),
                None => "empty parse error".to_owned(),
            },
        }
    }
}

} // verus!
