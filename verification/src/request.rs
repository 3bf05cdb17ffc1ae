use vstd::prelude::*;
use crate::err::ParseError;
use crate::headers::Headers;
use crate::machine::{parse_outcome, MState, Outcome};
use crate::message::Message;
use crate::source::MemSource;

verus! {

/// One request, owning exactly one message. Lifecycle: construct once per
/// connection, call `from` to parse, read the accessors, then `clear`
/// before the next parse; the scratch buffer's allocation is retained
/// across cycles.
pub struct Request {
    msg: Message,
}

impl Request {
    /// The machine state of the owned message.
    pub closed spec fn abs(self) -> MState {
        self.msg.abs()
    }

    /// The owned message's buffer is consistent.
    pub closed spec fn wf(self) -> bool {
        self.msg.wf()
    }

    /// Ready for a parse attempt.
    pub closed spec fn is_reset(self) -> bool {
        self.msg.is_reset()
    }

    /// A fresh request, ready to parse.
    pub fn new() -> (r: Self)
        ensures
            r.wf(),
            r.is_reset(),
    {
        Request { msg: Message::new() }
    }

    /// Resets the request for the next cycle, keeping allocations.
    pub fn clear(&mut self)
        requires
            old(self).wf(),
        ensures
            final(self).wf(),
            final(self).is_reset(),
    {
        self.msg.clear();
    }

    /// True iff the request is reset and may be handed to `from`.
    pub fn ready(&self) -> (r: bool)
        ensures
            r == self.is_reset(),
    {
        self.msg.check_reset()
    }

    /// Parses one request from the source. The result and all
    /// accessor-visible state are exactly what `parse_outcome` says of the
    /// bytes the source delivers: `None` on a complete message, the empty
    /// error when the peer closed mid-message, the protocol-violation
    /// error on malformed input.
    pub fn from(&mut self, src: &mut MemSource) -> (r: Option<ParseError>)
        requires
            old(self).wf(),
            old(self).is_reset(),
            old(src).wf(),
        ensures
            final(self).wf(),
            final(src).wf(),
            ({
                let out = parse_outcome(old(src).remaining());
                match r {
                    None => out == Outcome::Success(final(self).abs()),
                    Some(e) => {
                        &&& !e.spec_io()
                        &&& (e.spec_empty() ==> out == Outcome::Closed)
                        &&& (e.spec_violation() ==> out == Outcome::Violation)
                        &&& (e.spec_empty() || e.spec_violation())
                    },
                }
            }),
    {
        self.msg.from(src)
    }

    /// The request method.
    pub fn method(&self) -> (r: &Vec<u8>)
        ensures
            r@ == self.abs().method,
    {
        self.msg.method()
    }

    /// The request target.
    pub fn path(&self) -> (r: &Vec<u8>)
        ensures
            r@ == self.abs().target,
    {
        self.msg.target()
    }

    /// The protocol version.
    pub fn version(&self) -> (r: &Vec<u8>)
        ensures
            r@ == self.abs().version,
    {
        self.msg.version()
    }

    /// The header store populated by the last parse.
    pub fn headers(&self) -> (r: &Headers)
        ensures
            r@ == self.abs().headers,
    {
        self.msg.headers()
    }

    /// The body materialized by the last parse; empty for a bodyless
    /// request.
    pub fn body(&self) -> (r: Vec<u8>)
        ensures
            r@ == self.abs().body,
    {
        self.msg.body()
    }
}

} // verus!
