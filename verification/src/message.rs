use vstd::prelude::*;
use crate::bytebuf::{bm_bytes, bm_clear, bm_len, bm_push, bm_to_vec, bm_with_capacity};
use crate::err::{ParseError, BAD_REQUEST};
use crate::headers::{ContentLength, Headers};
use crate::machine::{
    init_state, lemma_run_concat, lemma_run_snoc, lemma_step_ok, parse_hex_bytes, parse_outcome,
    run, spec_step, state_ok, MState, Outcome, Phase,
};
use crate::source::MemSource;

verus! {

/// Scratch-buffer capacity in bytes: the read granularity of the parser.
/// Must be positive.
pub const MESSAGE_BUFFER_SIZE: usize = 4096;

/// The mutable parse state for one request cycle: the startline fields, the
/// header store, the body, the scanner's scratches, and the reusable
/// scratch buffer with its unconsumed window.
pub struct Message {
    phase: Phase,
    method: Vec<u8>,
    target: Vec<u8>,
    version: Vec<u8>,
    hkey: Vec<u8>,
    hval: Vec<u8>,
    seen_colon: bool,
    headers: Headers,
    body: bytes::BytesMut,
    chunk_acc: Vec<u8>,
    remain: usize,
    buf: Vec<u8>,
    bufsize: usize,
    bufremains: usize,
}

impl Message {
    /// The machine state this message embodies.
    pub closed spec fn abs(self) -> MState {
        MState {
            phase: self.phase,
            method: self.method@,
            target: self.target@,
            version: self.version@,
            hkey: self.hkey@,
            hval: self.hval@,
            seen_colon: self.seen_colon,
            headers: self.headers@,
            body: bm_bytes(self.body),
            chunk_acc: self.chunk_acc@,
            remain: self.remain as int,
        }
    }

    /// The scratch buffer is consistent: the unconsumed window lies inside
    /// the valid prefix, and the buffer is either unallocated or at its
    /// fixed capacity.
    pub closed spec fn wf(self) -> bool {
        &&& self.bufremains <= self.bufsize <= self.buf@.len()
        &&& (self.buf@.len() == 0 || self.buf@.len() == MESSAGE_BUFFER_SIZE as int)
    }

    /// Ready for a parse attempt: the machine state is the initial one and
    /// the unconsumed window is empty.
    pub closed spec fn is_reset(self) -> bool {
        &&& self.abs() == init_state()
        &&& self.bufremains == 0
    }

    /// The scratch buffer's allocated size (zero before first use).
    pub closed spec fn buf_len(self) -> int {
        self.buf@.len() as int
    }

    /// A fresh message, ready to parse; no scratch buffer is allocated yet.
    pub fn new() -> (r: Self)
        ensures
            r.wf(),
            r.is_reset(),
            r.buf_len() == 0,
    {
        let r = Message {
            phase: Phase::Method,
            method: Vec::new(),
            target: Vec::new(),
            version: Vec::new(),
            hkey: Vec::new(),
            hval: Vec::new(),
            seen_colon: false,
            headers: Headers::new(),
            body: bm_with_capacity(0),
            chunk_acc: Vec::new(),
            remain: 0,
            buf: Vec::new(),
            bufsize: 0,
            bufremains: 0,
        };
        proof {
            assert(r.abs() == init_state());
        }
        r
    }

    /// Resets startline, headers, body and window to empty, keeping the
    /// scratch buffer's allocation: reuse after this parses like new.
    pub fn clear(&mut self)
        requires
            old(self).wf(),
        ensures
            final(self).wf(),
            final(self).is_reset(),
            final(self).buf_len() == old(self).buf_len(),
    {
        self.phase = Phase::Method;
        self.method.clear();
        self.target.clear();
        self.version.clear();
        self.hkey.clear();
        self.hval.clear();
        self.seen_colon = false;
        self.headers.clear();
        bm_clear(&mut self.body);
        self.chunk_acc.clear();
        self.remain = 0;
        self.bufsize = 0;
        self.bufremains = 0;
        proof {
            assert(self.abs() == init_state());
        }
    }

    /// One scanner transition on input byte `c`; the buffer fields are
    /// untouched.
    fn step_byte(&mut self, c: u8)
        requires
            state_ok(old(self).abs()),
        ensures
            final(self).abs() == spec_step(old(self).abs(), c),
            state_ok(final(self).abs()),
            final(self).buf@ == old(self).buf@,
            final(self).bufsize == old(self).bufsize,
            final(self).bufremains == old(self).bufremains,
    {
        proof {
            lemma_step_ok(old(self).abs(), c);
        }
        match self.phase {
            Phase::Method => {
                if c == 32 {
                    self.phase = Phase::Target;
                } else {
                    self.method.push(c);
                }
            },
            Phase::Target => {
                if c == 32 {
                    self.phase = Phase::Version;
                } else {
                    self.target.push(c);
                }
            },
            Phase::Version => {
                if c == 13 {
                    self.phase = Phase::VersionLf;
                } else {
                    self.version.push(c);
                }
            },
            Phase::VersionLf => {
                if c == 10 {
                    self.phase = Phase::Header;
                } else {
                    self.phase = Phase::Failed;
                }
            },
            Phase::Header => {
                if c == 13 {
                    if !self.seen_colon && self.hkey.len() == 0 {
                        self.phase = Phase::HeaderEndLf;
                    } else if self.hkey.len() > 0 && self.hval.len() > 0 {
                        self.headers.append(&self.hkey, &self.hval);
                        self.hkey.clear();
                        self.hval.clear();
                        self.seen_colon = false;
                        self.phase = Phase::HeaderLf;
                    } else {
                        self.phase = Phase::Failed;
                    }
                } else if self.seen_colon {
                    self.hval.push(c);
                } else if c == 58 {
                    self.seen_colon = true;
                } else {
                    self.hkey.push(c);
                }
            },
            Phase::HeaderLf => {
                if c == 10 {
                    self.phase = Phase::Header;
                } else {
                    self.phase = Phase::Failed;
                }
            },
            Phase::HeaderEndLf => {
                if c == 10 {
                    match self.headers.content_length() {
                        ContentLength::Invalid => {
                            self.phase = Phase::Failed;
                        },
                        ContentLength::Length(n) => {
                            if n == 0 {
                                self.phase = Phase::Done;
                            } else {
                                if bm_len(&self.body) == 0 {
                                    proof {
                                        assert(bm_bytes(self.body) =~= Seq::<u8>::empty());
                                    }
                                    self.body = bm_with_capacity(n);
                                }
                                self.remain = n;
                                self.phase = Phase::SizedBody;
                            }
                        },
                        ContentLength::Absent => {
                            if self.headers.is_chunked() {
                                if bm_len(&self.body) == 0 {
                                    proof {
                                        assert(bm_bytes(self.body) =~= Seq::<u8>::empty());
                                    }
                                    self.body = bm_with_capacity(MESSAGE_BUFFER_SIZE);
                                }
                                self.phase = Phase::ChunkSize;
                            } else {
                                self.phase = Phase::Done;
                            }
                        },
                    }
                } else {
                    self.phase = Phase::Failed;
                }
            },
            Phase::SizedBody => {
                bm_push(&mut self.body, c);
                if self.remain <= 1 {
                    self.remain = 0;
                    self.phase = Phase::Done;
                } else {
                    self.remain = self.remain - 1;
                }
            },
            Phase::ChunkSize => {
                if c == 13 {
                    self.phase = Phase::ChunkSizeLf;
                } else {
                    self.chunk_acc.push(c);
                }
            },
            Phase::ChunkSizeLf => {
                if c == 10 {
                    match parse_hex_bytes(&self.chunk_acc) {
                        None => {
                            self.phase = Phase::Failed;
                        },
                        Some(n) => {
                            if n == 0 {
                                self.chunk_acc.clear();
                                self.phase = Phase::ChunkEndCr;
                            } else {
                                self.chunk_acc.clear();
                                self.remain = n;
                                self.phase = Phase::ChunkData;
                            }
                        },
                    }
                } else {
                    self.phase = Phase::Failed;
                }
            },
            Phase::ChunkData => {
                bm_push(&mut self.body, c);
                if self.remain <= 1 {
                    self.remain = 0;
                    self.phase = Phase::ChunkDataCr;
                } else {
                    self.remain = self.remain - 1;
                }
            },
            Phase::ChunkDataCr => {
                if c == 13 {
                    self.phase = Phase::ChunkDataLf;
                } else {
                    self.phase = Phase::Failed;
                }
            },
            Phase::ChunkDataLf => {
                if c == 10 {
                    self.phase = Phase::ChunkSize;
                } else {
                    self.phase = Phase::Failed;
                }
            },
            Phase::ChunkEndCr => {
                if c == 13 {
                    self.phase = Phase::ChunkEndLf;
                } else {
                    self.phase = Phase::Failed;
                }
            },
            Phase::ChunkEndLf => {
                if c == 10 {
                    self.phase = Phase::Done;
                } else {
                    self.phase = Phase::Failed;
                }
            },
            Phase::Done => {},
            Phase::Failed => {},
        }
    }

    /// Parses one request from the source: startline, headers, then the
    /// body per Content-Length or chunked framing. The result, and every
    /// field an accessor can observe, is exactly what `parse_outcome` says
    /// of the byte stream the source delivers: `None` on a complete
    /// message, the empty error when the peer closed mid-message, the
    /// protocol-violation error on malformed input.
    #[verifier::loop_isolation(false)]
    pub fn from(&mut self, src: &mut MemSource) -> (r: Option<ParseError>)
        requires
            old(self).wf(),
            old(self).is_reset(),
            old(src).wf(),
        ensures
            final(self).wf(),
            final(src).wf(),
            ({
                let out = parse_outcome(old(src).remaining());
                match r {
                    None => out == Outcome::Success(final(self).abs()),
                    Some(e) => {
                        &&& !e.spec_io()
                        &&& (e.spec_empty() ==> out == Outcome::Closed)
                        &&& (e.spec_violation() ==> out == Outcome::Violation)
                        &&& (e.spec_empty() || e.spec_violation())
                    },
                }
            }),
            exists|k: int|
                0 <= k <= old(src).remaining().len() && final(src).remaining() == old(
                    src,
                ).remaining().skip(k),
    {
        let ghost stream = src.remaining();
        if self.buf.len() == 0 {
            let b: Vec<u8> = vec![0u8; MESSAGE_BUFFER_SIZE];
            self.buf = b;
        }
        let ghost mut nread: int = 0;
        let ghost mut pos: int = 0;
        proof {
            assert(stream.take(0) =~= Seq::<u8>::empty());
            assert(stream.skip(0) =~= stream);
        }
        while self.phase != Phase::Done && self.phase != Phase::Failed
            invariant
                self.wf(),
                self.buf@.len() == MESSAGE_BUFFER_SIZE as int,
                src.wf(),
                state_ok(self.abs()),
                0 <= pos <= nread <= stream.len(),
                pos == nread - self.bufremains,
                src.remaining() == stream.skip(nread),
                forall|j: int|
                    pos <= j < nread ==> self.buf@[self.bufsize - nread + j] == stream[j],
                run(init_state(), stream.take(pos)) == (self.abs(), pos),
            decreases stream.len() - pos,
        {
            if self.bufremains == 0 {
                let n = src.read(&mut self.buf, MESSAGE_BUFFER_SIZE);
                if n == 0 {
                    proof {
                        assert(nread == stream.len());
                        assert(stream.take(pos) =~= stream);
                        assert(src.remaining() == old(src).remaining().skip(nread));
                    }
                    return Some(ParseError::empty());
                }
                self.bufsize = n;
                self.bufremains = n;
                proof {
                    let old_nread = nread;
                    nread = nread + n;
                    assert forall|j: int|
                        pos <= j < nread implies self.buf@[self.bufsize - nread + j] == stream[j] by {
                        let m = j - pos;
                        assert(self.buf@.subrange(0, n as int)[m] == self.buf@[m]);
                        assert(stream.skip(old_nread).take(n as int)[m] == stream[old_nread + m]);
                    };
                }
            }
            let i = self.bufsize - self.bufremains;
            proof {
                assert(self.buf@[self.bufsize - nread + pos] == stream[pos]);
                assert(i as int == self.bufsize - nread + pos);
            }
            let c = self.buf[i];
            proof {
                lemma_run_snoc(init_state(), stream.take(pos), c);
                assert(stream.take(pos).push(stream[pos]) =~= stream.take(pos + 1));
            }
            self.step_byte(c);
            self.bufremains = self.bufremains - 1;
            proof {
                pos = pos + 1;
            }
        }
        proof {
            lemma_run_concat(init_state(), stream.take(pos), stream.skip(pos));
            assert(stream.take(pos) + stream.skip(pos) =~= stream);
            assert(src.remaining() == old(src).remaining().skip(nread));
        }
        if self.phase == Phase::Failed {
            return Some(ParseError::ue(BAD_REQUEST));
        }
        None
    }

    /// True iff the message is reset and a parse attempt may start.
    pub fn check_reset(&self) -> (r: bool)
        ensures
            r == self.is_reset(),
    {
        let r = self.phase == Phase::Method && self.method.len() == 0 && self.target.len() == 0
            && self.version.len() == 0 && self.hkey.len() == 0 && self.hval.len() == 0
            && !self.seen_colon && self.headers.len() == 0 && bm_len(&self.body) == 0
            && self.chunk_acc.len() == 0 && self.remain == 0 && self.bufremains == 0;
        proof {
            if r {
                assert(self.method@ =~= Seq::<u8>::empty());
                assert(self.target@ =~= Seq::<u8>::empty());
                assert(self.version@ =~= Seq::<u8>::empty());
                assert(self.hkey@ =~= Seq::<u8>::empty());
                assert(self.hval@ =~= Seq::<u8>::empty());
                assert(self.headers@ =~= Seq::<(Seq<u8>, Seq<u8>)>::empty());
                assert(bm_bytes(self.body) =~= Seq::<u8>::empty());
                assert(self.chunk_acc@ =~= Seq::<u8>::empty());
                assert(self.abs() == init_state());
            }
        }
        r
    }

    /// The request method, as collected from the startline.
    pub fn method(&self) -> (r: &Vec<u8>)
        ensures
            r@ == self.abs().method,
    {
        &self.method
    }

    /// The request target, as collected from the startline.
    pub fn target(&self) -> (r: &Vec<u8>)
        ensures
            r@ == self.abs().target,
    {
        &self.target
    }

    /// The protocol version, as collected from the startline.
    pub fn version(&self) -> (r: &Vec<u8>)
        ensures
            r@ == self.abs().version,
    {
        &self.version
    }

    /// The header store populated by the last parse.
    pub fn headers(&self) -> (r: &Headers)
        ensures
            r@ == self.abs().headers,
    {
        &self.headers
    }

    /// The body bytes materialized by the last parse; empty for a bodyless
    /// request.
    pub fn body(&self) -> (r: Vec<u8>)
        ensures
            r@ == self.abs().body,
    {
        bm_to_vec(&self.body)
    }
}

} // verus!
