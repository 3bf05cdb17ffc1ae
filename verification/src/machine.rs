use vstd::prelude::*;
use crate::headers::{
    spec_content_length, spec_is_chunked, lower_seq, trim_seq, ContentLength,
};

verus! {

// ---------------------------------------------------------------------------
// Hexadecimal chunk-size parsing.
// ---------------------------------------------------------------------------

/// The value of one hexadecimal digit, either case.
pub open spec fn hex_digit_val(b: u8) -> Option<int> {
    if 48 <= b && b <= 57 {
        Some((b - 48) as int)
    } else if 97 <= b && b <= 102 {
        Some((b - 87) as int)
    } else if 65 <= b && b <= 70 {
        Some((b - 55) as int)
    } else {
        None
    }
}

/// Runs a left-to-right hexadecimal accumulation; `None` on a non-digit byte
/// or once the value would not fit a `usize`.
pub open spec fn hex_run(s: Seq<u8>, acc: int) -> Option<int>
    decreases s.len(),
{
    if s.len() == 0 {
        Some(acc)
    } else {
        match hex_digit_val(s[0]) {
            None => None,
            Some(d) => if acc * 16 + d > usize::MAX as int {
                None
            } else {
                hex_run(s.skip(1), acc * 16 + d)
            },
        }
    }
}

/// The non-negative integer a hexadecimal chunk-size literal denotes, if it
/// is one and fits a `usize`; the empty literal denotes nothing.
pub open spec fn parse_hex(s: Seq<u8>) -> Option<int> {
    if s.len() == 0 {
        None
    } else {
        hex_run(s, 0)
    }
}

/// Parses a hexadecimal literal, rejecting the empty string, non-digits and
/// values over `usize::MAX`.
pub fn parse_hex_bytes(v: &Vec<u8>) -> (r: Option<usize>)
    ensures
        match r {
            Some(n) => parse_hex(v@) == Some(n as int),
            None => parse_hex(v@) is None,
        },
{
    if v.len() == 0 {
        return None;
    }
    let mut acc: usize = 0;
    let mut i: usize = 0;
    proof {
        assert(v@.skip(0) =~= v@);
    }
    while i < v.len()
        invariant
            i <= v.len(),
            v@.len() > 0,
            hex_run(v@, 0) == hex_run(v@.skip(i as int), acc as int),
        decreases v.len() - i,
    {
        let b = v[i];
        let d: usize = if 48 <= b && b <= 57 {
            (b - 48) as usize
        } else if 97 <= b && b <= 102 {
            (b - 87) as usize
        } else if 65 <= b && b <= 70 {
            (b - 55) as usize
        } else {
            return None;
        };
        let wide: u128 = (acc as u128) * 16 + (d as u128);
        if wide > (usize::MAX as u128) {
            return None;
        }
        proof {
            assert(v@.skip(i as int)[0] == v@[i as int]);
            assert(v@.skip(i as int).skip(1) =~= v@.skip(i + 1int));
        }
        acc = wide as usize;
        i = i + 1;
    }
    proof {
        assert(v@.skip(v@.len() as int) =~= Seq::<u8>::empty());
    }
    Some(acc)
}

// ---------------------------------------------------------------------------
// The message state machine: one transition per input byte.
// ---------------------------------------------------------------------------

/// Where the scan stands inside the message.
#[derive(Clone, Copy, PartialEq, Eq, Structural)]
pub enum Phase {
    /// Collecting the request method, up to the first space.
    Method,
    /// Collecting the request target, up to the next space.
    Target,
    /// Collecting the protocol version, up to CR.
    Version,
    /// CR seen after the version; the next byte must be LF.
    VersionLf,
    /// Collecting one header line (name, then value after the colon).
    Header,
    /// CR seen after a header line; the next byte must be LF.
    HeaderLf,
    /// CR seen on the blank line; LF completes the head.
    HeaderEndLf,
    /// Reading a Content-Length body; `remain` bytes are still owed.
    SizedBody,
    /// Collecting the hexadecimal chunk-size line, up to CR.
    ChunkSize,
    /// CR seen after a chunk-size line; the next byte must be LF.
    ChunkSizeLf,
    /// Reading chunk payload; `remain` bytes are still owed.
    ChunkData,
    /// Chunk payload done; expecting the terminating CR.
    ChunkDataCr,
    /// Expecting the LF that closes a chunk's trailing CR LF.
    ChunkDataLf,
    /// Zero-size chunk seen; expecting the final CR.
    ChunkEndCr,
    /// Expecting the LF that closes the final CR LF.
    ChunkEndLf,
    /// The message is complete.
    Done,
    /// The input violated the protocol.
    Failed,
}

/// The whole parse state: phase, the startline fields, the header scratches,
/// the accumulated headers, the body, and the body byte counter.
pub struct MState {
    pub phase: Phase,
    pub method: Seq<u8>,
    pub target: Seq<u8>,
    pub version: Seq<u8>,
    pub hkey: Seq<u8>,
    pub hval: Seq<u8>,
    pub seen_colon: bool,
    pub headers: Seq<(Seq<u8>, Seq<u8>)>,
    pub body: Seq<u8>,
    pub chunk_acc: Seq<u8>,
    pub remain: int,
}

/// The state a fresh or cleared message starts in.
pub open spec fn init_state() -> MState {
    MState {
        phase: Phase::Method,
        method: Seq::empty(),
        target: Seq::empty(),
        version: Seq::empty(),
        hkey: Seq::empty(),
        hval: Seq::empty(),
        seen_colon: false,
        headers: Seq::empty(),
        body: Seq::empty(),
        chunk_acc: Seq::empty(),
        remain: 0,
    }
}

/// The failed state: everything kept, the phase marked.
pub open spec fn fail(st: MState) -> MState {
    MState { phase: Phase::Failed, ..st }
}

/// A state where no further byte changes anything.
pub open spec fn is_terminal(st: MState) -> bool {
    st.phase == Phase::Done || st.phase == Phase::Failed
}

/// Chooses the body strategy once the head is complete: a valid
/// Content-Length selects the sized strategy, an invalid one is a protocol
/// violation, chunked transfer-encoding selects the chunked strategy, and
/// otherwise the body is empty and the message is done.
pub open spec fn dispatch_body(st: MState) -> MState {
    match spec_content_length(st.headers) {
        ContentLength::Invalid => fail(st),
        ContentLength::Length(n) => if n == 0 {
            MState { phase: Phase::Done, ..st }
        } else {
            MState { phase: Phase::SizedBody, remain: n as int, ..st }
        },
        ContentLength::Absent => if spec_is_chunked(st.headers) {
            MState { phase: Phase::ChunkSize, ..st }
        } else {
            MState { phase: Phase::Done, ..st }
        },
    }
}

/// One transition of the scanner on input byte `c`.
pub open spec fn spec_step(st: MState, c: u8) -> MState {
    match st.phase {
        Phase::Method => if c == 32 {
            MState { phase: Phase::Target, ..st }
        } else {
            MState { method: st.method.push(c), ..st }
        },
        Phase::Target => if c == 32 {
            MState { phase: Phase::Version, ..st }
        } else {
            MState { target: st.target.push(c), ..st }
        },
        Phase::Version => if c == 13 {
            MState { phase: Phase::VersionLf, ..st }
        } else {
            MState { version: st.version.push(c), ..st }
        },
        Phase::VersionLf => if c == 10 {
            MState { phase: Phase::Header, ..st }
        } else {
            fail(st)
        },
        Phase::Header => if c == 13 {
            if !st.seen_colon && st.hkey.len() == 0 {
                MState { phase: Phase::HeaderEndLf, ..st }
            } else if st.hkey.len() > 0 && st.hval.len() > 0 {
                MState {
                    phase: Phase::HeaderLf,
                    headers: st.headers.push(
                        (lower_seq(trim_seq(st.hkey)), trim_seq(st.hval)),
                    ),
                    hkey: Seq::empty(),
                    hval: Seq::empty(),
                    seen_colon: false,
                    ..st
                }
            } else {
                fail(st)
            }
        } else if st.seen_colon {
            MState { hval: st.hval.push(c), ..st }
        } else if c == 58 {
            MState { seen_colon: true, ..st }
        } else {
            MState { hkey: st.hkey.push(c), ..st }
        },
        Phase::HeaderLf => if c == 10 {
            MState { phase: Phase::Header, ..st }
        } else {
            fail(st)
        },
        Phase::HeaderEndLf => if c == 10 {
            dispatch_body(st)
        } else {
            fail(st)
        },
        Phase::SizedBody => if st.remain <= 1 {
            MState { phase: Phase::Done, body: st.body.push(c), remain: 0, ..st }
        } else {
            MState { body: st.body.push(c), remain: st.remain - 1, ..st }
        },
        Phase::ChunkSize => if c == 13 {
            MState { phase: Phase::ChunkSizeLf, ..st }
        } else {
            MState { chunk_acc: st.chunk_acc.push(c), ..st }
        },
        Phase::ChunkSizeLf => if c == 10 {
            match parse_hex(st.chunk_acc) {
                None => fail(st),
                Some(n) => if n == 0 {
                    MState { phase: Phase::ChunkEndCr, chunk_acc: Seq::empty(), ..st }
                } else {
                    MState {
                        phase: Phase::ChunkData,
                        chunk_acc: Seq::empty(),
                        remain: n,
                        ..st
                    }
                },
            }
        } else {
            fail(st)
        },
        Phase::ChunkData => if st.remain <= 1 {
            MState { phase: Phase::ChunkDataCr, body: st.body.push(c), remain: 0, ..st }
        } else {
            MState { body: st.body.push(c), remain: st.remain - 1, ..st }
        },
        Phase::ChunkDataCr => if c == 13 {
            MState { phase: Phase::ChunkDataLf, ..st }
        } else {
            fail(st)
        },
        Phase::ChunkDataLf => if c == 10 {
            MState { phase: Phase::ChunkSize, ..st }
        } else {
            fail(st)
        },
        Phase::ChunkEndCr => if c == 13 {
            MState { phase: Phase::ChunkEndLf, ..st }
        } else {
            fail(st)
        },
        Phase::ChunkEndLf => if c == 10 {
            MState { phase: Phase::Done, ..st }
        } else {
            fail(st)
        },
        Phase::Done => st,
        Phase::Failed => st,
    }
}

/// Bounds that every reachable state keeps: a body counter that fits a
/// `usize` and is positive while body bytes are owed.
pub open spec fn state_ok(st: MState) -> bool {
    &&& 0 <= st.remain <= usize::MAX as int
    &&& (st.phase == Phase::SizedBody ==> st.remain >= 1)
    &&& (st.phase == Phase::ChunkData ==> st.remain >= 1)
}

/// A successful bounded hexadecimal accumulation stays within `usize`.
pub proof fn lemma_hex_run_bounds(s: Seq<u8>, acc: int)
    requires
        0 <= acc <= usize::MAX as int,
        hex_run(s, acc) is Some,
    ensures
        0 <= hex_run(s, acc).unwrap() <= usize::MAX as int,
    decreases s.len(),
{
    if s.len() > 0 {
        match hex_digit_val(s[0]) {
            Some(d) => {
                if acc * 16 + d <= usize::MAX as int {
                    lemma_hex_run_bounds(s.skip(1), acc * 16 + d);
                }
            },
            None => {},
        }
    }
}

pub proof fn lemma_step_ok(st: MState, c: u8)
    requires
        state_ok(st),
    ensures
        state_ok(spec_step(st, c)),
{
    if st.phase == Phase::ChunkSizeLf && c == 10 {
        if st.chunk_acc.len() > 0 && hex_run(st.chunk_acc, 0) is Some {
            lemma_hex_run_bounds(st.chunk_acc, 0);
        }
    }
}

/// Folds `spec_step` over `s`, stopping at a terminal state; gives the final
/// state and the number of bytes consumed.
pub open spec fn run(st: MState, s: Seq<u8>) -> (MState, int)
    decreases s.len(),
{
    if is_terminal(st) || s.len() == 0 {
        (st, 0)
    } else {
        let r = run(spec_step(st, s[0]), s.skip(1));
        (r.0, r.1 + 1)
    }
}

/// What one parse attempt yields on a delivered byte stream: the complete
/// final state, a protocol violation, or an early close.
pub enum Outcome {
    /// The message completed; the state holds startline, headers and body.
    Success(MState),
    /// The input violated the protocol.
    Violation,
    /// The stream ended before the message was complete.
    Closed,
}

/// The outcome of parsing the byte stream `s` from a fresh state.
pub open spec fn parse_outcome(s: Seq<u8>) -> Outcome {
    let fin = run(init_state(), s).0;
    if fin.phase == Phase::Done {
        Outcome::Success(fin)
    } else if fin.phase == Phase::Failed {
        Outcome::Violation
    } else {
        Outcome::Closed
    }
}

/// Extending the input by one byte advances the run by exactly one step,
/// unless the run already ended in a terminal state.
pub proof fn lemma_run_snoc(st: MState, s: Seq<u8>, c: u8)
    ensures
        is_terminal(run(st, s).0) ==> run(st, s.push(c)) == run(st, s),
        !is_terminal(run(st, s).0) ==> run(st, s.push(c)) == (
            spec_step(run(st, s).0, c),
            run(st, s).1 + 1,
        ),
    decreases s.len(),
{
    if is_terminal(st) {
        assert(s.push(c).len() > 0);
    } else if s.len() == 0 {
        assert(s.push(c)[0] == c);
        assert(s.push(c).skip(1) =~= Seq::<u8>::empty());
        assert(run(st, s) == (st, 0int));
        assert(run(spec_step(st, c), s.push(c).skip(1)) == (spec_step(st, c), 0int));
    } else {
        let t = spec_step(st, s[0]);
        assert(s.push(c)[0] == s[0]);
        assert(s.push(c).skip(1) =~= s.skip(1).push(c));
        lemma_run_snoc(t, s.skip(1), c);
        assert(run(st, s) == (run(t, s.skip(1)).0, run(t, s.skip(1)).1 + 1));
        assert(run(st, s.push(c)) == (
            run(t, s.skip(1).push(c)).0,
            run(t, s.skip(1).push(c)).1 + 1,
        ));
    }
}

/// Running over a concatenation is running over the parts in order; a
/// terminal state reached in the first part absorbs the second.
pub proof fn lemma_run_concat(st: MState, a: Seq<u8>, b: Seq<u8>)
    ensures
        is_terminal(run(st, a).0) ==> run(st, a + b) == run(st, a),
        !is_terminal(run(st, a).0) ==> run(st, a + b) == (
            run(run(st, a).0, b).0,
            run(st, a).1 + run(run(st, a).0, b).1,
        ),
    decreases a.len(),
{
    if is_terminal(st) {
    } else if a.len() == 0 {
        assert(a + b =~= b);
    } else {
        assert((a + b)[0] == a[0]);
        assert((a + b).skip(1) =~= a.skip(1) + b);
        lemma_run_concat(spec_step(st, a[0]), a.skip(1), b);
    }
}

} // verus!
