use vstd::prelude::*;
use crate::headers::spec_values;
use crate::machine::{
    hex_digit_val, hex_run, init_state, is_terminal, parse_hex, parse_outcome, run, spec_step,
    MState, Outcome, Phase,
};

verus! {

// ---------------------------------------------------------------------------
// Fragmentation obliviousness.
// ---------------------------------------------------------------------------

/// However a byte stream is fragmented into reads, the parse outcome is the
/// same: the outcome is a function of the flattened stream alone, so a
/// source delivering one byte per read and one delivering the whole message
/// at once yield identical results.
pub proof fn lemma_fragmentation_oblivious(chunks1: Seq<Seq<u8>>, chunks2: Seq<Seq<u8>>)
    requires
        chunks1.flatten() == chunks2.flatten(),
    ensures
        parse_outcome(chunks1.flatten()) == parse_outcome(chunks2.flatten()),
{
}

// ---------------------------------------------------------------------------
// Header insertion order.
// ---------------------------------------------------------------------------

/// Appending a header pair adds its value at the end of that name's value
/// list and leaves every other name's list untouched: duplicate names keep
/// all their values, in insertion order.
pub proof fn lemma_append_preserves_order(
    hs: Seq<(Seq<u8>, Seq<u8>)>,
    name: Seq<u8>,
    k: Seq<u8>,
    v: Seq<u8>,
)
    ensures
        k == name ==> spec_values(hs.push((k, v)), name) == spec_values(hs, name).push(v),
        k != name ==> spec_values(hs.push((k, v)), name) == spec_values(hs, name),
{
    assert(hs.push((k, v)).drop_last() =~= hs);
    assert(hs.push((k, v)).last() == (k, v));
}

// ---------------------------------------------------------------------------
// Malformed chunk sizes.
// ---------------------------------------------------------------------------

/// A hexadecimal accumulation over a literal holding any non-digit byte
/// (a minus sign, for instance) yields nothing.
pub proof fn lemma_hex_run_none(s: Seq<u8>, acc: int)
    requires
        exists|i: int| 0 <= i < s.len() && #[trigger] hex_digit_val(s[i]) is None,
    ensures
        hex_run(s, acc) is None,
    decreases s.len(),
{
    let i = choose|i: int| 0 <= i < s.len() && #[trigger] hex_digit_val(s[i]) is None;
    if i == 0 {
    } else {
        match hex_digit_val(s[0]) {
            None => {},
            Some(d) => {
                if acc * 16 + d <= usize::MAX as int {
                    assert(s.skip(1)[i - 1] == s[i]);
                    lemma_hex_run_none(s.skip(1), acc * 16 + d);
                }
            },
        }
    }
}

/// A chunk-size line holding a byte that is no hexadecimal digit — a minus
/// sign, a letter past `f`, anything non-hexadecimal — drives the machine
/// to the failed state (a protocol violation) at the line's LF.
pub proof fn lemma_malformed_chunk_size(st: MState)
    requires
        st.phase == Phase::ChunkSizeLf,
        exists|i: int|
            0 <= i < st.chunk_acc.len() && #[trigger] hex_digit_val(st.chunk_acc[i]) is None,
    ensures
        spec_step(st, 10).phase == Phase::Failed,
{
    lemma_hex_run_none(st.chunk_acc, 0);
}

// ---------------------------------------------------------------------------
// Chunked round trip.
// ---------------------------------------------------------------------------

/// The hexadecimal digit byte (lowercase) for a value below sixteen.
pub open spec fn hex_digit_byte(d: int) -> u8 {
    if d < 10 {
        (48 + d) as u8
    } else {
        (87 + d) as u8
    }
}

/// The minimal lowercase hexadecimal literal for a non-negative size.
pub open spec fn hex_digits(n: int) -> Seq<u8>
    decreases n,
{
    if n <= 0 {
        seq![48u8]
    } else if n < 16 {
        seq![hex_digit_byte(n)]
    } else {
        hex_digits(n / 16) + seq![hex_digit_byte(n % 16)]
    }
}

/// One chunk on the wire: the size line, the payload, the trailing CR LF.
pub open spec fn encode_chunk(p: Seq<u8>) -> Seq<u8> {
    hex_digits(p.len() as int) + seq![13u8, 10u8] + p + seq![13u8, 10u8]
}

/// A whole chunked body on the wire: each payload as a chunk, then the
/// zero-size terminator block.
pub open spec fn encode_chunked(ps: Seq<Seq<u8>>) -> Seq<u8>
    decreases ps.len(),
{
    if ps.len() == 0 {
        seq![48u8, 13u8, 10u8, 13u8, 10u8]
    } else {
        encode_chunk(ps[0]) + encode_chunked(ps.skip(1))
    }
}

/// Every byte of a hexadecimal literal is a hexadecimal digit byte; in
/// particular none is CR.
proof fn lemma_hex_digits_shape(n: int)
    ensures
        hex_digits(n).len() >= 1,
        forall|i: int|
            0 <= i < hex_digits(n).len() ==> #[trigger] hex_digit_val(hex_digits(n)[i]) is Some,
    decreases n,
{
    if n <= 0 {
    } else if n < 16 {
    } else {
        lemma_hex_digits_shape(n / 16);
        assert forall|i: int|
            0 <= i < hex_digits(n).len() implies #[trigger] hex_digit_val(
            hex_digits(n)[i],
        ) is Some by {
            if i < hex_digits(n / 16).len() {
                assert(hex_digits(n)[i] == hex_digits(n / 16)[i]);
            } else {
                assert(hex_digits(n)[i] == hex_digit_byte(n % 16));
            }
        }
    }
}

/// Accumulating over a concatenation is accumulating over the parts.
proof fn lemma_hex_run_append(s1: Seq<u8>, s2: Seq<u8>, acc: int)
    ensures
        hex_run(s1 + s2, acc) == (match hex_run(s1, acc) {
            Some(v) => hex_run(s2, v),
            None => None::<int>,
        }),
    decreases s1.len(),
{
    if s1.len() == 0 {
        assert(s1 + s2 =~= s2);
    } else {
        assert((s1 + s2)[0] == s1[0]);
        assert((s1 + s2).skip(1) =~= s1.skip(1) + s2);
        match hex_digit_val(s1[0]) {
            None => {},
            Some(d) => {
                if acc * 16 + d <= usize::MAX as int {
                    lemma_hex_run_append(s1.skip(1), s2, acc * 16 + d);
                }
            },
        }
    }
}

/// The hexadecimal literal of a size parses back to that size.
proof fn lemma_hex_digits_value(n: int)
    requires
        0 <= n <= usize::MAX as int,
    ensures
        hex_run(hex_digits(n), 0) == Some(n),
        parse_hex(hex_digits(n)) == Some(n),
    decreases n,
{
    lemma_hex_digits_shape(n);
    if n < 16 {
        let s = hex_digits(n);
        assert(s.skip(1) =~= Seq::<u8>::empty());
        assert(hex_digit_val(s[0]) == Some(n));
        assert(hex_run(Seq::<u8>::empty(), n) == Some(n));
        assert(0 * 16 + n == n);
        assert(hex_run(s, 0) == Some(n));
    } else {
        lemma_hex_digits_value(n / 16);
        lemma_hex_run_append(hex_digits(n / 16), seq![hex_digit_byte(n % 16)], 0);
        let d = seq![hex_digit_byte(n % 16)];
        assert(hex_digit_val(d[0]) == Some(n % 16));
        assert((n / 16) * 16 + n % 16 == n);
        assert(d.skip(1) =~= Seq::<u8>::empty());
        assert(hex_run(Seq::<u8>::empty(), n) == Some(n));
        assert(hex_run(d, n / 16) == Some(n));
    }
}

/// One byte advances the machine by one step.
proof fn run_one(st: MState, a: u8)
    requires
        !is_terminal(st),
    ensures
        run(st, seq![a]) == (spec_step(st, a), 1int),
{
    assert(seq![a][0] == a);
    assert(seq![a].skip(1) =~= Seq::<u8>::empty());
    assert(run(spec_step(st, a), Seq::<u8>::empty()) == (spec_step(st, a), 0int));
}

/// Two successive bytes advance the machine by two steps.
proof fn run_pair(st: MState, a: u8, b: u8)
    requires
        !is_terminal(st),
        !is_terminal(spec_step(st, a)),
    ensures
        run(st, seq![a, b]) == (spec_step(spec_step(st, a), b), 2int),
{
    let s = seq![a, b];
    assert(s[0] == a);
    assert(s.skip(1) =~= seq![b]);
    run_one(spec_step(st, a), b);
    assert(run(st, s) == (run(spec_step(st, a), s.skip(1)).0, run(
        spec_step(st, a),
        s.skip(1),
    ).1 + 1));
}

/// Scanning the size digits accumulates them in the scratch, staying in the
/// size-collecting phase.
proof fn lemma_scan_digits(st: MState, digits: Seq<u8>)
    requires
        st.phase == Phase::ChunkSize,
        forall|i: int|
            0 <= i < digits.len() ==> #[trigger] hex_digit_val(digits[i]) is Some,
    ensures
        run(st, digits) == ((MState { chunk_acc: st.chunk_acc + digits, ..st }), digits.len() as int),
    decreases digits.len(),
{
    if digits.len() == 0 {
        assert(st.chunk_acc + digits =~= st.chunk_acc);
        assert((MState { chunk_acc: st.chunk_acc + digits, ..st }) == st);
    } else {
        assert(hex_digit_val(digits[0]) is Some);
        assert(digits[0] != 13);
        let st1 = spec_step(st, digits[0]);
        assert(st1 == (MState { chunk_acc: st.chunk_acc.push(digits[0]), ..st }));
        assert forall|i: int|
            0 <= i < digits.skip(1).len() implies #[trigger] hex_digit_val(
            digits.skip(1)[i],
        ) is Some by {
            assert(digits.skip(1)[i] == digits[i + 1]);
        }
        lemma_scan_digits(st1, digits.skip(1));
        assert(run(st, digits) == (run(st1, digits.skip(1)).0, run(st1, digits.skip(1)).1 + 1));
        assert(st.chunk_acc.push(digits[0]) + digits.skip(1) =~= st.chunk_acc + digits);
        assert((MState { chunk_acc: st1.chunk_acc + digits.skip(1), ..st1 }) == (MState {
            chunk_acc: st.chunk_acc + digits,
            ..st
        }));
    }
}

/// Scanning a chunk's payload appends it to the body and leaves the machine
/// expecting the chunk's trailing CR.
proof fn lemma_scan_payload(st: MState, p: Seq<u8>)
    requires
        st.phase == Phase::ChunkData,
        st.remain == p.len() as int,
        p.len() >= 1,
    ensures
        run(st, p) == ((MState { phase: Phase::ChunkDataCr, body: st.body + p, remain: 0, ..st }),
        p.len() as int),
    decreases p.len(),
{
    let st1 = spec_step(st, p[0]);
    if p.len() == 1 {
        assert(p.skip(1) =~= Seq::<u8>::empty());
        assert(st.body.push(p[0]) =~= st.body + p);
        assert(run(st1, p.skip(1)) == (st1, 0int));
        assert(run(st, p) == (st1, 1int));
        assert(st1 == (MState { phase: Phase::ChunkDataCr, body: st.body + p, remain: 0, ..st }));
    } else {
        assert(st1.phase == Phase::ChunkData);
        lemma_scan_payload(st1, p.skip(1));
        assert(run(st, p) == (run(st1, p.skip(1)).0, run(st1, p.skip(1)).1 + 1));
        assert(st.body.push(p[0]) + p.skip(1) =~= st.body + p);
        assert((MState {
            phase: Phase::ChunkDataCr,
            body: st1.body + p.skip(1),
            remain: 0,
            ..st1
        }) == (MState { phase: Phase::ChunkDataCr, body: st.body + p, remain: 0, ..st }));
    }
}

/// Running the machine over one encoded chunk appends exactly its payload
/// to the body and returns to the size-collecting phase.
proof fn lemma_one_chunk(st: MState, p: Seq<u8>)
    requires
        st.phase == Phase::ChunkSize,
        st.chunk_acc == Seq::<u8>::empty(),
        1 <= p.len() <= usize::MAX,
    ensures
        run(st, encode_chunk(p)) == ((MState {
            phase: Phase::ChunkSize,
            chunk_acc: Seq::<u8>::empty(),
            body: st.body + p,
            remain: 0,
            ..st
        }), encode_chunk(p).len() as int),
{
    let n = p.len() as int;
    let digits = hex_digits(n);
    let seg2 = seq![13u8, 10u8];
    lemma_hex_digits_shape(n);
    lemma_hex_digits_value(n);

    // The digits accumulate in the scratch.
    lemma_scan_digits(st, digits);
    let st_d = MState { chunk_acc: st.chunk_acc + digits, ..st };
    assert(st.chunk_acc + digits =~= digits);
    assert(st_d.chunk_acc == digits);

    // CR LF ends the size line; the parsed size starts the payload.
    let st_cr = spec_step(st_d, 13);
    assert(st_cr.phase == Phase::ChunkSizeLf);
    let st_lf = spec_step(st_cr, 10);
    assert(st_lf == (MState {
        phase: Phase::ChunkData,
        chunk_acc: Seq::<u8>::empty(),
        remain: n,
        ..st
    }));
    run_pair(st_d, 13, 10);

    let s12 = digits + seg2;
    crate::machine::lemma_run_concat(st, digits, seg2);
    assert(run(st, s12) == (st_lf, digits.len() as int + 2));

    // The payload lands in the body.
    lemma_scan_payload(st_lf, p);
    let st_p = MState { phase: Phase::ChunkDataCr, body: st.body + p, remain: 0, ..st_lf };
    assert(run(st_lf, p) == (st_p, p.len() as int));
    crate::machine::lemma_run_concat(st, s12, p);
    let s123 = s12 + p;
    assert(run(st, s123) == (st_p, digits.len() as int + 2 + p.len() as int));

    // The trailing CR LF returns to the size line.
    run_pair(st_p, 13, 10);
    let st_done = spec_step(spec_step(st_p, 13), 10);
    assert(st_done == (MState {
        phase: Phase::ChunkSize,
        chunk_acc: Seq::<u8>::empty(),
        body: st.body + p,
        remain: 0,
        ..st
    }));
    crate::machine::lemma_run_concat(st, s123, seg2);
    assert(run(st, s123 + seg2) == (st_done, digits.len() as int + 2 + p.len() as int + 2));
    assert(encode_chunk(p) == s123 + seg2);
    assert(encode_chunk(p).len() as int == digits.len() as int + 2 + p.len() as int + 2);
}

/// The chunked round trip: a body framed as repeated `size CR LF payload
/// CR LF` blocks and closed by the zero-size terminator decodes to exactly
/// the concatenation of the payloads — nothing missing, nothing left over —
/// and completes the message.
pub proof fn lemma_chunked_round_trip(st: MState, ps: Seq<Seq<u8>>)
    requires
        st.phase == Phase::ChunkSize,
        st.chunk_acc == Seq::<u8>::empty(),
        st.remain == 0,
        forall|i: int| 0 <= i < ps.len() ==> 1 <= #[trigger] ps[i].len() <= usize::MAX,
    ensures
        run(st, encode_chunked(ps)).0 == (MState {
            phase: Phase::Done,
            chunk_acc: Seq::<u8>::empty(),
            body: st.body + ps.flatten(),
            remain: 0,
            ..st
        }),
        run(st, encode_chunked(ps)).1 == encode_chunked(ps).len() as int,
    decreases ps.len(),
{
    if ps.len() == 0 {
        // The terminator: "0" CR LF CR LF.
        let st1 = spec_step(st, 48);
        assert(st1 == (MState { chunk_acc: seq![48u8], ..st })) by {
            assert(st.chunk_acc.push(48u8) =~= seq![48u8]);
        }
        let st2 = spec_step(st1, 13);
        assert(st2.phase == Phase::ChunkSizeLf);
        let st3 = spec_step(st2, 10);
        assert(parse_hex(seq![48u8]) == Some(0int)) by {
            assert(seq![48u8].skip(1) =~= Seq::<u8>::empty());
            assert(hex_digit_val(seq![48u8][0]) == Some(0int));
            assert(hex_run(Seq::<u8>::empty(), 0) == Some(0int));
        }
        assert(st3 == (MState { phase: Phase::ChunkEndCr, chunk_acc: Seq::<u8>::empty(), ..st1 }));
        let st4 = spec_step(st3, 13);
        assert(st4.phase == Phase::ChunkEndLf);
        let st5 = spec_step(st4, 10);
        assert(st5.phase == Phase::Done);

        run_one(st, 48);
        run_pair(st1, 13, 10);
        run_pair(st3, 13, 10);
        let a = seq![48u8];
        let b = seq![13u8, 10u8];
        crate::machine::lemma_run_concat(st, a, b);
        assert(run(st, a + b) == (st3, 3int));
        crate::machine::lemma_run_concat(st, a + b, b);
        assert(run(st, (a + b) + b) == (st5, 5int));
        assert(encode_chunked(ps) =~= (a + b) + b);
        assert(ps.flatten() =~= Seq::<u8>::empty());
        assert(st.body + ps.flatten() =~= st.body);
        assert(st5 == (MState {
            phase: Phase::Done,
            chunk_acc: Seq::<u8>::empty(),
            body: st.body + ps.flatten(),
            remain: 0,
            ..st
        }));
    } else {
        let p = ps[0];
        lemma_one_chunk(st, p);
        let st_c = MState {
            phase: Phase::ChunkSize,
            chunk_acc: Seq::<u8>::empty(),
            body: st.body + p,
            remain: 0,
            ..st
        };
        assert(run(st, encode_chunk(p)) == (st_c, encode_chunk(p).len() as int));
        assert forall|i: int|
            0 <= i < ps.skip(1).len() implies 1 <= #[trigger] ps.skip(1)[i].len()
            <= usize::MAX by {
            assert(ps.skip(1)[i] == ps[i + 1]);
        }
        lemma_chunked_round_trip(st_c, ps.skip(1));
        crate::machine::lemma_run_concat(st, encode_chunk(p), encode_chunked(ps.skip(1)));
        assert(ps.flatten() == p + ps.skip(1).flatten()) by {
            assert(ps.drop_first() =~= ps.skip(1));
            assert(ps.first() == p);
        }
        assert((st.body + p) + ps.skip(1).flatten() =~= st.body + ps.flatten());
        assert(run(st, encode_chunked(ps)).0 == (MState {
            phase: Phase::Done,
            chunk_acc: Seq::<u8>::empty(),
            body: st.body + ps.flatten(),
            remain: 0,
            ..st
        }));
    }
}

/// Scanning exactly the owed bytes of a sized body appends them to the
/// body and completes the message.
proof fn lemma_scan_sized(st: MState, p: Seq<u8>)
    requires
        st.phase == Phase::SizedBody,
        st.remain == p.len() as int,
        p.len() >= 1,
    ensures
        run(st, p) == ((MState { phase: Phase::Done, body: st.body + p, remain: 0, ..st }),
        p.len() as int),
    decreases p.len(),
{
    let st1 = spec_step(st, p[0]);
    if p.len() == 1 {
        assert(p.skip(1) =~= Seq::<u8>::empty());
        assert(st.body.push(p[0]) =~= st.body + p);
        assert(run(st1, p.skip(1)) == (st1, 0int));
        assert(st1 == (MState { phase: Phase::Done, body: st.body + p, remain: 0, ..st }));
    } else {
        assert(st1.phase == Phase::SizedBody);
        lemma_scan_sized(st1, p.skip(1));
        assert(run(st, p) == (run(st1, p.skip(1)).0, run(st1, p.skip(1)).1 + 1));
        assert(st.body.push(p[0]) + p.skip(1) =~= st.body + p);
        assert((MState { phase: Phase::Done, body: st1.body + p.skip(1), remain: 0, ..st1 })
            == (MState { phase: Phase::Done, body: st.body + p, remain: 0, ..st }));
    }
}

/// A sized body, end to end: once the head of stream `s` has selected the
/// sized strategy with `p.len()` bytes owed and nothing in the body yet,
/// delivering exactly `p` after `s` completes the message with precisely
/// `p` as the body — however the reads split it — and the startline and
/// headers are those the head produced.
pub proof fn lemma_sized_message(s: Seq<u8>, p: Seq<u8>)
    requires
        run(init_state(), s).0.phase == Phase::SizedBody,
        run(init_state(), s).0.remain == p.len() as int,
        run(init_state(), s).0.body == Seq::<u8>::empty(),
        p.len() >= 1,
    ensures
        ({
            let st = run(init_state(), s).0;
            let fin = run(init_state(), s + p).0;
            &&& parse_outcome(s + p) == Outcome::Success(fin)
            &&& fin.body == p
            &&& fin.method == st.method
            &&& fin.target == st.target
            &&& fin.version == st.version
            &&& fin.headers == st.headers
        }),
{
    let st = run(init_state(), s).0;
    lemma_scan_sized(st, p);
    crate::machine::lemma_run_concat(init_state(), s, p);
    assert(st.body + p =~= p);
}

/// A chunked body, end to end: once the head of stream `s` has selected
/// the chunked strategy with nothing in the body yet, delivering the
/// encoded chunks after `s` completes the message with exactly the
/// payloads' concatenation as the body, and the startline and headers are
/// those the head produced.
pub proof fn lemma_chunked_message(s: Seq<u8>, ps: Seq<Seq<u8>>)
    requires
        run(init_state(), s).0.phase == Phase::ChunkSize,
        run(init_state(), s).0.chunk_acc == Seq::<u8>::empty(),
        run(init_state(), s).0.remain == 0,
        run(init_state(), s).0.body == Seq::<u8>::empty(),
        forall|i: int| 0 <= i < ps.len() ==> 1 <= #[trigger] ps[i].len() <= usize::MAX,
    ensures
        ({
            let st = run(init_state(), s).0;
            let fin = run(init_state(), s + encode_chunked(ps)).0;
            &&& parse_outcome(s + encode_chunked(ps)) == Outcome::Success(fin)
            &&& fin.body == ps.flatten()
            &&& fin.method == st.method
            &&& fin.target == st.target
            &&& fin.version == st.version
            &&& fin.headers == st.headers
        }),
{
    let st = run(init_state(), s).0;
    lemma_chunked_round_trip(st, ps);
    crate::machine::lemma_run_concat(init_state(), s, encode_chunked(ps));
    assert(st.body + ps.flatten() =~= ps.flatten());
}

} // verus!
