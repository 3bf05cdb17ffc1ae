use vstd::prelude::*;

verus! {

/// The ASCII bytes a URI encoding passes through unescaped: alphanumerics
/// and `; , / ? : @ & = + $ - _ . ! ~ * ' ( ) #`.
pub open spec fn is_uri_except(b: u8) -> bool {
    ||| 48 <= b && b <= 57
    ||| 65 <= b && b <= 90
    ||| 97 <= b && b <= 122
    ||| b == 59
    ||| b == 44
    ||| b == 47
    ||| b == 63
    ||| b == 58
    ||| b == 64
    ||| b == 38
    ||| b == 61
    ||| b == 43
    ||| b == 36
    ||| b == 45
    ||| b == 95
    ||| b == 46
    ||| b == 33
    ||| b == 126
    ||| b == 42
    ||| b == 39
    ||| b == 40
    ||| b == 41
    ||| b == 35
}

/// The uppercase hexadecimal digit for a value below sixteen.
pub open spec fn hex_upper(d: u8) -> u8 {
    if d < 10 {
        (48 + d) as u8
    } else {
        (55 + d) as u8
    }
}

/// How one byte is emitted: passed through if excepted, else `%` and two
/// uppercase hexadecimal digits.
pub open spec fn encode_byte(b: u8) -> Seq<u8> {
    if b < 128 && is_uri_except(b) {
        seq![b]
    } else {
        seq![37u8, hex_upper(b / 16), hex_upper(b % 16)]
    }
}

/// The URI encoding of a byte sequence: each byte emitted in order.
pub open spec fn encode_uri_seq(s: Seq<u8>) -> Seq<u8>
    decreases s.len(),
{
    if s.len() == 0 {
        Seq::empty()
    } else {
        encode_byte(s[0]) + encode_uri_seq(s.skip(1))
    }
}

proof fn lemma_encode_snoc(s: Seq<u8>, c: u8)
    ensures
        encode_uri_seq(s.push(c)) == encode_uri_seq(s) + encode_byte(c),
    decreases s.len(),
{
    if s.len() == 0 {
        assert(s.push(c)[0] == c);
        assert(s.push(c).skip(1) =~= Seq::<u8>::empty());
        assert(encode_uri_seq(Seq::<u8>::empty()) == Seq::<u8>::empty());
        assert(encode_uri_seq(s.push(c)) == encode_byte(c) + encode_uri_seq(
            s.push(c).skip(1),
        ));
        assert(encode_uri_seq(s.push(c)) =~= encode_uri_seq(s) + encode_byte(c));
    } else {
        assert(s.push(c)[0] == s[0]);
        assert(s.push(c).skip(1) =~= s.skip(1).push(c));
        lemma_encode_snoc(s.skip(1), c);
        assert(encode_byte(s[0]) + (encode_uri_seq(s.skip(1)) + encode_byte(c)) =~= (encode_byte(
            s[0],
        ) + encode_uri_seq(s.skip(1))) + encode_byte(c));
    }
}

/// Appends the URI encoding of `src` to `dist`: excepted ASCII bytes pass
/// through, every other byte becomes `%` and two uppercase hexadecimal
/// digits.
pub fn encode_uri(dist: &mut Vec<u8>, src: &[u8])
    ensures
        final(dist)@ == old(dist)@ + encode_uri_seq(src@),
{
    let ghost base = dist@;
    let mut i: usize = 0;
    proof {
        assert(src@.take(0) =~= Seq::<u8>::empty());
        assert(base + encode_uri_seq(src@.take(0)) =~= base);
    }
    while i < src.len()
        invariant
            i <= src@.len(),
            dist@ == base + encode_uri_seq(src@.take(i as int)),
        decreases src@.len() - i,
    {
        let b = src[i];
        let excepted = (48 <= b && b <= 57) || (65 <= b && b <= 90) || (97 <= b && b <= 122)
            || b == 59 || b == 44 || b == 47 || b == 63 || b == 58 || b == 64 || b == 38
            || b == 61 || b == 43 || b == 36 || b == 45 || b == 95 || b == 46 || b == 33
            || b == 126 || b == 42 || b == 39 || b == 40 || b == 41 || b == 35;
        if b < 128 && excepted {
            dist.push(b);
            proof {
                assert(dist@ =~= base + encode_uri_seq(src@.take(i as int)) + encode_byte(b));
            }
        } else {
            dist.push(37);
            let hi: u8 = b / 16;
            let lo: u8 = b % 16;
            let hic: u8 = if hi < 10 {
                48 + hi
            } else {
                55 + hi
            };
            let loc: u8 = if lo < 10 {
                48 + lo
            } else {
                55 + lo
            };
            dist.push(hic);
            dist.push(loc);
            proof {
                assert(dist@ =~= base + encode_uri_seq(src@.take(i as int)) + encode_byte(b));
            }
        }
        proof {
            assert(src@.take(i + 1int) =~= src@.take(i as int).push(src@[i as int]));
            lemma_encode_snoc(src@.take(i as int), src@[i as int]);
            assert(base + (encode_uri_seq(src@.take(i as int)) + encode_byte(b)) =~= base
                + encode_uri_seq(src@.take(i as int)) + encode_byte(b));
        }
        i = i + 1;
    }
    proof {
        assert(src@.take(src@.len() as int) =~= src@);
    }
}

/// Reserved entry point kept for interface parity: performs no encoding.
pub fn encode_uri_component(dist: &mut Vec<u8>, _src: &[u8])
    ensures
        final(dist)@ == old(dist)@,
{
}

/// Reserved entry point kept for interface parity: performs no decoding.
pub fn decode_uri(dist: &mut Vec<u8>, _src: &[u8])
    ensures
        final(dist)@ == old(dist)@,
{
}

} // verus!
