use vstd::prelude::*;

verus! {

// ---------------------------------------------------------------------------
// Byte-text helpers: whitespace trimming, ASCII lowercasing.
// ---------------------------------------------------------------------------

/// Whitespace as the wire format knows it: space and horizontal tab.
pub open spec fn is_ws(b: u8) -> bool {
    b == 32 || b == 9
}

/// ASCII lowercase of one byte.
pub open spec fn lower_byte(b: u8) -> u8 {
    if 65 <= b && b <= 90 {
        (b + 32) as u8
    } else {
        b
    }
}

/// ASCII lowercase of a byte sequence.
pub open spec fn lower_seq(s: Seq<u8>) -> Seq<u8> {
    s.map_values(|b: u8| lower_byte(b))
}

/// The sequence without its leading whitespace.
pub open spec fn trim_front(s: Seq<u8>) -> Seq<u8>
    decreases s.len(),
{
    if s.len() > 0 && is_ws(s[0]) {
        trim_front(s.skip(1))
    } else {
        s
    }
}

/// The sequence without its trailing whitespace.
pub open spec fn trim_back(s: Seq<u8>) -> Seq<u8>
    decreases s.len(),
{
    if s.len() > 0 && is_ws(s.last()) {
        trim_back(s.take(s.len() - 1))
    } else {
        s
    }
}

/// The sequence without leading and trailing whitespace.
pub open spec fn trim_seq(s: Seq<u8>) -> Seq<u8> {
    trim_back(trim_front(s))
}

/// ASCII-lowercases a byte vector.
pub fn lower_bytes(v: &Vec<u8>) -> (r: Vec<u8>)
    ensures
        r@ == lower_seq(v@),
{
    let mut out: Vec<u8> = Vec::new();
    let mut i: usize = 0;
    while i < v.len()
        invariant
            i <= v.len(),
            out@ == lower_seq(v@.take(i as int)),
        decreases v.len() - i,
    {
        let b = v[i];
        let lb: u8 = if 65 <= b && b <= 90 {
            b + 32
        } else {
            b
        };
        out.push(lb);
        proof {
            assert(v@.take(i + 1int) =~= v@.take(i as int).push(v@[i as int]));
            assert(lower_seq(v@.take(i + 1int)) =~= lower_seq(v@.take(i as int)).push(
                lower_byte(v@[i as int]),
            ));
        }
        i = i + 1;
    }
    proof {
        assert(v@.take(v@.len() as int) =~= v@);
    }
    out
}

/// Copies the window of `v` with leading and trailing whitespace dropped.
pub fn trim_bytes(v: &Vec<u8>) -> (r: Vec<u8>)
    ensures
        r@ == trim_seq(v@),
{
    let mut start: usize = 0;
    proof {
        assert(v@.skip(0) =~= v@);
    }
    while start < v.len() && (v[start] == 32 || v[start] == 9)
        invariant
            start <= v.len(),
            trim_front(v@) == trim_front(v@.skip(start as int)),
        decreases v.len() - start,
    {
        proof {
            assert(v@.skip(start as int).skip(1) =~= v@.skip(start + 1int));
        }
        start = start + 1;
    }
    proof {
        assert(trim_front(v@.skip(start as int)) == v@.skip(start as int));
    }
    let mut end: usize = v.len();
    proof {
        assert(v@.skip(start as int) =~= v@.subrange(start as int, v@.len() as int));
    }
    while end > start && (v[end - 1] == 32 || v[end - 1] == 9)
        invariant
            start <= end <= v.len(),
            trim_front(v@) == v@.skip(start as int),
            trim_back(v@.skip(start as int)) == trim_back(v@.subrange(start as int, end as int)),
        decreases end,
    {
        proof {
            assert(v@.subrange(start as int, end as int).take(end - start - 1) =~= v@.subrange(
                start as int,
                end - 1int,
            ));
        }
        end = end - 1;
    }
    proof {
        assert(trim_back(v@.subrange(start as int, end as int)) == v@.subrange(
            start as int,
            end as int,
        ));
    }
    let mut out: Vec<u8> = Vec::new();
    let mut j: usize = start;
    while j < end
        invariant
            start <= j <= end <= v.len(),
            out@ == v@.subrange(start as int, j as int),
        decreases end - j,
    {
        out.push(v[j]);
        proof {
            assert(v@.subrange(start as int, j + 1int) =~= v@.subrange(start as int, j as int).push(
                v@[j as int],
            ));
        }
        j = j + 1;
    }
    out
}

/// Copies a byte vector.
pub fn copy_bytes(v: &Vec<u8>) -> (r: Vec<u8>)
    ensures
        r@ == v@,
{
    let mut out: Vec<u8> = Vec::new();
    let mut i: usize = 0;
    while i < v.len()
        invariant
            i <= v.len(),
            out@ == v@.take(i as int),
        decreases v.len() - i,
    {
        out.push(v[i]);
        proof {
            assert(v@.take(i + 1int) =~= v@.take(i as int).push(v@[i as int]));
        }
        i = i + 1;
    }
    proof {
        assert(v@.take(v@.len() as int) =~= v@);
    }
    out
}

/// True iff the two byte vectors hold the same bytes.
pub fn eq_bytes(a: &Vec<u8>, b: &Vec<u8>) -> (r: bool)
    ensures
        r == (a@ == b@),
{
    if a.len() != b.len() {
        return false;
    }
    let mut i: usize = 0;
    while i < a.len()
        invariant
            i <= a.len(),
            a@.len() == b@.len(),
            forall|k: int| 0 <= k < i ==> a@[k] == b@[k],
        decreases a.len() - i,
    {
        if a[i] != b[i] {
            return false;
        }
        i = i + 1;
    }
    proof {
        assert(a@ =~= b@);
    }
    true
}

// ---------------------------------------------------------------------------
// Decimal parsing for Content-Length values.
// ---------------------------------------------------------------------------

/// Runs a left-to-right decimal accumulation; `None` on a non-digit byte or
/// once the value would not fit a `usize`.
pub open spec fn dec_run(s: Seq<u8>, acc: int) -> Option<int>
    decreases s.len(),
{
    if s.len() == 0 {
        Some(acc)
    } else if !(48 <= s[0] && s[0] <= 57) {
        None
    } else if acc * 10 + (s[0] - 48) > usize::MAX as int {
        None
    } else {
        dec_run(s.skip(1), acc * 10 + (s[0] - 48))
    }
}

/// The non-negative integer a decimal literal denotes, if it is one and fits
/// a `usize`; the empty literal denotes nothing.
pub open spec fn parse_dec(s: Seq<u8>) -> Option<int> {
    if s.len() == 0 {
        None
    } else {
        dec_run(s, 0)
    }
}

/// Parses a decimal literal, rejecting the empty string, non-digits and
/// values over `usize::MAX`.
pub fn parse_dec_bytes(v: &Vec<u8>) -> (r: Option<usize>)
    ensures
        match r {
            Some(n) => parse_dec(v@) == Some(n as int),
            None => parse_dec(v@) is None,
        },
{
    if v.len() == 0 {
        return None;
    }
    let mut acc: usize = 0;
    let mut i: usize = 0;
    proof {
        assert(v@.skip(0) =~= v@);
    }
    while i < v.len()
        invariant
            i <= v.len(),
            v@.len() > 0,
            dec_run(v@, 0) == dec_run(v@.skip(i as int), acc as int),
        decreases v.len() - i,
    {
        let b = v[i];
        if !(48 <= b && b <= 57) {
            return None;
        }
        let d: usize = (b - 48) as usize;
        let wide: u128 = (acc as u128) * 10 + (d as u128);
        if wide > (usize::MAX as u128) {
            return None;
        }
        proof {
            assert(v@.skip(i as int)[0] == v@[i as int]);
            assert(v@.skip(i as int).skip(1) =~= v@.skip(i + 1int));
        }
        acc = wide as usize;
        i = i + 1;
    }
    proof {
        assert(v@.skip(v@.len() as int) =~= Seq::<u8>::empty());
    }
    Some(acc)
}

// ---------------------------------------------------------------------------
// The Header Store: an ordered multimap from normalized name to values.
// ---------------------------------------------------------------------------

/// The values stored under `name`, in insertion order.
pub open spec fn spec_values(hs: Seq<(Seq<u8>, Seq<u8>)>, name: Seq<u8>) -> Seq<Seq<u8>>
    decreases hs.len(),
{
    if hs.len() == 0 {
        Seq::empty()
    } else {
        let rest = spec_values(hs.drop_last(), name);
        if hs.last().0 == name {
            rest.push(hs.last().1)
        } else {
            rest
        }
    }
}

/// The first value stored under `name`, if any.
pub open spec fn spec_first_value(hs: Seq<(Seq<u8>, Seq<u8>)>, name: Seq<u8>) -> Option<Seq<u8>>
    decreases hs.len(),
{
    if hs.len() == 0 {
        None
    } else if hs[0].0 == name {
        Some(hs[0].1)
    } else {
        spec_first_value(hs.skip(1), name)
    }
}

/// The bytes of the normalized header name `content-length`.
pub open spec fn cl_key() -> Seq<u8> {
    seq![99u8, 111u8, 110u8, 116u8, 101u8, 110u8, 116u8, 45u8, 108u8, 101u8, 110u8, 103u8, 116u8, 104u8]
}

/// The bytes of the normalized header name `transfer-encoding`.
pub open spec fn te_key() -> Seq<u8> {
    seq![116u8, 114u8, 97u8, 110u8, 115u8, 102u8, 101u8, 114u8, 45u8, 101u8, 110u8, 99u8, 111u8, 100u8, 105u8, 110u8, 103u8]
}

/// The bytes of the transfer-coding token `chunked`.
pub open spec fn chunked_token() -> Seq<u8> {
    seq![99u8, 104u8, 117u8, 110u8, 107u8, 101u8, 100u8]
}

/// True iff `n` occurs as a contiguous run inside `h`.
pub open spec fn contains_seq(h: Seq<u8>, n: Seq<u8>) -> bool {
    exists|i: int| 0 <= i && i + n.len() <= h.len() && #[trigger] h.subrange(i, i + n.len()) == n
}

/// What the store says about the request's Content-Length.
#[derive(PartialEq, Eq, Structural)]
pub enum ContentLength {
    /// No `content-length` header is present.
    Absent,
    /// The first `content-length` value is a decimal integer that fits.
    Length(usize),
    /// A `content-length` header is present but its value is no valid
    /// non-negative integer.
    Invalid,
}

/// The Content-Length reading of a header sequence.
pub open spec fn spec_content_length(hs: Seq<(Seq<u8>, Seq<u8>)>) -> ContentLength {
    match spec_first_value(hs, cl_key()) {
        None => ContentLength::Absent,
        Some(v) => match parse_dec(v) {
            Some(n) => ContentLength::Length(n as usize),
            None => ContentLength::Invalid,
        },
    }
}

/// True iff the first `transfer-encoding` value contains the token
/// `chunked`, compared case-insensitively.
pub open spec fn spec_is_chunked(hs: Seq<(Seq<u8>, Seq<u8>)>) -> bool {
    match spec_first_value(hs, te_key()) {
        None => false,
        Some(v) => contains_seq(lower_seq(v), chunked_token()),
    }
}

/// An ordered multimap from normalized (lowercase, whitespace-trimmed)
/// header name to its whitespace-trimmed values. Duplicate names are kept,
/// each name's values in insertion order.
pub struct Headers {
    items: Vec<(Vec<u8>, Vec<u8>)>,
}

impl View for Headers {
    type V = Seq<(Seq<u8>, Seq<u8>)>;

    closed spec fn view(&self) -> Seq<(Seq<u8>, Seq<u8>)> {
        self.items@.map_values(|p: (Vec<u8>, Vec<u8>)| (p.0@, p.1@))
    }
}

impl Headers {
    /// An empty store.
    pub fn new() -> (r: Self)
        ensures
            r@ == Seq::<(Seq<u8>, Seq<u8>)>::empty(),
    {
        let r = Headers { items: Vec::new() };
        proof {
            assert(r@ =~= Seq::<(Seq<u8>, Seq<u8>)>::empty());
        }
        r
    }

    /// Empties the store; backing capacity is retained.
    pub fn clear(&mut self)
        ensures
            final(self)@ == Seq::<(Seq<u8>, Seq<u8>)>::empty(),
    {
        self.items.clear();
        proof {
            assert(self@ =~= Seq::<(Seq<u8>, Seq<u8>)>::empty());
        }
    }

    /// The number of stored name/value pairs.
    pub fn len(&self) -> (r: usize)
        ensures
            r == self@.len(),
    {
        self.items.len()
    }

    /// Appends one header line: the name is lowercased and trimmed, the
    /// value trimmed, and the pair goes to the end of the store.
    pub fn append(&mut self, name: &Vec<u8>, value: &Vec<u8>)
        ensures
            final(self)@ == old(self)@.push((lower_seq(trim_seq(name@)), trim_seq(value@))),
    {
        let k = lower_bytes(&trim_bytes(name));
        let v = trim_bytes(value);
        self.items.push((k, v));
        proof {
            assert(self@ =~= old(self)@.push((lower_seq(trim_seq(name@)), trim_seq(value@))));
        }
    }

    /// All values stored under `name`, in insertion order.
    pub fn get_all(&self, name: &Vec<u8>) -> (r: Vec<Vec<u8>>)
        ensures
            r@.map_values(|v: Vec<u8>| v@) == spec_values(self@, name@),
    {
        let mut out: Vec<Vec<u8>> = Vec::new();
        let mut i: usize = 0;
        while i < self.items.len()
            invariant
                i <= self.items.len(),
                self@.len() == self.items@.len(),
                forall|k: int|
                    0 <= k < self.items@.len() ==> self@[k] == (
                    self.items@[k].0@,
                    self.items@[k].1@,
                ),
                out@.map_values(|v: Vec<u8>| v@) == spec_values(self@.take(i as int), name@),
            decreases self.items.len() - i,
        {
            let ghost pre = out@.map_values(|v: Vec<u8>| v@);
            if eq_bytes(&self.items[i].0, name) {
                let v = copy_bytes(&self.items[i].1);
                out.push(v);
                proof {
                    assert(out@.map_values(|v: Vec<u8>| v@) =~= pre.push(self@[i as int].1));
                }
            }
            proof {
                assert(self@.take(i + 1int).drop_last() =~= self@.take(i as int));
                assert(self@.take(i + 1int).last() == self@[i as int]);
            }
            i = i + 1;
        }
        proof {
            assert(self@.take(self@.len() as int) =~= self@);
        }
        out
    }

    /// The first value stored under `name`, copied out, if any.
    pub fn get_first(&self, name: &Vec<u8>) -> (r: Option<Vec<u8>>)
        ensures
            match r {
                Some(v) => spec_first_value(self@, name@) == Some(v@),
                None => spec_first_value(self@, name@) is None,
            },
    {
        let mut i: usize = 0;
        proof {
            assert(self@.skip(0) =~= self@);
        }
        while i < self.items.len()
            invariant
                i <= self.items.len(),
                self@.len() == self.items@.len(),
                forall|k: int|
                    0 <= k < self.items@.len() ==> self@[k] == (
                    self.items@[k].0@,
                    self.items@[k].1@,
                ),
                spec_first_value(self@, name@) == spec_first_value(self@.skip(i as int), name@),
            decreases self.items.len() - i,
        {
            proof {
                assert(self@.skip(i as int)[0] == self@[i as int]);
                assert(self@.skip(i as int).skip(1) =~= self@.skip(i + 1int));
            }
            if eq_bytes(&self.items[i].0, name) {
                return Some(copy_bytes(&self.items[i].1));
            }
            i = i + 1;
        }
        proof {
            assert(self@.skip(self@.len() as int) =~= Seq::<(Seq<u8>, Seq<u8>)>::empty());
        }
        None
    }

    /// What the store says about the request's Content-Length: absent, a
    /// valid length, or present-but-malformed.
    pub fn content_length(&self) -> (r: ContentLength)
        ensures
            r == spec_content_length(self@),
    {
        let mut key: Vec<u8> = Vec::new();
        key.push(99);
        key.push(111);
        key.push(110);
        key.push(116);
        key.push(101);
        key.push(110);
        key.push(116);
        key.push(45);
        key.push(108);
        key.push(101);
        key.push(110);
        key.push(103);
        key.push(116);
        key.push(104);
        proof {
            assert(key@ =~= cl_key());
        }
        match self.get_first(&key) {
            None => ContentLength::Absent,
            Some(v) => match parse_dec_bytes(&v) {
                Some(n) => ContentLength::Length(n),
                None => ContentLength::Invalid,
            },
        }
    }

    /// True iff a `transfer-encoding` header is present and its first value
    /// contains the token `chunked`, compared case-insensitively.
    pub fn is_chunked(&self) -> (r: bool)
        ensures
            r == spec_is_chunked(self@),
    {
        let mut key: Vec<u8> = Vec::new();
        key.push(116);
        key.push(114);
        key.push(97);
        key.push(110);
        key.push(115);
        key.push(102);
        key.push(101);
        key.push(114);
        key.push(45);
        key.push(101);
        key.push(110);
        key.push(99);
        key.push(111);
        key.push(100);
        key.push(105);
        key.push(110);
        key.push(103);
        proof {
            assert(key@ =~= te_key());
        }
        match self.get_first(&key) {
            None => false,
            Some(v) => {
                let lv = lower_bytes(&v);
                let mut tok: Vec<u8> = Vec::new();
                tok.push(99);
                tok.push(104);
                tok.push(117);
                tok.push(110);
                tok.push(107);
                tok.push(101);
                tok.push(100);
                proof {
                    assert(tok@ =~= chunked_token());
                }
                contains_bytes(&lv, &tok)
            },
        }
    }
}

/// True iff `needle` occurs as a contiguous run inside `hay`.
pub fn contains_bytes(hay: &Vec<u8>, needle: &Vec<u8>) -> (r: bool)
    ensures
        r == contains_seq(hay@, needle@),
{
    if needle.len() > hay.len() {
        proof {
            assert(!contains_seq(hay@, needle@));
        }
        return false;
    }
    if needle.len() == 0 {
        proof {
            assert(hay@.subrange(0, 0 + needle@.len() as int) =~= needle@);
            assert(contains_seq(hay@, needle@));
        }
        return true;
    }
    let mut i: usize = 0;
    while i <= hay.len() - needle.len()
        invariant
            1 <= needle@.len() <= hay@.len(),
            hay@.len() <= usize::MAX,
            i <= hay@.len() - needle@.len() + 1,
            forall|j: int|
                0 <= j < i ==> #[trigger] hay@.subrange(j, j + needle@.len() as int) != needle@,
        decreases hay.len() - needle.len() + 1 - i,
    {
        let mut k: usize = 0;
        let mut matched: bool = true;
        while k < needle.len() && matched
            invariant
                i + needle@.len() <= hay@.len(),
                hay@.len() <= usize::MAX,
                k <= needle@.len(),
                matched ==> forall|m: int|
                    0 <= m < k ==> hay@[i + m] == #[trigger] needle@[m],
                !matched ==> hay@.subrange(i as int, i + needle@.len() as int) != needle@,
            decreases needle.len() - k,
        {
            if hay[i + k] != needle[k] {
                proof {
                    assert(hay@.subrange(i as int, i + needle@.len() as int)[k as int] == hay@[i
                        + k]);
                }
                matched = false;
            }
            k = k + 1;
        }
        if matched {
            proof {
                assert forall|m: int|
                    0 <= m < needle@.len() implies hay@.subrange(
                    i as int,
                    i + needle@.len() as int,
                )[m] == needle@[m] by {
                    assert(hay@[i + m] == needle@[m]);
                }
                assert(hay@.subrange(i as int, i + needle@.len() as int) =~= needle@);
            }
            return true;
        }
        i = i + 1;
    }
    proof {
        assert forall|j: int| 0 <= j && j + needle@.len() <= hay@.len() implies #[trigger] hay@.subrange(
            j,
            j + needle@.len() as int,
        ) != needle@ by {
            assert(j < i);
        }
    }
    false
}

} // verus!
