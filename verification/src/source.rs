use vstd::prelude::*;

verus! {

/// An in-memory byte source: the bytes a connection will deliver, together
/// with a schedule of read sizes that controls how the stream is fragmented
/// across reads. A read hands out the next bytes of `data`, never more than
/// the caller asked for and never more than the schedule's next entry; once
/// the data is exhausted every read returns zero bytes, the orderly-close
/// signal.
pub struct MemSource {
    data: Vec<u8>,
    pos: usize,
    sizes: Vec<usize>,
    sidx: usize,
}

impl MemSource {
    /// The source is consistent: the read position is inside the data.
    pub closed spec fn wf(&self) -> bool {
        self.pos <= self.data@.len()
    }

    /// The bytes not yet handed out.
    pub closed spec fn remaining(&self) -> Seq<u8> {
        self.data@.skip(self.pos as int)
    }

    /// A source that will deliver `data`, fragmented per `sizes`: the i-th
    /// read returns at most `sizes[i]` bytes (entries below one count as
    /// one); reads beyond the schedule are bounded by the caller alone.
    pub fn new(data: Vec<u8>, sizes: Vec<usize>) -> (r: Self)
        ensures
            r.wf(),
            r.remaining() == data@,
    {
        let r = MemSource { data, pos: 0, sizes, sidx: 0 };
        proof {
            assert(r.remaining() =~= r.data@);
        }
        r
    }

    /// Reads the next bytes into `buf[0 .. n]` and reports `n`: a prefix of
    /// the remaining stream, at most `max` bytes, zero exactly when the
    /// stream is exhausted.
    pub fn read(&mut self, buf: &mut Vec<u8>, max: usize) -> (n: usize)
        requires
            old(self).wf(),
            max >= 1,
            old(buf).len() >= max,
        ensures
            final(self).wf(),
            n <= max,
            final(buf)@.len() == old(buf)@.len(),
            n as int <= old(self).remaining().len(),
            final(buf)@.subrange(0, n as int) == old(self).remaining().take(n as int),
            final(self).remaining() == old(self).remaining().skip(n as int),
            (n == 0) == (old(self).remaining().len() == 0),
    {
        let rem: usize = self.data.len() - self.pos;
        if rem == 0 {
            proof {
                assert(self.remaining() =~= old(self).remaining().skip(0));
                assert(buf@.subrange(0, 0) =~= old(self).remaining().take(0));
            }
            return 0;
        }
        let mut k: usize = if max < rem {
            max
        } else {
            rem
        };
        if self.sidx < self.sizes.len() {
            let cap = self.sizes[self.sidx];
            self.sidx = self.sidx + 1;
            if cap >= 1 && cap < k {
                k = cap;
            }
        }
        let ghost pos0 = self.pos as int;
        let mut t: usize = 0;
        while t < k
            invariant
                t <= k,
                k >= 1,
                pos0 == self.pos as int,
                pos0 + k <= self.data@.len(),
                self.data@.len() <= usize::MAX,
                k <= max <= buf@.len(),
                buf@.len() == old(buf)@.len(),
                forall|j: int| 0 <= j < t ==> buf@[j] == self.data@[pos0 + j],
            decreases k - t,
        {
            let b = self.data[self.pos + t];
            buf.set(t, b);
            t = t + 1;
        }
        self.pos = self.pos + k;
        proof {
            assert(buf@.subrange(0, k as int) =~= old(self).remaining().take(k as int));
            assert(self.remaining() =~= old(self).remaining().skip(k as int));
        }
        k
    }
}

} // verus!
