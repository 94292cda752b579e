use vstd::prelude::*;

verus! {

/// The unsigned integer held by four little-endian bytes.
pub open spec fn le32(b: Seq<u8>) -> nat
    recommends
        b.len() == 4,
{
    (b[0] + b[1] * 0x100 + b[2] * 0x10000 + b[3] * 0x1000000) as nat
}

/// The byte strings that a plain-encoded value buffer holds: each value is
/// a four-byte little-endian length followed by that many bytes. Parsing
/// stops at the end of the buffer, or where the buffer ends before the
/// bytes a length declares.
pub open spec fn parse_plain(s: Seq<u8>) -> Seq<Seq<u8>>
    decreases s.len(),
{
    if s.len() < 4 {
        Seq::empty()
    } else {
        let n = le32(s.subrange(0, 4));
        if s.len() < n + 4 {
            Seq::empty()
        } else {
            Seq::empty().push(s.subrange(4, n as int + 4)) + parse_plain(
                s.subrange(n as int + 4, s.len() as int),
            )
        }
    }
}

/// Lazy reader over a plain-encoded value buffer.
#[derive(Debug)]
pub struct PlainReader {
    /// The value sub-buffer of the page.
    pub buf: Vec<u8>,
    /// How many bytes have been consumed.
    pub pos: usize,
}

impl PlainReader {
    /// The reader's position never passes the end of its buffer.
    pub open spec fn wf(self) -> bool {
        self.pos <= self.buf@.len()
    }

    /// The bytes not yet consumed.
    pub open spec fn rem(self) -> Seq<u8> {
        self.buf@.skip(self.pos as int)
    }

    /// The byte strings not yet read.
    pub open spec fn items(self) -> Seq<Seq<u8>> {
        parse_plain(self.rem())
    }

    /// A reader over a whole value buffer.
    pub fn new(buf: Vec<u8>) -> (r: PlainReader)
        ensures
            r.wf(),
            r.buf@ == buf@,
            r.pos == 0,
            r.items() == parse_plain(buf@),
    {
        let r = PlainReader { buf, pos: 0 };
        proof {
            assert(r.rem() =~= r.buf@);
        }
        r
    }

    /// Reads the next byte string, or reports that none is left (also where
    /// the buffer ends before the bytes a length declares).
    pub fn next(&mut self) -> (r: Option<Vec<u8>>)
        requires
            old(self).wf(),
        ensures
            final(self).wf(),
            final(self).buf@ == old(self).buf@,
            old(self).items().len() > 0 ==> (r matches Some(v) && v@ == old(self).items()[0]
                && final(self).items() == old(self).items().skip(1)),
            old(self).items().len() == 0 ==> r is None && final(self).pos == old(self).pos,
    {
        let len = self.buf.len();
        let ghost rem0 = self.rem();
        if len - self.pos < 4 {
            return None;
        }
        let b0 = self.buf[self.pos] as usize;
        let b1 = self.buf[self.pos + 1] as usize;
        let b2 = self.buf[self.pos + 2] as usize;
        let b3 = self.buf[self.pos + 3] as usize;
        let n = b0 + b1 * 0x100 + b2 * 0x10000 + b3 * 0x1000000;
        proof {
            let head = rem0.subrange(0, 4);
            assert(head[0] == self.buf@[self.pos as int]);
            assert(head[1] == self.buf@[self.pos as int + 1]);
            assert(head[2] == self.buf@[self.pos as int + 2]);
            assert(head[3] == self.buf@[self.pos as int + 3]);
            assert(n == le32(head));
        }
        if n > len - (self.pos + 4) {
            proof {
                assert(rem0.len() < n + 4);
            }
            return None;
        }
        let start = self.pos + 4;
        let end = start + n;
        let mut out: Vec<u8> = Vec::with_capacity(n);
        let mut j: usize = start;
        while j < end
            invariant
                start <= j <= end,
                end <= self.buf@.len(),
                out@ == self.buf@.subrange(start as int, j as int),
                self.buf@ == old(self).buf@,
                self.pos == old(self).pos,
            decreases end - j,
        {
            let b = self.buf[j];
            out.push(b);
            proof {
                assert(self.buf@.subrange(start as int, j as int).push(self.buf@[j as int]) =~= self
                    .buf@.subrange(start as int, j as int + 1));
            }
            j += 1;
        }
        self.pos = end;
        proof {
            let v = rem0.subrange(4, n as int + 4);
            assert(out@ =~= v);
            let tail = rem0.subrange(n as int + 4, rem0.len() as int);
            assert(parse_plain(rem0) == Seq::empty().push(v) + parse_plain(tail));
            assert(parse_plain(rem0)[0] == v);
            assert(self.rem() =~= tail);
            assert(self.items() =~= parse_plain(rem0).skip(1));
        }
        Some(out)
    }
}

} // verus!
