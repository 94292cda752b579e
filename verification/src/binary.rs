use vstd::prelude::*;

verus! {

/// Width of the offsets kept by [`Binary`], chosen once at construction and
/// preserved end-to-end, so that small columns stay compact while large
/// columns cannot overflow their offsets.
#[derive(Clone, Copy, PartialEq, Eq, Structural, Debug)]
pub enum OffsetWidth {
    /// Every offset must fit in 32 bits.
    W32,
    /// Offsets as wide as the machine word.
    W64,
}

impl OffsetWidth {
    /// Largest total byte-buffer length addressable with this width.
    pub open spec fn spec_max(self) -> nat {
        match self {
            OffsetWidth::W32 => u32::MAX as nat,
            OffsetWidth::W64 => usize::MAX as nat,
        }
    }

    /// Largest total byte-buffer length addressable with this width.
    pub fn max_len(self) -> (r: usize)
        ensures
            r == self.spec_max(),
    {
        match self {
            OffsetWidth::W32 => u32::MAX as usize,
            OffsetWidth::W64 => usize::MAX,
        }
    }
}

/// Growable buffer of byte-string values: a flat byte buffer plus a
/// non-decreasing offset array, where `offsets[i]..offsets[i+1]` delimits
/// value `i`. Append-only.
#[derive(Debug)]
pub struct Binary {
    values: Vec<u8>,
    offsets: Vec<usize>,
    width: OffsetWidth,
}

impl View for Binary {
    type V = Seq<Seq<u8>>;

    /// The byte strings held, in push order.
    closed spec fn view(&self) -> Seq<Seq<u8>> {
        Seq::new(
            (self.offsets@.len() - 1) as nat,
            |i: int| self.values@.subrange(self.offsets@[i] as int, self.offsets@[i + 1] as int),
        )
    }
}

impl Binary {
    /// The offset width chosen at construction.
    pub closed spec fn spec_width(self) -> OffsetWidth {
        self.width
    }

    /// Total number of bytes held by the flat value buffer.
    pub closed spec fn total_bytes(self) -> nat {
        self.values@.len()
    }

    /// Well-formedness: the offsets start at zero, never decrease, end at
    /// the byte-buffer length, and all fit the chosen width.
    pub closed spec fn wf(self) -> bool {
        &&& self.offsets@.len() >= 1
        &&& self.offsets@[0] == 0
        &&& forall|i: int, j: int|
            0 <= i <= j < self.offsets@.len() ==> self.offsets@[i] <= self.offsets@[j]
        &&& self.offsets@[self.offsets@.len() - 1] == self.values@.len()
        &&& forall|i: int| 0 <= i < self.offsets@.len() ==> self.offsets@[i] <= self.width.spec_max()
    }

    /// A well-formed buffer never holds more bytes than its width can
    /// address.
    pub proof fn lemma_total_bounded(self)
        requires
            self.wf(),
        ensures
            self.total_bytes() <= self.spec_width().spec_max(),
    {
        assert(self.offsets@[self.offsets@.len() - 1] <= self.width.spec_max());
    }

    /// An empty buffer with room reserved for about `capacity` values.
    pub fn with_capacity(capacity: usize, width: OffsetWidth) -> (r: Binary)
        ensures
            r.wf(),
            r@ == Seq::<Seq<u8>>::empty(),
            r.spec_width() == width,
            r.total_bytes() == 0,
    {
        let values: Vec<u8> = Vec::with_capacity(capacity);
        let mut offsets: Vec<usize> = Vec::with_capacity(capacity);
        offsets.push(0);
        let r = Binary { values, offsets, width };
        proof {
            assert(r@ =~= Seq::<Seq<u8>>::empty());
        }
        r
    }

    /// An empty buffer.
    pub fn new(width: OffsetWidth) -> (r: Binary)
        ensures
            r.wf(),
            r@ == Seq::<Seq<u8>>::empty(),
            r.spec_width() == width,
            r.total_bytes() == 0,
    {
        Binary::with_capacity(0, width)
    }

    /// Number of values held.
    pub fn len(&self) -> (r: usize)
        requires
            self.wf(),
        ensures
            r == self@.len(),
    {
        self.offsets.len() - 1
    }

    /// Appends one byte string, unless its bytes would push the buffer past
    /// what the offset width can address; reports whether it was appended.
    pub fn try_push(&mut self, v: &[u8]) -> (r: bool)
        requires
            old(self).wf(),
        ensures
            final(self).wf(),
            final(self).spec_width() == old(self).spec_width(),
            r == (old(self).total_bytes() + v@.len() <= old(self).spec_width().spec_max()),
            r ==> final(self)@ == old(self)@.push(v@) && final(self).total_bytes() == old(
                self,
            ).total_bytes() + v@.len(),
            !r ==> final(self)@ == old(self)@ && final(self).total_bytes() == old(
                self,
            ).total_bytes(),
    {
        let max = self.width.max_len();
        let cur = self.values.len();
        proof {
            assert(self.offsets@[self.offsets@.len() - 1] <= self.width.spec_max());
        }
        if v.len() > max - cur {
            return false;
        }
        let mut i: usize = 0;
        while i < v.len()
            invariant
                i <= v@.len(),
                self.values@ == old(self).values@ + v@.take(i as int),
                self.offsets@ == old(self).offsets@,
                self.width == old(self).width,
            decreases v@.len() - i,
        {
            let b = v[i];
            self.values.push(b);
            proof {
                assert(v@.take(i as int).push(v@[i as int]) =~= v@.take(i as int + 1));
            }
            i += 1;
        }
        proof {
            assert(v@.take(v@.len() as int) =~= v@);
        }
        let total = self.values.len();
        self.offsets.push(total);
        proof {
            let o0 = old(self).offsets@;
            let n = o0.len() as int;
            assert forall|a: int, b: int|
                0 <= a <= b < self.offsets@.len() implies self.offsets@[a] <= self.offsets@[b] by {
                if b < n {
                    assert(o0[a] <= o0[b]);
                } else if a < n {
                    assert(o0[a] <= o0[n - 1]);
                }
            }
            assert(self@.len() == old(self)@.len() + 1);
            assert forall|k: int| 0 <= k < self@.len() implies self@[k] == old(self)@.push(v@)[k] by {
                if k < old(self)@.len() {
                    assert(self.offsets@[k] == o0[k]);
                    assert(self.offsets@[k + 1] == o0[k + 1]);
                    assert(o0[k + 1] <= o0[n - 1]);
                    assert(self.values@.subrange(o0[k] as int, o0[k + 1] as int) =~= old(
                        self,
                    ).values@.subrange(o0[k] as int, o0[k + 1] as int));
                } else {
                    assert(self.offsets@[k] == o0[n - 1]);
                    assert(self@[k] =~= v@);
                }
            }
            assert(self@ =~= old(self)@.push(v@));
        }
        true
    }

    /// Hands the accumulated parts out for finalization: the flat byte
    /// buffer, the offset array and the width. The offsets start at zero,
    /// never decrease, end at the byte-buffer length, and delimit exactly
    /// the values held.
    pub fn into_parts(self) -> (r: (Vec<u8>, Vec<usize>, OffsetWidth))
        requires
            self.wf(),
        ensures
            r.2 == self.spec_width(),
            r.0@.len() == self.total_bytes(),
            r.1@.len() == self@.len() + 1,
            r.1@[0] == 0,
            r.1@[r.1@.len() - 1] == r.0@.len(),
            forall|i: int, j: int| 0 <= i <= j < r.1@.len() ==> r.1@[i] <= r.1@[j],
            forall|i: int| 0 <= i < r.1@.len() ==> r.1@[i] <= self.spec_width().spec_max(),
            forall|k: int|
                0 <= k < self@.len() ==> self@[k] == r.0@.subrange(
                    r.1@[k] as int,
                    r.1@[k + 1] as int,
                ),
    {
        let Binary { values, offsets, width } = self;
        (values, offsets, width)
    }
}

} // verus!
