use vstd::prelude::*;
use crate::error::Error;

verus! {

/// Shape of a sound binary dictionary: a flat byte buffer plus an offset
/// array that starts at zero, never decreases and ends at the buffer
/// length.
pub open spec fn dict_shape_ok(values: Seq<u8>, offsets: Seq<u32>) -> bool {
    &&& offsets.len() >= 1
    &&& offsets[0] == 0
    &&& forall|i: int, j: int| 0 <= i <= j < offsets.len() ==> offsets[i] <= offsets[j]
    &&& offsets[offsets.len() - 1] == values.len()
}

/// Read-only view over a pre-decoded dictionary of byte strings: entry `i`
/// is `values[offsets[i]..offsets[i+1]]`. Built only through the checked
/// constructor, so every value of this type is sound.
#[derive(Debug)]
pub struct Dict {
    values: Vec<u8>,
    offsets: Vec<u32>,
}

impl Dict {
    /// The flat byte buffer.
    pub closed spec fn spec_values(self) -> Seq<u8> {
        self.values@
    }

    /// The offset array delimiting the entries.
    pub closed spec fn spec_offsets(self) -> Seq<u32> {
        self.offsets@
    }

    #[verifier::type_invariant]
    spec fn type_inv(self) -> bool {
        dict_shape_ok(self.values@, self.offsets@)
    }

    /// Every dictionary in circulation has a sound shape.
    pub open spec fn wf(self) -> bool {
        dict_shape_ok(self.spec_values(), self.spec_offsets())
    }

    /// Number of entries.
    pub open spec fn spec_len(self) -> nat {
        (self.spec_offsets().len() - 1) as nat
    }

    /// The byte string at index `i`.
    pub open spec fn entry(self, i: int) -> Seq<u8> {
        self.spec_values().subrange(
            self.spec_offsets()[i] as int,
            self.spec_offsets()[i + 1] as int,
        )
    }

    /// Checks that the given parts have the shape of a binary dictionary
    /// and takes ownership of them; a mismatched shape is a type-mismatch
    /// error, never an unchecked reinterpretation.
    pub fn try_new(values: Vec<u8>, offsets: Vec<u32>) -> (r: Result<Dict, Error>)
        ensures
            r matches Ok(d) ==> d.wf() && d.spec_values() == values@ && d.spec_offsets()
                == offsets@,
            r is Ok <==> dict_shape_ok(values@, offsets@),
            r is Err ==> r == Err::<Dict, Error>(Error::TypeMismatch),
    {
        if offsets.len() == 0 {
            return Err(Error::TypeMismatch);
        }
        if offsets[0] != 0 {
            return Err(Error::TypeMismatch);
        }
        if offsets[offsets.len() - 1] as usize != values.len() {
            return Err(Error::TypeMismatch);
        }
        let mut i: usize = 1;
        while i < offsets.len()
            invariant
                1 <= i <= offsets@.len(),
                forall|a: int, b: int| 0 <= a <= b < i ==> offsets@[a] <= offsets@[b],
            decreases offsets@.len() - i,
        {
            if offsets[i - 1] > offsets[i] {
                return Err(Error::TypeMismatch);
            }
            proof {
                assert forall|a: int, b: int|
                    0 <= a <= b < i + 1 implies offsets@[a] <= offsets@[b] by {
                    if b == i {
                        if a < i {
                            assert(offsets@[a] <= offsets@[i - 1]);
                        }
                    }
                }
            }
            i += 1;
        }
        Ok(Dict { values, offsets })
    }

    /// Number of entries.
    pub fn len(&self) -> (r: usize)
        ensures
            r == self.spec_len(),
    {
        proof {
            use_type_invariant(self);
        }
        self.offsets.len() - 1
    }

    /// Resolves index `i` to its byte string, or reports that the index
    /// lies outside the dictionary.
    pub fn get(&self, i: usize) -> (r: Option<Vec<u8>>)
        ensures
            i < self.spec_len() ==> (r matches Some(v) && v@ == self.entry(i as int)),
            i >= self.spec_len() ==> r is None,
    {
        proof {
            use_type_invariant(self);
        }
        if i >= self.offsets.len() - 1 {
            return None;
        }
        let start = self.offsets[i] as usize;
        let end = self.offsets[i + 1] as usize;
        proof {
            let last = self.spec_offsets().len() - 1;
            assert(self.spec_offsets()[i as int] <= self.spec_offsets()[i as int + 1]);
            assert(self.spec_offsets()[i as int + 1] <= self.spec_offsets()[last]);
        }
        let mut out: Vec<u8> = Vec::with_capacity(end - start);
        let mut j: usize = start;
        while j < end
            invariant
                start <= j <= end,
                end <= self.spec_values().len(),
                out@ == self.spec_values().subrange(start as int, j as int),
            decreases end - j,
        {
            let b = self.values[j];
            out.push(b);
            proof {
                assert(self.spec_values().subrange(start as int, j as int).push(
                    self.spec_values()[j as int],
                ) =~= self.spec_values().subrange(start as int, j as int + 1));
            }
            j += 1;
        }
        Some(out)
    }
}

} // verus!
