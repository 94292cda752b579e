use vstd::prelude::*;
use crate::binary::Binary;
use crate::binary::OffsetWidth;
use crate::dict::Dict;
use crate::error::Error;
use crate::page::PageEncoding;
use crate::page::PageInfo;
use crate::parquet::rle_decode;
use crate::parquet::rle_decoded;
use crate::parquet::rle_input_check;
use crate::parquet::rle_input_ok;
use crate::plain::PlainReader;
use crate::plain::parse_plain;

verus! {

// ---------------------------------------------------------------------------
// Spec model of one page's decode: what a run of pushes appends, given the
// page's byte strings and the slots (valid or null) the nested shape asks
// for.
// ---------------------------------------------------------------------------
/// How many of the given slots are valid (consume a value from the page).
pub open spec fn count_valid(slots: Seq<bool>) -> nat
    decreases slots.len(),
{
    if slots.len() == 0 {
        0
    } else {
        (if slots[0] {
            1nat
        } else {
            0nat
        }) + count_valid(slots.skip(1))
    }
}

/// The byte strings appended for the given slots: a valid slot takes the
/// next page value (or the empty string once the page is exhausted), a
/// null slot appends the empty string without consuming anything.
pub open spec fn decoded_values(vals: Seq<Seq<u8>>, slots: Seq<bool>) -> Seq<Seq<u8>>
    decreases slots.len(),
{
    if slots.len() == 0 {
        Seq::empty()
    } else if slots[0] {
        if vals.len() > 0 {
            Seq::empty().push(vals[0]) + decoded_values(vals.skip(1), slots.skip(1))
        } else {
            Seq::empty().push(Seq::empty()) + decoded_values(vals, slots.skip(1))
        }
    } else {
        Seq::empty().push(Seq::empty()) + decoded_values(vals, slots.skip(1))
    }
}

/// The validity bits appended for the given slots: a null slot always
/// appends `false`; a valid slot appends `true` on an optional page and
/// nothing on a required one.
pub open spec fn decoded_bits(slots: Seq<bool>, optional: bool) -> Seq<bool>
    decreases slots.len(),
{
    if slots.len() == 0 {
        Seq::empty()
    } else if slots[0] {
        (if optional {
            Seq::empty().push(true)
        } else {
            Seq::empty()
        }) + decoded_bits(slots.skip(1), optional)
    } else {
        Seq::empty().push(false) + decoded_bits(slots.skip(1), optional)
    }
}

/// Total byte count of a sequence of byte strings.
pub open spec fn seq_total_len(vals: Seq<Seq<u8>>) -> nat
    decreases vals.len(),
{
    if vals.len() == 0 {
        0
    } else {
        vals[0].len() + seq_total_len(vals.skip(1))
    }
}

/// The byte strings that a sequence of dictionary indices stands for.
pub open spec fn resolve(d: Dict, idxs: Seq<u32>) -> Seq<Seq<u8>> {
    Seq::new(idxs.len(), |j: int| d.entry(idxs[j] as int))
}

// ---------------------------------------------------------------------------
// Lemmas about the spec model.
// ---------------------------------------------------------------------------
pub proof fn lemma_count_valid_snoc(s: Seq<bool>, b: bool)
    ensures
        count_valid(s.push(b)) == count_valid(s) + (if b {
            1nat
        } else {
            0nat
        }),
    decreases s.len(),
{
    if s.len() == 0 {
        assert(s.push(b)[0] == b);
        assert(s.push(b).skip(1) =~= Seq::<bool>::empty());
        assert(count_valid(Seq::<bool>::empty()) == 0);
    } else {
        assert(s.push(b)[0] == s[0]);
        assert(s.push(b).skip(1) =~= s.skip(1).push(b));
        lemma_count_valid_snoc(s.skip(1), b);
    }
}

pub proof fn lemma_count_valid_mono(s: Seq<bool>, i: int)
    requires
        0 <= i <= s.len(),
    ensures
        count_valid(s.take(i)) <= count_valid(s),
    decreases s.len() - i,
{
    if i == s.len() {
        assert(s.take(i) =~= s);
    } else {
        assert(s.take(i + 1) =~= s.take(i).push(s[i]));
        lemma_count_valid_snoc(s.take(i), s[i]);
        lemma_count_valid_mono(s, i + 1);
    }
}

pub proof fn lemma_decoded_values_snoc(vals: Seq<Seq<u8>>, s: Seq<bool>, b: bool)
    ensures
        decoded_values(vals, s.push(b)) == decoded_values(vals, s).push(
            if b {
                if count_valid(s) < vals.len() {
                    vals[count_valid(s) as int]
                } else {
                    Seq::empty()
                }
            } else {
                Seq::empty()
            },
        ),
    decreases s.len(),
{
    let step: Seq<u8> = if b {
        if count_valid(s) < vals.len() {
            vals[count_valid(s) as int]
        } else {
            Seq::empty()
        }
    } else {
        Seq::empty()
    };
    if s.len() == 0 {
        assert(s.push(b)[0] == b);
        assert(s.push(b).skip(1) =~= Seq::<bool>::empty());
        assert(count_valid(s) == 0);
        assert(decoded_values(vals, Seq::<bool>::empty()) =~= Seq::<Seq<u8>>::empty());
        assert(decoded_values(vals.skip(1), Seq::<bool>::empty()) =~= Seq::<Seq<u8>>::empty());
        assert(decoded_values(vals, s.push(b)) =~= decoded_values(vals, s).push(step));
    } else {
        assert(s.push(b)[0] == s[0]);
        assert(s.push(b).skip(1) =~= s.skip(1).push(b));
        if s[0] {
            if vals.len() > 0 {
                lemma_decoded_values_snoc(vals.skip(1), s.skip(1), b);
                assert(count_valid(s) == 1 + count_valid(s.skip(1)));
                if b && count_valid(s.skip(1)) < vals.skip(1).len() {
                    assert(vals.skip(1)[count_valid(s.skip(1)) as int] == vals[count_valid(
                        s,
                    ) as int]);
                }
                assert(decoded_values(vals, s.push(b)) =~= decoded_values(vals, s).push(step));
            } else {
                lemma_decoded_values_snoc(vals, s.skip(1), b);
                assert(decoded_values(vals, s.push(b)) =~= decoded_values(vals, s).push(step));
            }
        } else {
            lemma_decoded_values_snoc(vals, s.skip(1), b);
            assert(count_valid(s) == count_valid(s.skip(1)));
            assert(decoded_values(vals, s.push(b)) =~= decoded_values(vals, s).push(step));
        }
    }
}

pub proof fn lemma_decoded_bits_snoc(s: Seq<bool>, b: bool, optional: bool)
    ensures
        decoded_bits(s.push(b), optional) == decoded_bits(s, optional) + (if b {
            if optional {
                Seq::empty().push(true)
            } else {
                Seq::<bool>::empty()
            }
        } else {
            Seq::empty().push(false)
        }),
    decreases s.len(),
{
    let step: Seq<bool> = if b {
        if optional {
            Seq::empty().push(true)
        } else {
            Seq::<bool>::empty()
        }
    } else {
        Seq::empty().push(false)
    };
    if s.len() == 0 {
        assert(s.push(b)[0] == b);
        assert(s.push(b).skip(1) =~= Seq::<bool>::empty());
        assert(decoded_bits(Seq::<bool>::empty(), optional) =~= Seq::<bool>::empty());
        assert(decoded_bits(s.push(b), optional) =~= decoded_bits(s, optional) + step);
    } else {
        assert(s.push(b)[0] == s[0]);
        assert(s.push(b).skip(1) =~= s.skip(1).push(b));
        lemma_decoded_bits_snoc(s.skip(1), b, optional);
        assert(decoded_bits(s.push(b), optional) =~= decoded_bits(s, optional) + step);
    }
}

pub proof fn lemma_seq_total_snoc(vals: Seq<Seq<u8>>, v: Seq<u8>)
    ensures
        seq_total_len(vals.push(v)) == seq_total_len(vals) + v.len(),
    decreases vals.len(),
{
    if vals.len() == 0 {
        assert(vals.push(v)[0] == v);
        assert(vals.push(v).skip(1) =~= Seq::<Seq<u8>>::empty());
        assert(seq_total_len(Seq::<Seq<u8>>::empty()) == 0);
    } else {
        assert(vals.push(v)[0] == vals[0]);
        assert(vals.push(v).skip(1) =~= vals.skip(1).push(v));
        lemma_seq_total_snoc(vals.skip(1), v);
    }
}

pub proof fn lemma_decoded_len(vals: Seq<Seq<u8>>, s: Seq<bool>)
    ensures
        decoded_values(vals, s).len() == s.len(),
    decreases s.len(),
{
    if s.len() > 0 {
        if s[0] && vals.len() > 0 {
            lemma_decoded_len(vals.skip(1), s.skip(1));
        } else {
            lemma_decoded_len(vals, s.skip(1));
        }
    }
}

pub proof fn lemma_decoded_total_mono(vals: Seq<Seq<u8>>, s: Seq<bool>, i: int)
    requires
        0 <= i <= s.len(),
    ensures
        seq_total_len(decoded_values(vals, s.take(i))) <= seq_total_len(decoded_values(vals, s)),
    decreases s.len() - i,
{
    if i == s.len() {
        assert(s.take(i) =~= s);
    } else {
        assert(s.take(i + 1) =~= s.take(i).push(s[i]));
        lemma_decoded_values_snoc(vals, s.take(i), s[i]);
        lemma_seq_total_snoc(
            decoded_values(vals, s.take(i)),
            decoded_values(vals, s.take(i + 1)).last(),
        );
        lemma_decoded_total_mono(vals, s, i + 1);
    }
}

// ---------------------------------------------------------------------------
// The page decode state: one variant per supported (encoding, optionality)
// combination.
// ---------------------------------------------------------------------------
/// Reader over a page's decoded dictionary index stream, consumed one
/// index per valid slot, with the dictionary the indices refer to.
#[derive(Debug)]
pub struct DictReader {
    /// The decoded index stream of the page.
    pub indices: Vec<u32>,
    /// How many indices have been consumed.
    pub pos: usize,
    /// The dictionary the indices refer to.
    pub dict: Dict,
}

impl DictReader {
    /// The position never passes the end of the index stream.
    pub open spec fn wf(self) -> bool {
        self.pos <= self.indices@.len()
    }

    /// The indices not yet consumed.
    pub open spec fn rem(self) -> Seq<u32> {
        self.indices@.skip(self.pos as int)
    }
}

/// Decode state of one page, selected once per page from its encoding,
/// dictionary presence and optionality.
#[derive(Debug)]
pub enum State {
    /// Plain-encoded values, nulls indicated externally by the nested shape.
    Optional(PlainReader),
    /// Plain-encoded values, no nulls possible.
    Required(PlainReader),
    /// Dictionary indices plus dictionary view, no nulls possible.
    RequiredDictionary(DictReader),
    /// Dictionary indices plus dictionary view, nulls indicated externally.
    OptionalDictionary(DictReader),
}

impl State {
    pub open spec fn wf(self) -> bool {
        match self {
            State::Optional(p) => p.wf(),
            State::Required(p) => p.wf(),
            State::RequiredDictionary(d) => d.wf(),
            State::OptionalDictionary(d) => d.wf(),
        }
    }

    /// Whether a valid push appends a validity bit.
    pub open spec fn is_optional(self) -> bool {
        match self {
            State::Optional(_) => true,
            State::OptionalDictionary(_) => true,
            State::Required(_) => false,
            State::RequiredDictionary(_) => false,
        }
    }

    /// The byte strings the page still holds, in push order; for
    /// dictionary states, the strings its remaining indices stand for.
    pub open spec fn vals(self) -> Seq<Seq<u8>> {
        match self {
            State::Optional(p) => p.items(),
            State::Required(p) => p.items(),
            State::RequiredDictionary(d) => resolve(d.dict, d.rem()),
            State::OptionalDictionary(d) => resolve(d.dict, d.rem()),
        }
    }

    /// Whether the first `k` values can be taken without meeting a corrupt
    /// dictionary index.
    pub open spec fn ok_for(self, k: nat) -> bool {
        match self {
            State::RequiredDictionary(d) => dict_ok(d, k),
            State::OptionalDictionary(d) => dict_ok(d, k),
            State::Optional(_) => true,
            State::Required(_) => true,
        }
    }

    /// `post` is this state after consuming `k` values (stopping at the
    /// end of the page): the same variant over the same page data, with
    /// only the position advanced.
    pub open spec fn advanced(self, post: State, k: nat) -> bool {
        match (self, post) {
            (State::Optional(p), State::Optional(q)) => plain_adv(p, q, k),
            (State::Required(p), State::Required(q)) => plain_adv(p, q, k),
            (State::RequiredDictionary(d), State::RequiredDictionary(e)) => dict_adv(d, e, k),
            (State::OptionalDictionary(d), State::OptionalDictionary(e)) => dict_adv(d, e, k),
            _ => false,
        }
    }
}

/// The first `k` remaining indices (as far as they exist) lie inside the
/// dictionary.
pub open spec fn dict_ok(d: DictReader, k: nat) -> bool {
    forall|j: int| 0 <= j < k && j < d.rem().len() ==> (d.rem()[j] as int) < d.dict.spec_len()
}

pub open spec fn plain_adv(p: PlainReader, q: PlainReader, k: nat) -> bool {
    &&& q.wf()
    &&& q.buf@ == p.buf@
    &&& q.items() == p.items().skip(
        if k <= p.items().len() {
            k as int
        } else {
            p.items().len() as int
        },
    )
}

pub open spec fn dict_adv(d: DictReader, e: DictReader, k: nat) -> bool {
    &&& e.wf()
    &&& e.indices@ == d.indices@
    &&& e.dict == d.dict
    &&& e.pos == if d.pos + k <= d.indices@.len() {
        (d.pos + k) as int
    } else {
        d.indices@.len() as int
    }
}

/// Consuming `k` values and then one more is consuming `k + 1`.
pub proof fn lemma_advanced_step(s0: State, s1: State, k: nat, s2: State)
    requires
        s0.wf(),
        s0.advanced(s1, k),
        s1.advanced(s2, 1),
    ensures
        s0.advanced(s2, k + 1),
{
    match (s0, s1, s2) {
        (State::Optional(p), State::Optional(q), State::Optional(r)) => {
            lemma_plain_adv_step(p, q, r, k);
        },
        (State::Required(p), State::Required(q), State::Required(r)) => {
            lemma_plain_adv_step(p, q, r, k);
        },
        _ => {},
    }
}

proof fn lemma_plain_adv_step(p: PlainReader, q: PlainReader, r: PlainReader, k: nat)
    requires
        plain_adv(p, q, k),
        plain_adv(q, r, 1),
    ensures
        plain_adv(p, r, k + 1),
{
    let n = p.items().len() as int;
    let m: int = if k <= p.items().len() {
        k as int
    } else {
        n
    };
    let m2: int = if k + 1 <= p.items().len() {
        k as int + 1
    } else {
        n
    };
    if q.items().len() > 0 {
        assert(q.items().skip(1) =~= p.items().skip(m).skip(1));
        assert(p.items().skip(m).skip(1) =~= p.items().skip(m + 1));
        assert(m + 1 == m2);
    } else {
        assert(q.items().skip(0) =~= q.items());
        assert(m == n);
        assert(m2 == n);
    }
}

/// The values a state still holds, after consuming `k`, are the tail of
/// what it held before.
pub proof fn lemma_advanced_vals(s0: State, s1: State, k: nat)
    requires
        s0.wf(),
        s0.advanced(s1, k),
    ensures
        s1.is_optional() == s0.is_optional(),
        s1.vals() == s0.vals().skip(
            if k <= s0.vals().len() {
                k as int
            } else {
                s0.vals().len() as int
            },
        ),
        s1.vals().len() == if k <= s0.vals().len() {
            s0.vals().len() - k
        } else {
            0
        },
{
    let m: int = if k <= s0.vals().len() {
        k as int
    } else {
        s0.vals().len() as int
    };
    match (s0, s1) {
        (State::RequiredDictionary(d), State::RequiredDictionary(e)) => {
            assert(resolve(d.dict, d.rem()).len() == d.rem().len());
            assert(e.rem() =~= d.rem().skip(m));
            assert(resolve(e.dict, e.rem()) =~= resolve(d.dict, d.rem()).skip(m));
        },
        (State::OptionalDictionary(d), State::OptionalDictionary(e)) => {
            assert(resolve(d.dict, d.rem()).len() == d.rem().len());
            assert(e.rem() =~= d.rem().skip(m));
            assert(resolve(e.dict, e.rem()) =~= resolve(d.dict, d.rem()).skip(m));
        },
        _ => {},
    }
}

/// A state has consumed nothing relative to itself.
pub proof fn lemma_advanced_zero(s: State)
    requires
        s.wf(),
    ensures
        s.advanced(s, 0),
{
    match s {
        State::Optional(p) => {
            assert(p.items().skip(0) =~= p.items());
        },
        State::Required(p) => {
            assert(p.items().skip(0) =~= p.items());
        },
        _ => {},
    }
}

impl State {
    /// A lower bound on how many values the page still holds, used to
    /// pre-size the accumulators: the exact remaining index count for
    /// dictionary states, and the remaining byte count less one length
    /// prefix for plain states.
    pub fn len(&self) -> (r: usize)
        requires
            self.wf(),
        ensures
            (match *self {
                State::Optional(p) => r == if p.buf@.len() - p.pos >= 4 {
                    p.buf@.len() - p.pos - 4
                } else {
                    0
                },
                State::Required(p) => r == if p.buf@.len() - p.pos >= 4 {
                    p.buf@.len() - p.pos - 4
                } else {
                    0
                },
                State::RequiredDictionary(d) => r == d.indices@.len() - d.pos,
                State::OptionalDictionary(d) => r == d.indices@.len() - d.pos,
            }),
    {
        match self {
            State::Optional(p) => {
                let rem = p.buf.len() - p.pos;
                if rem >= 4 {
                    rem - 4
                } else {
                    0
                }
            },
            State::Required(p) => {
                let rem = p.buf.len() - p.pos;
                if rem >= 4 {
                    rem - 4
                } else {
                    0
                }
            },
            State::RequiredDictionary(d) => d.indices.len() - d.pos,
            State::OptionalDictionary(d) => d.indices.len() - d.pos,
        }
    }
}

// ---------------------------------------------------------------------------
// The accumulators and the push contract.
// ---------------------------------------------------------------------------
/// The accumulators one chunk is decoded into: the binary value buffer,
/// the validity bitmask, and a flag recording whether an exhausted page
/// ever forced a default (empty) value in, so that truncated-page
/// substitution stays observable.
#[derive(Debug)]
pub struct Decoded {
    /// The binary value buffer.
    pub values: Binary,
    /// The validity bitmask: one bit per slot that carries one, `true`
    /// meaning non-null.
    pub validity: Vec<bool>,
    /// Whether a valid slot was ever filled with the default empty value
    /// because the page held no more values.
    pub substituted: bool,
}

impl Decoded {
    pub open spec fn wf(self) -> bool {
        self.values.wf()
    }
}

/// Fresh accumulators with room reserved for about `capacity` values.
pub fn with_capacity(capacity: usize, width: OffsetWidth) -> (r: Decoded)
    ensures
        r.wf(),
        r.values@ == Seq::<Seq<u8>>::empty(),
        r.values.spec_width() == width,
        r.values.total_bytes() == 0,
        r.validity@ == Seq::<bool>::empty(),
        !r.substituted,
{
    Decoded {
        values: Binary::with_capacity(capacity, width),
        validity: Vec::with_capacity(capacity),
        substituted: false,
    }
}

/// Appends one null slot: an empty byte string and a `false` validity
/// bit, independent of which state variant is active.
pub fn push_null(decoded: &mut Decoded)
    requires
        old(decoded).wf(),
    ensures
        final(decoded).wf(),
        final(decoded).values.spec_width() == old(decoded).values.spec_width(),
        final(decoded).values@ == old(decoded).values@.push(Seq::<u8>::empty()),
        final(decoded).values.total_bytes() == old(decoded).values.total_bytes(),
        final(decoded).validity@ == old(decoded).validity@.push(false),
        final(decoded).substituted == old(decoded).substituted,
{
    proof {
        old(decoded).values.lemma_total_bounded();
    }
    let empty_value: Vec<u8> = Vec::new();
    let pushed = decoded.values.try_push(empty_value.as_slice());
    proof {
        assert(pushed);
    }
    decoded.validity.push(false);
}

/// Appends one valid slot: the next value of the page (the default empty
/// value once the page is exhausted, recorded in `substituted`), plus a
/// `true` validity bit on optional states. A dictionary index outside the
/// dictionary, or a value the offset width cannot take, is reported as an
/// error with nothing appended and nothing consumed.
pub fn push_valid(state: &mut State, decoded: &mut Decoded) -> (r: Result<(), Error>)
    requires
        old(state).wf(),
        old(decoded).wf(),
    ensures
        final(state).wf(),
        final(decoded).wf(),
        final(decoded).values.spec_width() == old(decoded).values.spec_width(),
        ({
            let s0 = *old(state);
            let have = s0.vals().len() > 0;
            let v: Seq<u8> = if have {
                s0.vals()[0]
            } else {
                Seq::empty()
            };
            let fits = old(decoded).values.total_bytes() + v.len() <= old(
                decoded,
            ).values.spec_width().spec_max();
            if !s0.ok_for(1) {
                &&& r == Err::<(), Error>(Error::CorruptDictionaryIndex)
                &&& s0.advanced(*final(state), 0)
                &&& final(decoded).values@ == old(decoded).values@
                &&& final(decoded).values.total_bytes() == old(decoded).values.total_bytes()
                &&& final(decoded).validity@ == old(decoded).validity@
                &&& final(decoded).substituted == old(decoded).substituted
            } else if !fits {
                &&& r == Err::<(), Error>(Error::Overflow)
                &&& s0.advanced(*final(state), 0)
                &&& final(decoded).values@ == old(decoded).values@
                &&& final(decoded).values.total_bytes() == old(decoded).values.total_bytes()
                &&& final(decoded).validity@ == old(decoded).validity@
                &&& final(decoded).substituted == old(decoded).substituted
            } else {
                &&& r == Ok::<(), Error>(())
                &&& s0.advanced(*final(state), 1)
                &&& final(decoded).values@ == old(decoded).values@.push(v)
                &&& final(decoded).values.total_bytes() == old(decoded).values.total_bytes()
                    + v.len()
                &&& final(decoded).validity@ == old(decoded).validity@ + (if s0.is_optional() {
                    Seq::empty().push(true)
                } else {
                    Seq::<bool>::empty()
                })
                &&& final(decoded).substituted == (old(decoded).substituted || !have)
            }
        }),
{
    proof {
        old(decoded).values.lemma_total_bounded();
    }
    match state {
        State::Optional(p) => {
            let saved = p.pos;
            match p.next() {
                Some(v) => {
                    if !decoded.values.try_push(v.as_slice()) {
                        p.pos = saved;
                        proof {
                            assert(p.items().skip(0) =~= p.items());
                        }
                        return Err(Error::Overflow);
                    }
                    decoded.validity.push(true);
                    Ok(())
                },
                None => {
                    let empty_value: Vec<u8> = Vec::new();
                    let pushed = decoded.values.try_push(empty_value.as_slice());
                    proof {
                        assert(pushed);
                        assert(p.items().skip(0) =~= p.items());
                    }
                    decoded.validity.push(true);
                    decoded.substituted = true;
                    Ok(())
                },
            }
        },
        State::Required(p) => {
            let saved = p.pos;
            match p.next() {
                Some(v) => {
                    if !decoded.values.try_push(v.as_slice()) {
                        p.pos = saved;
                        proof {
                            assert(p.items().skip(0) =~= p.items());
                        }
                        return Err(Error::Overflow);
                    }
                    Ok(())
                },
                None => {
                    let empty_value: Vec<u8> = Vec::new();
                    let pushed = decoded.values.try_push(empty_value.as_slice());
                    proof {
                        assert(pushed);
                        assert(p.items().skip(0) =~= p.items());
                    }
                    decoded.substituted = true;
                    Ok(())
                },
            }
        },
        State::RequiredDictionary(d) => {
            if d.pos < d.indices.len() {
                let idx = d.indices[d.pos];
                proof {
                    assert(d.rem()[0] == idx);
                }
                match d.dict.get(idx as usize) {
                    None => Err(Error::CorruptDictionaryIndex),
                    Some(v) => {
                        proof {
                            assert(resolve(d.dict, d.rem())[0] == d.dict.entry(idx as int));
                        }
                        if !decoded.values.try_push(v.as_slice()) {
                            return Err(Error::Overflow);
                        }
                        d.pos = d.pos + 1;
                        Ok(())
                    },
                }
            } else {
                proof {
                    assert(d.rem().len() == 0);
                    assert(resolve(d.dict, d.rem()).len() == 0);
                }
                let empty_value: Vec<u8> = Vec::new();
                let pushed = decoded.values.try_push(empty_value.as_slice());
                proof {
                    assert(pushed);
                }
                decoded.substituted = true;
                Ok(())
            }
        },
        State::OptionalDictionary(d) => {
            if d.pos < d.indices.len() {
                let idx = d.indices[d.pos];
                proof {
                    assert(d.rem()[0] == idx);
                }
                match d.dict.get(idx as usize) {
                    None => Err(Error::CorruptDictionaryIndex),
                    Some(v) => {
                        proof {
                            assert(resolve(d.dict, d.rem())[0] == d.dict.entry(idx as int));
                        }
                        if !decoded.values.try_push(v.as_slice()) {
                            return Err(Error::Overflow);
                        }
                        d.pos = d.pos + 1;
                        decoded.validity.push(true);
                        Ok(())
                    },
                }
            } else {
                proof {
                    assert(d.rem().len() == 0);
                    assert(resolve(d.dict, d.rem()).len() == 0);
                }
                let empty_value: Vec<u8> = Vec::new();
                let pushed = decoded.values.try_push(empty_value.as_slice());
                proof {
                    assert(pushed);
                }
                decoded.validity.push(true);
                decoded.substituted = true;
                Ok(())
            }
        },
    }
}

/// Builds the decode state of one page, first match of the decision table
/// winning: dictionary encodings with a dictionary become the dictionary
/// states, plain becomes the plain states, and any filtered page, any
/// dictionary encoding without a dictionary, and any other encoding fail
/// as unsupported. Nothing is mutated on failure.
pub fn build_state(page: PageInfo) -> (r: Result<State, Error>)
    ensures
        page.is_filtered ==> r == Err::<State, Error>(Error::Unsupported),
        !page.is_filtered && page.encoding == PageEncoding::Plain ==> (r matches Ok(st) && st.wf()
            && st.is_optional() == page.is_optional && st.vals() == parse_plain(page.values@) && (
        match st {
            State::Optional(p) => p.buf@ == page.values@ && p.pos == 0,
            State::Required(p) => p.buf@ == page.values@ && p.pos == 0,
            _ => false,
        })),
        !page.is_filtered && (page.encoding == PageEncoding::PlainDictionary || page.encoding
            == PageEncoding::RleDictionary) ==> (match page.dict {
            Option::None => r == Err::<State, Error>(Error::Unsupported),
            Option::Some(dict) => {
                &&& (page.values@.len() == 0 ==> r == Err::<State, Error>(Error::Truncated))
                &&& (page.values@.len() > 0 && !rle_input_ok(
                    page.values@.skip(1),
                    page.values@[0] as nat,
                    page.num_values as nat,
                ) ==> r == (if page.values@[0] > 32 {
                    Err::<State, Error>(Error::Unsupported)
                } else {
                    Err::<State, Error>(Error::Truncated)
                }))
                &&& (page.values@.len() > 0 && rle_input_ok(
                    page.values@.skip(1),
                    page.values@[0] as nat,
                    page.num_values as nat,
                ) ==> r is Ok)
                &&& (r matches Ok(st) ==> page.values@.len() > 0 && st.wf() && st.is_optional()
                    == page.is_optional && (match st {
                    State::RequiredDictionary(dr) => dr.dict == dict && dr.pos == 0 && dr.indices@
                        == rle_decoded(
                        page.values@.skip(1),
                        page.values@[0] as nat,
                        page.num_values as nat,
                    ) && dr.indices@.len() == page.num_values,
                    State::OptionalDictionary(dr) => dr.dict == dict && dr.pos == 0 && dr.indices@
                        == rle_decoded(
                        page.values@.skip(1),
                        page.values@[0] as nat,
                        page.num_values as nat,
                    ) && dr.indices@.len() == page.num_values,
                    _ => false,
                }))
            },
        }),
        !page.is_filtered && page.encoding == PageEncoding::Other ==> r == Err::<State, Error>(
            Error::Unsupported,
        ),
{
    if page.is_filtered {
        return Err(Error::Unsupported);
    }
    let PageInfo { encoding, dict, is_optional, num_values, values, .. } = page;
    match encoding {
        PageEncoding::Plain => {
            let reader = PlainReader::new(values);
            if is_optional {
                Ok(State::Optional(reader))
            } else {
                Ok(State::Required(reader))
            }
        },
        PageEncoding::PlainDictionary | PageEncoding::RleDictionary => {
            match dict {
                Option::Some(dict) => {
                    if values.len() == 0 {
                        return Err(Error::Truncated);
                    }
                    let (head, data) = values.as_slice().split_at(1);
                    let num_bits = head[0] as u32;
                    proof {
                        assert(head@[0] == values@[0]);
                        assert(data@ =~= values@.skip(1));
                    }
                    if !rle_input_check(data, num_bits, num_values) {
                        if num_bits > 32 {
                            return Err(Error::Unsupported);
                        }
                        return Err(Error::Truncated);
                    }
                    let indices = match rle_decode(data, num_bits, num_values) {
                        Ok(v) => v,
                        Err(e) => {
                            return Err(e);
                        },
                    };
                    let reader = DictReader { indices, pos: 0, dict };
                    if is_optional {
                        Ok(State::OptionalDictionary(reader))
                    } else {
                        Ok(State::RequiredDictionary(reader))
                    }
                },
                Option::None => Err(Error::Unsupported),
            }
        },
        PageEncoding::Other => Err(Error::Unsupported),
    }
}

/// Decodes one logical row: pushes its slots in the order the nested
/// shape gives them, valid slots consuming the page's values left to
/// right and null slots consuming nothing. On success the accumulators
/// grow by exactly the row's decode; the first corrupt dictionary index
/// among the consumed ones, or a value the offset width cannot take,
/// aborts the row with that error.
pub fn decode_row(state: &mut State, row: &Vec<bool>, decoded: &mut Decoded) -> (r: Result<
    (),
    Error,
>)
    requires
        old(state).wf(),
        old(decoded).wf(),
    ensures
        final(state).wf(),
        final(decoded).wf(),
        final(decoded).values.spec_width() == old(decoded).values.spec_width(),
        ({
            let s0 = *old(state);
            let k = count_valid(row@);
            let vs = decoded_values(s0.vals(), row@);
            let okc = s0.ok_for(k);
            let fits = old(decoded).values.total_bytes() + seq_total_len(vs) <= old(
                decoded,
            ).values.spec_width().spec_max();
            &&& (okc && fits ==> r == Ok::<(), Error>(()))
            &&& (r is Ok ==> {
                &&& okc && fits
                &&& s0.advanced(*final(state), k)
                &&& final(decoded).values@ == old(decoded).values@ + vs
                &&& final(decoded).values.total_bytes() == old(decoded).values.total_bytes()
                    + seq_total_len(vs)
                &&& final(decoded).validity@ == old(decoded).validity@ + decoded_bits(
                    row@,
                    s0.is_optional(),
                )
                &&& final(decoded).substituted == (old(decoded).substituted || k
                    > s0.vals().len())
            })
            &&& (r == Err::<(), Error>(Error::CorruptDictionaryIndex) ==> !okc)
            &&& (r == Err::<(), Error>(Error::Overflow) ==> !fits)
            &&& (r is Err ==> r == Err::<(), Error>(Error::CorruptDictionaryIndex) || r == Err::<
                (),
                Error,
            >(Error::Overflow))
            &&& (r is Err ==> !(okc && fits))
        }),
{
    let ghost s0 = *old(state);
    let ghost d0 = *old(decoded);
    let mut i: usize = 0;
    proof {
        lemma_advanced_zero(s0);
        assert(row@.take(0) =~= Seq::<bool>::empty());
        assert(decoded_values(s0.vals(), Seq::<bool>::empty()) =~= Seq::<Seq<u8>>::empty());
        assert(decoded_bits(Seq::<bool>::empty(), s0.is_optional()) =~= Seq::<bool>::empty());
        assert(d0.values@ + Seq::<Seq<u8>>::empty() =~= d0.values@);
        assert(d0.validity@ + Seq::<bool>::empty() =~= d0.validity@);
    }
    while i < row.len()
        invariant
            i <= row@.len(),
            state.wf(),
            decoded.wf(),
            s0 == *old(state),
            d0 == *old(decoded),
            s0.wf(),
            d0.wf(),
            decoded.values.spec_width() == d0.values.spec_width(),
            s0.advanced(*state, count_valid(row@.take(i as int))),
            s0.ok_for(count_valid(row@.take(i as int))),
            decoded.values@ == d0.values@ + decoded_values(s0.vals(), row@.take(i as int)),
            decoded.values.total_bytes() == d0.values.total_bytes() + seq_total_len(
                decoded_values(s0.vals(), row@.take(i as int)),
            ),
            decoded.validity@ == d0.validity@ + decoded_bits(
                row@.take(i as int),
                s0.is_optional(),
            ),
            decoded.substituted == (d0.substituted || count_valid(row@.take(i as int))
                > s0.vals().len()),
        decreases row@.len() - i,
    {
        let ghost pre = row@.take(i as int);
        let ghost ki = count_valid(pre);
        let ghost scur = *state;
        let ghost dcur = *decoded;
        let ghost b = row@[i as int];
        let ghost lv = s0.vals().len();
        let ghost stepv: Seq<u8> = if b {
            if ki < lv {
                s0.vals()[ki as int]
            } else {
                Seq::empty()
            }
        } else {
            Seq::empty()
        };
        proof {
            lemma_advanced_vals(s0, scur, ki);
            assert(row@.take(i as int + 1) =~= pre.push(b));
            lemma_count_valid_snoc(pre, b);
            lemma_decoded_values_snoc(s0.vals(), pre, b);
            lemma_decoded_bits_snoc(pre, b, s0.is_optional());
            lemma_count_valid_mono(row@, i as int + 1);
            lemma_decoded_total_mono(s0.vals(), row@, i as int + 1);
            lemma_seq_total_snoc(decoded_values(s0.vals(), pre), stepv);
            assert((d0.values@ + decoded_values(s0.vals(), pre)).push(stepv) =~= d0.values@
                + decoded_values(s0.vals(), pre).push(stepv));
            assert(row@.take(row@.len() as int) =~= row@);
        }
        if row[i] {
            match push_valid(state, decoded) {
                Ok(_) => {
                    proof {
                        lemma_advanced_step(s0, scur, ki, *state);
                        if ki < lv {
                            assert(scur.vals()[0] == s0.vals().skip(ki as int)[0]);
                        }
                        assert((d0.validity@ + decoded_bits(pre, s0.is_optional())) + (if s0.is_optional() {
                            Seq::empty().push(true)
                        } else {
                            Seq::<bool>::empty()
                        }) =~= d0.validity@ + (decoded_bits(pre, s0.is_optional()) + (if s0.is_optional() {
                            Seq::empty().push(true)
                        } else {
                            Seq::<bool>::empty()
                        })));
                        assert(s0.ok_for(ki + 1)) by {
                            match (s0, scur) {
                                (State::RequiredDictionary(d), State::RequiredDictionary(e)) => {
                                    assert forall|j: int|
                                        0 <= j < ki + 1 && j < d.rem().len() implies (d.rem()[j] as int)
                                        < d.dict.spec_len() by {
                                        if j == ki {
                                            assert(e.rem()[0] == d.rem()[ki as int]);
                                        }
                                    }
                                },
                                (State::OptionalDictionary(d), State::OptionalDictionary(e)) => {
                                    assert forall|j: int|
                                        0 <= j < ki + 1 && j < d.rem().len() implies (d.rem()[j] as int)
                                        < d.dict.spec_len() by {
                                        if j == ki {
                                            assert(e.rem()[0] == d.rem()[ki as int]);
                                        }
                                    }
                                },
                                _ => {},
                            }
                        }
                    }
                },
                Err(e) => {
                    proof {
                        let k = count_valid(row@);
                        if e == Error::CorruptDictionaryIndex {
                            assert(!s0.ok_for(k)) by {
                                match (s0, scur) {
                                    (
                                        State::RequiredDictionary(d),
                                        State::RequiredDictionary(ec),
                                    ) => {
                                        assert(ec.rem().len() > 0);
                                        assert(ec.rem()[0] == d.rem()[ki as int]);
                                        assert(ki < k);
                                        assert(!((d.rem()[ki as int] as int)
                                            < d.dict.spec_len()));
                                    },
                                    (
                                        State::OptionalDictionary(d),
                                        State::OptionalDictionary(ec),
                                    ) => {
                                        assert(ec.rem().len() > 0);
                                        assert(ec.rem()[0] == d.rem()[ki as int]);
                                        assert(ki < k);
                                        assert(!((d.rem()[ki as int] as int)
                                            < d.dict.spec_len()));
                                    },
                                    _ => {},
                                }
                            }
                        } else {
                            dcur.values.lemma_total_bounded();
                            assert(e == Error::Overflow);
                            assert(scur.vals().len() > 0);
                            assert(scur.vals()[0] == s0.vals().skip(ki as int)[0]);
                            assert(dcur.values.total_bytes() + stepv.len() > d0.values.spec_width().spec_max());
                        }
                    }
                    return Err(e);
                },
            }
        } else {
            push_null(decoded);
            proof {
                assert((d0.validity@ + decoded_bits(pre, s0.is_optional())).push(false)
                    =~= d0.validity@ + (decoded_bits(pre, s0.is_optional()).push(false)));
            }
        }
        i += 1;
    }
    proof {
        assert(row@.take(row@.len() as int) =~= row@);
        decoded.values.lemma_total_bounded();
    }
    Ok(())
}

} // verus!
