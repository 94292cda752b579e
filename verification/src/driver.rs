use vstd::prelude::*;
use std::collections::VecDeque;
use crate::binary::OffsetWidth;
use crate::error::Error;
use crate::page::PageInfo;
use crate::state::build_state;
use crate::state::decode_row;
use crate::state::decoded_bits;
use crate::state::decoded_values;
use crate::state::lemma_decoded_len;
use crate::state::with_capacity;
use crate::state::Decoded;

verus! {

/// Total number of leaf slots over a sequence of row shapes.
pub open spec fn total_slots(rows: Seq<Seq<bool>>) -> nat
    decreases rows.len(),
{
    if rows.len() == 0 {
        0
    } else {
        rows[0].len() + total_slots(rows.skip(1))
    }
}

pub proof fn lemma_total_slots_snoc(rows: Seq<Seq<bool>>, row: Seq<bool>)
    ensures
        total_slots(rows.push(row)) == total_slots(rows) + row.len(),
    decreases rows.len(),
{
    if rows.len() == 0 {
        assert(rows.push(row)[0] == row);
        assert(rows.push(row).skip(1) =~= Seq::<Seq<bool>>::empty());
        assert(total_slots(Seq::<Seq<bool>>::empty()) == 0);
    } else {
        assert(rows.push(row)[0] == rows[0]);
        assert(rows.push(row).skip(1) =~= rows.skip(1).push(row));
        lemma_total_slots_snoc(rows.skip(1), row);
    }
}

/// The byte strings of a row of chunks, concatenated in order.
pub open spec fn chunks_values(cs: Seq<Chunk>) -> Seq<Seq<u8>>
    decreases cs.len(),
{
    if cs.len() == 0 {
        Seq::empty()
    } else {
        cs[0].decoded.values@ + chunks_values(cs.skip(1))
    }
}

/// The validity bits of a row of chunks, concatenated in order.
pub open spec fn chunks_bits(cs: Seq<Chunk>) -> Seq<bool>
    decreases cs.len(),
{
    if cs.len() == 0 {
        Seq::empty()
    } else {
        cs[0].decoded.validity@ + chunks_bits(cs.skip(1))
    }
}

pub proof fn lemma_chunks_values_snoc(cs: Seq<Chunk>, c: Chunk)
    ensures
        chunks_values(cs.push(c)) == chunks_values(cs) + c.decoded.values@,
        chunks_bits(cs.push(c)) == chunks_bits(cs) + c.decoded.validity@,
    decreases cs.len(),
{
    if cs.len() == 0 {
        assert(cs.push(c)[0] == c);
        assert(cs.push(c).skip(1) =~= Seq::<Chunk>::empty());
        assert(chunks_values(Seq::<Chunk>::empty()) =~= Seq::<Seq<u8>>::empty());
        assert(chunks_bits(Seq::<Chunk>::empty()) =~= Seq::<bool>::empty());
        assert(chunks_values(cs.push(c)) =~= chunks_values(cs) + c.decoded.values@);
        assert(chunks_bits(cs.push(c)) =~= chunks_bits(cs) + c.decoded.validity@);
    } else {
        assert(cs.push(c)[0] == cs[0]);
        assert(cs.push(c).skip(1) =~= cs.skip(1).push(c));
        lemma_chunks_values_snoc(cs.skip(1), c);
        assert(chunks_values(cs.push(c)) =~= chunks_values(cs) + c.decoded.values@);
        assert(chunks_bits(cs.push(c)) =~= chunks_bits(cs) + c.decoded.validity@);
    }
}

/// The upstream page source: a finite lazy sequence of pages, each paired
/// with its externally computed nested shape (one entry per logical row,
/// one flag per leaf slot of that row, `true` meaning valid, `false`
/// meaning null). Implemented by the surrounding program.
pub trait PageSource {
    /// The next page with its shape, an upstream error, or `None` once
    /// the source is exhausted.
    fn next_page(&mut self) -> (r: Option<Result<(PageInfo, Vec<Vec<bool>>), Error>>);
}

/// One decoded chunk: the row shapes it covers together with the values
/// and validity accumulated for exactly those rows.
#[derive(Debug)]
pub struct Chunk {
    /// The nested shape of the rows in this chunk.
    pub shape: Vec<Vec<bool>>,
    /// The decoded values and validity bits of those rows.
    pub decoded: Decoded,
}

impl Chunk {
    /// The buffers are well-formed and hold exactly one value per leaf
    /// slot of the shape.
    pub open spec fn wf(self) -> bool {
        &&& self.decoded.wf()
        &&& self.decoded.values@.len() == total_slots(self.shape.deep_view())
    }
}

/// Pull-based driver over an upstream page source: pulls pages, builds
/// each page's decode state, decodes into shared accumulators guided by
/// the page's nested shape, and hands out chunks of decoded rows. A
/// needed-another-page step loops rather than recursing, so many small
/// pages cannot grow the call stack.
pub struct ArrayIterator<I: PageSource> {
    iter: I,
    items: VecDeque<Chunk>,
    pending_shape: Vec<Vec<bool>>,
    pending: Decoded,
    chunk_size: Option<usize>,
    width: OffsetWidth,
    done: bool,
    hist_vals: Ghost<Seq<Seq<u8>>>,
    hist_bits: Ghost<Seq<bool>>,
    out_vals: Ghost<Seq<Seq<u8>>>,
    out_bits: Ghost<Seq<bool>>,
    pulled_err: Ghost<Option<Error>>,
}

impl<I: PageSource> ArrayIterator<I> {
    /// Whether the driver has reported exhaustion or an error; sticky.
    pub closed spec fn is_done(self) -> bool {
        self.done
    }

    /// The configured chunk size.
    pub closed spec fn spec_chunk_size(self) -> Option<usize> {
        self.chunk_size
    }

    /// The offset width chosen at construction.
    pub closed spec fn spec_width(self) -> OffsetWidth {
        self.width
    }

    /// The chunks decoded and buffered but not yet handed out, in order.
    pub closed spec fn buffered(self) -> Seq<Chunk> {
        self.items@
    }

    /// The rows decoded into the pending accumulators but not yet part of
    /// any chunk.
    pub closed spec fn pending_rows(self) -> nat {
        self.pending_shape@.len()
    }

    /// The byte strings of every chunk handed out so far, concatenated.
    pub closed spec fn emitted_values(self) -> Seq<Seq<u8>> {
        self.out_vals@
    }

    /// The validity bits of every chunk handed out so far, concatenated.
    pub closed spec fn emitted_bits(self) -> Seq<bool> {
        self.out_bits@
    }

    /// The decode of every row the source delivered and the driver
    /// accepted, concatenated in page arrival order and within-page row
    /// order; it grows by exactly one row's decode per accepted row.
    pub closed spec fn history_values(self) -> Seq<Seq<u8>> {
        self.hist_vals@
    }

    /// The validity bits of every accepted row, concatenated in order.
    pub closed spec fn history_bits(self) -> Seq<bool> {
        self.hist_bits@
    }

    /// The error the upstream source reported, where it ever reported one,
    /// recorded unchanged.
    pub closed spec fn pulled_error(self) -> Option<Error> {
        self.pulled_err@
    }

    /// Until termination, nothing is lost, duplicated or reordered: the
    /// emitted chunks, the buffered chunks and the pending accumulators
    /// concatenate to exactly the accepted history.
    pub closed spec fn balanced(self) -> bool {
        &&& self.out_vals@ + chunks_values(self.items@) + self.pending.values@
            == self.hist_vals@
        &&& self.out_bits@ + chunks_bits(self.items@) + self.pending.validity@
            == self.hist_bits@
    }

    /// The pending accumulators grow in lock-step with the pending rows,
    /// every buffered chunk is well-formed, and with a configured chunk
    /// size no buffered chunk exceeds it.
    pub closed spec fn wf_core(self) -> bool {
        &&& self.pending.wf()
        &&& self.pending.values.spec_width() == self.width
        &&& self.pending.values@.len() == total_slots(self.pending_shape.deep_view())
        &&& forall|i: int|
            0 <= i < self.items@.len() ==> (#[trigger] self.items@[i]).wf()
                && self.items@[i].decoded.values.spec_width() == self.width
        &&& match self.chunk_size {
            Option::Some(n) => n >= 1 && forall|i: int|
                0 <= i < self.items@.len() ==> (#[trigger] self.items@[i]).shape@.len() == n,
            Option::None => true,
        }
    }

    /// At rest, fewer pending rows than one configured chunk, the pending
    /// validity empty whenever no row is pending, and — until termination
    /// — the accounts balanced.
    pub closed spec fn wf(self) -> bool {
        &&& self.wf_core()
        &&& match self.chunk_size {
            Option::Some(n) => self.pending_shape@.len() < n,
            Option::None => true,
        }
        &&& (self.pending_shape@.len() == 0 ==> self.pending.validity@.len() == 0)
        &&& (!self.done ==> self.balanced())
    }

    /// A fresh driver over `iter`, emitting chunks of `chunk_size` rows
    /// (the final chunk may be shorter), or one chunk per page when no
    /// chunk size is configured.
    pub fn new(iter: I, chunk_size: Option<usize>, width: OffsetWidth) -> (r: ArrayIterator<I>)
        requires
            chunk_size matches Some(n) ==> n >= 1,
        ensures
            r.wf(),
            !r.is_done(),
            r.spec_chunk_size() == chunk_size,
            r.spec_width() == width,
            r.buffered() == Seq::<Chunk>::empty(),
            r.pending_rows() == 0,
            r.emitted_values() == Seq::<Seq<u8>>::empty(),
            r.emitted_bits() == Seq::<bool>::empty(),
            r.history_values() == Seq::<Seq<u8>>::empty(),
            r.history_bits() == Seq::<bool>::empty(),
    {
        let cap = match chunk_size {
            Option::Some(n) => n,
            Option::None => 0,
        };
        let r = ArrayIterator {
            iter,
            items: VecDeque::new(),
            pending_shape: Vec::new(),
            pending: with_capacity(cap, width),
            chunk_size,
            width,
            done: false,
            hist_vals: Ghost(Seq::empty()),
            hist_bits: Ghost(Seq::empty()),
            out_vals: Ghost(Seq::empty()),
            out_bits: Ghost(Seq::empty()),
            pulled_err: Ghost(Option::None),
        };
        proof {
            assert(r.pending_shape.deep_view() =~= Seq::<Seq<bool>>::empty());
            assert(total_slots(Seq::<Seq<bool>>::empty()) == 0);
            assert(chunks_values(r.items@) =~= Seq::<Seq<u8>>::empty());
            assert(chunks_bits(r.items@) =~= Seq::<bool>::empty());
            assert(r.out_vals@ + chunks_values(r.items@) + r.pending.values@ =~= r.hist_vals@);
            assert(r.out_bits@ + chunks_bits(r.items@) + r.pending.validity@ =~= r.hist_bits@);
        }
        r
    }

    /// Moves the pending rows and accumulators out as one chunk, leaving
    /// the driver with fresh empty ones.
    fn take_pending(&mut self) -> (r: Chunk)
        requires
            old(self).wf_core(),
        ensures
            final(self).wf_core(),
            r.wf(),
            r.decoded == old(self).pending,
            r.decoded.values.spec_width() == old(self).width,
            r.shape@ == old(self).pending_shape@,
            final(self).width == old(self).width,
            final(self).chunk_size == old(self).chunk_size,
            final(self).done == old(self).done,
            final(self).items@ == old(self).items@,
            final(self).pending_shape@.len() == 0,
            final(self).pending.values@ == Seq::<Seq<u8>>::empty(),
            final(self).pending.validity@ == Seq::<bool>::empty(),
            final(self).hist_vals == old(self).hist_vals,
            final(self).hist_bits == old(self).hist_bits,
            final(self).out_vals == old(self).out_vals,
            final(self).out_bits == old(self).out_bits,
    {
        let mut shape: Vec<Vec<bool>> = Vec::new();
        core::mem::swap(&mut shape, &mut self.pending_shape);
        let cap = match self.chunk_size {
            Option::Some(n) => n,
            Option::None => 0,
        };
        let mut dec = with_capacity(cap, self.width);
        core::mem::swap(&mut dec, &mut self.pending);
        proof {
            assert(self.pending_shape.deep_view() =~= Seq::<Seq<bool>>::empty());
            assert(total_slots(Seq::<Seq<bool>>::empty()) == 0);
        }
        Chunk { shape, decoded: dec }
    }

    /// Produces the next decoded chunk: `Some(Ok(chunk))` while rows are
    /// available, `Some(Err(e))` on the first error (after which the
    /// sequence is terminated), and `None` once exhausted. Exhaustion and
    /// errors are sticky: after either, every later call reports `None`.
    /// A buffered complete chunk is always returned first; with a
    /// configured chunk size every chunk holds exactly that many rows
    /// except the final flush; each chunk appends its exact contents to
    /// the emitted record, and a clean exhaustion leaves the emitted
    /// record equal to the accepted history — no row is lost, duplicated
    /// or reordered. The one error the driver raises itself is
    /// `PullLimit`, after more page pulls in one call than any finite
    /// source can supply.
    pub fn next(&mut self) -> (r: Option<Result<Chunk, Error>>)
        requires
            old(self).wf(),
        ensures
            final(self).wf(),
            final(self).spec_chunk_size() == old(self).spec_chunk_size(),
            final(self).spec_width() == old(self).spec_width(),
            old(self).is_done() ==> r is None && final(self).is_done(),
            r is None ==> final(self).is_done(),
            !old(self).is_done() && old(self).buffered().len() > 0 ==> (r matches Some(res)
                && res matches Ok(c) && c == old(self).buffered()[0] && final(self).buffered()
                == old(self).buffered().skip(1)),
            !old(self).is_done() && r is None ==> old(self).buffered().len() == 0 && old(
                self,
            ).pending_rows() == 0 && final(self).emitted_values() == final(self).history_values()
                && final(self).emitted_bits() == final(self).history_bits(),
            (match r {
                Option::Some(Result::Ok(c)) => final(self).emitted_values() == old(
                    self,
                ).emitted_values() + c.decoded.values@ && final(self).emitted_bits() == old(
                    self,
                ).emitted_bits() + c.decoded.validity@,
                _ => final(self).emitted_values() == old(self).emitted_values()
                    && final(self).emitted_bits() == old(self).emitted_bits(),
            }),
            (match r {
                Option::Some(Result::Ok(c)) => c.wf() && c.decoded.values.spec_width() == old(
                    self,
                ).spec_width() && (old(self).spec_chunk_size() matches Some(n) ==> c.shape@.len()
                    <= n && c.shape@.len() >= 1 && (c.shape@.len() == n
                    || final(self).is_done())),
                Option::Some(Result::Err(e)) => final(self).is_done() && (e == Error::PullLimit
                    || e == Error::Unsupported || e == Error::Truncated
                    || e == Error::CorruptDictionaryIndex || e == Error::Overflow
                    || final(self).pulled_error() == Some(e)),
                Option::None => true,
            }),
    {
        if self.done {
            return None;
        }
        match self.items.pop_front() {
            Option::Some(chunk) => {
                self.out_vals = Ghost(self.out_vals@ + chunk.decoded.values@);
                self.out_bits = Ghost(self.out_bits@ + chunk.decoded.validity@);
                proof {
                    assert(chunks_values(old(self).items@) == chunk.decoded.values@
                        + chunks_values(self.items@));
                    assert(chunks_bits(old(self).items@) == chunk.decoded.validity@ + chunks_bits(
                        self.items@,
                    ));
                    assert(self.out_vals@ + chunks_values(self.items@) + self.pending.values@ =~= old(
                        self,
                    ).out_vals@ + chunks_values(old(self).items@) + old(self).pending.values@);
                    assert(self.out_bits@ + chunks_bits(self.items@) + self.pending.validity@ =~= old(
                        self,
                    ).out_bits@ + chunks_bits(old(self).items@) + old(self).pending.validity@);
                }
                return Some(Ok(chunk));
            },
            Option::None => {},
        }
        // Bounds the pulls of one call so the loop provably terminates; no
        // finite source comes anywhere near it.
        let mut budget: usize = usize::MAX;
        loop
            invariant
                self.wf(),
                !self.done,
                !old(self).is_done(),
                old(self).buffered().len() == 0,
                old(self).pending_rows() > 0 ==> self.pending_shape@.len() > 0
                    || self.items@.len() > 0,
                self.out_vals == old(self).out_vals,
                self.out_bits == old(self).out_bits,
                self.chunk_size == old(self).chunk_size,
                self.width == old(self).width,
            decreases budget,
        {
            if budget == 0 {
                self.done = true;
                return Some(Err(Error::PullLimit));
            }
            budget = budget - 1;
            let ghost at_pop = *self;
            match self.items.pop_front() {
                Option::Some(chunk) => {
                    self.out_vals = Ghost(self.out_vals@ + chunk.decoded.values@);
                    self.out_bits = Ghost(self.out_bits@ + chunk.decoded.validity@);
                    proof {
                        assert(chunks_values(at_pop.items@) == chunk.decoded.values@
                            + chunks_values(self.items@));
                        assert(chunks_bits(at_pop.items@) == chunk.decoded.validity@ + chunks_bits(
                            self.items@,
                        ));
                        assert(self.out_vals@ + chunks_values(self.items@) + self.pending.values@
                            =~= at_pop.out_vals@ + chunks_values(at_pop.items@)
                            + at_pop.pending.values@);
                        assert(self.out_bits@ + chunks_bits(self.items@) + self.pending.validity@
                            =~= at_pop.out_bits@ + chunks_bits(at_pop.items@)
                            + at_pop.pending.validity@);
                    }
                    return Some(Ok(chunk));
                },
                Option::None => {},
            }
            match self.iter.next_page() {
                Option::None => {
                    self.done = true;
                    if self.pending_shape.len() > 0 {
                        let chunk = self.take_pending();
                        self.out_vals = Ghost(self.out_vals@ + chunk.decoded.values@);
                        self.out_bits = Ghost(self.out_bits@ + chunk.decoded.validity@);
                        return Some(Ok(chunk));
                    }
                    proof {
                        assert(chunks_values(self.items@) =~= Seq::<Seq<u8>>::empty());
                        assert(chunks_bits(self.items@) =~= Seq::<bool>::empty());
                        assert(self.out_vals@ + chunks_values(self.items@) + self.pending.values@
                            =~= self.out_vals@);
                        assert(self.out_bits@ + chunks_bits(self.items@) + self.pending.validity@
                            =~= self.out_bits@);
                    }
                    return None;
                },
                Option::Some(Result::Err(e)) => {
                    self.done = true;
                    let ghost ge = e;
                    self.pulled_err = Ghost(Some(ge));
                    return Some(Err(e));
                },
                Option::Some(Result::Ok((page, shape))) => {
                    let mut state = match build_state(page) {
                        Ok(st) => st,
                        Err(e) => {
                            self.done = true;
                            return Some(Err(e));
                        },
                    };
                    let mut j: usize = 0;
                    while j < shape.len()
                        invariant
                            j <= shape@.len(),
                            state.wf(),
                            self.wf(),
                            !self.done,
                            !old(self).is_done(),
                            old(self).buffered().len() == 0,
                            old(self).pending_rows() > 0 ==> self.pending_shape@.len() > 0
                                || self.items@.len() > 0,
                            self.out_vals == old(self).out_vals,
                            self.out_bits == old(self).out_bits,
                            self.chunk_size == old(self).chunk_size,
                            self.width == old(self).width,
                        decreases shape@.len() - j,
                    {
                        let row = &shape[j];
                        let ghost scur = state;
                        let ghost at_row = *self;
                        match decode_row(&mut state, row, &mut self.pending) {
                            Ok(_) => {
                                self.hist_vals = Ghost(
                                    self.hist_vals@ + decoded_values(scur.vals(), row@),
                                );
                                self.hist_bits = Ghost(
                                    self.hist_bits@ + decoded_bits(row@, scur.is_optional()),
                                );
                                proof {
                                    let vs = decoded_values(scur.vals(), row@);
                                    let bs = decoded_bits(row@, scur.is_optional());
                                    assert(self.pending.values@ =~= at_row.pending.values@ + vs);
                                    assert(self.out_vals@ + chunks_values(self.items@)
                                        + self.pending.values@ =~= (at_row.out_vals@
                                        + chunks_values(at_row.items@) + at_row.pending.values@)
                                        + vs);
                                    assert(self.hist_vals@ =~= at_row.hist_vals@ + vs);
                                    assert(self.out_bits@ + chunks_bits(self.items@)
                                        + self.pending.validity@ =~= (at_row.out_bits@
                                        + chunks_bits(at_row.items@) + at_row.pending.validity@)
                                        + bs);
                                    assert(self.hist_bits@ =~= at_row.hist_bits@ + bs);
                                }
                            },
                            Err(e) => {
                                self.done = true;
                                self.pending = with_capacity(0, self.width);
                                self.pending_shape = Vec::new();
                                proof {
                                    assert(self.pending_shape.deep_view()
                                        =~= Seq::<Seq<bool>>::empty());
                                    assert(total_slots(Seq::<Seq<bool>>::empty()) == 0);
                                }
                                return Some(Err(e));
                            },
                        }
                        proof {
                            lemma_decoded_len(scur.vals(), row@);
                        }
                        let rowc = copy_row(row);
                        let ghost deep0 = self.pending_shape.deep_view();
                        self.pending_shape.push(rowc);
                        proof {
                            assert(rowc.deep_view() =~= row@);
                            assert(self.pending_shape.deep_view() =~= deep0.push(row@));
                            lemma_total_slots_snoc(deep0, row@);
                        }
                        match self.chunk_size {
                            Option::Some(n) => {
                                if self.pending_shape.len() >= n {
                                    let ghost at_drain = *self;
                                    let chunk = self.take_pending();
                                    let ghost mid = *self;
                                    self.items.push_back(chunk);
                                    proof {
                                        lemma_chunks_values_snoc(mid.items@, chunk);
                                        assert(self.out_vals@ + chunks_values(self.items@)
                                            + self.pending.values@ =~= at_drain.out_vals@
                                            + chunks_values(at_drain.items@)
                                            + at_drain.pending.values@);
                                        assert(self.out_bits@ + chunks_bits(self.items@)
                                            + self.pending.validity@ =~= at_drain.out_bits@
                                            + chunks_bits(at_drain.items@)
                                            + at_drain.pending.validity@);
                                    }
                                }
                            },
                            Option::None => {},
                        }
                        j += 1;
                    }
                    match self.chunk_size {
                        Option::Some(_) => {},
                        Option::None => {
                            let ghost at_flush = *self;
                            let chunk = self.take_pending();
                            let ghost mid2 = *self;
                            self.items.push_back(chunk);
                            proof {
                                lemma_chunks_values_snoc(mid2.items@, chunk);
                                assert(self.out_vals@ + chunks_values(self.items@)
                                    + self.pending.values@ =~= at_flush.out_vals@
                                    + chunks_values(at_flush.items@) + at_flush.pending.values@);
                                assert(self.out_bits@ + chunks_bits(self.items@)
                                    + self.pending.validity@ =~= at_flush.out_bits@
                                    + chunks_bits(at_flush.items@) + at_flush.pending.validity@);
                            }
                        },
                    }
                },
            }
        }
    }
}

/// A copy of one row shape.
fn copy_row(row: &Vec<bool>) -> (r: Vec<bool>)
    ensures
        r@ == row@,
{
    let mut out: Vec<bool> = Vec::with_capacity(row.len());
    let mut k: usize = 0;
    while k < row.len()
        invariant
            k <= row@.len(),
            out@ == row@.take(k as int),
        decreases row@.len() - k,
    {
        let b = row[k];
        out.push(b);
        proof {
            assert(row@.take(k as int).push(row@[k as int]) =~= row@.take(k as int + 1));
        }
        k += 1;
    }
    proof {
        assert(row@.take(row@.len() as int) =~= row@);
    }
    out
}

} // verus!
