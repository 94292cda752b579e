use vstd::prelude::*;
use crate::dict::Dict;
use crate::error::Error;
use crate::page::PageEncoding;
use crate::page::PageInfo;
use crate::plain::le32;

verus! {

#[verifier::external_type_specification]
#[verifier::external_body]
pub struct ExDataPage(parquet2::page::DataPage);

// ---------------------------------------------------------------------------
// Well-formedness of a hybrid RLE/bit-packed index buffer. The decoder
// panics on some malformed inputs (an over-long run-header varint, an RLE
// run whose value bytes are missing, a bit width above 32 on a bit-packed
// run, and oversized run counts), and it handles each run transition by a
// recursive call, so a chain of runs yielding no values while more are
// owed grows the call stack without bound. The library therefore admits a
// buffer only after this scan accepts it: the scan walks the runs exactly
// as far as decoding `need` values walks them, and rejects any visited
// run that yields no values while some are still owed.
// ---------------------------------------------------------------------------
/// The run-header varint starting the buffer can be read without a panic:
/// its tenth byte, if the first nine all carry the continuation bit, holds
/// at most one. `j` is how many varint bytes were already consumed.
pub open spec fn varint_ok_from(s: Seq<u8>, j: nat) -> bool
    decreases s.len(),
{
    if s.len() == 0 {
        true
    } else if j == 9 {
        s[0] <= 1
    } else if s[0] < 128 {
        true
    } else {
        varint_ok_from(s.skip(1), j + 1)
    }
}

/// How many bytes the varint at the start of the buffer occupies.
pub open spec fn varint_len(s: Seq<u8>) -> nat
    decreases s.len(),
{
    if s.len() == 0 {
        0
    } else if s[0] < 128 {
        1
    } else {
        1 + varint_len(s.skip(1))
    }
}

/// The value of the varint at the start of the buffer.
pub open spec fn varint_val(s: Seq<u8>) -> nat
    decreases s.len(),
{
    if s.len() == 0 {
        0
    } else if s[0] < 128 {
        s[0] as nat
    } else {
        ((s[0] - 128) + 128 * varint_val(s.skip(1))) as nat
    }
}

/// The runs that decoding `need` indices visits are all complete and
/// within the decoder's limits; `fuel` bounds the walk (each run consumes
/// at least one byte, so the buffer length is always enough fuel).
pub open spec fn runs_ok(s: Seq<u8>, num_bits: nat, need: nat, fuel: nat) -> bool
    decreases fuel,
{
    if s.len() == 0 {
        true
    } else if fuel == 0 {
        false
    } else if !varint_ok_from(s, 0) {
        false
    } else if varint_val(s) > 0xFFFF_FFFF {
        false
    } else {
        let c = varint_len(s);
        let ind = varint_val(s);
        let rest = s.skip(c as int);
        if rest.len() == 0 {
            true
        } else if ind % 2 == 1 {
            let bytes0 = (ind / 2) * num_bits;
            if bytes0 > 0xFFFF_FFFF {
                false
            } else {
                let bytes = if bytes0 <= rest.len() {
                    bytes0
                } else {
                    rest.len()
                };
                let produced0 = (bytes * 8) / num_bits;
                let produced = if produced0 <= need {
                    produced0
                } else {
                    need
                };
                if need <= produced {
                    true
                } else if produced == 0 {
                    false
                } else {
                    runs_ok(
                        rest.skip(bytes as int),
                        num_bits,
                        (need - produced) as nat,
                        (fuel - 1) as nat,
                    )
                }
            }
        } else {
            let rb = (num_bits + 7) / 8;
            if rest.len() < rb {
                false
            } else {
                let produced = if ind / 2 <= need {
                    ind / 2
                } else {
                    need
                };
                if need <= produced {
                    true
                } else if produced == 0 {
                    false
                } else {
                    runs_ok(
                        rest.skip(rb as int),
                        num_bits,
                        (need - produced) as nat,
                        (fuel - 1) as nat,
                    )
                }
            }
        }
    }
}

/// The decoder reads `need` indices of width `num_bits` from the buffer
/// without panicking: a zero width decodes to zeros without touching the
/// buffer; otherwise the width is at most 32 and every visited run is
/// sound.
pub open spec fn rle_input_ok(data: Seq<u8>, num_bits: nat, need: nat) -> bool {
    num_bits == 0 || (num_bits <= 32 && runs_ok(data, num_bits, need, data.len()))
}

/// Saturation bound for the executable varint value: one past `u64::MAX`.
pub open spec fn varint_sat(s: Seq<u8>) -> nat {
    if varint_val(s) <= 0x1_0000_0000_0000_0000 {
        varint_val(s)
    } else {
        0x1_0000_0000_0000_0000
    }
}

/// Reads the varint at the start of `s`, `j` bytes already consumed:
/// whether the decoder reads it without a panic, its byte count, and its
/// value saturated one past `u64::MAX`.
fn scan_varint(s: &[u8], j: u32) -> (r: (bool, usize, u128))
    requires
        j <= 9,
    ensures
        r.0 == varint_ok_from(s@, j as nat),
        r.0 ==> r.1 == varint_len(s@) && r.1 <= s@.len() && r.2 == varint_sat(s@),
    decreases s@.len(),
{
    if s.len() == 0 {
        (true, 0, 0)
    } else {
        let b = s[0];
        if j == 9 {
            if b <= 1 {
                (true, 1, b as u128)
            } else {
                (false, 0, 0)
            }
        } else if b < 128 {
            (true, 1, b as u128)
        } else {
            let (_, tail) = s.split_at(1);
            proof {
                assert(tail@ =~= s@.skip(1));
            }
            let (ok_t, c_t, v_t) = scan_varint(tail, j + 1);
            if !ok_t {
                (false, 0, 0)
            } else {
                let raw: u128 = (b - 128) as u128 + 128 * v_t;
                let v: u128 = if raw <= 0x1_0000_0000_0000_0000u128 {
                    raw
                } else {
                    0x1_0000_0000_0000_0000u128
                };
                (true, 1 + c_t, v)
            }
        }
    }
}

/// Walks the runs as the decoder would and reports whether each one
/// visited is complete, within limits, and yields at least one value
/// while values are still owed.
fn scan_runs(s: &[u8], num_bits: u32, need: usize, fuel: usize) -> (r: bool)
    requires
        1 <= num_bits <= 32,
    ensures
        r == runs_ok(s@, num_bits as nat, need as nat, fuel as nat),
{
    let mut cur: &[u8] = s;
    let mut need_c: usize = need;
    let mut fuel_c: usize = fuel;
    loop
        invariant
            1 <= num_bits <= 32,
            runs_ok(s@, num_bits as nat, need as nat, fuel as nat) == runs_ok(
                cur@,
                num_bits as nat,
                need_c as nat,
                fuel_c as nat,
            ),
        decreases fuel_c,
    {
        if cur.len() == 0 {
            return true;
        }
        if fuel_c == 0 {
            return false;
        }
        let (ok, c, ind_sat) = scan_varint(cur, 0);
        if !ok {
            return false;
        }
        if ind_sat > u32::MAX as u128 {
            return false;
        }
        let ind: u64 = ind_sat as u64;
        proof {
            assert(ind == varint_val(cur@));
        }
        let (_, rest) = cur.split_at(c);
        proof {
            assert(rest@ =~= cur@.skip(c as int));
        }
        if rest.len() == 0 {
            return true;
        }
        let nb64: u64 = num_bits as u64;
        let need64: u64 = need_c as u64;
        if ind % 2 == 1 {
            let half: u64 = ind / 2;
            proof {
                assert(half * nb64 <= 0x8000_0000u64 * 32) by (nonlinear_arith)
                    requires
                        half <= 0x8000_0000u64,
                        nb64 <= 32u64,
                ;
            }
            let bytes0: u64 = half * nb64;
            if bytes0 > u32::MAX as u64 {
                return false;
            }
            let rest_len: u64 = rest.len() as u64;
            let bytes: u64 = if bytes0 <= rest_len {
                bytes0
            } else {
                rest_len
            };
            let produced0: u64 = (bytes * 8) / nb64;
            let produced: u64 = if produced0 <= need64 {
                produced0
            } else {
                need64
            };
            if need64 <= produced {
                return true;
            }
            if produced == 0 {
                return false;
            }
            let (_, rest2) = rest.split_at(bytes as usize);
            proof {
                assert(rest2@ =~= rest@.skip(bytes as int));
            }
            cur = rest2;
            need_c = (need64 - produced) as usize;
            fuel_c = fuel_c - 1;
        } else {
            let rb: usize = ((num_bits + 7) / 8) as usize;
            if rest.len() < rb {
                return false;
            }
            let run: u64 = ind / 2;
            let produced: u64 = if run <= need64 {
                run
            } else {
                need64
            };
            if need64 <= produced {
                return true;
            }
            if produced == 0 {
                return false;
            }
            let (_, rest2) = rest.split_at(rb);
            proof {
                assert(rest2@ =~= rest@.skip(rb as int));
            }
            cur = rest2;
            need_c = (need64 - produced) as usize;
            fuel_c = fuel_c - 1;
        }
    }
}

/// Whether the index buffer is safe to hand to the decoder.
pub(crate) fn rle_input_check(data: &[u8], num_bits: u32, num_values: usize) -> (r: bool)
    ensures
        r == rle_input_ok(data@, num_bits as nat, num_values as nat),
{
    if num_bits == 0 {
        true
    } else if num_bits > 32 {
        false
    } else {
        scan_runs(data, num_bits, num_values, data.len())
    }
}

/// The indices that parquet2's hybrid RLE/bit-packed decoder reads from an
/// index buffer: a function of the buffer, the bit width and the count
/// alone.
pub uninterp spec fn rle_decoded(data: Seq<u8>, num_bits: nat, num_values: nat) -> Seq<u32>;

/// Relies on parquet2::encoding::hybrid_rle::HybridRleDecoder: on a buffer
/// the scan accepts it yields exactly `num_values` indices, determined by
/// its three arguments alone (running past the end of the data decodes as
/// zero), and its error paths are unreachable — the only error source, the
/// run-header reader, always returns, and the bit-packed sub-decoder's two
/// checks hold for every visited run. The scan also guarantees that every
/// visited run yields a value while values are owed, so the decoder's
/// one-recursive-call-per-run transition stays within a constant stack
/// depth.
#[verifier::external_body]
pub(crate) fn rle_decode(data: &[u8], num_bits: u32, num_values: usize) -> (r: Result<
    Vec<u32>,
    Error,
>)
    requires
        rle_input_ok(data@, num_bits as nat, num_values as nat),
    ensures
        r is Ok,
        r matches Ok(v) ==> v@ == rle_decoded(data@, num_bits as nat, num_values as nat)
            && v@.len() == num_values,
{
    let dec = match parquet2::encoding::hybrid_rle::HybridRleDecoder::try_new(
        data,
        num_bits,
        num_values,
    ) {
        Ok(dec) => dec,
        Err(e) => {
            return Err(Error::Upstream(format!("{}", e)));
        },
    };
    match dec.collect::<Result<Vec<u32>, parquet2::error::Error>>() {
        Ok(v) => Ok(v),
        Err(e) => Err(Error::Upstream(format!("{}", e))),
    }
}

/// Relies on the raw encoding tag in the page header (no validating
/// accessor is called, so an unknown tag maps to `Other` instead of
/// stopping the program): tells the known tags apart, one comparison each.
#[verifier::external_body]
fn data_page_encoding(page: &parquet2::page::DataPage) -> PageEncoding {
    let raw = match page.header() {
        parquet2::page::DataPageHeader::V1(d) => d.encoding,
        parquet2::page::DataPageHeader::V2(d) => d.encoding,
    };
    if raw == parquet2::encoding::Encoding::Plain.into() {
        PageEncoding::Plain
    } else if raw == parquet2::encoding::Encoding::PlainDictionary.into() {
        PageEncoding::PlainDictionary
    } else if raw == parquet2::encoding::Encoding::RleDictionary.into() {
        PageEncoding::RleDictionary
    } else {
        PageEncoding::Other
    }
}

/// Relies on parquet2::page::DataPage's descriptor: whether the column's
/// repetition is Repetition::Optional.
#[verifier::external_body]
fn data_page_is_optional(page: &parquet2::page::DataPage) -> bool {
    match page.descriptor.primitive_type.field_info.repetition {
        parquet2::schema::Repetition::Optional => true,
        parquet2::schema::Repetition::Required => false,
        parquet2::schema::Repetition::Repeated => false,
    }
}

/// Relies on parquet2::page::DataPage::selected_rows: whether a row
/// selection is attached to the page.
#[verifier::external_body]
fn data_page_is_filtered(page: &parquet2::page::DataPage) -> bool {
    page.selected_rows().is_some()
}

/// Relies on parquet2::page::DataPage::num_values: the value count the
/// page header declares.
#[verifier::external_body]
fn data_page_num_values(page: &parquet2::page::DataPage) -> usize {
    page.num_values()
}

/// Relies on parquet2::page::DataPage::buffer: a copy of the page's raw
/// buffer.
#[verifier::external_body]
fn data_page_buffer(page: &parquet2::page::DataPage) -> Vec<u8> {
    page.buffer().to_vec()
}

/// Relies on parquet2::page::DataPage's descriptor: the maximum repetition
/// and definition levels, moved out unchanged.
#[verifier::external_body]
fn data_page_max_levels(page: &parquet2::page::DataPage) -> (i16, i16) {
    (page.descriptor.max_rep_level, page.descriptor.max_def_level)
}

/// Relies on the page header: the level byte lengths a V2 header declares,
/// moved out unchanged; `None` for a V1 header.
#[verifier::external_body]
fn data_page_v2_levels(page: &parquet2::page::DataPage) -> Option<(i32, i32)> {
    match page.header() {
        parquet2::page::DataPageHeader::V1(_) => None,
        parquet2::page::DataPageHeader::V2(d) => Some(
            (d.repetition_levels_byte_length, d.definition_levels_byte_length),
        ),
    }
}

/// The tail of a level section: a four-byte little-endian length, that
/// many bytes, and the rest; `None` where the buffer ends first.
pub open spec fn level_split(s: Seq<u8>, present: bool) -> Option<Seq<u8>> {
    if !present {
        Some(s)
    } else if s.len() < 4 {
        None
    } else {
        let n = le32(s.subrange(0, 4));
        if s.len() < n + 4 {
            None
        } else {
            Some(s.skip(n as int + 4))
        }
    }
}

/// The value sub-buffer of a V1 page: what remains after the repetition
/// and definition level sections, each a length-prefixed run present only
/// where its maximum level is positive.
pub open spec fn v1_values(s: Seq<u8>, has_rep: bool, has_def: bool) -> Option<Seq<u8>> {
    match level_split(s, has_rep) {
        Option::None => Option::None,
        Option::Some(t) => level_split(t, has_def),
    }
}

/// A copy of the buffer from `pos` on.
fn copy_tail(buffer: &Vec<u8>, pos: usize) -> (r: Vec<u8>)
    requires
        pos <= buffer@.len(),
    ensures
        r@ == buffer@.skip(pos as int),
{
    let mut out: Vec<u8> = Vec::with_capacity(buffer.len() - pos);
    let mut j: usize = pos;
    while j < buffer.len()
        invariant
            pos <= j <= buffer@.len(),
            out@ == buffer@.subrange(pos as int, j as int),
        decreases buffer@.len() - j,
    {
        let b = buffer[j];
        out.push(b);
        proof {
            assert(buffer@.subrange(pos as int, j as int).push(buffer@[j as int]) =~= buffer@
                .subrange(pos as int, j as int + 1));
        }
        j += 1;
    }
    proof {
        assert(buffer@.subrange(pos as int, buffer@.len() as int) =~= buffer@.skip(pos as int));
    }
    out
}

/// Skips one level section, reporting where the buffer ends before the
/// bytes its length declares.
fn skip_level(buffer: &Vec<u8>, pos: usize, present: bool) -> (r: Result<usize, Error>)
    requires
        pos <= buffer@.len(),
    ensures
        (match level_split(buffer@.skip(pos as int), present) {
            Option::Some(t) => r matches Ok(p) && pos <= p <= buffer@.len() && buffer@.skip(
                p as int,
            ) == t,
            Option::None => r == Err::<usize, Error>(Error::Truncated),
        }),
{
    let ghost rem = buffer@.skip(pos as int);
    if !present {
        return Ok(pos);
    }
    let len = buffer.len();
    if len - pos < 4 {
        return Err(Error::Truncated);
    }
    let b0 = buffer[pos] as usize;
    let b1 = buffer[pos + 1] as usize;
    let b2 = buffer[pos + 2] as usize;
    let b3 = buffer[pos + 3] as usize;
    let n = b0 + b1 * 0x100 + b2 * 0x10000 + b3 * 0x1000000;
    proof {
        let head = rem.subrange(0, 4);
        assert(head[0] == buffer@[pos as int]);
        assert(head[1] == buffer@[pos as int + 1]);
        assert(head[2] == buffer@[pos as int + 2]);
        assert(head[3] == buffer@[pos as int + 3]);
        assert(n == le32(head));
    }
    if n > len - (pos + 4) {
        proof {
            assert(rem.len() < n + 4);
        }
        return Err(Error::Truncated);
    }
    proof {
        assert(buffer@.skip(pos as int + 4 + n as int) =~= rem.skip(n as int + 4));
    }
    Ok(pos + 4 + n)
}

/// The value sub-buffer of a V1 page, or a truncation error exactly where
/// a level section's length runs past the buffer.
fn split_v1(buffer: &Vec<u8>, has_rep: bool, has_def: bool) -> (r: Result<Vec<u8>, Error>)
    ensures
        (match v1_values(buffer@, has_rep, has_def) {
            Option::Some(v) => r matches Ok(out) && out@ == v,
            Option::None => r == Err::<Vec<u8>, Error>(Error::Truncated),
        }),
{
    proof {
        assert(buffer@.skip(0) =~= buffer@);
    }
    let p1 = match skip_level(buffer, 0, has_rep) {
        Ok(p) => p,
        Err(e) => {
            return Err(e);
        },
    };
    let p2 = match skip_level(buffer, p1, has_def) {
        Ok(p) => p,
        Err(e) => {
            return Err(e);
        },
    };
    Ok(copy_tail(buffer, p2))
}

/// The value sub-buffer of a V2 page: what remains after the level byte
/// counts the header declares, or a truncation error where they are
/// negative or run past the buffer.
fn split_v2(buffer: &Vec<u8>, rep_len: i32, def_len: i32) -> (r: Result<Vec<u8>, Error>)
    ensures
        (if 0 <= rep_len && 0 <= def_len && rep_len + def_len <= buffer@.len() {
            r matches Ok(out) && out@ == buffer@.skip(rep_len + def_len)
        } else {
            r == Err::<Vec<u8>, Error>(Error::Truncated)
        }),
{
    if rep_len < 0 || def_len < 0 {
        return Err(Error::Truncated);
    }
    let r = rep_len as usize;
    let d = def_len as usize;
    if r > buffer.len() || d > buffer.len() - r {
        return Err(Error::Truncated);
    }
    Ok(copy_tail(buffer, r + d))
}

/// Reads of a data page everything the decoder needs, as plain values. The
/// pre-decoded dictionary of the page's column, where one exists, is taken
/// as given and carried through unchanged; the only error is a truncation
/// of the page's level sections.
pub fn read_page(page: &parquet2::page::DataPage, dict: Option<Dict>) -> (r: Result<
    PageInfo,
    Error,
>)
    ensures
        r matches Ok(p) ==> p.dict == dict,
        r is Err ==> r == Err::<PageInfo, Error>(Error::Truncated),
{
    let buffer = data_page_buffer(page);
    let (max_rep, max_def) = data_page_max_levels(page);
    let values = match data_page_v2_levels(page) {
        Option::None => {
            match split_v1(&buffer, max_rep > 0, max_def > 0) {
                Ok(v) => v,
                Err(e) => {
                    return Err(e);
                },
            }
        },
        Option::Some((rep_len, def_len)) => {
            match split_v2(&buffer, rep_len, def_len) {
                Ok(v) => v,
                Err(e) => {
                    return Err(e);
                },
            }
        },
    };
    Ok(
        PageInfo {
            encoding: data_page_encoding(page),
            dict,
            is_optional: data_page_is_optional(page),
            is_filtered: data_page_is_filtered(page),
            num_values: data_page_num_values(page),
            values,
        },
    )
}

} // verus!
