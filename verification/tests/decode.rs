use binpage::binary::OffsetWidth;
use binpage::dict::Dict;
use binpage::driver::ArrayIterator;
use binpage::driver::Chunk;
use binpage::driver::PageSource;
use binpage::error::Error;
use binpage::page::PageEncoding;
use binpage::page::PageInfo;
use binpage::state::build_state;
use binpage::state::push_null;
use binpage::state::with_capacity;

struct VecSource {
    pages: Vec<Result<(PageInfo, Vec<Vec<bool>>), Error>>,
}

impl PageSource for VecSource {
    fn next_page(&mut self) -> Option<Result<(PageInfo, Vec<Vec<bool>>), Error>> {
        if self.pages.is_empty() {
            None
        } else {
            Some(self.pages.remove(0))
        }
    }
}

fn plain_encode(vals: &[&[u8]]) -> Vec<u8> {
    let mut out: Vec<u8> = Vec::new();
    for v in vals {
        out.extend_from_slice(&(v.len() as u32).to_le_bytes());
        out.extend_from_slice(v);
    }
    out
}

fn plain_page(vals: &[&[u8]], optional: bool) -> PageInfo {
    PageInfo {
        encoding: PageEncoding::Plain,
        dict: None,
        is_optional: optional,
        is_filtered: false,
        num_values: vals.len(),
        values: plain_encode(vals),
    }
}

/// One hybrid-RLE run of length 1 per index; bit width must be at most 8.
fn rle_values(bit_width: u8, idxs: &[u32]) -> Vec<u8> {
    let mut out: Vec<u8> = vec![bit_width];
    for &i in idxs {
        out.push(1 << 1);
        out.push(i as u8);
    }
    out
}

fn abc_dict() -> Dict {
    Dict::try_new(b"abbccc".to_vec(), vec![0, 1, 3, 6]).unwrap()
}

fn dict_page(idxs: &[u32], num_values: usize, optional: bool) -> PageInfo {
    PageInfo {
        encoding: PageEncoding::RleDictionary,
        dict: Some(abc_dict()),
        is_optional: optional,
        is_filtered: false,
        num_values,
        values: rle_values(2, idxs),
    }
}

fn chunk_values(chunk: Chunk) -> (Vec<Vec<u8>>, Vec<bool>, bool) {
    let validity = chunk.decoded.validity.clone();
    let substituted = chunk.decoded.substituted;
    let (bytes, offsets, _width) = chunk.decoded.values.into_parts();
    assert_eq!(offsets[0], 0);
    assert_eq!(*offsets.last().unwrap(), bytes.len());
    for k in 1..offsets.len() {
        assert!(offsets[k - 1] <= offsets[k]);
    }
    let mut vals: Vec<Vec<u8>> = Vec::new();
    for k in 0..offsets.len() - 1 {
        vals.push(bytes[offsets[k]..offsets[k + 1]].to_vec());
    }
    (vals, validity, substituted)
}

fn rows_of_one(n: usize) -> Vec<Vec<bool>> {
    (0..n).map(|_| vec![true]).collect()
}

fn driver_over(
    pages: Vec<Result<(PageInfo, Vec<Vec<bool>>), Error>>,
    chunk_size: Option<usize>,
) -> ArrayIterator<VecSource> {
    ArrayIterator::new(VecSource { pages }, chunk_size, OffsetWidth::W64)
}

#[test]
fn round_trip_plain_required() {
    let page = plain_page(&[b"ab", b"c", b"def"], false);
    let mut it = driver_over(vec![Ok((page, rows_of_one(3)))], None);
    let chunk = it.next().unwrap().unwrap();
    assert_eq!(chunk.shape.len(), 3);
    let (vals, validity, substituted) = chunk_values(chunk);
    assert_eq!(vals, vec![b"ab".to_vec(), b"c".to_vec(), b"def".to_vec()]);
    assert!(validity.is_empty());
    assert!(!substituted);
    assert!(it.next().is_none());
}

#[test]
fn round_trip_plain_optional_nulls() {
    let page = plain_page(&[b"x", b"yz"], true);
    let shape = vec![vec![true, false], vec![false, true]];
    let mut it = driver_over(vec![Ok((page, shape))], None);
    let chunk = it.next().unwrap().unwrap();
    let (vals, validity, substituted) = chunk_values(chunk);
    assert_eq!(
        vals,
        vec![b"x".to_vec(), Vec::new(), Vec::new(), b"yz".to_vec()]
    );
    assert_eq!(validity, vec![true, false, false, true]);
    assert!(!substituted);
    assert!(it.next().is_none());
}

#[test]
fn dictionary_resolution() {
    let page = dict_page(&[2, 0, 1], 3, false);
    let mut it = driver_over(vec![Ok((page, rows_of_one(3)))], None);
    let chunk = it.next().unwrap().unwrap();
    let (vals, validity, substituted) = chunk_values(chunk);
    assert_eq!(vals, vec![b"ccc".to_vec(), b"a".to_vec(), b"bb".to_vec()]);
    assert!(validity.is_empty());
    assert!(!substituted);
    assert!(it.next().is_none());
}

#[test]
fn null_index_exclusion() {
    // The indices at positions only null slots would reach lie outside the
    // dictionary; decoding must succeed because null slots resolve nothing.
    let page = dict_page(&[2, 0, 7, 7], 4, true);
    let shape = vec![vec![true, false], vec![false, true]];
    let mut it = driver_over(vec![Ok((page, shape))], None);
    let chunk = it.next().unwrap().unwrap();
    let (vals, validity, substituted) = chunk_values(chunk);
    assert_eq!(
        vals,
        vec![b"ccc".to_vec(), Vec::new(), Vec::new(), b"a".to_vec()]
    );
    assert_eq!(validity, vec![true, false, false, true]);
    assert!(!substituted);
}

#[test]
fn corrupt_dictionary_index() {
    let page = dict_page(&[5], 1, false);
    let mut it = driver_over(vec![Ok((page, rows_of_one(1)))], None);
    let err = it.next().unwrap().unwrap_err();
    assert_eq!(err, Error::CorruptDictionaryIndex);
    assert!(it.next().is_none());
}

#[test]
fn unsupported_filtered_rejected() {
    for optional in [false, true] {
        for encoding in [PageEncoding::Plain, PageEncoding::RleDictionary] {
            let mut page = plain_page(&[b"a"], optional);
            page.encoding = encoding;
            page.dict = Some(abc_dict());
            page.is_filtered = true;
            let r = build_state(page);
            assert_eq!(r.unwrap_err(), Error::Unsupported);
        }
    }
    let mut page = plain_page(&[b"a"], false);
    page.is_filtered = true;
    let mut it = driver_over(vec![Ok((page, rows_of_one(1)))], None);
    assert_eq!(it.next().unwrap().unwrap_err(), Error::Unsupported);
    assert!(it.next().is_none());
}

#[test]
fn unsupported_other_encoding_and_missing_dict() {
    let mut page = plain_page(&[b"a"], false);
    page.encoding = PageEncoding::Other;
    assert_eq!(build_state(page).unwrap_err(), Error::Unsupported);

    let mut page = plain_page(&[b"a"], false);
    page.encoding = PageEncoding::PlainDictionary;
    page.dict = None;
    assert_eq!(build_state(page).unwrap_err(), Error::Unsupported);
}

#[test]
fn truncated_dictionary_index_buffer() {
    let mut page = dict_page(&[0], 1, false);
    page.values = Vec::new();
    assert_eq!(build_state(page).unwrap_err(), Error::Truncated);
}

#[test]
fn missing_run_payload_rejected() {
    // Bit width nine needs two value bytes per run; only one follows the
    // run header.
    let mut page = dict_page(&[0], 1, false);
    page.values = vec![9u8, 2, 5];
    assert_eq!(build_state(page).unwrap_err(), Error::Truncated);
}

#[test]
fn overlong_run_header_rejected() {
    // A run-header varint of nine continuation bytes and a large tenth.
    let mut page = dict_page(&[0], 1, false);
    let mut values = vec![1u8];
    values.extend_from_slice(&[0x80; 9]);
    values.push(0x02);
    page.values = values;
    assert_eq!(build_state(page).unwrap_err(), Error::Truncated);
}

#[test]
fn zero_count_run_rejected() {
    // A run of count zero yields nothing while values are still owed;
    // chains of such runs grow the decoder's call stack, so they are
    // rejected up front.
    let mut page = dict_page(&[0], 1, false);
    page.values = vec![2u8, 0, 0];
    assert_eq!(build_state(page).unwrap_err(), Error::Truncated);
}

#[test]
fn oversized_bit_width_rejected() {
    let mut page = dict_page(&[0], 1, false);
    page.values = vec![40u8, 2, 0, 0, 0, 0, 0];
    assert_eq!(build_state(page).unwrap_err(), Error::Unsupported);
}

#[test]
fn zero_bit_width_decodes_zero_indices() {
    let dict = Dict::try_new(b"xy".to_vec(), vec![0, 2]).unwrap();
    let page = PageInfo {
        encoding: PageEncoding::RleDictionary,
        dict: Some(dict),
        is_optional: false,
        is_filtered: false,
        num_values: 2,
        values: vec![0u8],
    };
    let mut it = driver_over(vec![Ok((page, rows_of_one(2)))], None);
    let chunk = it.next().unwrap().unwrap();
    let (vals, _, _) = chunk_values(chunk);
    assert_eq!(vals, vec![b"xy".to_vec(), b"xy".to_vec()]);
}

#[test]
fn chunking_across_pages() {
    let page1 = plain_page(&[b"a", b"b"], false);
    let page2 = plain_page(&[b"c", b"d", b"e", b"f"], false);
    let mut it = driver_over(
        vec![
            Ok((page1, rows_of_one(2))),
            Ok((page2, rows_of_one(4))),
        ],
        Some(3),
    );
    let chunk1 = it.next().unwrap().unwrap();
    assert_eq!(chunk1.shape.len(), 3);
    let (vals1, _, _) = chunk_values(chunk1);
    assert_eq!(vals1, vec![b"a".to_vec(), b"b".to_vec(), b"c".to_vec()]);
    let chunk2 = it.next().unwrap().unwrap();
    assert_eq!(chunk2.shape.len(), 3);
    let (vals2, _, _) = chunk_values(chunk2);
    assert_eq!(vals2, vec![b"d".to_vec(), b"e".to_vec(), b"f".to_vec()]);
    assert!(it.next().is_none());
}

#[test]
fn final_partial_chunk_flushes() {
    let page = plain_page(&[b"a", b"b"], false);
    let mut it = driver_over(vec![Ok((page, rows_of_one(2)))], Some(3));
    let chunk = it.next().unwrap().unwrap();
    assert_eq!(chunk.shape.len(), 2);
    let (vals, _, _) = chunk_values(chunk);
    assert_eq!(vals, vec![b"a".to_vec(), b"b".to_vec()]);
    assert!(it.next().is_none());
}

#[test]
fn exhaustion_is_terminal() {
    let page = plain_page(&[b"a"], false);
    let mut it = driver_over(vec![Ok((page, rows_of_one(1)))], None);
    assert!(it.next().unwrap().is_ok());
    assert!(it.next().is_none());
    assert!(it.next().is_none());
    assert!(it.next().is_none());
}

#[test]
fn error_is_terminal() {
    let page = plain_page(&[b"a"], false);
    let mut it = driver_over(
        vec![
            Ok((plain_page(&[b"z"], false), rows_of_one(1))),
            Err(Error::Upstream("bad page header".to_string())),
            Ok((page, rows_of_one(1))),
        ],
        Some(5),
    );
    let err = it.next().unwrap().unwrap_err();
    assert_eq!(err, Error::Upstream("bad page header".to_string()));
    assert!(it.next().is_none());
    assert!(it.next().is_none());
}

#[test]
fn offsets_invariant_on_produced_buffer() {
    let page = plain_page(&[b"", b"abc", b""], false);
    let mut it = driver_over(vec![Ok((page, rows_of_one(3)))], None);
    let chunk = it.next().unwrap().unwrap();
    let (bytes, offsets, width) = chunk.decoded.values.into_parts();
    assert_eq!(width, OffsetWidth::W64);
    assert_eq!(offsets[0], 0);
    assert_eq!(offsets.len(), 4);
    assert_eq!(*offsets.last().unwrap(), bytes.len());
    for k in 1..offsets.len() {
        assert!(offsets[k - 1] <= offsets[k]);
    }
}

#[test]
fn exhausted_page_substitutes_empty_values() {
    // The shape asks for three valid slots but the page holds only two
    // values: the third becomes the default empty value and the
    // substitution is observable.
    let page = plain_page(&[b"a", b"b"], false);
    let mut it = driver_over(vec![Ok((page, rows_of_one(3)))], None);
    let chunk = it.next().unwrap().unwrap();
    let (vals, _, substituted) = chunk_values(chunk);
    assert_eq!(vals, vec![b"a".to_vec(), b"b".to_vec(), Vec::new()]);
    assert!(substituted);
}

#[test]
fn chunking_multi_slot_optional_dictionary() {
    // Two rows of two slots each, chunk size one: rows split one per
    // chunk while the page's index stream carries over.
    let page = dict_page(&[1, 2, 0], 4, true);
    let shape = vec![vec![true, true], vec![false, true]];
    let mut it = driver_over(vec![Ok((page, shape))], Some(1));
    let chunk1 = it.next().unwrap().unwrap();
    assert_eq!(chunk1.shape, vec![vec![true, true]]);
    let (vals1, validity1, _) = chunk_values(chunk1);
    assert_eq!(vals1, vec![b"bb".to_vec(), b"ccc".to_vec()]);
    assert_eq!(validity1, vec![true, true]);
    let chunk2 = it.next().unwrap().unwrap();
    assert_eq!(chunk2.shape, vec![vec![false, true]]);
    let (vals2, validity2, _) = chunk_values(chunk2);
    assert_eq!(vals2, vec![Vec::new(), b"a".to_vec()]);
    assert_eq!(validity2, vec![false, true]);
    assert!(it.next().is_none());
}

#[test]
fn state_len_reports_remaining() {
    let st = build_state(dict_page(&[2, 0, 1], 3, false)).unwrap();
    assert_eq!(st.len(), 3);
    // Plain states report the remaining byte count less one length prefix.
    let st = build_state(plain_page(&[b"ab"], false)).unwrap();
    assert_eq!(st.len(), 2);
}

#[test]
fn push_null_appends_empty_and_false() {
    let mut d = with_capacity(0, OffsetWidth::W32);
    push_null(&mut d);
    assert_eq!(d.validity, vec![false]);
    assert!(!d.substituted);
    let (bytes, offsets, _width) = d.values.into_parts();
    assert!(bytes.is_empty());
    assert_eq!(offsets, vec![0, 0]);
}

#[test]
fn dict_shape_is_checked() {
    assert_eq!(
        Dict::try_new(b"abc".to_vec(), vec![0, 2]).unwrap_err(),
        Error::TypeMismatch
    );
    assert_eq!(
        Dict::try_new(b"abc".to_vec(), vec![0, 3, 1, 3]).unwrap_err(),
        Error::TypeMismatch
    );
    assert_eq!(
        Dict::try_new(b"abc".to_vec(), vec![1, 3]).unwrap_err(),
        Error::TypeMismatch
    );
    assert_eq!(
        Dict::try_new(b"abc".to_vec(), Vec::new()).unwrap_err(),
        Error::TypeMismatch
    );
    let d = Dict::try_new(b"abc".to_vec(), vec![0, 1, 3]).unwrap();
    assert_eq!(d.len(), 2);
    assert_eq!(d.get(0).unwrap(), b"a".to_vec());
    assert_eq!(d.get(1).unwrap(), b"bc".to_vec());
    assert!(d.get(2).is_none());
}
