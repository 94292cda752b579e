use binpage::binary::OffsetWidth;
use binpage::dict::Dict;
use binpage::driver::ArrayIterator;
use binpage::driver::PageSource;
use binpage::error::Error;
use binpage::page::PageEncoding;
use binpage::page::PageInfo;
use binpage::parquet::read_page;
use parquet2::encoding::Encoding;
use parquet2::metadata::Descriptor;
use parquet2::page::DataPage;
use parquet2::page::DataPageHeader;
use parquet2::page::DataPageHeaderV1;
use parquet2::schema::types::FieldInfo;
use parquet2::schema::types::PhysicalType;
use parquet2::schema::types::PrimitiveType;
use parquet2::schema::Repetition;

struct OneShot {
    page: Option<(PageInfo, Vec<Vec<bool>>)>,
}

impl PageSource for OneShot {
    fn next_page(&mut self) -> Option<Result<(PageInfo, Vec<Vec<bool>>), Error>> {
        self.page.take().map(Ok)
    }
}

fn byte_array_descriptor(repetition: Repetition) -> Descriptor {
    Descriptor {
        primitive_type: PrimitiveType {
            field_info: FieldInfo {
                name: "col".to_string(),
                repetition,
                id: None,
            },
            logical_type: None,
            converted_type: None,
            physical_type: PhysicalType::ByteArray,
        },
        max_def_level: 0,
        max_rep_level: 0,
    }
}

fn raw_page(
    buffer: Vec<u8>,
    num_values: usize,
    encoding: Encoding,
    repetition: Repetition,
    rows: Option<usize>,
) -> DataPage {
    let header = DataPageHeaderV1 {
        num_values: num_values as i32,
        encoding: encoding.into(),
        definition_level_encoding: Encoding::Rle.into(),
        repetition_level_encoding: Encoding::Rle.into(),
        statistics: None,
    };
    DataPage::new(
        DataPageHeader::V1(header),
        buffer,
        byte_array_descriptor(repetition),
        rows,
    )
}

fn length_prefixed(vals: &[&[u8]]) -> Vec<u8> {
    let mut out: Vec<u8> = Vec::new();
    for v in vals {
        out.extend_from_slice(&(v.len() as u32).to_le_bytes());
        out.extend_from_slice(v);
    }
    out
}

fn decode_one_page(info: PageInfo, shape: Vec<Vec<bool>>) -> Vec<Vec<u8>> {
    let source = OneShot {
        page: Some((info, shape)),
    };
    let mut it = ArrayIterator::new(source, None, OffsetWidth::W32);
    let chunk = it.next().unwrap().unwrap();
    let (bytes, offsets, _width) = chunk.decoded.values.into_parts();
    let mut vals: Vec<Vec<u8>> = Vec::new();
    for k in 0..offsets.len() - 1 {
        vals.push(bytes[offsets[k]..offsets[k + 1]].to_vec());
    }
    vals
}

#[test]
fn read_page_plain_required() {
    let buffer = length_prefixed(&[b"hi", b"yo"]);
    let page = raw_page(buffer.clone(), 2, Encoding::Plain, Repetition::Required, None);
    let info = read_page(&page, None).unwrap();
    assert_eq!(info.encoding, PageEncoding::Plain);
    assert!(!info.is_optional);
    assert!(!info.is_filtered);
    assert_eq!(info.num_values, 2);
    assert_eq!(info.values, buffer);
    let vals = decode_one_page(info, vec![vec![true], vec![true]]);
    assert_eq!(vals, vec![b"hi".to_vec(), b"yo".to_vec()]);
}

#[test]
fn read_page_optional_and_filtered_flags() {
    let buffer = length_prefixed(&[b"a"]);
    let page = raw_page(buffer, 1, Encoding::Plain, Repetition::Optional, Some(1));
    let info = read_page(&page, None).unwrap();
    assert!(info.is_optional);
    assert!(info.is_filtered);
    let source = OneShot {
        page: Some((info, vec![vec![true]])),
    };
    let mut it = ArrayIterator::new(source, None, OffsetWidth::W32);
    assert_eq!(it.next().unwrap().unwrap_err(), Error::Unsupported);
}

#[test]
fn read_page_dictionary_encoded() {
    // bit width 2, then one single-element RLE run per index: [1, 0, 2]
    let buffer = vec![2u8, 2, 1, 2, 0, 2, 2];
    let page = raw_page(
        buffer,
        3,
        Encoding::RleDictionary,
        Repetition::Required,
        None,
    );
    let dict = Dict::try_new(b"abbccc".to_vec(), vec![0, 1, 3, 6]).unwrap();
    let info = read_page(&page, Some(dict)).unwrap();
    assert_eq!(info.encoding, PageEncoding::RleDictionary);
    assert!(info.dict.is_some());
    let vals = decode_one_page(info, vec![vec![true], vec![true], vec![true]]);
    assert_eq!(vals, vec![b"bb".to_vec(), b"a".to_vec(), b"ccc".to_vec()]);
}
