use vstd::prelude::*;
use crate::dict::Dict;

verus! {

/// Encoding tag of a data page, as far as the decoder distinguishes it.
#[derive(Clone, Copy, PartialEq, Eq, Structural, Debug)]
pub enum PageEncoding {
    /// Values stored directly, each as a four-byte little-endian length
    /// followed by its bytes.
    Plain,
    /// Dictionary indices, hybrid RLE/bit-packed.
    PlainDictionary,
    /// Dictionary indices, hybrid RLE/bit-packed.
    RleDictionary,
    /// Any other encoding; never supported here.
    Other,
}

/// Everything the decoder reads of one data page, as plain values: the
/// encoding tag, the pre-decoded dictionary where the page refers to one,
/// the schema-derived optionality, the row-filter marker, the declared
/// value count, and the raw value sub-buffer.
#[derive(Debug)]
pub struct PageInfo {
    /// The page's encoding tag.
    pub encoding: PageEncoding,
    /// The pre-decoded dictionary of the page's column, where one exists.
    pub dict: Option<Dict>,
    /// Whether the column's repetition is optional (slots may be null).
    pub is_optional: bool,
    /// Whether a row selection is attached to the page.
    pub is_filtered: bool,
    /// The number of values the page header declares.
    pub num_values: usize,
    /// The value sub-buffer of the page.
    pub values: Vec<u8>,
}

} // verus!
