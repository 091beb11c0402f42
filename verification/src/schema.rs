//! The schema: an ordered list of field entries, each with a stable numeric
//! field id (its index), a name and a type; and documents, which map field
//! ids to lists of tagged values.

use vstd::prelude::*;
use crate::postings::RecordMode;

verus! {

/// The built-in tokenizers a text field can name. The set is closed, so a
/// schema cannot name an unknown tokenizer; a field that would otherwise
/// silently index zero tokens is unrepresentable here.
#[derive(Clone, Copy, Debug, PartialEq, Eq, Structural)]
pub enum TokenizerKind {
    /// The whole text is one token.
    Raw,
    /// Tokens are the maximal runs of non-space bytes.
    Simple,
}

/// How a text field is indexed.
#[derive(Clone, Copy, Debug, PartialEq, Eq, Structural)]
pub struct TextIndexing {
    pub tokenizer: TokenizerKind,
    pub record: RecordMode,
}

/// Options of a text field.
#[derive(Clone, Copy, Debug, PartialEq, Eq, Structural)]
pub struct TextOptions {
    pub indexing: Option<TextIndexing>,
    pub stored: bool,
}

/// Options of a numeric or date field.
#[derive(Clone, Copy, Debug, PartialEq, Eq, Structural)]
pub struct IntOptions {
    pub indexed: bool,
    pub fast: bool,
    pub stored: bool,
}

/// A field's type, from the closed set the engine supports.
#[derive(Clone, Copy, Debug, PartialEq, Eq, Structural)]
pub enum FieldType {
    /// Text, indexed through a tokenizer and/or stored.
    Str(TextOptions),
    U64(IntOptions),
    I64(IntOptions),
    /// An IEEE double carried as its order-preserving `u64` mapping; the
    /// float-to-bits mapping itself lives with callers that handle floats.
    F64(IntOptions),
    /// Indexed as its second-precision integer timestamp.
    Date(IntOptions),
    /// A path-structured term with ancestor expansion; always multi-valued,
    /// always emits a fast-field column of term ids.
    HierarchicalFacet,
    /// Columnar only; never indexed.
    Bytes,
}

/// One schema entry: a name and a type; the field id is the entry's index.
pub struct FieldEntry {
    pub name: Vec<u8>,
    pub field_type: FieldType,
}

/// The ordered list of field entries.
pub struct Schema {
    pub fields: Vec<FieldEntry>,
}

impl Schema {
    /// The number of fields.
    pub fn num_fields(&self) -> (r: usize)
        ensures
            r == self.fields@.len(),
    {
        self.fields.len()
    }
}

/// A field value, tagged by type. Text and facet values carry their UTF-8
/// bytes; a facet's bytes are its path segments separated by a zero byte.
pub enum Value {
    Str(Vec<u8>),
    U64(u64),
    I64(i64),
    /// The order-preserving `u64` mapping of an IEEE double.
    F64(u64),
    /// A second-precision timestamp.
    Date(i64),
    Facet(Vec<u8>),
    Bytes(Vec<u8>),
}

/// A value paired with the field it belongs to.
pub struct FieldValue {
    pub field: u32,
    pub value: Value,
}

/// A document: an ordered list of field values.
pub struct Document {
    pub field_values: Vec<FieldValue>,
}

/// A document paired with the opstamp the outer layer assigned to the add
/// operation.
pub struct AddOperation {
    pub opstamp: u64,
    pub document: Document,
}

} // verus!
