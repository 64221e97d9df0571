use vstd::prelude::*;
use crate::sorted::Keyed;

verus! {

/// Identifies a document inside one index.
#[derive(Clone, Copy, Debug, PartialEq, Eq, Structural, Hash, PartialOrd, Ord)]
pub struct DocumentId(pub u64);

/// Identifies an attribute of a schema by its position in the declaration order.
#[derive(Clone, Copy, Debug, PartialEq, Eq, Structural, Hash, PartialOrd, Ord)]
pub struct SchemaAttr(pub u16);

impl SchemaAttr {
    /// The attribute with the given identifier.
    pub fn new(value: u16) -> (attr: SchemaAttr)
        ensures
            attr.0 == value,
    {
        SchemaAttr(value)
    }
}

/// One occurrence of a word: the document and attribute it was found in, its
/// ordinal among the words kept from that attribute, and where it starts and
/// how long it is, counted in Unicode scalars of the attribute's text.
#[derive(Clone, Copy, Debug, PartialEq, Eq, Structural, Hash, PartialOrd, Ord)]
pub struct DocIndex {
    pub document_id: DocumentId,
    pub attribute: u16,
    pub word_index: u16,
    pub char_index: u16,
    pub char_length: u16,
}

impl Keyed for DocumentId {
    open spec fn key(&self) -> int {
        self.0 as int
    }

    proof fn key_identifies(a: Self, b: Self) {
    }

    fn key_of(&self) -> (k: u128) {
        self.0 as u128
    }
}

/// Postings are ordered field by field: document first, then attribute, word
/// ordinal, start and length. The key packs the five fields so that comparing
/// keys is comparing postings in that order.
impl Keyed for DocIndex {
    open spec fn key(&self) -> int {
        self.document_id.0 * 0x1_0000_0000_0000_0000 + self.attribute * 0x1_0000_0000_0000
            + self.word_index * 0x1_0000_0000 + self.char_index * 0x1_0000 + self.char_length
    }

    proof fn key_identifies(a: Self, b: Self) {
    }

    fn key_of(&self) -> (k: u128) {
        let doc: u128 = self.document_id.0 as u128;
        let attribute: u128 = self.attribute as u128;
        let word_index: u128 = self.word_index as u128;
        let char_index: u128 = self.char_index as u128;
        let char_length: u128 = self.char_length as u128;
        doc * 0x1_0000_0000_0000_0000 + attribute * 0x1_0000_0000_0000 + word_index
            * 0x1_0000_0000 + char_index * 0x1_0000 + char_length
    }
}

/// The field-by-field order on postings.
pub open spec fn posting_before(a: DocIndex, b: DocIndex) -> bool {
    ||| a.document_id.0 < b.document_id.0
    ||| a.document_id == b.document_id && a.attribute < b.attribute
    ||| a.document_id == b.document_id && a.attribute == b.attribute && a.word_index
        < b.word_index
    ||| a.document_id == b.document_id && a.attribute == b.attribute && a.word_index
        == b.word_index && a.char_index < b.char_index
    ||| a.document_id == b.document_id && a.attribute == b.attribute && a.word_index
        == b.word_index && a.char_index == b.char_index && a.char_length < b.char_length
}

/// The packed key of a posting orders postings field by field.
pub proof fn lemma_posting_key_is_field_order(a: DocIndex, b: DocIndex)
    ensures
        a.key() < b.key() <==> posting_before(a, b),
{
}

} // verus!
