use vstd::prelude::*;
use crate::types::DocumentId;
use crate::types::SchemaAttr;

verus! {

/// The eight bytes of a 64-bit number, the most significant first.
pub open spec fn be_bytes_64(value: u64) -> Seq<u8> {
    seq![
        ((value >> 56) & 0xff) as u8,
        ((value >> 48) & 0xff) as u8,
        ((value >> 40) & 0xff) as u8,
        ((value >> 32) & 0xff) as u8,
        ((value >> 24) & 0xff) as u8,
        ((value >> 16) & 0xff) as u8,
        ((value >> 8) & 0xff) as u8,
        (value & 0xff) as u8,
    ]
}

/// The two bytes of a 16-bit number, the most significant first.
pub open spec fn be_bytes_16(value: u16) -> Seq<u8> {
    seq![(value >> 8) as u8, (value & 0xff) as u8]
}

/// The prefix of every key of a document: the letters `doc-`.
pub open spec fn key_prefix() -> Seq<u8> {
    seq![0x64u8, 0x6fu8, 0x63u8, 0x2du8]
}

/// The key under which everything of a document lies: `doc-`, then the
/// document's identifier, the most significant byte first.
pub open spec fn document_key_bytes(document: DocumentId) -> Seq<u8> {
    key_prefix() + be_bytes_64(document.0)
}

/// The key of one attribute of a document: the document's key, a hyphen,
/// then the attribute's identifier, the most significant byte first.
pub open spec fn attribute_key_bytes(document: DocumentId, attribute: SchemaAttr) -> Seq<u8> {
    document_key_bytes(document) + seq![0x2du8] + be_bytes_16(attribute.0)
}

/// The key of a document in the store.
#[derive(Clone, Copy, Debug, PartialEq, Eq, Structural)]
pub struct DocumentKey {
    pub document: DocumentId,
}

/// The key of one attribute of a document in the store.
#[derive(Clone, Copy, Debug, PartialEq, Eq, Structural)]
pub struct DocumentKeyAttr {
    pub document: DocumentId,
    pub attribute: SchemaAttr,
}

/// Appends the eight bytes of a number.
pub fn push_be_64(value: u64, out: &mut Vec<u8>)
    ensures
        final(out)@ == old(out)@ + be_bytes_64(value),
{
    out.push(((value >> 56) & 0xff) as u8);
    out.push(((value >> 48) & 0xff) as u8);
    out.push(((value >> 40) & 0xff) as u8);
    out.push(((value >> 32) & 0xff) as u8);
    out.push(((value >> 24) & 0xff) as u8);
    out.push(((value >> 16) & 0xff) as u8);
    out.push(((value >> 8) & 0xff) as u8);
    out.push((value & 0xff) as u8);
    proof {
        assert(out@ =~= old(out)@ + be_bytes_64(value));
    }
}

/// Reads the number whose eight bytes stand at a place.
pub fn read_be_64(bytes: &[u8], at: usize) -> (value: u64)
    requires
        at + 8 <= bytes@.len(),
    ensures
        be_bytes_64(value) == bytes@.subrange(at as int, at + 8),
{
    let b0 = bytes[at] as u64;
    let b1 = bytes[at + 1] as u64;
    let b2 = bytes[at + 2] as u64;
    let b3 = bytes[at + 3] as u64;
    let b4 = bytes[at + 4] as u64;
    let b5 = bytes[at + 5] as u64;
    let b6 = bytes[at + 6] as u64;
    let b7 = bytes[at + 7] as u64;
    let value = (b0 << 56) | (b1 << 48) | (b2 << 40) | (b3 << 32) | (b4 << 24) | (b5 << 16) | (b6
        << 8) | b7;
    proof {
        assert(b0 < 256 && b1 < 256 && b2 < 256 && b3 < 256 && b4 < 256 && b5 < 256 && b6 < 256
            && b7 < 256 && value == (b0 << 56) | (b1 << 48) | (b2 << 40) | (b3 << 32) | (b4 << 24)
            | (b5 << 16) | (b6 << 8) | b7 ==> (value >> 56) & 0xff == b0 && (value >> 48) & 0xff
            == b1 && (value >> 40) & 0xff == b2 && (value >> 32) & 0xff == b3 && (value >> 24)
            & 0xff == b4 && (value >> 16) & 0xff == b5 && (value >> 8) & 0xff == b6 && value
            & 0xff == b7) by (bit_vector);
        let s = bytes@.subrange(at as int, at + 8);
        assert(be_bytes_64(value)[0] == s[0]);
        assert(be_bytes_64(value)[1] == s[1]);
        assert(be_bytes_64(value)[2] == s[2]);
        assert(be_bytes_64(value)[3] == s[3]);
        assert(be_bytes_64(value)[4] == s[4]);
        assert(be_bytes_64(value)[5] == s[5]);
        assert(be_bytes_64(value)[6] == s[6]);
        assert(be_bytes_64(value)[7] == s[7]);
        assert(be_bytes_64(value) =~= s);
    }
    value
}

/// Appends the two bytes of a number.
pub fn push_be_16(value: u16, out: &mut Vec<u8>)
    ensures
        final(out)@ == old(out)@ + be_bytes_16(value),
{
    out.push((value >> 8) as u8);
    out.push((value & 0xff) as u8);
    proof {
        assert(out@ =~= old(out)@ + be_bytes_16(value));
    }
}

/// Reads the number whose two bytes stand at a place.
pub fn read_be_16(bytes: &[u8], at: usize) -> (value: u16)
    requires
        at + 2 <= bytes@.len(),
    ensures
        be_bytes_16(value) == bytes@.subrange(at as int, at + 2),
{
    let high = bytes[at] as u16;
    let low = bytes[at + 1] as u16;
    let value: u16 = (high << 8) | low;
    proof {
        assert(high < 256 && low < 256 && value == (high << 8) | low ==> (value >> 8) == high
            && (value & 0xff) == low) by (bit_vector);
        let s = bytes@.subrange(at as int, at + 2);
        assert(be_bytes_16(value)[0] == s[0]);
        assert(be_bytes_16(value)[1] == s[1]);
        assert(be_bytes_16(value) =~= s);
    }
    value
}

/// The two bytes of a number say which number it is.
pub proof fn lemma_be_bytes_16_identify(a: u16, b: u16)
    requires
        be_bytes_16(a) == be_bytes_16(b),
    ensures
        a == b,
{
    assert(be_bytes_16(a)[0] == be_bytes_16(b)[0]);
    assert(be_bytes_16(a)[1] == be_bytes_16(b)[1]);
    assert((a >> 8) as u8 == (b >> 8) as u8);
    assert((a & 0xff) as u8 == (b & 0xff) as u8);
    assert((a >> 8) as u8 == (b >> 8) as u8 && (a & 0xff) as u8 == (b & 0xff) as u8 ==> a == b)
        by (bit_vector);
}

/// The bytes of a number say which number it is.
pub proof fn lemma_be_bytes_64_identify(a: u64, b: u64)
    requires
        be_bytes_64(a) == be_bytes_64(b),
    ensures
        a == b,
{
    assert(be_bytes_64(a)[0] == be_bytes_64(b)[0]);
    assert(be_bytes_64(a)[1] == be_bytes_64(b)[1]);
    assert(be_bytes_64(a)[2] == be_bytes_64(b)[2]);
    assert(be_bytes_64(a)[3] == be_bytes_64(b)[3]);
    assert(be_bytes_64(a)[4] == be_bytes_64(b)[4]);
    assert(be_bytes_64(a)[5] == be_bytes_64(b)[5]);
    assert(be_bytes_64(a)[6] == be_bytes_64(b)[6]);
    assert(be_bytes_64(a)[7] == be_bytes_64(b)[7]);
    assert(((a >> 56) & 0xff) as u8 == ((b >> 56) & 0xff) as u8 && ((a >> 48) & 0xff) as u8 == ((b
        >> 48) & 0xff) as u8 && ((a >> 40) & 0xff) as u8 == ((b >> 40) & 0xff) as u8 && ((a >> 32)
        & 0xff) as u8 == ((b >> 32) & 0xff) as u8 && ((a >> 24) & 0xff) as u8 == ((b >> 24)
        & 0xff) as u8 && ((a >> 16) & 0xff) as u8 == ((b >> 16) & 0xff) as u8 && ((a >> 8)
        & 0xff) as u8 == ((b >> 8) & 0xff) as u8 && (a & 0xff) as u8 == (b & 0xff) as u8 ==> a
        == b) by (bit_vector);
}

impl DocumentKey {
    /// The key of a document.
    pub fn new(document: DocumentId) -> (key: DocumentKey)
        ensures
            key.document == document,
    {
        DocumentKey { document }
    }

    /// The key of one attribute of the document.
    pub fn with_attribute(&self, attribute: SchemaAttr) -> (key: DocumentKeyAttr)
        ensures
            key == (DocumentKeyAttr { document: self.document, attribute }),
    {
        DocumentKeyAttr { document: self.document, attribute }
    }

    /// The least key of the document's attributes.
    pub fn with_attribute_min(&self) -> (key: DocumentKeyAttr)
        ensures
            key == (DocumentKeyAttr { document: self.document, attribute: SchemaAttr(0) }),
    {
        DocumentKeyAttr { document: self.document, attribute: SchemaAttr(0) }
    }

    /// The greatest key of the document's attributes.
    pub fn with_attribute_max(&self) -> (key: DocumentKeyAttr)
        ensures
            key == (DocumentKeyAttr { document: self.document, attribute: SchemaAttr(0xffff) }),
    {
        DocumentKeyAttr { document: self.document, attribute: SchemaAttr(0xffff) }
    }

    /// The document of the key.
    pub fn document_id(&self) -> (document: DocumentId)
        ensures
            document == self.document,
    {
        self.document
    }

    /// The key as the store takes it.
    pub fn to_bytes(&self) -> (bytes: Vec<u8>)
        ensures
            bytes@ == document_key_bytes(self.document),
    {
        let mut bytes: Vec<u8> = Vec::new();
        bytes.push(0x64);
        bytes.push(0x6f);
        bytes.push(0x63);
        bytes.push(0x2d);
        proof {
            assert(bytes@ =~= key_prefix());
        }
        push_be_64(self.document.0, &mut bytes);
        bytes
    }
}

impl DocumentKeyAttr {
    /// The key of an attribute of a document.
    pub fn new(document: DocumentId, attribute: SchemaAttr) -> (key: DocumentKeyAttr)
        ensures
            key == (DocumentKeyAttr { document, attribute }),
    {
        DocumentKeyAttr { document, attribute }
    }

    /// The document of the key.
    pub fn document_id(&self) -> (document: DocumentId)
        ensures
            document == self.document,
    {
        self.document
    }

    /// The attribute of the key.
    pub fn attribute(&self) -> (attribute: SchemaAttr)
        ensures
            attribute == self.attribute,
    {
        self.attribute
    }

    /// Whether this key comes before another in the order of the store: by
    /// document, then by attribute.
    pub open spec fn before(self, other: DocumentKeyAttr) -> bool {
        self.document.0 < other.document.0 || (self.document == other.document
            && self.attribute.0 < other.attribute.0)
    }

    /// The key as the store takes it.
    pub fn to_bytes(&self) -> (bytes: Vec<u8>)
        ensures
            bytes@ == attribute_key_bytes(self.document, self.attribute),
    {
        let mut bytes = DocumentKey { document: self.document }.to_bytes();
        bytes.push(0x2d);
        bytes.push((self.attribute.0 >> 8) as u8);
        bytes.push((self.attribute.0 & 0xff) as u8);
        proof {
            assert(bytes@ =~= attribute_key_bytes(self.document, self.attribute));
        }
        bytes
    }

    /// Reads a key back from its bytes; none where the bytes are no key of
    /// an attribute.
    pub fn from_bytes(bytes: &[u8]) -> (key: Option<DocumentKeyAttr>)
        ensures
            match key {
                Some(k) => bytes@ == attribute_key_bytes(k.document, k.attribute),
                None => forall|document: DocumentId, attribute: SchemaAttr|
                    bytes@ != #[trigger] attribute_key_bytes(document, attribute),
            },
    {
        if bytes.len() != 15 || bytes[0] != 0x64 || bytes[1] != 0x6f || bytes[2] != 0x63
            || bytes[3] != 0x2d || bytes[12] != 0x2d {
            proof {
                assert forall|document: DocumentId, attribute: SchemaAttr|
                    bytes@ != #[trigger] attribute_key_bytes(document, attribute) by {
                    let k = attribute_key_bytes(document, attribute);
                    assert(k.len() == 15);
                    assert(k[0] == 0x64 && k[1] == 0x6f && k[2] == 0x63 && k[3] == 0x2d && k[12]
                        == 0x2d);
                }
            }
            return None;
        }
        let document = read_be_64(bytes, 4);
        let high = bytes[13] as u16;
        let low = bytes[14] as u16;
        let attribute: u16 = (high << 8) | low;
        proof {
            assert(high < 256 && low < 256 && attribute == (high << 8) | low ==> (attribute >> 8)
                == high && (attribute & 0xff) == low) by (bit_vector);
            let k = attribute_key_bytes(DocumentId(document), SchemaAttr(attribute));
            assert(k.len() == 15);
            assert forall|i: int| 0 <= i < 15 implies k[i] == bytes@[i] by {
                if 4 <= i < 12 {
                    assert(k[i] == be_bytes_64(document)[i - 4]);
                    assert(bytes@.subrange(4, 12)[i - 4] == bytes@[i]);
                }
            }
            assert(k =~= bytes@);
        }
        Some(DocumentKeyAttr { document: DocumentId(document), attribute: SchemaAttr(attribute) })
    }
}

/// Two keys with the same bytes are the same key.
pub proof fn lemma_key_bytes_identify(a: DocumentKeyAttr, b: DocumentKeyAttr)
    requires
        attribute_key_bytes(a.document, a.attribute) == attribute_key_bytes(
            b.document,
            b.attribute,
        ),
    ensures
        a == b,
{
    let x = attribute_key_bytes(a.document, a.attribute);
    let y = attribute_key_bytes(b.document, b.attribute);
    assert(be_bytes_64(a.document.0) =~= x.subrange(4, 12));
    assert(be_bytes_64(b.document.0) =~= y.subrange(4, 12));
    lemma_be_bytes_64_identify(a.document.0, b.document.0);
    assert(x[13] == y[13]);
    assert(x[14] == y[14]);
    let p = a.attribute.0;
    let q = b.attribute.0;
    assert(x[13] == (p >> 8) as u8);
    assert(x[14] == (p & 0xff) as u8);
    assert(y[13] == (q >> 8) as u8);
    assert(y[14] == (q & 0xff) as u8);
    assert((p >> 8) as u8 == (q >> 8) as u8 && (p & 0xff) as u8 == (q & 0xff) as u8 ==> p == q)
        by (bit_vector);
}

} // verus!
