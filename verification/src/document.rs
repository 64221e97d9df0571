use vstd::prelude::*;
use crate::text::decimal;
use crate::text::render_decimal;
use crate::text::string_of;

verus! {

/// A text value, with the bits of the float that it spells where the caller
/// read one from it.
#[derive(Clone, Debug, PartialEq, Eq)]
pub struct TextValue {
    pub text: String,
    pub float_bits: Option<u64>,
}

/// The value of one field of a document.
#[derive(Clone, Debug, PartialEq, Eq)]
pub enum FieldValue {
    Text(TextValue),
    Integer(i64),
    Boolean(bool),
    /// A sequence, a map or anything else that is no scalar.
    Composite,
}

/// One field of a document.
#[derive(Clone, Debug, PartialEq, Eq)]
pub struct Field {
    pub name: String,
    pub value: FieldValue,
}

/// A document: its fields, in the order in which they were given. A name
/// may occur more than once. The first field of the identifier's name
/// identifies the document. The fields are taken one by one, so of the
/// fields of one name the store and the ranked map keep the value of the
/// last, and the index keeps the postings of all.
#[derive(Clone, Debug, PartialEq, Eq)]
pub struct Document(pub Vec<Field>);

/// A list of documents.
#[derive(Clone, Debug, PartialEq, Eq)]
pub struct Documents(pub Vec<Document>);

/// The documents to index and those to remove, in one request.
#[derive(Clone, Debug, PartialEq, Eq)]
pub struct DocumentsUpdate {
    pub insert: Option<Documents>,
    pub delete: Option<Documents>,
}

/// The text form of a scalar value: a text as it is, an integer in decimal,
/// a boolean as `true` or `false`. A composite value has none.
pub open spec fn text_of(value: FieldValue) -> Option<Seq<char>> {
    match value {
        FieldValue::Text(t) => Some(t.text@),
        FieldValue::Integer(i) => Some(decimal(i as int)),
        FieldValue::Boolean(b) => Some(
            if b {
                seq!['t', 'r', 'u', 'e']
            } else {
                seq!['f', 'a', 'l', 's', 'e']
            },
        ),
        FieldValue::Composite => None,
    }
}

/// The bits of the float that a value spells, where the caller read one.
pub open spec fn float_bits_of(value: FieldValue) -> Option<u64> {
    match value {
        FieldValue::Text(t) => t.float_bits,
        _ => None,
    }
}

/// The place of the first field with the given name.
pub open spec fn first_field(fields: Seq<Field>, name: Seq<char>) -> Option<int> {
    if exists|i: int| 0 <= i < fields.len() && (#[trigger] fields[i]).name@ == name {
        Some(
            choose|i: int|
                0 <= i < fields.len() && (#[trigger] fields[i]).name@ == name && forall|k: int|
                    0 <= k < i ==> (#[trigger] fields[k]).name@ != name,
        )
    } else {
        None
    }
}

impl FieldValue {
    /// A text value that spells no float.
    pub fn text(text: &str) -> (value: FieldValue)
        ensures
            value == FieldValue::Text(TextValue { text: value->Text_0.text, float_bits: None }),
            value->Text_0.text@ == text@,
    {
        FieldValue::Text(TextValue { text: text.to_owned(), float_bits: None })
    }

    /// The text form of the value.
    pub fn text_form(&self) -> (text: Option<String>)
        ensures
            match text {
                Some(t) => text_of(*self) == Some(t@),
                None => text_of(*self) is None,
            },
    {
        match self {
            FieldValue::Text(t) => Some(t.text.clone()),
            FieldValue::Integer(i) => Some(string_of(&render_decimal(*i))),
            FieldValue::Boolean(b) => {
                if *b {
                    Some(string_of(&vec!['t', 'r', 'u', 'e']))
                } else {
                    Some(string_of(&vec!['f', 'a', 'l', 's', 'e']))
                }
            },
            FieldValue::Composite => None,
        }
    }
}

impl Document {
    /// Finds the first field with the given name.
    pub fn field(&self, name: &str) -> (found: Option<usize>)
        ensures
            match found {
                Some(i) => first_field(self.0@, name@) == Some(i as int) && i < self.0.len()
                    && self.0[i as int].name@ == name@,
                None => first_field(self.0@, name@) is None,
            },
    {
        let mut i: usize = 0;
        while i < self.0.len()
            invariant
                i <= self.0.len(),
                forall|k: int| 0 <= k < i ==> (#[trigger] self.0[k]).name@ != name@,
            decreases self.0.len() - i,
        {
            if crate::text::same_text(self.0[i].name.as_str(), name) {
                proof {
                    let fields = self.0@;
                    let j = choose|j: int|
                        0 <= j < fields.len() && (#[trigger] fields[j]).name@ == name@
                            && forall|k: int| 0 <= k < j ==> (#[trigger] fields[k]).name@ != name@;
                    assert(j == i) by {
                        if j < i {
                            assert(fields[j].name@ != name@);
                        }
                        if i < j {
                            assert(fields[i as int].name@ != name@);
                        }
                    }
                }
                return Some(i);
            }
            i = i + 1;
        }
        None
    }
}

} // verus!
