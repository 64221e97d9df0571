use vstd::prelude::*;
use vstd::string::StringSliceAdditionalSpecFns;
use crate::document::first_field;
use crate::document::text_of;
use crate::document::Document;
use crate::siphash::siphash13;
use crate::text::same_text;
use crate::types::DocumentId;
use crate::types::SchemaAttr;

verus! {

/// The most attributes a schema can declare: identifiers have sixteen bits.
pub const MAX_ATTRIBUTES: usize = 65536;

/// What is done with an attribute: kept for retrieval, indexed for search,
/// registered for ranking.
#[derive(Clone, Copy, Debug, PartialEq, Eq, Structural)]
pub struct SchemaProps {
    pub stored: bool,
    pub indexed: bool,
    pub ranked: bool,
}

/// The declaration of one attribute.
#[derive(Clone, Debug, PartialEq, Eq)]
pub struct Attribute {
    pub name: String,
    pub props: SchemaProps,
}

/// Why a schema was refused, or an attribute not found in it.
#[derive(Clone, Copy, Debug, PartialEq, Eq, Structural)]
pub enum SchemaError {
    DuplicateAttribute,
    NoIdentifier,
    IdentifierNotStored,
    UnknownAttribute,
}

/// Why a document was not taken into an update.
#[derive(Clone, Debug, PartialEq, Eq)]
pub enum SerializerError {
    MissingIdentifier,
    UnsupportedType,
    RankedTypeMismatch,
    Store(String),
}

/// No name is declared twice.
pub open spec fn names_distinct(attrs: Seq<Attribute>) -> bool {
    forall|i: int, j: int|
        0 <= i < j < attrs.len() ==> (#[trigger] attrs[i]).name@ != (#[trigger] attrs[j]).name@
}

/// Whether a name is declared.
pub open spec fn declares(attrs: Seq<Attribute>, name: Seq<char>) -> bool {
    exists|i: int| 0 <= i < attrs.len() && (#[trigger] attrs[i]).name@ == name
}

/// The place at which a name is declared.
pub open spec fn place_of(attrs: Seq<Attribute>, name: Seq<char>) -> int {
    choose|i: int| 0 <= i < attrs.len() && (#[trigger] attrs[i]).name@ == name
}

/// What `build` answers for a list of declarations and the identifier's name.
pub open spec fn build_result(attrs: Seq<Attribute>, identifier: Seq<char>) -> Result<
    (),
    SchemaError,
> {
    if !names_distinct(attrs) {
        Err(SchemaError::DuplicateAttribute)
    } else if !declares(attrs, identifier) {
        Err(SchemaError::NoIdentifier)
    } else if !attrs[place_of(attrs, identifier)].props.stored {
        Err(SchemaError::IdentifierNotStored)
    } else {
        Ok(())
    }
}

/// Where distinct names are declared, a name has one place.
pub proof fn lemma_place_unique(attrs: Seq<Attribute>, i: int)
    requires
        names_distinct(attrs),
        0 <= i < attrs.len(),
    ensures
        declares(attrs, attrs[i].name@),
        place_of(attrs, attrs[i].name@) == i,
{
    let name = attrs[i].name@;
    let j = place_of(attrs, name);
    if i < j {
        assert(attrs[i].name@ != attrs[j].name@);
    }
    if j < i {
        assert(attrs[j].name@ != attrs[i].name@);
    }
}

/// Collects the declarations of a schema.
pub struct SchemaBuilder {
    identifier: String,
    attrs: Vec<Attribute>,
}

/// The attributes of an index, and which of them identifies a document.
/// The place of a declaration is the attribute's identifier.
pub struct Schema {
    attrs: Vec<Attribute>,
    identifier: usize,
}

/// A schema as a plain value.
pub struct SchemaView {
    pub attrs: Seq<Attribute>,
    pub identifier: int,
}

impl SchemaView {
    /// What holds of every schema.
    pub open spec fn wf(self) -> bool {
        &&& names_distinct(self.attrs)
        &&& self.attrs.len() <= MAX_ATTRIBUTES
        &&& 0 <= self.identifier < self.attrs.len()
        &&& self.attrs[self.identifier].props.stored
    }

    /// What `document_id` answers for the fields of a document.
    pub open spec fn document_id_of(self, fields: Seq<crate::document::Field>) -> Result<
        DocumentId,
        SerializerError,
    > {
        match first_field(fields, self.attrs[self.identifier].name@) {
            None => Err(SerializerError::MissingIdentifier),
            Some(i) => match text_of(fields[i].value) {
                None => Err(SerializerError::UnsupportedType),
                Some(text) => Ok(DocumentId(siphash13(vstd::utf8::encode_utf8(text)))),
            },
        }
    }
}

impl SchemaBuilder {
    #[verifier::type_invariant]
    spec fn well_formed(&self) -> bool {
        self.attrs@.len() <= MAX_ATTRIBUTES
    }

    /// The declarations made so far.
    pub closed spec fn attrs(&self) -> Seq<Attribute> {
        self.attrs@
    }

    /// The name of the attribute that identifies a document.
    pub closed spec fn identifier(&self) -> Seq<char> {
        self.identifier@
    }

    /// A builder without declarations, for a schema whose documents are
    /// identified by the attribute `name`.
    pub fn with_identifier(name: &str) -> (builder: SchemaBuilder)
        ensures
            builder.identifier() == name@,
            builder.attrs() == Seq::<Attribute>::empty(),
    {
        SchemaBuilder { identifier: name.to_owned(), attrs: Vec::new() }
    }

    /// Declares an attribute and gives the identifier it will have.
    pub fn new_attribute(&mut self, name: &str, props: SchemaProps) -> (attr: SchemaAttr)
        requires
            old(self).attrs().len() < MAX_ATTRIBUTES,
        ensures
            attr.0 == old(self).attrs().len(),
            final(self).identifier() == old(self).identifier(),
            final(self).attrs().len() == old(self).attrs().len() + 1,
            final(self).attrs().drop_last() == old(self).attrs(),
            final(self).attrs().last().name@ == name@,
            final(self).attrs().last().props == props,
    {
        let n = self.attrs.len();
        let mut attrs: Vec<Attribute> = Vec::new();
        core::mem::swap(&mut attrs, &mut self.attrs);
        attrs.push(Attribute { name: name.to_owned(), props });
        proof {
            assert(attrs@.drop_last() =~= old(self).attrs@);
        }
        self.attrs = attrs;
        SchemaAttr(n as u16)
    }

    /// The schema of the declarations, unless a name is declared twice, the
    /// identifier is not declared, or it is declared but not stored.
    pub fn build(self) -> (res: Result<Schema, SchemaError>)
        ensures
            match res {
                Ok(schema) => build_result(self.attrs(), self.identifier()) is Ok && schema@.attrs
                    == self.attrs() && schema@.identifier == place_of(
                    self.attrs(),
                    self.identifier(),
                ) && schema@.wf(),
                Err(e) => build_result(self.attrs(), self.identifier()) == Err::<(), SchemaError>(e),
            },
    {
        proof {
            use_type_invariant(&self);
        }
        let n = self.attrs.len();
        let mut j: usize = 0;
        while j < n
            invariant
                j <= n,
                n == self.attrs.len(),
                forall|a: int, b: int|
                    0 <= a < b < j ==> (#[trigger] self.attrs[a]).name@ != (
                    #[trigger] self.attrs[b]).name@,
            decreases n - j,
        {
            let mut i: usize = 0;
            while i < j
                invariant
                    i <= j < n,
                    n == self.attrs.len(),
                    forall|a: int| 0 <= a < i ==> (#[trigger] self.attrs[a]).name@ != self.attrs[j as int].name@,
                decreases j - i,
            {
                if same_text(self.attrs[i].name.as_str(), self.attrs[j].name.as_str()) {
                    return Err(SchemaError::DuplicateAttribute);
                }
                i = i + 1;
            }
            j = j + 1;
        }
        let mut k: usize = 0;
        while k < n
            invariant
                k <= n <= MAX_ATTRIBUTES,
                n == self.attrs.len(),
                names_distinct(self.attrs@),
                forall|a: int| 0 <= a < k ==> (#[trigger] self.attrs[a]).name@ != self.identifier@,
            decreases n - k,
        {
            if same_text(self.attrs[k].name.as_str(), self.identifier.as_str()) {
                proof {
                    lemma_place_unique(self.attrs@, k as int);
                }
                if !self.attrs[k].props.stored {
                    return Err(SchemaError::IdentifierNotStored);
                }
                return Ok(Schema { attrs: self.attrs, identifier: k });
            }
            k = k + 1;
        }
        Err(SchemaError::NoIdentifier)
    }
}

impl Schema {
    #[verifier::type_invariant]
    spec fn well_formed(&self) -> bool {
        self@.wf()
    }

    /// The declarations in their order, and the place of the identifier.
    pub closed spec fn view(&self) -> SchemaView {
        SchemaView { attrs: self.attrs@, identifier: self.identifier as int }
    }

    /// A copy of the schema.
    pub fn duplicate(&self) -> (schema: Schema)
        ensures
            schema@ == self@,
    {
        proof {
            use_type_invariant(self);
        }
        let mut attrs: Vec<Attribute> = Vec::new();
        let mut i: usize = 0;
        while i < self.attrs.len()
            invariant
                i <= self.attrs.len(),
                attrs@ == self.attrs@.take(i as int),
            decreases self.attrs.len() - i,
        {
            attrs.push(Attribute { name: self.attrs[i].name.clone(), props: self.attrs[i].props });
            proof {
                assert(self.attrs@.take(i + 1) =~= self.attrs@.take(i as int).push(
                    self.attrs@[i as int],
                ));
            }
            i = i + 1;
        }
        proof {
            assert(self.attrs@.take(i as int) =~= self.attrs@);
        }
        Schema { attrs, identifier: self.identifier }
    }

    /// The number of attributes.
    pub fn len(&self) -> (n: usize)
        ensures
            n == self@.attrs.len(),
            self@.wf(),
    {
        proof {
            use_type_invariant(self);
        }
        self.attrs.len()
    }

    /// The identifier of the attribute with the given name.
    pub fn attribute(&self, name: &str) -> (found: Option<SchemaAttr>)
        ensures
            match found {
                Some(attr) => attr.0 < self@.attrs.len() && self@.attrs[attr.0 as int].name@
                    == name@,
                None => !declares(self@.attrs, name@),
            },
    {
        proof {
            use_type_invariant(self);
        }
        let mut i: usize = 0;
        while i < self.attrs.len()
            invariant
                i <= self.attrs.len() <= MAX_ATTRIBUTES,
                forall|a: int| 0 <= a < i ==> (#[trigger] self.attrs[a]).name@ != name@,
            decreases self.attrs.len() - i,
        {
            if same_text(self.attrs[i].name.as_str(), name) {
                return Some(SchemaAttr(i as u16));
            }
            i = i + 1;
        }
        None
    }

    /// The name of an attribute of the schema.
    pub fn attribute_name(&self, attr: SchemaAttr) -> (name: &str)
        requires
            attr.0 < self@.attrs.len(),
        ensures
            name@ == self@.attrs[attr.0 as int].name@,
    {
        self.attrs[attr.0 as usize].name.as_str()
    }

    /// What is done with an attribute of the schema.
    pub fn props(&self, attr: SchemaAttr) -> (props: SchemaProps)
        requires
            attr.0 < self@.attrs.len(),
        ensures
            props == self@.attrs[attr.0 as int].props,
    {
        self.attrs[attr.0 as usize].props
    }

    /// The attribute that identifies a document.
    pub fn identifier(&self) -> (attr: SchemaAttr)
        ensures
            attr.0 == self@.identifier,
            self@.wf(),
    {
        proof {
            use_type_invariant(self);
        }
        SchemaAttr(self.identifier as u16)
    }

    /// The identifier of a document: the SipHash-1-3 of the UTF-8 bytes of
    /// the text form of its identifying field.
    pub fn document_id(&self, document: &Document) -> (res: Result<DocumentId, SerializerError>)
        ensures
            res == self@.document_id_of(document.0@),
    {
        proof {
            use_type_invariant(self);
        }
        let name = self.attrs[self.identifier].name.as_str();
        match document.field(name) {
            None => Err(SerializerError::MissingIdentifier),
            Some(i) => match document.0[i].value.text_form() {
                None => Err(SerializerError::UnsupportedType),
                Some(text) => Ok(DocumentId(crate::siphash::hash(text.as_str().as_bytes()))),
            },
        }
    }
}

} // verus!
