use vstd::prelude::*;
use vstd::slice::slice_to_vec;
use vstd::string::StringSliceAdditionalSpecFns;
use crate::document::float_bits_of;
use crate::document::text_of;
use crate::document::Field;
use crate::document::FieldValue;
use crate::number::parse_number;
use crate::number::Number;
use crate::schema::declares;
use crate::schema::lemma_place_unique;
use crate::schema::place_of;
use crate::schema::Schema;
use crate::schema::SchemaView;
use crate::schema::SerializerError;
use crate::sorted::copy_of;
use crate::tokenizer::token_views;
use crate::tokenizer::tokenize;
use crate::tokenizer::tokens_of;
use crate::tokenizer::StopWords;
use crate::tokenizer::TokenView;
use crate::types::DocIndex;
use crate::types::DocumentId;
use crate::types::SchemaAttr;
use crate::update::BuilderView;
use crate::update::RawUpdateBuilder;

verus! {

/// Whether the place of a token fits the sixteen bits that a posting has for
/// each of its parts.
pub open spec fn fits(token: TokenView) -> bool {
    token.word_index <= 0xffff && token.char_index <= 0xffff && token.char_length <= 0xffff
}

/// The posting of a token of an attribute of a document.
pub open spec fn posting_for(document: DocumentId, attribute: u16, token: TokenView) -> DocIndex {
    DocIndex {
        document_id: document,
        attribute,
        word_index: token.word_index as u16,
        char_index: token.char_index as u16,
        char_length: token.char_length as u16,
    }
}

/// The update once the tokens of an attribute are indexed: each token whose
/// place fits adds its posting under its word.
pub open spec fn index_tokens(
    state: BuilderView,
    document: DocumentId,
    attribute: u16,
    tokens: Seq<TokenView>,
) -> BuilderView
    decreases tokens.len(),
{
    if tokens.len() == 0 {
        state
    } else {
        let before = index_tokens(state, document, attribute, tokens.drop_last());
        if fits(tokens.last()) {
            before.with_doc_index(tokens.last().word, posting_for(document, attribute, tokens.last()))
        } else {
            before
        }
    }
}

/// What one field of a document does to the update. A field that the schema
/// does not declare does nothing. A composite value is refused. Otherwise the
/// value's text is staged for the store where the attribute is stored, its
/// tokens are indexed where it is indexed, and the number it spells, if any,
/// is registered where it is ranked.
pub open spec fn field_effect(
    state: BuilderView,
    schema: SchemaView,
    document: DocumentId,
    field: Field,
    stop_words: Set<Seq<char>>,
) -> (BuilderView, Result<(), SerializerError>) {
    if !declares(schema.attrs, field.name@) {
        (state, Ok(()))
    } else {
        let place = place_of(schema.attrs, field.name@);
        let attribute = SchemaAttr(place as u16);
        let props = schema.attrs[place].props;
        match text_of(field.value) {
            None => (state, Err(SerializerError::UnsupportedType)),
            Some(text) => {
                let stored = if props.stored {
                    state.with_put(document, attribute, vstd::utf8::encode_utf8(text))
                } else {
                    state
                };
                let indexed = if props.indexed {
                    index_tokens(stored, document, attribute.0, tokens_of(text, stop_words))
                } else {
                    stored
                };
                if props.ranked {
                    match parse_number(text, float_bits_of(field.value)) {
                        None => (indexed, Ok(())),
                        Some(number) => if indexed.accepts(attribute, number) {
                            (indexed.registered(document, attribute, number), Ok(()))
                        } else {
                            (indexed, Err(SerializerError::RankedTypeMismatch))
                        },
                    }
                } else {
                    (indexed, Ok(()))
                }
            },
        }
    }
}

/// What the fields of a document do to the update, one after the other, up
/// to the first field that is refused.
pub open spec fn fields_effect(
    state: BuilderView,
    schema: SchemaView,
    document: DocumentId,
    fields: Seq<Field>,
    stop_words: Set<Seq<char>>,
) -> (BuilderView, Result<(), SerializerError>)
    decreases fields.len(),
{
    if fields.len() == 0 {
        (state, Ok(()))
    } else {
        let before = fields_effect(state, schema, document, fields.drop_last(), stop_words);
        if before.1 is Err {
            before
        } else {
            field_effect(before.0, schema, document, fields.last(), stop_words)
        }
    }
}

/// What indexing a document does to the update, and what it answers. A
/// document that is refused, for want of an identifier or for one of its
/// fields, leaves the update as it is. Otherwise the document is opened and
/// its fields are taken in their order, a field whose name occurred before
/// like any other: its value is staged and registered after that of the
/// earlier field, and its postings are added to those of the earlier one.
#[verifier::opaque]
pub open spec fn update_effect(
    state: BuilderView,
    schema: SchemaView,
    fields: Seq<Field>,
    stop_words: Set<Seq<char>>,
) -> (BuilderView, Result<DocumentId, SerializerError>) {
    match schema.document_id_of(fields) {
        Err(e) => (state, Err(e)),
        Ok(document) => {
            let after = fields_effect(state.opened(document), schema, document, fields, stop_words);
            match after.1 {
                Ok(_) => (after.0, Ok(document)),
                Err(e) => (state, Err(e)),
            }
        },
    }
}

/// What removing a document does to the update, and what it answers.
#[verifier::opaque]
pub open spec fn remove_effect(state: BuilderView, schema: SchemaView, fields: Seq<Field>) -> (
    BuilderView,
    Result<DocumentId, SerializerError>,
) {
    match schema.document_id_of(fields) {
        Err(e) => (state, Err(e)),
        Ok(document) => (state.opened(document), Ok(document)),
    }
}

fn index_text(
    builder: &mut RawUpdateBuilder,
    document: DocumentId,
    attribute: u16,
    text: &str,
    stop_words: &StopWords,
)
    ensures
        final(builder)@ == index_tokens(
            old(builder)@,
            document,
            attribute,
            tokens_of(text@, stop_words@),
        ),
{
    let tokens = tokenize(text, stop_words);
    let ghost views = token_views(tokens@);
    let mut j: usize = 0;
    while j < tokens.len()
        invariant
            j <= tokens.len(),
            views == token_views(tokens@),
            builder@ == index_tokens(old(builder)@, document, attribute, views.take(j as int)),
        decreases tokens.len() - j,
    {
        let token = &tokens[j];
        proof {
            assert(views.take(j + 1).drop_last() =~= views.take(j as int));
            assert(views.take(j + 1).last() == token@);
        }
        if token.word_index <= 0xffff && token.char_index <= 0xffff && token.char_length <= 0xffff {
            let posting = DocIndex {
                document_id: document,
                attribute,
                word_index: token.word_index as u16,
                char_index: token.char_index as u16,
                char_length: token.char_length as u16,
            };
            builder.add(copy_of(&token.word), posting);
        }
        j = j + 1;
    }
    proof {
        assert(views.take(j as int) =~= views);
    }
}

fn float_bits(value: &FieldValue) -> (bits: Option<u64>)
    ensures
        bits == float_bits_of(*value),
{
    match value {
        FieldValue::Text(t) => t.float_bits,
        _ => None,
    }
}

fn serialize_field(
    schema: &Schema,
    builder: &mut RawUpdateBuilder,
    document: DocumentId,
    field: &Field,
    stop_words: &StopWords,
) -> (res: Result<(), SerializerError>)
    ensures
        (final(builder)@, res) == field_effect(old(builder)@, schema@, document, *field, stop_words@),
{
    let n = schema.len();
    let attribute = match schema.attribute(field.name.as_str()) {
        Some(attribute) => attribute,
        None => {
            return Ok(());
        },
    };
    proof {
        lemma_place_unique(schema@.attrs, attribute.0 as int);
    }
    let props = schema.props(attribute);
    let text = match field.value.text_form() {
        Some(text) => text,
        None => {
            return Err(SerializerError::UnsupportedType);
        },
    };
    if props.stored {
        builder.put(document, attribute, slice_to_vec(text.as_str().as_bytes()));
    }
    if props.indexed {
        index_text(builder, document, attribute.0, text.as_str(), stop_words);
    }
    if props.ranked {
        match Number::parse(text.as_str(), float_bits(&field.value)) {
            Some(number) => {
                return match builder.register(document, attribute, number) {
                    Ok(_) => Ok(()),
                    Err(e) => Err(e),
                };
            },
            None => {},
        }
    }
    Ok(())
}

/// Takes the fields of a document into the update, one after the other, up
/// to the first field that is refused.
pub(crate) fn serialize_fields(
    schema: &Schema,
    builder: &mut RawUpdateBuilder,
    document: DocumentId,
    fields: &Vec<Field>,
    stop_words: &StopWords,
) -> (res: Result<(), SerializerError>)
    ensures
        (final(builder)@, res) == fields_effect(
            old(builder)@,
            schema@,
            document,
            fields@,
            stop_words@,
        ),
{
    let mut i: usize = 0;
    while i < fields.len()
        invariant
            i <= fields.len(),
            (builder@, Ok::<(), SerializerError>(())) == fields_effect(
                old(builder)@,
                schema@,
                document,
                fields@.take(i as int),
                stop_words@,
            ),
        decreases fields.len() - i,
    {
        proof {
            assert(fields@.take(i + 1).drop_last() =~= fields@.take(i as int));
            assert(fields@.take(i + 1).last() == fields@[i as int]);
        }
        let ghost before = builder@;
        match serialize_field(schema, builder, document, &fields[i], stop_words) {
            Ok(_) => {},
            Err(e) => {
                proof {
                    lemma_effect_stops(
                        old(builder)@,
                        schema@,
                        document,
                        fields@,
                        stop_words@,
                        i + 1,
                    );
                }
                return Err(e);
            },
        }
        i = i + 1;
    }
    proof {
        assert(fields@.take(i as int) =~= fields@);
    }
    Ok(())
}

/// Once a field is refused, the fields after it change nothing.
proof fn lemma_effect_stops(
    state: BuilderView,
    schema: SchemaView,
    document: DocumentId,
    fields: Seq<Field>,
    stop_words: Set<Seq<char>>,
    k: int,
)
    requires
        0 <= k <= fields.len(),
        fields_effect(state, schema, document, fields.take(k), stop_words).1 is Err,
    ensures
        fields_effect(state, schema, document, fields, stop_words) == fields_effect(
            state,
            schema,
            document,
            fields.take(k),
            stop_words,
        ),
    decreases fields.len() - k,
{
    if k == fields.len() {
        assert(fields.take(k) =~= fields);
    } else {
        assert(fields.take(k + 1).drop_last() =~= fields.take(k));
        lemma_effect_stops(state, schema, document, fields, stop_words, k + 1);
    }
}

/// Whether a field is refused, by the kinds of number registered so far,
/// and the kinds registered once the field is taken.
pub open spec fn field_verdict(kinds: Seq<(u16, bool)>, schema: SchemaView, field: Field) -> (
    Seq<(u16, bool)>,
    Result<(), SerializerError>,
) {
    if !declares(schema.attrs, field.name@) {
        (kinds, Ok(()))
    } else {
        let place = place_of(schema.attrs, field.name@);
        match text_of(field.value) {
            None => (kinds, Err(SerializerError::UnsupportedType)),
            Some(text) => if schema.attrs[place].props.ranked {
                match parse_number(text, float_bits_of(field.value)) {
                    None => (kinds, Ok(())),
                    Some(number) => match crate::update::kind_of(kinds, place as u16) {
                        Some(integer) => if integer == (number is Integer) {
                            (kinds, Ok(()))
                        } else {
                            (kinds, Err(SerializerError::RankedTypeMismatch))
                        },
                        None => (kinds.push((place as u16, number is Integer)), Ok(())),
                    },
                }
            } else {
                (kinds, Ok(()))
            },
        }
    }
}

/// Whether one of the fields of a document is refused, and which is the
/// first; the kinds registered up to there.
pub open spec fn fields_verdict(kinds: Seq<(u16, bool)>, schema: SchemaView, fields: Seq<Field>) -> (
    Seq<(u16, bool)>,
    Result<(), SerializerError>,
)
    decreases fields.len(),
{
    if fields.len() == 0 {
        (kinds, Ok(()))
    } else {
        let before = fields_verdict(kinds, schema, fields.drop_last());
        if before.1 is Err {
            before
        } else {
            field_verdict(before.0, schema, fields.last())
        }
    }
}

/// Indexing tokens registers no kind of number.
pub proof fn lemma_index_tokens_kinds(
    state: BuilderView,
    document: DocumentId,
    attribute: u16,
    tokens: Seq<TokenView>,
)
    ensures
        index_tokens(state, document, attribute, tokens).kinds == state.kinds,
    decreases tokens.len(),
{
    if tokens.len() > 0 {
        lemma_index_tokens_kinds(state, document, attribute, tokens.drop_last());
    }
}

/// Whether a field is refused depends on the kinds registered alone.
pub proof fn lemma_field_verdict(
    state: BuilderView,
    schema: SchemaView,
    document: DocumentId,
    field: Field,
    stop_words: Set<Seq<char>>,
)
    ensures
        field_effect(state, schema, document, field, stop_words).1 == field_verdict(
            state.kinds,
            schema,
            field,
        ).1,
        field_effect(state, schema, document, field, stop_words).0.kinds == field_verdict(
            state.kinds,
            schema,
            field,
        ).0,
{
    if declares(schema.attrs, field.name@) {
        let place = place_of(schema.attrs, field.name@);
        let attribute = SchemaAttr(place as u16);
        let props = schema.attrs[place].props;
        match text_of(field.value) {
            None => {},
            Some(text) => {
                let stored = if props.stored {
                    state.with_put(document, attribute, vstd::utf8::encode_utf8(text))
                } else {
                    state
                };
                if props.indexed {
                    lemma_index_tokens_kinds(
                        stored,
                        document,
                        attribute.0,
                        tokens_of(text, stop_words),
                    );
                }
            },
        }
    }
}

/// Whether a document is refused for one of its fields depends on the kinds
/// registered alone.
pub proof fn lemma_fields_verdict(
    state: BuilderView,
    schema: SchemaView,
    document: DocumentId,
    fields: Seq<Field>,
    stop_words: Set<Seq<char>>,
)
    ensures
        fields_effect(state, schema, document, fields, stop_words).1 == fields_verdict(
            state.kinds,
            schema,
            fields,
        ).1,
        fields_effect(state, schema, document, fields, stop_words).0.kinds == fields_verdict(
            state.kinds,
            schema,
            fields,
        ).0,
    decreases fields.len(),
{
    if fields.len() > 0 {
        lemma_fields_verdict(state, schema, document, fields.drop_last(), stop_words);
        let before = fields_effect(state, schema, document, fields.drop_last(), stop_words);
        if before.1 is Ok {
            lemma_field_verdict(before.0, schema, document, fields.last(), stop_words);
        }
    }
}

fn check_field(schema: &Schema, kinds: &mut Vec<(u16, bool)>, field: &Field) -> (res: Result<
    (),
    SerializerError,
>)
    ensures
        (final(kinds)@, res) == field_verdict(old(kinds)@, schema@, *field),
{
    let n = schema.len();
    let attribute = match schema.attribute(field.name.as_str()) {
        Some(attribute) => attribute,
        None => {
            return Ok(());
        },
    };
    proof {
        lemma_place_unique(schema@.attrs, attribute.0 as int);
    }
    let text = match field.value.text_form() {
        Some(text) => text,
        None => {
            return Err(SerializerError::UnsupportedType);
        },
    };
    if schema.props(attribute).ranked {
        match Number::parse(text.as_str(), float_bits(&field.value)) {
            Some(number) => {
                match crate::update::find_kind(kinds, attribute.0) {
                    Some(integer) => {
                        if integer != number.is_integer() {
                            return Err(SerializerError::RankedTypeMismatch);
                        }
                    },
                    None => {
                        kinds.push((attribute.0, number.is_integer()));
                    },
                }
            },
            None => {},
        }
    }
    Ok(())
}

/// Finds the first field of a document that is refused, by the kinds of
/// number registered so far.
pub(crate) fn check_fields(schema: &Schema, kinds: &mut Vec<(u16, bool)>, fields: &Vec<Field>) -> (res:
    Result<(), SerializerError>)
    ensures
        res == fields_verdict(old(kinds)@, schema@, fields@).1,
{
    let mut i: usize = 0;
    while i < fields.len()
        invariant
            i <= fields.len(),
            (kinds@, Ok::<(), SerializerError>(())) == fields_verdict(
                old(kinds)@,
                schema@,
                fields@.take(i as int),
            ),
        decreases fields.len() - i,
    {
        proof {
            assert(fields@.take(i + 1).drop_last() =~= fields@.take(i as int));
            assert(fields@.take(i + 1).last() == fields@[i as int]);
        }
        match check_field(schema, kinds, &fields[i]) {
            Ok(_) => {},
            Err(e) => {
                proof {
                    lemma_verdict_stops(old(kinds)@, schema@, fields@, i + 1);
                }
                return Err(e);
            },
        }
        i = i + 1;
    }
    proof {
        assert(fields@.take(i as int) =~= fields@);
    }
    Ok(())
}

/// Once a field is refused, the fields after it are not looked at.
proof fn lemma_verdict_stops(kinds: Seq<(u16, bool)>, schema: SchemaView, fields: Seq<Field>, k: int)
    requires
        0 <= k <= fields.len(),
        fields_verdict(kinds, schema, fields.take(k)).1 is Err,
    ensures
        fields_verdict(kinds, schema, fields) == fields_verdict(kinds, schema, fields.take(k)),
    decreases fields.len() - k,
{
    if k == fields.len() {
        assert(fields.take(k) =~= fields);
    } else {
        assert(fields.take(k + 1).drop_last() =~= fields.take(k));
        lemma_verdict_stops(kinds, schema, fields, k + 1);
    }
}

} // verus!
