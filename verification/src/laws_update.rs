use vstd::prelude::*;
use crate::document::text_of;
use crate::document::Field;
use crate::index::has_word;
use crate::index::postings_of;
use crate::index::word_ok;
use crate::index::words_ascending;
use crate::index::EntryView;
use crate::update::consistent;
use crate::update::postings_within;
use crate::update::staged_only;
use crate::schema::declares;
use crate::schema::place_of;
use crate::schema::SchemaView;
use crate::serializer::field_effect;
use crate::serializer::fields_effect;
use crate::serializer::fits;
use crate::serializer::index_tokens;
use crate::serializer::posting_for;
use crate::serializer::remove_effect;
use crate::serializer::update_effect;
use crate::tokenizer::tokens_of;
use crate::tokenizer::TokenView;
use crate::types::DocIndex;
use crate::types::DocumentId;
use crate::types::SchemaAttr;
use crate::update::insertion_point;
use crate::update::lemma_with_posting;
use crate::update::place_of_word;
use crate::update::with_posting;
use crate::update::BuilderView;

verus! {

/// A dictionary with one more posting holds that posting and those it held.
pub proof fn lemma_with_posting_within(
    words: Seq<EntryView>,
    word: Seq<char>,
    posting: DocIndex,
    documents: Set<u64>,
)
    requires
        words_ascending(words),
        postings_within(words, documents),
        documents.contains(posting.document_id.0),
    ensures
        postings_within(with_posting(words, word, posting), documents),
{
    let r = with_posting(words, word, posting);
    if !word_ok(word) {
    } else if has_word(words, word) {
        let i = place_of_word(words, word);
        assert forall|a: int, b: int|
            0 <= a < r.len() && 0 <= b < r[a].postings.len() implies documents.contains(
            (#[trigger] r[a].postings[b]).document_id.0,
        ) by {
            if a == i {
                if b < words[i].postings.len() {
                    assert(r[a].postings[b] == words[i].postings[b]);
                }
            } else {
                assert(r[a] == words[a]);
                assert(r[a].postings[b] == words[a].postings[b]);
            }
        }
    } else {
        let k = insertion_point(words, word);
        crate::update::lemma_insertion_point(words, word);
        assert forall|a: int, b: int|
            0 <= a < r.len() && 0 <= b < r[a].postings.len() implies documents.contains(
            (#[trigger] r[a].postings[b]).document_id.0,
        ) by {
            if a < k {
                assert(r[a] == words[a]);
                assert(r[a].postings[b] == words[a].postings[b]);
            } else if a > k {
                assert(r[a] == words[a - 1]);
                assert(r[a].postings[b] == words[a - 1].postings[b]);
            }
        }
    }
}

/// Indexing the tokens of an attribute of a touched document keeps an
/// update consistent, and changes its dictionary only.
pub proof fn lemma_index_tokens(
    state: BuilderView,
    document: DocumentId,
    attribute: u16,
    tokens: Seq<TokenView>,
)
    requires
        state.wf(),
        consistent(state),
        state.documents.contains(document.0),
    ensures
        index_tokens(state, document, attribute, tokens).wf(),
        consistent(index_tokens(state, document, attribute, tokens)),
        index_tokens(state, document, attribute, tokens).documents == state.documents,
        index_tokens(state, document, attribute, tokens).batch == state.batch,
        index_tokens(state, document, attribute, tokens).ranked == state.ranked,
        index_tokens(state, document, attribute, tokens).kinds == state.kinds,
        forall|w: Seq<char>, p: DocIndex|
            postings_of(state.words, w).contains(p) ==> #[trigger] postings_of(
                index_tokens(state, document, attribute, tokens).words,
                w,
            ).contains(p),
        forall|t: int|
            0 <= t < tokens.len() && fits(tokens[t]) && word_ok(tokens[t].word) ==> postings_of(
                index_tokens(state, document, attribute, tokens).words,
                tokens[t].word,
            ).contains(#[trigger] posting_for(document, attribute, tokens[t])),
    decreases tokens.len(),
{
    let after = index_tokens(state, document, attribute, tokens);
    if tokens.len() > 0 {
        let rest = tokens.drop_last();
        let before = index_tokens(state, document, attribute, rest);
        lemma_index_tokens(state, document, attribute, rest);
        let last = tokens.last();
        if fits(last) {
            let p = posting_for(document, attribute, last);
            lemma_with_posting(before.words, last.word, p);
            lemma_with_posting_within(before.words, last.word, p, before.documents);
            assert forall|w: Seq<char>, q: DocIndex|
                postings_of(state.words, w).contains(q) implies #[trigger] postings_of(
                after.words,
                w,
            ).contains(q) by {
                assert(postings_of(before.words, w).contains(q));
                crate::sorted::lemma_push_contains(postings_of(before.words, last.word), p, q);
            }
            assert forall|t: int|
                0 <= t < tokens.len() && fits(tokens[t]) && word_ok(
                    tokens[t].word,
                ) implies postings_of(after.words, tokens[t].word).contains(
                #[trigger] posting_for(document, attribute, tokens[t]),
            ) by {
                let q = posting_for(document, attribute, tokens[t]);
                crate::sorted::lemma_push_contains(postings_of(before.words, last.word), p, q);
                if t < rest.len() {
                    assert(rest[t] == tokens[t]);
                    assert(postings_of(before.words, rest[t].word).contains(
                        posting_for(document, attribute, rest[t]),
                    ));
                }
            }
        } else {
            assert forall|t: int|
                0 <= t < tokens.len() && fits(tokens[t]) && word_ok(
                    tokens[t].word,
                ) implies postings_of(after.words, tokens[t].word).contains(
                #[trigger] posting_for(document, attribute, tokens[t]),
            ) by {
                assert(rest[t] == tokens[t]);
                assert(postings_of(before.words, rest[t].word).contains(
                    posting_for(document, attribute, rest[t]),
                ));
            }
        }
    }
}

/// What a field does keeps an update consistent, and keeps the postings
/// that it holds.
pub proof fn lemma_field_effect(
    state: BuilderView,
    schema: SchemaView,
    document: DocumentId,
    field: Field,
    stop_words: Set<Seq<char>>,
)
    requires
        state.wf(),
        consistent(state),
        state.documents.contains(document.0),
    ensures
        field_effect(state, schema, document, field, stop_words).0.wf(),
        consistent(field_effect(state, schema, document, field, stop_words).0),
        field_effect(state, schema, document, field, stop_words).0.documents == state.documents,
        forall|w: Seq<char>, p: DocIndex|
            postings_of(state.words, w).contains(p) ==> #[trigger] postings_of(
                field_effect(state, schema, document, field, stop_words).0.words,
                w,
            ).contains(p),
{
    if declares(schema.attrs, field.name@) {
        let place = place_of(schema.attrs, field.name@);
        let attribute = SchemaAttr(place as u16);
        let props = schema.attrs[place].props;
        match text_of(field.value) {
            None => {},
            Some(text) => {
                let stored = if props.stored {
                    state.with_put(document, attribute, vstd::utf8::encode_utf8(text))
                } else {
                    state
                };
                assert(staged_only(stored.batch)) by {
                    assert forall|i: int| 0 <= i < stored.batch.len() implies (
                    #[trigger] stored.batch[i]) is Put || stored.batch[i] is DeleteRange by {
                        if i < state.batch.len() {
                            assert(stored.batch[i] == state.batch[i]);
                        }
                    }
                }
                if props.indexed {
                    lemma_index_tokens(stored, document, attribute.0, tokens_of(text, stop_words));
                }
            },
        }
    }
}

/// What the fields of a document do keeps an update consistent, and keeps
/// the postings that it holds.
pub proof fn lemma_fields_effect(
    state: BuilderView,
    schema: SchemaView,
    document: DocumentId,
    fields: Seq<Field>,
    stop_words: Set<Seq<char>>,
)
    requires
        state.wf(),
        consistent(state),
        state.documents.contains(document.0),
    ensures
        fields_effect(state, schema, document, fields, stop_words).0.wf(),
        consistent(fields_effect(state, schema, document, fields, stop_words).0),
        fields_effect(state, schema, document, fields, stop_words).0.documents == state.documents,
        forall|w: Seq<char>, p: DocIndex|
            postings_of(state.words, w).contains(p) ==> #[trigger] postings_of(
                fields_effect(state, schema, document, fields, stop_words).0.words,
                w,
            ).contains(p),
    decreases fields.len(),
{
    if fields.len() > 0 {
        lemma_fields_effect(state, schema, document, fields.drop_last(), stop_words);
        let before = fields_effect(state, schema, document, fields.drop_last(), stop_words);
        if before.1 is Ok {
            lemma_field_effect(before.0, schema, document, fields.last(), stop_words);
            let after = field_effect(before.0, schema, document, fields.last(), stop_words);
            assert forall|w: Seq<char>, p: DocIndex|
                postings_of(state.words, w).contains(p) implies #[trigger] postings_of(
                after.0.words,
                w,
            ).contains(p) by {
                assert(postings_of(before.0.words, w).contains(p));
            }
        }
    }
}

/// Opening a document keeps an update consistent.
pub proof fn lemma_opened(state: BuilderView, document: DocumentId)
    requires
        state.wf(),
        consistent(state),
    ensures
        state.opened(document).wf(),
        consistent(state.opened(document)),
        state.opened(document).documents.contains(document.0),
        state.opened(document).words == state.words,
{
    let after = state.opened(document);
    assert forall|i: int| 0 <= i < after.batch.len() implies (#[trigger] after.batch[i]) is Put
        || after.batch[i] is DeleteRange by {
        if i < state.batch.len() {
            assert(after.batch[i] == state.batch[i]);
        }
    }
}

/// An update that holds nothing is consistent.
pub proof fn lemma_empty_consistent()
    ensures
        BuilderView::empty().wf(),
        consistent(BuilderView::empty()),
{
}

/// Taking a document into an update keeps the update consistent: what it
/// holds belongs to the documents that it touches. It keeps the postings
/// that the update holds.
pub proof fn lemma_update_consistent(
    state: BuilderView,
    schema: SchemaView,
    fields: Seq<Field>,
    stop_words: Set<Seq<char>>,
)
    requires
        state.wf(),
        consistent(state),
    ensures
        update_effect(state, schema, fields, stop_words).0.wf(),
        consistent(update_effect(state, schema, fields, stop_words).0),
        update_effect(state, schema, fields, stop_words).1 matches Ok(document) ==> update_effect(
            state,
            schema,
            fields,
            stop_words,
        ).0.documents.contains(document.0),
        forall|w: Seq<char>, p: DocIndex|
            postings_of(state.words, w).contains(p) ==> #[trigger] postings_of(
                update_effect(state, schema, fields, stop_words).0.words,
                w,
            ).contains(p),
{
    reveal(update_effect);
    match schema.document_id_of(fields) {
        Err(_) => {},
        Ok(document) => {
            lemma_opened(state, document);
            lemma_fields_effect(state.opened(document), schema, document, fields, stop_words);
        },
    }
}

/// Removing a document keeps an update consistent, adds no posting, and
/// counts the document as touched.
pub proof fn lemma_remove_consistent(state: BuilderView, schema: SchemaView, fields: Seq<Field>)
    requires
        state.wf(),
        consistent(state),
    ensures
        remove_effect(state, schema, fields).0.wf(),
        consistent(remove_effect(state, schema, fields).0),
        remove_effect(state, schema, fields).0.words == state.words,
        remove_effect(state, schema, fields).1 matches Ok(document) ==> remove_effect(
            state,
            schema,
            fields,
        ).0.documents.contains(document.0),
{
    reveal(remove_effect);
    match schema.document_id_of(fields) {
        Err(_) => {},
        Ok(document) => {
            lemma_opened(state, document);
        },
    }
}

} // verus!
