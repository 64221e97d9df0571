use vstd::prelude::*;
use crate::batch::deletes_effect;
use crate::batch::inserts_effect;
use crate::document::first_field;
use crate::document::text_of;
use crate::document::Document;
use crate::document::Field;
use crate::document_key::DocumentKeyAttr;
use crate::database::Snapshot;
use crate::query::retrievable;
use crate::query::stored_hits;
use crate::schema::declares;
use crate::schema::lemma_place_unique;
use crate::schema::place_of;
use crate::schema::SchemaView;
use crate::serializer::field_effect;
use crate::serializer::fields_effect;
use crate::serializer::index_tokens;
use crate::serializer::remove_effect;
use crate::serializer::update_effect;
use crate::state::apply_op;
use crate::state::apply_ops;
use crate::state::StateView;
use crate::tokenizer::TokenView;
use crate::types::DocumentId;
use crate::types::SchemaAttr;
use crate::update::built_from;
use crate::update::op_within;
use crate::update::staged_only;
use crate::update::staged_within;
use crate::update::BatchOpView;
use crate::update::BuilderView;

verus! {

/// An operation writes a text as a value of the document.
pub open spec fn writes_text(op: BatchOpView, document: DocumentId) -> bool {
    op matches BatchOpView::Put(key, value) && key.document == document && vstd::utf8::valid_utf8(
        value,
    )
}

/// Every operation writes a text as a value of the document.
pub open spec fn text_writes(ops: Seq<BatchOpView>, document: DocumentId) -> bool {
    forall|i: int| 0 <= i < ops.len() ==> writes_text(#[trigger] ops[i], document)
}

/// Every value that the store holds of the document is text.
pub open spec fn all_text(documents: Map<DocumentKeyAttr, Seq<u8>>, document: DocumentId) -> bool {
    forall|k: DocumentKeyAttr| #[trigger]
        documents.dom().contains(k) && k.document == document ==> vstd::utf8::valid_utf8(
            documents[k],
        )
}

/// Every document but one.
pub open spec fn others(document: DocumentId) -> Set<u64> {
    Set::new(|x: u64| x != document.0)
}

/// `after` holds the operations of `before` and then writes and deletions
/// that belong to other documents.
pub open spec fn left_alone(before: Seq<BatchOpView>, after: Seq<BatchOpView>, document: DocumentId) -> bool {
    &&& before.len() <= after.len()
    &&& after.take(before.len() as int) == before
    &&& staged_only(after.skip(before.len() as int))
    &&& staged_within(after.skip(before.len() as int), others(document))
}

/// The write that a field of a document stages: its text, where the schema
/// declares it as stored.
pub open spec fn field_writes(schema: SchemaView, document: DocumentId, field: Field) -> Seq<
    BatchOpView,
> {
    if declares(schema.attrs, field.name@) && text_of(field.value) is Some && schema.attrs[place_of(
        schema.attrs,
        field.name@,
    )].props.stored {
        seq![
            BatchOpView::Put(
                DocumentKeyAttr {
                    document,
                    attribute: SchemaAttr(place_of(schema.attrs, field.name@) as u16),
                },
                vstd::utf8::encode_utf8(text_of(field.value)->0),
            ),
        ]
    } else {
        Seq::empty()
    }
}

/// The writes that the fields of a document stage, in their order.
pub open spec fn fields_writes(schema: SchemaView, document: DocumentId, fields: Seq<Field>) -> Seq<
    BatchOpView,
>
    decreases fields.len(),
{
    if fields.len() == 0 {
        Seq::empty()
    } else {
        fields_writes(schema, document, fields.drop_last()) + field_writes(
            schema,
            document,
            fields.last(),
        )
    }
}

proof fn lemma_tokens_batch(state: BuilderView, document: DocumentId, attribute: u16, tokens: Seq<TokenView>)
    ensures
        index_tokens(state, document, attribute, tokens).batch == state.batch,
    decreases tokens.len(),
{
    if tokens.len() > 0 {
        lemma_tokens_batch(state, document, attribute, tokens.drop_last());
    }
}

/// A field stages the write of its text and nothing else.
proof fn lemma_field_writes(
    state: BuilderView,
    schema: SchemaView,
    document: DocumentId,
    field: Field,
    stop_words: Set<Seq<char>>,
)
    ensures
        field_effect(state, schema, document, field, stop_words).0.batch == state.batch
            + field_writes(schema, document, field)
            || field_effect(state, schema, document, field, stop_words).1 is Err,
        text_writes(field_writes(schema, document, field), document),
{
    if declares(schema.attrs, field.name@) {
        let place = place_of(schema.attrs, field.name@);
        let attribute = SchemaAttr(place as u16);
        let props = schema.attrs[place].props;
        match text_of(field.value) {
            None => {},
            Some(text) => {
                vstd::utf8::encode_utf8_valid_utf8(text);
                let stored = if props.stored {
                    state.with_put(document, attribute, vstd::utf8::encode_utf8(text))
                } else {
                    state
                };
                if props.indexed {
                    lemma_tokens_batch(
                        stored,
                        document,
                        attribute.0,
                        crate::tokenizer::tokens_of(text, stop_words),
                    );
                }
                if props.stored {
                    assert(stored.batch =~= state.batch + field_writes(schema, document, field));
                } else {
                    assert(stored.batch =~= state.batch + field_writes(schema, document, field));
                }
            },
        }
    } else {
        assert(state.batch =~= state.batch + field_writes(schema, document, field));
    }
}

/// The fields of a document that is taken in stage the writes of their
/// texts and nothing else.
proof fn lemma_fields_writes(
    state: BuilderView,
    schema: SchemaView,
    document: DocumentId,
    fields: Seq<Field>,
    stop_words: Set<Seq<char>>,
)
    requires
        fields_effect(state, schema, document, fields, stop_words).1 is Ok,
    ensures
        fields_effect(state, schema, document, fields, stop_words).0.batch == state.batch
            + fields_writes(schema, document, fields),
        text_writes(fields_writes(schema, document, fields), document),
        forall|f: int|
            0 <= f < fields.len() && field_writes(schema, document, #[trigger] fields[f]).len() > 0
                ==> fields_writes(schema, document, fields).contains(
                field_writes(schema, document, fields[f])[0],
            ),
    decreases fields.len(),
{
    if fields.len() == 0 {
        assert(state.batch =~= state.batch + fields_writes(schema, document, fields));
    } else {
        let f0 = fields.drop_last();
        let before = fields_effect(state, schema, document, f0, stop_words);
        lemma_fields_writes(state, schema, document, f0, stop_words);
        lemma_field_writes(before.0, schema, document, fields.last(), stop_words);
        let w0 = fields_writes(schema, document, f0);
        let w1 = field_writes(schema, document, fields.last());
        let all = fields_writes(schema, document, fields);
        assert(all == w0 + w1);
        assert(state.batch + w0 + w1 =~= state.batch + (w0 + w1));
        assert forall|i: int| 0 <= i < all.len() implies writes_text(#[trigger] all[i], document) by {
            if i < w0.len() {
                assert(all[i] == w0[i]);
            } else {
                assert(all[i] == w1[i - w0.len()]);
            }
        }
        assert forall|f: int|
            0 <= f < fields.len() && field_writes(schema, document, #[trigger] fields[f]).len()
                > 0 implies all.contains(field_writes(schema, document, fields[f])[0]) by {
            let w = field_writes(schema, document, fields[f])[0];
            if f < f0.len() {
                assert(f0[f] == fields[f]);
                assert(w0.contains(w));
                let y = choose|y: int| 0 <= y < w0.len() && w0[y] == w;
                assert(all[y] == w);
            } else {
                assert(all[w0.len() as int] == w1[0]);
            }
        }
    }
}

/// Operations applied one after the other.
pub proof fn lemma_apply_both(state: StateView, a: Seq<BatchOpView>, b: Seq<BatchOpView>)
    ensures
        apply_ops(state, a + b) == apply_ops(apply_ops(state, a), b),
    decreases b.len(),
{
    if b.len() == 0 {
        assert(a + b =~= a);
    } else {
        lemma_apply_both(state, a, b.drop_last());
        assert((a + b).drop_last() =~= a + b.drop_last());
        assert((a + b).last() == b.last());
    }
}

/// Writes of text for a document leave every value of the document text,
/// keep what the store holds, and leave in the store what they write.
proof fn lemma_apply_writes(state: StateView, ops: Seq<BatchOpView>, document: DocumentId)
    requires
        text_writes(ops, document),
        all_text(state.documents, document),
    ensures
        all_text(apply_ops(state, ops).documents, document),
        forall|k: DocumentKeyAttr| #[trigger]
            state.documents.dom().contains(k) ==> apply_ops(state, ops).documents.dom().contains(k),
        forall|i: int|
            0 <= i < ops.len() ==> apply_ops(state, ops).documents.dom().contains(
                (#[trigger] ops[i])->Put_0,
            ),
    decreases ops.len(),
{
    if ops.len() > 0 {
        let o0 = ops.drop_last();
        assert forall|i: int| 0 <= i < o0.len() implies writes_text(#[trigger] o0[i], document) by {
            assert(o0[i] == ops[i]);
        }
        lemma_apply_writes(state, o0, document);
        assert(writes_text(ops[ops.len() - 1], document));
        let mid = apply_ops(state, o0);
        let after = apply_ops(state, ops);
        assert(after == apply_op(mid, ops.last()));
        assert forall|i: int| 0 <= i < ops.len() implies after.documents.dom().contains(
            (#[trigger] ops[i])->Put_0,
        ) by {
            if i < o0.len() {
                assert(o0[i] == ops[i]);
                assert(mid.documents.dom().contains(o0[i]->Put_0));
            }
        }
    }
}

/// Once the keys of a document are deleted, the store holds no value of it.
proof fn lemma_apply_cleared(state: StateView, document: DocumentId)
    ensures
        forall|k: DocumentKeyAttr|
            k.document == document ==> !(#[trigger] apply_op(
                state,
                BatchOpView::DeleteRange(
                    DocumentKeyAttr { document, attribute: SchemaAttr(0) },
                    DocumentKeyAttr { document, attribute: SchemaAttr(0xffff) },
                ),
            ).documents.dom().contains(k)),
{
}

/// Operations that leave a document alone, one sequence after the other.
proof fn lemma_left_alone_both(
    a: Seq<BatchOpView>,
    b: Seq<BatchOpView>,
    c: Seq<BatchOpView>,
    document: DocumentId,
)
    requires
        left_alone(a, b, document),
        left_alone(b, c, document),
    ensures
        left_alone(a, c, document),
{
    let ab = b.skip(a.len() as int);
    let bc = c.skip(b.len() as int);
    let ac = c.skip(a.len() as int);
    assert(c.take(b.len() as int).take(a.len() as int) =~= c.take(a.len() as int));
    assert forall|i: int| 0 <= i < ac.len() implies ((#[trigger] ac[i]) is Put
        || ac[i] is DeleteRange) && op_within(ac[i], others(document)) by {
        if i < ab.len() {
            assert(c.take(b.len() as int)[a.len() + i] == c[a.len() + i]);
            assert(ac[i] == ab[i]);
        } else {
            assert(ac[i] == bc[i - ab.len()]);
        }
    }
}

/// Taking in another document, or refusing one, leaves a document alone.
proof fn lemma_update_leaves(
    state: BuilderView,
    schema: SchemaView,
    fields: Seq<Field>,
    stop_words: Set<Seq<char>>,
    document: DocumentId,
)
    requires
        schema.document_id_of(fields) != Ok::<DocumentId, crate::schema::SerializerError>(document),
    ensures
        left_alone(
            state.batch,
            update_effect(state, schema, fields, stop_words).0.batch,
            document,
        ),
{
    reveal(update_effect);
    let after = update_effect(state, schema, fields, stop_words).0;
    match schema.document_id_of(fields) {
        Err(_) => {
            assert(after.batch.take(state.batch.len() as int) =~= state.batch);
        },
        Ok(other) => {
            let opened = state.opened(other);
            let taken = fields_effect(opened, schema, other, fields, stop_words);
            if taken.1 is Ok {
                lemma_fields_writes(opened, schema, other, fields, stop_words);
                let writes = fields_writes(schema, other, fields);
                assert(after.batch == opened.batch + writes);
                assert(after.batch.take(state.batch.len() as int) =~= state.batch);
                let added = after.batch.skip(state.batch.len() as int);
                assert forall|i: int| 0 <= i < added.len() implies ((#[trigger] added[i]) is Put
                    || added[i] is DeleteRange) && op_within(added[i], others(document)) by {
                    if i == 0 {
                        assert(added[i] == opened.batch[state.batch.len() as int]);
                    } else {
                        assert(added[i] == writes[i - 1]);
                        assert(writes_text(writes[i - 1], other));
                    }
                }
            } else {
                assert(after.batch.take(state.batch.len() as int) =~= state.batch);
            }
        },
    }
}

/// Removing another document, or refusing to, leaves a document alone.
proof fn lemma_remove_leaves(
    state: BuilderView,
    schema: SchemaView,
    fields: Seq<Field>,
    document: DocumentId,
)
    requires
        schema.document_id_of(fields) != Ok::<DocumentId, crate::schema::SerializerError>(document),
    ensures
        left_alone(state.batch, remove_effect(state, schema, fields).0.batch, document),
{
    reveal(remove_effect);
    let after = remove_effect(state, schema, fields).0;
    assert(after.batch.take(state.batch.len() as int) =~= state.batch);
    match schema.document_id_of(fields) {
        Err(_) => {},
        Ok(other) => {
            let added = after.batch.skip(state.batch.len() as int);
            assert forall|i: int| 0 <= i < added.len() implies ((#[trigger] added[i]) is Put
                || added[i] is DeleteRange) && op_within(added[i], others(document)) by {
                assert(added[i] == after.batch[state.batch.len() as int]);
            }
        },
    }
}

/// No document from place `j` on has the identifier of the document.
pub open spec fn none_from(schema: SchemaView, documents: Seq<Document>, j: int, document: DocumentId) -> bool {
    forall|x: int|
        j <= x < documents.len() ==> schema.document_id_of((#[trigger] documents[x]).0@) != Ok::<
            DocumentId,
            crate::schema::SerializerError,
        >(document)
}

/// Taking in documents of other identifiers leaves a document alone.
proof fn lemma_inserts_leave(
    state: BuilderView,
    schema: SchemaView,
    documents: Seq<Document>,
    stop_words: Set<Seq<char>>,
    j: int,
    k: int,
    document: DocumentId,
)
    requires
        0 <= j <= k <= documents.len(),
        none_from(schema, documents, j, document),
    ensures
        left_alone(
            inserts_effect(state, schema, documents, stop_words, j).batch,
            inserts_effect(state, schema, documents, stop_words, k).batch,
            document,
        ),
    decreases k - j,
{
    let a = inserts_effect(state, schema, documents, stop_words, j).batch;
    if j == k {
        assert(a.take(a.len() as int) =~= a);
    } else {
        lemma_inserts_leave(state, schema, documents, stop_words, j, k - 1, document);
        let before = inserts_effect(state, schema, documents, stop_words, k - 1);
        lemma_update_leaves(before, schema, documents[k - 1].0@, stop_words, document);
        lemma_left_alone_both(
            a,
            before.batch,
            inserts_effect(state, schema, documents, stop_words, k).batch,
            document,
        );
    }
}

/// Removing documents of other identifiers leaves a document alone.
proof fn lemma_deletes_leave(
    state: BuilderView,
    schema: SchemaView,
    documents: Seq<Document>,
    k: int,
    document: DocumentId,
)
    requires
        0 <= k <= documents.len(),
        none_from(schema, documents, 0, document),
    ensures
        left_alone(state.batch, deletes_effect(state, schema, documents, k).batch, document),
    decreases k,
{
    if k == 0 {
        assert(state.batch.take(state.batch.len() as int) =~= state.batch);
    } else {
        lemma_deletes_leave(state, schema, documents, k - 1, document);
        let before = deletes_effect(state, schema, documents, k - 1);
        lemma_remove_leaves(before, schema, documents[k - 1].0@, document);
        lemma_left_alone_both(
            state.batch,
            before.batch,
            deletes_effect(state, schema, documents, k).batch,
            document,
        );
    }
}

/// Where every value that the store holds of a document is text, the
/// stored attributes of the document can be read; there is one at least
/// where the store holds a value of the document.
proof fn lemma_stored_text(snapshot: Snapshot, document: DocumentId, k: int, a: int)
    requires
        all_text(snapshot.state.documents, document),
        0 <= k <= snapshot.schema.attrs.len() <= crate::schema::MAX_ATTRIBUTES,
    ensures
        stored_hits(snapshot, document, k) is Some,
        0 <= a < k && snapshot.state.documents.dom().contains(
            DocumentKeyAttr { document, attribute: SchemaAttr(a as u16) },
        ) ==> stored_hits(snapshot, document, k)->0.len() > 0,
    decreases k,
{
    if k > 0 {
        lemma_stored_text(snapshot, document, k - 1, a);
        let key = DocumentKeyAttr { document, attribute: SchemaAttr((k - 1) as u16) };
        if snapshot.state.documents.dom().contains(key) {
            assert(vstd::utf8::valid_utf8(snapshot.state.documents[key]));
        }
    }
}

/// Whether a field is the first of its name.
spec fn first_of_name(fields: Seq<Field>, name: Seq<char>, i: int) -> bool {
    0 <= i < fields.len() && fields[i].name@ == name && forall|k: int|
        0 <= k < i ==> (#[trigger] fields[k]).name@ != name
}

/// Where a field has a name, one is the first of that name.
proof fn lemma_first_of_name(fields: Seq<Field>, name: Seq<char>, k: int)
    requires
        0 <= k < fields.len(),
        fields[k].name@ == name,
    ensures
        exists|i: int| first_of_name(fields, name, i),
    decreases k,
{
    if exists|j: int| 0 <= j < k && (#[trigger] fields[j]).name@ == name {
        let j = choose|j: int| 0 <= j < k && (#[trigger] fields[j]).name@ == name;
        lemma_first_of_name(fields, name, j);
    } else {
        assert(first_of_name(fields, name, k));
    }
}

/// The first field of a name, where there is one, is a field of that name.
proof fn lemma_first_field(fields: Seq<Field>, name: Seq<char>)
    requires
        first_field(fields, name) is Some,
    ensures
        0 <= first_field(fields, name)->0 < fields.len(),
        fields[first_field(fields, name)->0].name@ == name,
{
    let some = choose|i: int| 0 <= i < fields.len() && (#[trigger] fields[i]).name@ == name;
    lemma_first_of_name(fields, name, some);
    let first = choose|i: int| first_of_name(fields, name, i);
    assert(0 <= first < fields.len() && (#[trigger] fields[first]).name@ == name && forall|k: int|
        0 <= k < first ==> (#[trigger] fields[k]).name@ != name);
}

/// Once a document is taken into an update, the operations staged leave in
/// the store the identifier of the document, and of the document nothing
/// but text.
proof fn lemma_taken_stored(
    before: StateView,
    schema: SchemaView,
    earlier: BuilderView,
    fields: Seq<Field>,
    stop_words: Set<Seq<char>>,
)
    requires
        schema.wf(),
        update_effect(earlier, schema, fields, stop_words).1 is Ok,
    ensures
        all_text(
            apply_ops(before, update_effect(earlier, schema, fields, stop_words).0.batch).documents,
            schema.document_id_of(fields)->Ok_0,
        ),
        apply_ops(
            before,
            update_effect(earlier, schema, fields, stop_words).0.batch,
        ).documents.dom().contains(
            DocumentKeyAttr {
                document: schema.document_id_of(fields)->Ok_0,
                attribute: SchemaAttr(schema.identifier as u16),
            },
        ),
{
    reveal(update_effect);
    let document = schema.document_id_of(fields)->Ok_0;
    let opened = earlier.opened(document);
    let taken = update_effect(earlier, schema, fields, stop_words).0;
    assert(taken == fields_effect(opened, schema, document, fields, stop_words).0);
    lemma_fields_writes(opened, schema, document, fields, stop_words);
    let writes = fields_writes(schema, document, fields);
    let clear = BatchOpView::DeleteRange(
        DocumentKeyAttr { document, attribute: SchemaAttr(0) },
        DocumentKeyAttr { document, attribute: SchemaAttr(0xffff) },
    );
    assert(opened.batch == earlier.batch.push(clear));
    let identifier = schema.attrs[schema.identifier].name@;
    let f = first_field(fields, identifier)->0;
    lemma_first_field(fields, identifier);
    assert(0 <= f < fields.len() && fields[f].name@ == identifier);
    lemma_place_unique(schema.attrs, schema.identifier);
    assert(place_of(schema.attrs, identifier) == schema.identifier);
    let key = DocumentKeyAttr { document, attribute: SchemaAttr(schema.identifier as u16) };
    assert(field_writes(schema, document, fields[f]).len() > 0);
    assert(field_writes(schema, document, fields[f])[0]->Put_0 == key);
    let y = choose|y: int|
        0 <= y < writes.len() && writes[y] == field_writes(schema, document, fields[f])[0];
    let s0 = apply_ops(before, earlier.batch);
    let s1 = apply_ops(before, opened.batch);
    assert(opened.batch.drop_last() =~= earlier.batch);
    assert(s1 == apply_op(s0, clear));
    lemma_apply_cleared(s0, document);
    assert(all_text(s1.documents, document));
    lemma_apply_both(before, opened.batch, writes);
    lemma_apply_writes(s1, writes, document);
    assert(apply_ops(s1, writes).documents.dom().contains(writes[y]->Put_0));
}

/// Operations that leave a document alone leave what the store holds of it.
proof fn lemma_rest_stored(
    before: StateView,
    taken: Seq<BatchOpView>,
    built: Seq<BatchOpView>,
    document: DocumentId,
    k: DocumentKeyAttr,
)
    requires
        left_alone(taken, built, document),
        k.document == document,
    ensures
        apply_ops(before, built).documents.dom().contains(k) == apply_ops(
            before,
            taken,
        ).documents.dom().contains(k),
        apply_ops(before, taken).documents.dom().contains(k) ==> apply_ops(before, built).documents[k]
            == apply_ops(before, taken).documents[k],
{
    let rest = built.skip(taken.len() as int);
    assert(built =~= taken + rest);
    lemma_apply_both(before, taken, rest);
    crate::laws_commit::lemma_apply_within(apply_ops(before, taken), rest, others(document), k);
}

/// The operations that close a batch leave the store as it is.
proof fn lemma_closing_stored(before: StateView, built: BuilderView, batch: Seq<BatchOpView>)
    requires
        built_from(built, batch),
    ensures
        apply_ops(before, batch).documents == apply_ops(before, built.batch).documents,
{
    let n = built.batch.len() as int;
    let b4 = batch;
    let b3 = b4.drop_last();
    let b2 = b3.drop_last();
    let b1 = b2.drop_last();
    let b0 = b1.drop_last();
    assert(b0 =~= batch.take(n));
    assert(b1.last() == batch[n]);
    assert(b2.last() == batch[n + 1]);
    assert(b3.last() == batch[n + 2]);
    assert(b4.last() == batch[n + 3]);
    assert(apply_ops(before, b1) == apply_op(apply_ops(before, b0), batch[n]));
    assert(apply_ops(before, b2) == apply_op(apply_ops(before, b1), batch[n + 1]));
    assert(apply_ops(before, b3) == apply_op(apply_ops(before, b2), batch[n + 2]));
    assert(apply_ops(before, b4) == apply_op(apply_ops(before, b3), batch[n + 3]));
}

/// What the store holds of a document that a request takes in last: once
/// the request is committed, the document can be retrieved. This is said
/// of a document that the request takes in, where no document that the
/// request takes in after it, and none that it removes, has its
/// identifier.
pub proof fn lemma_written_stored(
    before: StateView,
    schema: SchemaView,
    start: BuilderView,
    inserts: Seq<Document>,
    deletes: Seq<Document>,
    stop_words: Set<Seq<char>>,
    d: int,
    batch: Seq<BatchOpView>,
    after: Snapshot,
)
    requires
        schema.wf(),
        after.schema == schema,
        0 <= d < inserts.len(),
        update_effect(
            inserts_effect(start, schema, inserts, stop_words, d),
            schema,
            inserts[d].0@,
            stop_words,
        ).1 is Ok,
        none_from(schema, inserts, d + 1, schema.document_id_of(inserts[d].0@)->Ok_0),
        none_from(schema, deletes, 0, schema.document_id_of(inserts[d].0@)->Ok_0),
        built_from(
            deletes_effect(
                inserts_effect(start, schema, inserts, stop_words, inserts.len() as int),
                schema,
                deletes,
                deletes.len() as int,
            ),
            batch,
        ),
        after.state == apply_ops(before, batch),
    ensures
        retrievable(after, schema.document_id_of(inserts[d].0@)->Ok_0),
{
    let fields = inserts[d].0@;
    let document = schema.document_id_of(fields)->Ok_0;
    let earlier = inserts_effect(start, schema, inserts, stop_words, d);
    let taken = inserts_effect(start, schema, inserts, stop_words, d + 1);
    assert(taken == update_effect(earlier, schema, fields, stop_words).0);
    lemma_taken_stored(before, schema, earlier, fields, stop_words);
    let inserted = inserts_effect(start, schema, inserts, stop_words, inserts.len() as int);
    let built = deletes_effect(inserted, schema, deletes, deletes.len() as int);
    lemma_inserts_leave(start, schema, inserts, stop_words, d + 1, inserts.len() as int, document);
    lemma_deletes_leave(inserted, schema, deletes, deletes.len() as int, document);
    lemma_left_alone_both(taken.batch, inserted.batch, built.batch, document);
    lemma_closing_stored(before, built, batch);
    let s2 = apply_ops(before, taken.batch);
    let key = DocumentKeyAttr { document, attribute: SchemaAttr(schema.identifier as u16) };
    lemma_rest_stored(before, taken.batch, built.batch, document, key);
    assert forall|k: DocumentKeyAttr| #[trigger]
        after.state.documents.dom().contains(k) && k.document == document implies vstd::utf8::valid_utf8(
        after.state.documents[k],
    ) by {
        lemma_rest_stored(before, taken.batch, built.batch, document, k);
        assert(s2.documents.dom().contains(k));
    }
    lemma_stored_text(after, document, schema.attrs.len() as int, schema.identifier);
}

} // verus!
