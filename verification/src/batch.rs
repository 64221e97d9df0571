use vstd::prelude::*;
use crate::config::stop_words_of;
use crate::database::has_index;
use crate::database::index_place;
use crate::database::Database;
use crate::database::DatabaseError;
use crate::document::Document;
use crate::document::Documents;
use crate::document::DocumentsUpdate;
use crate::schema::SchemaView;
use crate::serializer::remove_effect;
use crate::serializer::update_effect;
use crate::state::apply_ops;
use crate::tokenizer::StopWords;
use crate::update::built_from;
use crate::update::BatchOpView;
use crate::update::BuilderView;
use crate::update::Update;

verus! {

/// The update once the first `k` documents are taken into it, one after the
/// other; a document that is refused leaves the update as it was.
pub open spec fn inserts_effect(
    state: BuilderView,
    schema: SchemaView,
    documents: Seq<Document>,
    stop_words: Set<Seq<char>>,
    k: int,
) -> BuilderView
    decreases k,
{
    if k <= 0 {
        state
    } else {
        update_effect(
            inserts_effect(state, schema, documents, stop_words, k - 1),
            schema,
            documents[k - 1].0@,
            stop_words,
        ).0
    }
}

/// The number of documents refused among the first `k` taken into the update.
pub open spec fn inserts_refused(
    state: BuilderView,
    schema: SchemaView,
    documents: Seq<Document>,
    stop_words: Set<Seq<char>>,
    k: int,
) -> int
    decreases k,
{
    if k <= 0 {
        0
    } else {
        inserts_refused(state, schema, documents, stop_words, k - 1) + if update_effect(
            inserts_effect(state, schema, documents, stop_words, k - 1),
            schema,
            documents[k - 1].0@,
            stop_words,
        ).1 is Err {
            1int
        } else {
            0int
        }
    }
}

/// The update once the first `k` documents are removed, one after the other.
pub open spec fn deletes_effect(
    state: BuilderView,
    schema: SchemaView,
    documents: Seq<Document>,
    k: int,
) -> BuilderView
    decreases k,
{
    if k <= 0 {
        state
    } else {
        remove_effect(deletes_effect(state, schema, documents, k - 1), schema, documents[k - 1].0@).0
    }
}

/// The number of documents refused among the first `k` to remove.
pub open spec fn deletes_refused(
    state: BuilderView,
    schema: SchemaView,
    documents: Seq<Document>,
    k: int,
) -> int
    decreases k,
{
    if k <= 0 {
        0
    } else {
        deletes_refused(state, schema, documents, k - 1) + if remove_effect(
            deletes_effect(state, schema, documents, k - 1),
            schema,
            documents[k - 1].0@,
        ).1 is Err {
            1int
        } else {
            0int
        }
    }
}

/// The documents of a list, none where there is no list.
pub open spec fn listed(documents: Option<Documents>) -> Seq<Document> {
    match documents {
        Some(documents) => documents.0@,
        None => Seq::empty(),
    }
}

/// The update once a request is taken into it: the documents to index
/// first, then those to remove.
pub open spec fn request_effect(
    state: BuilderView,
    schema: SchemaView,
    request: DocumentsUpdate,
    stop_words: Set<Seq<char>>,
) -> BuilderView {
    let inserts = listed(request.insert);
    let deletes = listed(request.delete);
    deletes_effect(
        inserts_effect(state, schema, inserts, stop_words, inserts.len() as int),
        schema,
        deletes,
        deletes.len() as int,
    )
}

/// The number of documents of a request that are refused.
pub open spec fn request_refused(
    state: BuilderView,
    schema: SchemaView,
    request: DocumentsUpdate,
    stop_words: Set<Seq<char>>,
) -> int {
    let inserts = listed(request.insert);
    let deletes = listed(request.delete);
    inserts_refused(state, schema, inserts, stop_words, inserts.len() as int) + deletes_refused(
        inserts_effect(state, schema, inserts, stop_words, inserts.len() as int),
        schema,
        deletes,
        deletes.len() as int,
    )
}

/// Takes documents into an update, one after the other. A document that is
/// refused is passed over; the number of those is returned.
pub fn insert_documents(update: &mut Update, documents: &Vec<Document>, stop_words: &StopWords) -> (refused:
    usize)
    ensures
        final(update).schema() == old(update).schema(),
        final(update)@ == inserts_effect(
            old(update)@,
            old(update).schema(),
            documents@,
            stop_words@,
            documents@.len() as int,
        ),
        refused == inserts_refused(
            old(update)@,
            old(update).schema(),
            documents@,
            stop_words@,
            documents@.len() as int,
        ),
{
    let mut refused: usize = 0;
    let mut i: usize = 0;
    while i < documents.len()
        invariant
            i <= documents.len(),
            refused <= i,
            update.schema() == old(update).schema(),
            update@ == inserts_effect(
                old(update)@,
                old(update).schema(),
                documents@,
                stop_words@,
                i as int,
            ),
            refused == inserts_refused(
                old(update)@,
                old(update).schema(),
                documents@,
                stop_words@,
                i as int,
            ),
        decreases documents.len() - i,
    {
        match update.update_document(&documents[i], stop_words) {
            Ok(_) => {},
            Err(_) => {
                refused = refused + 1;
            },
        }
        i = i + 1;
    }
    refused
}

/// Removes documents in an update, one after the other. A document that is
/// refused is passed over; the number of those is returned.
pub fn delete_documents(update: &mut Update, documents: &Vec<Document>) -> (refused: usize)
    ensures
        final(update).schema() == old(update).schema(),
        final(update)@ == deletes_effect(
            old(update)@,
            old(update).schema(),
            documents@,
            documents@.len() as int,
        ),
        refused == deletes_refused(
            old(update)@,
            old(update).schema(),
            documents@,
            documents@.len() as int,
        ),
{
    let mut refused: usize = 0;
    let mut i: usize = 0;
    while i < documents.len()
        invariant
            i <= documents.len(),
            refused <= i,
            update.schema() == old(update).schema(),
            update@ == deletes_effect(old(update)@, old(update).schema(), documents@, i as int),
            refused == deletes_refused(old(update)@, old(update).schema(), documents@, i as int),
        decreases documents.len() - i,
    {
        match update.remove_document(&documents[i]) {
            Ok(_) => {},
            Err(_) => {
                refused = refused + 1;
            },
        }
        i = i + 1;
    }
    refused
}

/// Takes a request into an update: the documents to index first, then those
/// to remove. The number of documents refused is returned.
pub fn update_documents(update: &mut Update, request: &DocumentsUpdate, stop_words: &StopWords) -> (refused:
    (usize, usize))
    ensures
        final(update).schema() == old(update).schema(),
        final(update)@ == request_effect(
            old(update)@,
            old(update).schema(),
            *request,
            stop_words@,
        ),
        refused.0 + refused.1 == request_refused(
            old(update)@,
            old(update).schema(),
            *request,
            stop_words@,
        ),
{
    let inserted = match &request.insert {
        Some(documents) => insert_documents(update, &documents.0, stop_words),
        None => 0,
    };
    let deleted = match &request.delete {
        Some(documents) => delete_documents(update, &documents.0),
        None => 0,
    };
    (inserted, deleted)
}

/// A request is carried out on an index by the update `start` and the
/// batch `batch`: the update starts from the ranked map of the index, the
/// batch is built from the update once the request is taken into it, and the
/// index is left as the batch leaves it.
pub open spec fn carried_out(
    before: crate::database::Snapshot,
    request: DocumentsUpdate,
    start: BuilderView,
    batch: Seq<BatchOpView>,
    after: crate::state::StateView,
    refused: (usize, usize),
) -> bool {
    &&& crate::update::starts_from(before.state.ranked, start)
    &&& built_from(
        request_effect(start, before.schema, request, stop_words_of(before.config)),
        batch,
    )
    &&& after == apply_ops(before.state, batch)
    &&& refused.0 + refused.1 == request_refused(
        start,
        before.schema,
        request,
        stop_words_of(before.config),
    )
}

/// What a request does to the database that has an index of the given
/// name: the other indexes stay, and so do the name, the schema and the
/// configuration of this one; the request is carried out on it, and the
/// numbers of documents refused are answered.
pub open spec fn request_done(
    before: Seq<crate::database::NamedIndex>,
    name: Seq<char>,
    request: DocumentsUpdate,
    after: Seq<crate::database::NamedIndex>,
    refused: (usize, usize),
) -> bool {
    let i = index_place(before, name);
    &&& after.len() == before.len()
    &&& forall|k: int| 0 <= k < before.len() && k != i ==> after[k] == before[k]
    &&& after[i].name == before[i].name
    &&& after[i].view@.schema == before[i].view@.schema
    &&& after[i].view@.config == before[i].view@.config
    &&& exists|start: BuilderView, batch: Seq<BatchOpView>| #[trigger]
        carried_out(before[i].view@, request, start, batch, after[i].view@.state, refused)
}

impl Database {
    /// Indexes and removes the documents of a request in the index of the
    /// given name, in one batch. The numbers of documents refused are
    /// returned: of those to index, and of those to remove.
    pub fn update_documents(&mut self, name: &str, request: &DocumentsUpdate) -> (res: Result<
        (usize, usize),
        DatabaseError,
    >)
        ensures
            !has_index(old(self)@, name@) ==> res == Err::<(usize, usize), DatabaseError>(
                DatabaseError::UnknownIndex,
            ) && final(self)@ == old(self)@,
            has_index(old(self)@, name@) ==> (res matches Ok(refused) && request_done(
                old(self)@,
                name@,
                *request,
                final(self)@,
                refused,
            )),
    {
        let (mut update, stop_words) = match self.view_of(name) {
            Some(view) => (view.start_update(), view.config().stop_words()),
            None => {
                return Err(DatabaseError::UnknownIndex);
            },
        };
        let ghost start = update@;
        let refused = update_documents(&mut update, request, &stop_words);
        let batch = update.build();
        let ghost ops = batch@;
        match self.commit_update(name, batch) {
            Ok(_) => {
                proof {
                    let i = index_place(old(self)@, name@);
                    assert(carried_out(
                        old(self)@[i].view@,
                        *request,
                        start,
                        ops,
                        self@[i].view@.state,
                        refused,
                    ));
                }
                Ok(refused)
            },
            Err(e) => Err(e),
        }
    }
}

} // verus!
