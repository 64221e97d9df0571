use vstd::prelude::*;
use crate::index::has_word;
use crate::index::lemma_postings_of_entry;
use crate::index::lemma_without_documents;
use crate::index::without_documents;
use crate::index::EntryView;
use crate::index_map::index_map;
use crate::index_map::lemma_index_map_wf;
use crate::index_map::lemma_union_of;
use crate::index_map::map_wf;
use crate::index_map::merged_map;
use crate::index_map::postings_in;
use crate::index_map::removed_map;
use crate::index_map::union_of;
use crate::ranked_map::without_ranked_documents;
use crate::sorted::ascending;
use crate::sorted::lemma_ascending_unique;
use crate::state::apply_op;
use crate::state::apply_ops;
use crate::state::StateView;
use crate::types::DocIndex;
use crate::types::DocumentId;
use crate::document_key::DocumentKeyAttr;
use crate::update::built_from;
use crate::update::consistent;
use crate::update::op_within;
use crate::update::staged_within;
use crate::update::staged_only;
use crate::update::BatchOpView;
use crate::update::BuilderView;

verus! {

/// No posting of a dictionary belongs to the document.
pub open spec fn words_without(words: Seq<EntryView>, document: DocumentId) -> bool {
    forall|i: int, j: int|
        0 <= i < words.len() && 0 <= j < words[i].postings.len() ==> (
        #[trigger] words[i].postings[j]).document_id != document
}

/// No posting of an index belongs to the document.
pub open spec fn index_without(index: Map<Seq<char>, Seq<DocIndex>>, document: DocumentId) -> bool {
    forall|w: Seq<char>, j: int|
        index.dom().contains(w) && 0 <= j < index[w].len() ==> (#[trigger] index[w][j]).document_id
            != document
}

/// Writes and deletions in the store leave the index and the ranked map as
/// they are.
pub proof fn lemma_apply_staged(state: StateView, ops: Seq<BatchOpView>)
    requires
        staged_only(ops),
    ensures
        apply_ops(state, ops).index == state.index,
        apply_ops(state, ops).ranked == state.ranked,
    decreases ops.len(),
{
    if ops.len() > 0 {
        assert forall|i: int| 0 <= i < ops.drop_last().len() implies (
        #[trigger] ops.drop_last()[i]) is Put || ops.drop_last()[i] is DeleteRange by {
            assert(ops.drop_last()[i] == ops[i]);
        }
        lemma_apply_staged(state, ops.drop_last());
        assert(ops.last() == ops[ops.len() - 1]);
    }
}

/// What the index and the ranked map hold once the batch of an update is
/// applied: the documents touched are removed, then the postings and the
/// ranked values of the update are merged in.
pub proof fn lemma_apply_built(state: StateView, update: BuilderView, batch: Seq<BatchOpView>)
    requires
        built_from(update, batch),
    ensures
        batch[update.batch.len() as int] matches BatchOpView::IndexRemoved(ids) && batch[update.batch.len()
            as int + 1] matches BatchOpView::IndexUpdated(index) && apply_ops(state, batch).index
            == merged_map(
            removed_map(state.index, ids),
            index_map(index),
        ) && apply_ops(state, batch).ranked == without_ranked_documents(
            state.ranked,
            ids,
        ).union_prefer_right(update.ranked),
{
    let n = update.batch.len() as int;
    let b4 = batch;
    let b3 = b4.drop_last();
    let b2 = b3.drop_last();
    let b1 = b2.drop_last();
    let b0 = b1.drop_last();
    assert(b0 =~= batch.take(n));
    lemma_apply_staged(state, b0);
    assert(b1.last() == batch[n]);
    assert(b2.last() == batch[n + 1]);
    assert(b3.last() == batch[n + 2]);
    assert(b4.last() == batch[n + 3]);
    let s0 = apply_ops(state, b0);
    let s1 = apply_ops(state, b1);
    let s2 = apply_ops(state, b2);
    let s3 = apply_ops(state, b3);
    let s4 = apply_ops(state, b4);
    assert(s1 == apply_op(s0, batch[n]));
    assert(s2 == apply_op(s1, batch[n + 1]));
    assert(s3 == apply_op(s2, batch[n + 2]));
    assert(s4 == apply_op(s3, batch[n + 3]));
}

/// What is left of the postings of a word holds no posting of the documents removed.
proof fn lemma_removed_postings(p: Seq<DocIndex>, ids: Seq<DocumentId>, j: int)
    requires
        ascending(p),
        0 <= j < without_documents(p, ids).len(),
    ensures
        !ids.contains(without_documents(p, ids)[j].document_id),
        p.contains(without_documents(p, ids)[j]),
{
    lemma_without_documents(p, ids);
    let f = without_documents(p, ids);
    assert(f.contains(f[j]));
}

/// What is left of an index once documents are removed is well formed.
pub proof fn lemma_removed_map_wf(index: Map<Seq<char>, Seq<DocIndex>>, ids: Seq<DocumentId>)
    requires
        map_wf(index),
    ensures
        map_wf(removed_map(index, ids)),
{
    let r = removed_map(index, ids);
    assert forall|w: Seq<char>| r.dom().contains(w) implies (#[trigger] r[w]).len() > 0
        && ascending(r[w]) by {
        assert(index[w].len() > 0);
        lemma_without_documents(index[w], ids);
    }
}

/// Delete-then-lookup, in the index: once a batch is committed that touches
/// a document and adds no posting for it, no word of the index has a
/// posting for that document.
pub proof fn lemma_removed_from_index(
    state: StateView,
    update: BuilderView,
    batch: Seq<BatchOpView>,
    document: DocumentId,
)
    requires
        map_wf(state.index),
        built_from(update, batch),
        update.documents.contains(document.0),
        words_without(update.words, document),
    ensures
        index_without(apply_ops(state, batch).index, document),
        map_wf(apply_ops(state, batch).index),
{
    lemma_apply_built(state, update, batch);
    let n = update.batch.len() as int;
    let ids = batch[n]->IndexRemoved_0;
    let index = batch[n + 1]->IndexUpdated_0;
    let removed = removed_map(state.index, ids);
    let added = index_map(index);
    let after = apply_ops(state, batch).index;
    lemma_removed_map_wf(state.index, ids);
    lemma_index_map_wf(index);
    assert(ids.contains(document));
    assert forall|w: Seq<char>| after.dom().contains(w) implies (#[trigger] after[w]).len() > 0
        && ascending(after[w]) by {
        let p = postings_in(removed, w);
        let q = postings_in(added, w);
        lemma_union_of(p, q);
        if removed.dom().contains(w) {
            assert(p.contains(p[0]));
        } else {
            assert(q.contains(q[0]));
        }
        let u = union_of(p, q);
        if u.len() == 0 {
            if removed.dom().contains(w) {
                assert(u.contains(p[0]));
            } else {
                assert(u.contains(q[0]));
            }
        }
    }
    assert forall|w: Seq<char>, j: int|
        after.dom().contains(w) && 0 <= j < after[w].len() implies (
    #[trigger] after[w][j]).document_id != document by {
        let p = postings_in(removed, w);
        let q = postings_in(added, w);
        lemma_union_of(p, q);
        let x = after[w][j];
        assert(union_of(p, q).contains(x));
        if p.contains(x) {
            let k = choose|k: int| 0 <= k < p.len() && p[k] == x;
            lemma_removed_postings(state.index[w], ids, k);
        } else {
            assert(q.contains(x));
            let k = choose|k: int| 0 <= k < q.len() && q[k] == x;
            assert(has_word(index, w));
            let e = choose|e: int| 0 <= e < index.len() && (#[trigger] index[e]).word == w;
            lemma_postings_of_entry(index, e);
            assert(index[e].postings.contains(x));
            assert(update.words[e].postings.contains(x));
            let m = choose|m: int|
                0 <= m < update.words[e].postings.len() && update.words[e].postings[m] == x;
            assert(update.words[e].postings[m].document_id != document);
        }
    }
}

/// Re-index idempotence: committing the batch of an update a second time
/// changes neither the index nor the ranked map.
pub proof fn lemma_commit_idempotent(state: StateView, update: BuilderView, batch: Seq<BatchOpView>)
    requires
        map_wf(state.index),
        built_from(update, batch),
    ensures
        apply_ops(apply_ops(state, batch), batch).index == apply_ops(state, batch).index,
        apply_ops(apply_ops(state, batch), batch).ranked == apply_ops(state, batch).ranked,
{
    let once = apply_ops(state, batch);
    let twice = apply_ops(once, batch);
    lemma_apply_built(state, update, batch);
    lemma_apply_built(once, update, batch);
    let n = update.batch.len() as int;
    let ids = batch[n]->IndexRemoved_0;
    let index = batch[n + 1]->IndexUpdated_0;
    let x = removed_map(state.index, ids);
    let j = index_map(index);
    lemma_removed_map_wf(state.index, ids);
    lemma_index_map_wf(index);
    let again = removed_map(once.index, ids);
    assert forall|w: Seq<char>| twice.index.dom().contains(w) <==> once.index.dom().contains(w) by {
        let p = postings_in(x, w);
        let q = postings_in(j, w);
        lemma_union_of(p, q);
        let u = union_of(p, q);
        lemma_without_documents(u, ids);
        if x.dom().contains(w) {
            assert(p.contains(p[0]));
            lemma_removed_postings(state.index[w], ids, 0);
            assert(without_documents(u, ids).contains(p[0]));
        }
    }
    assert forall|w: Seq<char>| twice.index.dom().contains(w) implies twice.index[w]
        == once.index[w] by {
        let p = postings_in(x, w);
        let q = postings_in(j, w);
        lemma_union_of(p, q);
        let u = union_of(p, q);
        lemma_without_documents(u, ids);
        let left = without_documents(u, ids);
        assert(postings_in(again, w) =~= left);
        lemma_union_of(left, q);
        let v = union_of(left, q);
        assert forall|y: DocIndex| v.contains(y) <==> u.contains(y) by {
            if p.contains(y) {
                let k = choose|k: int| 0 <= k < p.len() && p[k] == y;
                lemma_removed_postings(state.index[w], ids, k);
            }
        }
        lemma_ascending_unique(v, u);
    }
    assert(twice.index =~= once.index);
    assert(twice.ranked =~= once.ranked);
}

/// Writes and deletions that belong to some documents leave the stored
/// values of every other document as they are.
pub proof fn lemma_apply_within(
    state: StateView,
    ops: Seq<BatchOpView>,
    documents: Set<u64>,
    key: DocumentKeyAttr,
)
    requires
        staged_only(ops),
        staged_within(ops, documents),
        !documents.contains(key.document.0),
    ensures
        apply_ops(state, ops).documents.dom().contains(key) == state.documents.dom().contains(key),
        state.documents.dom().contains(key) ==> apply_ops(state, ops).documents[key]
            == state.documents[key],
    decreases ops.len(),
{
    if ops.len() > 0 {
        let before = ops.drop_last();
        assert forall|i: int| 0 <= i < before.len() implies ((#[trigger] before[i]) is Put
            || before[i] is DeleteRange) && op_within(before[i], documents) by {
            assert(before[i] == ops[i]);
        }
        lemma_apply_within(state, before, documents, key);
        assert(ops.last() == ops[ops.len() - 1]);
        assert(op_within(ops[ops.len() - 1], documents));
    }
}

/// A commit leaves the stored values of the documents that the update does
/// not touch as they are.
pub proof fn lemma_untouched_stored(
    state: StateView,
    update: BuilderView,
    batch: Seq<BatchOpView>,
    key: DocumentKeyAttr,
)
    requires
        consistent(update),
        built_from(update, batch),
        !update.documents.contains(key.document.0),
    ensures
        apply_ops(state, batch).documents.dom().contains(key) == state.documents.dom().contains(key),
        state.documents.dom().contains(key) ==> apply_ops(state, batch).documents[key]
            == state.documents[key],
{
    let n = update.batch.len() as int;
    let b4 = batch;
    let b3 = b4.drop_last();
    let b2 = b3.drop_last();
    let b1 = b2.drop_last();
    let b0 = b1.drop_last();
    assert(b0 =~= batch.take(n));
    lemma_apply_within(state, b0, update.documents, key);
    assert(b1.last() == batch[n]);
    assert(b2.last() == batch[n + 1]);
    assert(b3.last() == batch[n + 2]);
    assert(b4.last() == batch[n + 3]);
    let s0 = apply_ops(state, b0);
    let s1 = apply_ops(state, b1);
    let s2 = apply_ops(state, b2);
    let s3 = apply_ops(state, b3);
    let s4 = apply_ops(state, b4);
    assert(s1 == apply_op(s0, batch[n]));
    assert(s2 == apply_op(s1, batch[n + 1]));
    assert(s3 == apply_op(s2, batch[n + 2]));
    assert(s4 == apply_op(s3, batch[n + 3]));
}

} // verus!
