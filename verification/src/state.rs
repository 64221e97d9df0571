use vstd::prelude::*;
use crate::document_key::DocumentKeyAttr;
use crate::index::Index;
use crate::index_map::index_map;
use crate::index_map::lemma_merge_map;
use crate::index_map::lemma_remove_map;
use crate::index_map::merged_map;
use crate::index_map::removed_map;
use crate::number::Number;
use crate::ranked_map::without_ranked_documents;
use crate::ranked_map::RankedMap;
use crate::sorted::copy_of;
use crate::store::without_range;
use crate::store::DocumentStore;
use crate::types::DocIndex;
use crate::update::op_views;
use crate::update::BatchOp;
use crate::update::BatchOpView;
use crate::update::WriteBatch;
use crate::update::WriteIndexEvent;
use crate::update::WriteRankedMapEvent;

verus! {

/// What an index holds, as plain values: the postings of each word, the
/// ranked values, and the stored values of the documents' attributes.
pub struct StateView {
    pub index: Map<Seq<char>, Seq<DocIndex>>,
    pub ranked: Map<(u64, u16), Number>,
    pub documents: Map<DocumentKeyAttr, Seq<u8>>,
}

/// What one operation of a batch does.
pub open spec fn apply_op(state: StateView, op: BatchOpView) -> StateView {
    match op {
        BatchOpView::Put(key, value) => StateView {
            documents: state.documents.insert(key, value),
            ..state
        },
        BatchOpView::DeleteRange(start, end) => StateView {
            documents: without_range(state.documents, start, end),
            ..state
        },
        BatchOpView::IndexRemoved(ids) => StateView { index: removed_map(state.index, ids), ..state },
        BatchOpView::IndexUpdated(entries) => StateView {
            index: merged_map(state.index, index_map(entries)),
            ..state
        },
        BatchOpView::RankedRemoved(ids) => StateView {
            ranked: without_ranked_documents(state.ranked, ids),
            ..state
        },
        BatchOpView::RankedUpdated(map) => StateView {
            ranked: state.ranked.union_prefer_right(map),
            ..state
        },
    }
}

/// What the operations of a batch do, one after the other.
pub open spec fn apply_ops(state: StateView, ops: Seq<BatchOpView>) -> StateView
    decreases ops.len(),
{
    if ops.len() == 0 {
        state
    } else {
        apply_op(apply_ops(state, ops.drop_last()), ops.last())
    }
}

/// The state of one index: its inverted index, its ranked map and the stored
/// values of its documents.
pub struct IndexState {
    index: Index,
    ranked_map: RankedMap,
    documents: DocumentStore,
}

impl IndexState {
    /// What the index holds.
    pub closed spec fn view(&self) -> StateView {
        StateView {
            index: index_map(self.index@),
            ranked: self.ranked_map@,
            documents: self.documents@,
        }
    }

    /// The dictionary of the inverted index.
    pub closed spec fn entries(&self) -> Seq<crate::index::EntryView> {
        self.index@
    }

    /// The state of an index that holds nothing.
    pub fn new() -> (state: IndexState)
        ensures
            state.entries() == Seq::<crate::index::EntryView>::empty(),
            state@.index == Map::<Seq<char>, Seq<DocIndex>>::empty(),
            state@.ranked == (Map::<(u64, u16), Number>::empty()),
            state@.documents == Map::<DocumentKeyAttr, Seq<u8>>::empty(),
    {
        let state = IndexState {
            index: Index::new(),
            ranked_map: RankedMap::new(),
            documents: DocumentStore::new(),
        };
        proof {
            assert(state@.index =~= Map::<Seq<char>, Seq<DocIndex>>::empty());
        }
        state
    }

    /// The state that holds the index, the ranked map and the stored values given.
    pub fn from_parts(index: Index, ranked_map: RankedMap, documents: DocumentStore) -> (state:
        IndexState)
        ensures
            state.entries() == index@,
            state@.index == index_map(index@),
            state@.ranked == ranked_map@,
            state@.documents == documents@,
    {
        IndexState { index, ranked_map, documents }
    }

    /// The inverted index.
    pub fn index(&self) -> (index: &Index)
        ensures
            index@ == self.entries(),
            index_map(index@) == self@.index,
    {
        &self.index
    }

    /// The ranked map.
    pub fn ranked_map(&self) -> (ranked_map: &RankedMap)
        ensures
            ranked_map@ == self@.ranked,
    {
        &self.ranked_map
    }

    /// The stored values of the documents.
    pub fn documents(&self) -> (documents: &DocumentStore)
        ensures
            documents@ == self@.documents,
    {
        &self.documents
    }

    fn apply_one(&mut self, op: &BatchOp)
        ensures
            final(self)@ == apply_op(old(self)@, op@),
    {
        match op {
            BatchOp::Put(key, value) => {
                self.documents.put(*key, copy_of(value));
            },
            BatchOp::DeleteRange(start, end) => {
                self.documents.delete_range(*start, *end);
            },
            BatchOp::MergeIndex(WriteIndexEvent::RemovedDocuments(ids)) => {
                let n = self.index.len();
                let removed = self.index.remove_documents(ids);
                proof {
                    lemma_remove_map(self.index@, ids@, removed@);
                }
                self.index = removed;
            },
            BatchOp::MergeIndex(WriteIndexEvent::UpdatedDocuments(index)) => {
                let n = self.index.len();
                let m = index.len();
                let merged = self.index.merge(index);
                proof {
                    lemma_merge_map(self.index@, index@, merged@);
                }
                self.index = merged;
            },
            BatchOp::MergeRankedMap(WriteRankedMapEvent::RemovedDocuments(ids)) => {
                self.ranked_map.remove_documents(ids);
            },
            BatchOp::MergeRankedMap(WriteRankedMapEvent::UpdatedDocuments(map)) => {
                self.ranked_map.update_with(map);
            },
        }
    }

    /// Applies the operations of a batch, in their order.
    pub fn apply(&mut self, batch: WriteBatch)
        ensures
            final(self)@ == apply_ops(old(self)@, batch@),
    {
        let ops = batch.into_ops();
        let ghost views = op_views(ops@);
        let mut i: usize = 0;
        while i < ops.len()
            invariant
                i <= ops.len(),
                views == op_views(ops@),
                self@ == apply_ops(old(self)@, views.take(i as int)),
            decreases ops.len() - i,
        {
            proof {
                assert(views.take(i + 1).drop_last() =~= views.take(i as int));
                assert(views.take(i + 1).last() == ops@[i as int]@);
            }
            self.apply_one(&ops[i]);
            i = i + 1;
        }
        proof {
            assert(views.take(i as int) =~= views);
        }
    }
}

} // verus!
