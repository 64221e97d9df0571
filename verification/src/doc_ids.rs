use vstd::prelude::*;
use crate::sorted::ascending;
use crate::sorted::position;
use crate::sorted::same_elements;
use crate::sorted::sort_dedup;
use crate::sorted::Keyed;
use crate::types::DocumentId;

verus! {

/// A set of document identifiers, kept in ascending order.
pub struct DocIds {
    ids: Vec<DocumentId>,
}

impl DocIds {
    #[verifier::type_invariant]
    spec fn well_formed(&self) -> bool {
        ascending(self.ids@)
    }

    /// The identifiers, in ascending order.
    pub closed spec fn view(&self) -> Seq<DocumentId> {
        self.ids@
    }

    /// The set of the identifiers that `ids` holds.
    pub fn new(ids: &Vec<DocumentId>) -> (doc_ids: DocIds)
        ensures
            ascending(doc_ids@),
            same_elements(doc_ids@, ids@),
    {
        DocIds { ids: sort_dedup(ids) }
    }

    /// The number of identifiers.
    pub fn len(&self) -> (n: usize)
        ensures
            n == self@.len(),
            ascending(self@),
    {
        proof {
            use_type_invariant(self);
        }
        self.ids.len()
    }

    /// The identifier at a position of the ascending order.
    pub fn get(&self, i: usize) -> (id: DocumentId)
        requires
            i < self@.len(),
        ensures
            id == self@[i as int],
    {
        self.ids[i]
    }

    /// Whether the set holds an identifier.
    pub fn contains(&self, id: DocumentId) -> (yes: bool)
        ensures
            yes == self@.contains(id),
    {
        proof {
            use_type_invariant(self);
        }
        match position(&self.ids, id.key_of()) {
            Some(i) => {
                proof {
                    DocumentId::key_identifies(self.ids@[i as int], id);
                }
                true
            },
            None => false,
        }
    }

    /// A copy of the set.
    pub fn duplicate(&self) -> (ids: DocIds)
        ensures
            ids@ == self@,
    {
        proof {
            use_type_invariant(self);
        }
        DocIds { ids: crate::sorted::copy_of(&self.ids) }
    }

    /// The identifiers as a vector, in ascending order.
    pub fn to_vec(&self) -> (ids: Vec<DocumentId>)
        ensures
            ids@ == self@,
    {
        crate::sorted::copy_of(&self.ids)
    }
}

} // verus!
