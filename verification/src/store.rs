use vstd::prelude::*;
use crate::document_key::DocumentKeyAttr;

verus! {

/// The value of one attribute of a document, as the store holds it.
pub struct StoredValue {
    pub key: DocumentKeyAttr,
    pub value: Vec<u8>,
}

/// Whether a key lies in the range from `start` up to, and with, `end`.
pub open spec fn in_range(key: DocumentKeyAttr, start: DocumentKeyAttr, end: DocumentKeyAttr) -> bool {
    !key.before(start) && !end.before(key)
}

/// What a sequence of writes leaves in the store: for each key, the value
/// that was written last.
pub open spec fn stored(values: Seq<StoredValue>) -> Map<DocumentKeyAttr, Seq<u8>>
    decreases values.len(),
{
    if values.len() == 0 {
        Map::empty()
    } else {
        stored(values.drop_last()).insert(values.last().key, values.last().value@)
    }
}

/// The store without the keys of a range.
pub open spec fn without_range(
    map: Map<DocumentKeyAttr, Seq<u8>>,
    start: DocumentKeyAttr,
    end: DocumentKeyAttr,
) -> Map<DocumentKeyAttr, Seq<u8>> {
    Map::new(
        |k: DocumentKeyAttr| map.dom().contains(k) && !in_range(k, start, end),
        |k: DocumentKeyAttr| map[k],
    )
}

/// The values of the documents' attributes: the part of the key-value store
/// that lies under the keys of documents.
pub struct DocumentStore {
    values: Vec<StoredValue>,
}

fn key_before(a: &DocumentKeyAttr, b: &DocumentKeyAttr) -> (before: bool)
    ensures
        before == a.before(*b),
{
    a.document.0 < b.document.0 || (a.document.0 == b.document.0 && a.attribute.0 < b.attribute.0)
}

impl DocumentStore {
    /// The value under each key that has one.
    pub closed spec fn view(&self) -> Map<DocumentKeyAttr, Seq<u8>> {
        stored(self.values@)
    }

    /// A store that holds nothing.
    pub fn new() -> (store: DocumentStore)
        ensures
            store@ == Map::<DocumentKeyAttr, Seq<u8>>::empty(),
    {
        DocumentStore { values: Vec::new() }
    }

    /// Sets the value under a key.
    pub fn put(&mut self, key: DocumentKeyAttr, value: Vec<u8>)
        ensures
            final(self)@ == old(self)@.insert(key, value@),
    {
        self.values.push(StoredValue { key, value });
        proof {
            assert(self.values@.drop_last() =~= old(self).values@);
        }
    }

    /// The value under a key, if it has one.
    pub fn get(&self, key: DocumentKeyAttr) -> (value: Option<&Vec<u8>>)
        ensures
            match value {
                Some(v) => self@.dom().contains(key) && self@[key] == v@,
                None => !self@.dom().contains(key),
            },
    {
        let mut i: usize = self.values.len();
        proof {
            assert(self.values@.take(i as int) =~= self.values@);
        }
        while i > 0
            invariant
                i <= self.values.len(),
                self@.dom().contains(key) == stored(self.values@.take(i as int)).dom().contains(key),
                self@.dom().contains(key) ==> self@[key] == stored(self.values@.take(i as int))[key],
            decreases i,
        {
            proof {
                assert(self.values@.take(i as int).drop_last() =~= self.values@.take(i - 1));
            }
            if self.values[i - 1].key == key {
                return Some(&self.values[i - 1].value);
            }
            i = i - 1;
        }
        None
    }

    /// Deletes the keys from `start` up to, and with, `end`.
    pub fn delete_range(&mut self, start: DocumentKeyAttr, end: DocumentKeyAttr)
        ensures
            final(self)@ == without_range(old(self)@, start, end),
    {
        let ghost all = self.values@;
        let mut kept: Vec<StoredValue> = Vec::new();
        let mut i: usize = 0;
        proof {
            assert(stored(kept@) =~= without_range(stored(all.take(0)), start, end));
        }
        while i < self.values.len()
            invariant
                i <= self.values.len(),
                all == self.values@,
                stored(kept@) == without_range(stored(all.take(i as int)), start, end),
            decreases self.values.len() - i,
        {
            let value = &self.values[i];
            let ghost kept0 = kept@;
            proof {
                assert(all.take(i + 1).drop_last() =~= all.take(i as int));
                assert(all.take(i + 1).last() == all[i as int]);
            }
            if !key_before(&value.key, &start) && !key_before(&end, &value.key) {
                proof {
                    assert(stored(kept@) =~= without_range(stored(all.take(i + 1)), start, end));
                }
            } else {
                kept.push(StoredValue { key: value.key, value: crate::sorted::copy_of(&value.value) });
                proof {
                    assert(kept@.drop_last() =~= kept0);
                    assert(stored(kept@) =~= without_range(stored(all.take(i + 1)), start, end));
                }
            }
            i = i + 1;
        }
        proof {
            assert(all.take(i as int) =~= all);
        }
        self.values = kept;
    }
}

} // verus!
