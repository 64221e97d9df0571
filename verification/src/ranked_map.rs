use vstd::prelude::*;
use crate::doc_ids::DocIds;
use crate::number::Number;
use crate::sorted::ascending;
use crate::sorted::sort_dedup;
use crate::sorted::Keyed;
use crate::types::DocumentId;
use crate::types::SchemaAttr;

use crate::ranked_bytes::begins_with;
use crate::ranked_bytes::ranked_bytes;
use crate::ranked_bytes::ranked_read;

verus! {

/// The values that documents are ranked by, for each document and ranked
/// attribute that has one. A hash map holds them.
#[verifier::external_body]
pub struct RankedMap {
    inner: hashbrown::HashMap<(u64, u16), Number>,
}

/// What a ranked map holds: the number of each document and attribute.
pub uninterp spec fn ranked_entries(map: RankedMap) -> Map<(u64, u16), Number>;

/// A document and an attribute: the key of a ranked value.
#[derive(Clone, Copy, Debug, PartialEq, Eq, Structural)]
pub struct RankedKey {
    pub document: u64,
    pub attribute: u16,
}

impl Keyed for RankedKey {
    open spec fn key(&self) -> int {
        self.document * 0x1_0000 + self.attribute
    }

    proof fn key_identifies(a: Self, b: Self) {
    }

    fn key_of(&self) -> (k: u128) {
        let document: u128 = self.document as u128;
        let attribute: u128 = self.attribute as u128;
        document * 0x1_0000 + attribute
    }
}

/// One ranked value with its key.
#[derive(Clone, Copy, Debug, PartialEq, Eq, Structural)]
pub struct RankedEntry {
    pub document: DocumentId,
    pub attribute: SchemaAttr,
    pub number: Number,
}

/// What is left of the ranked values once the documents of `ids` are gone.
pub open spec fn without_ranked_documents(
    entries: Map<(u64, u16), Number>,
    ids: Seq<DocumentId>,
) -> Map<(u64, u16), Number> {
    Map::new(
        |k: (u64, u16)| entries.dom().contains(k) && !ids.contains(DocumentId(k.0)),
        |k: (u64, u16)| entries[k],
    )
}

/// Calls `hashbrown::HashMap::new`, which makes an empty map.
#[verifier::external_body]
fn raw_new() -> (map: RankedMap)
    ensures
        ranked_entries(map) == (Map::<(u64, u16), Number>::empty()),
{
    RankedMap { inner: hashbrown::HashMap::new() }
}

/// Calls `hashbrown::HashMap::insert`: the key holds the value afterwards,
/// whether or not it held one before, and no other key is touched.
#[verifier::external_body]
fn raw_insert(map: &mut RankedMap, document: u64, attribute: u16, number: Number)
    ensures
        ranked_entries(*final(map)) == ranked_entries(*old(map)).insert(
            (document, attribute),
            number,
        ),
{
    map.inner.insert((document, attribute), number);
}

/// Calls `hashbrown::HashMap::get`: the value of the key, if it has one.
#[verifier::external_body]
fn raw_get(map: &RankedMap, document: u64, attribute: u16) -> (number: Option<Number>)
    ensures
        number == if ranked_entries(*map).dom().contains((document, attribute)) {
            Some(ranked_entries(*map)[(document, attribute)])
        } else {
            None::<Number>
        },
{
    map.inner.get(&(document, attribute)).copied()
}

/// Calls `hashbrown::HashMap::retain`, which removes the pairs that the
/// predicate refuses and no other: here those of the documents of `ids`.
#[verifier::external_body]
fn raw_remove_documents(map: &mut RankedMap, ids: &DocIds)
    ensures
        ranked_entries(*final(map)) == without_ranked_documents(ranked_entries(*old(map)), ids@),
{
    map.inner.retain(|k, _| !ids.contains(DocumentId(k.0)));
}

/// Calls `hashbrown::HashMap::keys`, which visits every key of the map in an
/// order that is not specified: the vector holds the keys of the map and
/// nothing else.
#[verifier::external_body]
fn raw_keys(map: &RankedMap) -> (keys: Vec<RankedKey>)
    ensures
        forall|k: RankedKey|
            keys@.contains(k) <==> ranked_entries(*map).dom().contains((k.document, k.attribute)),
{
    map.inner.keys().map(|k| RankedKey { document: k.0, attribute: k.1 }).collect()
}

/// The entries in ascending order of their keys hold exactly what the map holds.
pub open spec fn lists(entries: Seq<RankedEntry>, map: Map<(u64, u16), Number>) -> bool {
    &&& forall|i: int, j: int|
        0 <= i < j < entries.len() ==> (#[trigger] entries[i]).document.0 < (
        #[trigger] entries[j]).document.0 || (entries[i].document == entries[j].document
            && entries[i].attribute.0 < entries[j].attribute.0)
    &&& forall|i: int|
        0 <= i < entries.len() ==> map.dom().contains(
            ((#[trigger] entries[i]).document.0, entries[i].attribute.0),
        ) && map[(entries[i].document.0, entries[i].attribute.0)] == entries[i].number
    &&& forall|k: (u64, u16)|
        map.dom().contains(k) ==> exists|i: int|
            0 <= i < entries.len() && (#[trigger] entries[i]).document.0 == k.0
                && entries[i].attribute.0 == k.1
}

impl RankedMap {
    /// The number of each document and attribute that has one.
    pub open spec fn view(&self) -> Map<(u64, u16), Number> {
        ranked_entries(*self)
    }

    /// A map that holds nothing.
    pub fn new() -> (map: RankedMap)
        ensures
            map@ == (Map::<(u64, u16), Number>::empty()),
    {
        raw_new()
    }

    /// Sets the number of a document and attribute.
    pub fn insert(&mut self, document: DocumentId, attribute: SchemaAttr, number: Number)
        ensures
            final(self)@ == old(self)@.insert((document.0, attribute.0), number),
    {
        raw_insert(self, document.0, attribute.0, number)
    }

    /// The number of a document and attribute, if it has one.
    pub fn get(&self, document: DocumentId, attribute: SchemaAttr) -> (number: Option<Number>)
        ensures
            number == if self@.dom().contains((document.0, attribute.0)) {
                Some(self@[(document.0, attribute.0)])
            } else {
                None::<Number>
            },
    {
        raw_get(self, document.0, attribute.0)
    }

    /// Drops the numbers of the documents of `ids`.
    pub fn remove_documents(&mut self, ids: &DocIds)
        ensures
            final(self)@ == without_ranked_documents(old(self)@, ids@),
    {
        raw_remove_documents(self, ids)
    }

    /// The keys of the map in ascending order.
    pub fn keys(&self) -> (keys: Vec<RankedKey>)
        ensures
            ascending(keys@),
            forall|k: RankedKey|
                keys@.contains(k) <==> self@.dom().contains((k.document, k.attribute)),
    {
        let unordered = raw_keys(self);
        sort_dedup(&unordered)
    }

    /// What the map holds, in ascending order of document and attribute.
    pub fn entries(&self) -> (entries: Vec<RankedEntry>)
        ensures
            lists(entries@, self@),
    {
        let keys = self.keys();
        let mut entries: Vec<RankedEntry> = Vec::new();
        let mut i: usize = 0;
        while i < keys.len()
            invariant
                i <= keys.len(),
                entries.len() == i,
                ascending(keys@),
                forall|k: RankedKey|
                    keys@.contains(k) <==> self@.dom().contains((k.document, k.attribute)),
                forall|j: int|
                    0 <= j < i ==> (#[trigger] entries[j]).document.0 == keys[j].document
                        && entries[j].attribute.0 == keys[j].attribute && self@.dom().contains(
                        (keys[j].document, keys[j].attribute),
                    ) && entries[j].number == self@[(keys[j].document, keys[j].attribute)],
            decreases keys.len() - i,
        {
            let key = keys[i];
            proof {
                assert(keys@.contains(key));
            }
            match self.get(DocumentId(key.document), SchemaAttr(key.attribute)) {
                Some(number) => {
                    entries.push(
                        RankedEntry {
                            document: DocumentId(key.document),
                            attribute: SchemaAttr(key.attribute),
                            number,
                        },
                    );
                },
                None => {
                    assert(false);
                },
            }
            i = i + 1;
        }
        proof {
            assert forall|a: int, b: int| 0 <= a < b < entries.len() implies (
            #[trigger] entries[a]).document.0 < (#[trigger] entries[b]).document.0 || (
            entries[a].document == entries[b].document && entries[a].attribute.0
                < entries[b].attribute.0) by {
                assert(keys[a].key() < keys[b].key());
            }
            assert forall|k: (u64, u16)| self@.dom().contains(k) implies exists|i: int|
                0 <= i < entries.len() && (#[trigger] entries[i]).document.0 == k.0
                    && entries[i].attribute.0 == k.1 by {
                let key = RankedKey { document: k.0, attribute: k.1 };
                assert(keys@.contains(key));
                let j = choose|j: int| 0 <= j < keys.len() && keys[j] == key;
                assert(entries[j].document.0 == k.0);
            }
        }
        entries
    }

    /// Takes over every number that `other` holds; the numbers of the keys
    /// that `other` does not hold stay.
    pub fn update_with(&mut self, other: &RankedMap)
        ensures
            final(self)@ == old(self)@.union_prefer_right(other@),
    {
        let keys = other.keys();
        let mut i: usize = 0;
        while i < keys.len()
            invariant
                i <= keys.len(),
                forall|k: RankedKey|
                    keys@.contains(k) <==> other@.dom().contains((k.document, k.attribute)),
                forall|k: (u64, u16)|
                    self@.dom().contains(k) <==> old(self)@.dom().contains(k) || exists|j: int|
                        0 <= j < i && (#[trigger] keys[j]).document == k.0 && keys[j].attribute
                            == k.1,
                forall|k: (u64, u16)|
                    self@.dom().contains(k) ==> #[trigger] self@[k] == if exists|j: int|
                        0 <= j < i && (#[trigger] keys[j]).document == k.0 && keys[j].attribute
                            == k.1 {
                        other@[k]
                    } else {
                        old(self)@[k]
                    },
            decreases keys.len() - i,
        {
            let key = keys[i];
            let ghost before = self@;
            proof {
                assert(keys@.contains(key));
            }
            match other.get(DocumentId(key.document), SchemaAttr(key.attribute)) {
                Some(number) => {
                    self.insert(DocumentId(key.document), SchemaAttr(key.attribute), number);
                },
                None => {
                    assert(false);
                },
            }
            proof {
                assert forall|k: (u64, u16)|
                    self@.dom().contains(k) <==> old(self)@.dom().contains(k) || exists|j: int|
                        0 <= j < i + 1 && (#[trigger] keys[j]).document == k.0
                            && keys[j].attribute == k.1 by {
                    if k == (key.document, key.attribute) {
                        assert(keys[i as int].document == k.0);
                    } else if before.dom().contains(k) && !old(self)@.dom().contains(k) {
                        let j = choose|j: int|
                            0 <= j < i && (#[trigger] keys[j]).document == k.0
                                && keys[j].attribute == k.1;
                        assert(keys[j].document == k.0);
                    }
                }
                assert forall|k: (u64, u16)| self@.dom().contains(k) implies #[trigger] self@[k]
                    == if exists|j: int|
                    0 <= j < i + 1 && (#[trigger] keys[j]).document == k.0 && keys[j].attribute
                        == k.1 {
                    other@[k]
                } else {
                    old(self)@[k]
                } by {
                    if k == (key.document, key.attribute) {
                        assert(keys[i as int].document == k.0);
                    } else {
                        if exists|j: int|
                            0 <= j < i && (#[trigger] keys[j]).document == k.0
                                && keys[j].attribute == k.1 {
                            let j = choose|j: int|
                                0 <= j < i && (#[trigger] keys[j]).document == k.0
                                    && keys[j].attribute == k.1;
                            assert(keys[j].document == k.0);
                        }
                    }
                }
            }
            i = i + 1;
        }
        proof {
            let merged = old(self)@.union_prefer_right(other@);
            assert forall|k: (u64, u16)| self@.dom().contains(k) <==> merged.dom().contains(k) by {
                if other@.dom().contains(k) {
                    let key = RankedKey { document: k.0, attribute: k.1 };
                    assert(keys@.contains(key));
                    let j = choose|j: int| 0 <= j < keys.len() && keys[j] == key;
                    assert(keys[j].document == k.0);
                }
                if exists|j: int|
                    0 <= j < keys.len() && (#[trigger] keys[j]).document == k.0
                        && keys[j].attribute == k.1 {
                    let j = choose|j: int|
                        0 <= j < keys.len() && (#[trigger] keys[j]).document == k.0
                            && keys[j].attribute == k.1;
                    assert(keys@.contains(keys[j]));
                }
            }
            assert forall|k: (u64, u16)| self@.dom().contains(k) implies self@[k] == merged[k] by {
                if other@.dom().contains(k) {
                    let key = RankedKey { document: k.0, attribute: k.1 };
                    assert(keys@.contains(key));
                    let j = choose|j: int| 0 <= j < keys.len() && keys[j] == key;
                    assert(keys[j].document == k.0);
                } else {
                    if exists|j: int|
                        0 <= j < keys.len() && (#[trigger] keys[j]).document == k.0
                            && keys[j].attribute == k.1 {
                        let j = choose|j: int|
                            0 <= j < keys.len() && (#[trigger] keys[j]).document == k.0
                                && keys[j].attribute == k.1;
                        assert(keys@.contains(keys[j]));
                    }
                }
            }
            assert(self@ =~= merged);
        }
    }

    /// The map that holds the entries given, a later one winning over an
    /// earlier one with the same key.
    pub fn from_entries(entries: &Vec<RankedEntry>) -> (map: RankedMap)
        ensures
            map@ == entries_map(entries@),
    {
        let mut map = RankedMap::new();
        let mut i: usize = 0;
        while i < entries.len()
            invariant
                i <= entries.len(),
                map@ == entries_map(entries@.take(i as int)),
            decreases entries.len() - i,
        {
            proof {
                assert(entries@.take(i + 1).drop_last() =~= entries@.take(i as int));
            }
            map.insert(entries[i].document, entries[i].attribute, entries[i].number);
            i = i + 1;
        }
        proof {
            assert(entries@.take(i as int) =~= entries@);
        }
        map
    }
}

/// The map that a list of entries makes, a later entry winning over an
/// earlier one with the same key.
pub open spec fn entries_map(entries: Seq<RankedEntry>) -> Map<(u64, u16), Number>
    decreases entries.len(),
{
    if entries.len() == 0 {
        Map::empty()
    } else {
        entries_map(entries.drop_last()).insert(
            (entries.last().document.0, entries.last().attribute.0),
            entries.last().number,
        )
    }
}

/// Why the bytes of a ranked map were not taken, or a ranked map not written.
#[derive(Clone, Copy, Debug, PartialEq, Eq, Structural)]
pub enum RankedMapError {
    /// The bytes end before the two lists of a ranked map do.
    Bincode,
    /// The bytes hold a float that is not finite.
    NotFinite,
}

/// The kind of error that bincode answers with.
#[verifier::external_type_specification]
#[verifier::external_body]
pub struct ExBincodeErrorKind(bincode::ErrorKind);

/// An integer of a ranked map with its key, as it is written.
pub type RawInteger = (u64, u16, i64);

/// A float of a ranked map with its key, as it is written: the float as its bits.
pub type RawFloat = (u64, u16, u64);

/// Calls `bincode::serialize` on the pair of the two lists. It writes
/// each list as its length in eight bytes and then its items, an item as
/// its three numbers in eight, two and eight bytes, every number with its
/// least significant byte first. No limit is set on the size and the lists
/// know their lengths, so it refuses nothing.
#[verifier::external_body]
fn bincode_serialize(integers: &Vec<RawInteger>, floats: &Vec<RawFloat>) -> (res: Result<
    Vec<u8>,
    Box<bincode::ErrorKind>,
>)
    ensures
        res is Ok,
        res->Ok_0@ == ranked_bytes(integers@, floats@),
{
    bincode::serialize(&(integers, floats))
}

/// Calls `bincode::deserialize` for a pair of two lists. It reads what
/// `bincode::serialize` writes for such a pair, leaves the bytes that
/// follow unread, and refuses the bytes where they end before the lists do.
#[verifier::external_body]
fn bincode_deserialize(bytes: &[u8]) -> (res: Result<
    (Vec<RawInteger>, Vec<RawFloat>),
    Box<bincode::ErrorKind>,
>)
    ensures
        match res {
            Ok(lists) => begins_with(bytes@, lists.0@, lists.1@),
            Err(_) => ranked_read(bytes@) is None,
        },
{
    bincode::deserialize(bytes)
}

/// The integers among the entries, in their order.
pub open spec fn integers_of(entries: Seq<RankedEntry>) -> Seq<RawInteger>
    decreases entries.len(),
{
    if entries.len() == 0 {
        Seq::empty()
    } else {
        match entries.last().number {
            Number::Integer(i) => integers_of(entries.drop_last()).push(
                (entries.last().document.0, entries.last().attribute.0, i),
            ),
            Number::Float(_) => integers_of(entries.drop_last()),
        }
    }
}

/// The floats among the entries, in their order.
pub open spec fn floats_of(entries: Seq<RankedEntry>) -> Seq<RawFloat>
    decreases entries.len(),
{
    if entries.len() == 0 {
        Seq::empty()
    } else {
        match entries.last().number {
            Number::Float(bits) => floats_of(entries.drop_last()).push(
                (entries.last().document.0, entries.last().attribute.0, bits),
            ),
            Number::Integer(_) => floats_of(entries.drop_last()),
        }
    }
}

/// Every float of the list is finite.
pub open spec fn all_finite(floats: Seq<RawFloat>) -> bool {
    forall|i: int| 0 <= i < floats.len() ==> crate::number::is_finite((#[trigger] floats[i]).2)
}

/// The map that holds the integers given.
pub open spec fn integers_map(integers: Seq<RawInteger>) -> Map<(u64, u16), Number>
    decreases integers.len(),
{
    if integers.len() == 0 {
        Map::empty()
    } else {
        integers_map(integers.drop_last()).insert(
            (integers.last().0, integers.last().1),
            Number::Integer(integers.last().2),
        )
    }
}

/// The map that holds the integers given and then takes the floats given.
pub open spec fn parts_map(integers: Seq<RawInteger>, floats: Seq<RawFloat>) -> Map<
    (u64, u16),
    Number,
>
    decreases floats.len(),
{
    if floats.len() == 0 {
        integers_map(integers)
    } else {
        parts_map(integers, floats.drop_last()).insert(
            (floats.last().0, floats.last().1),
            Number::Float(floats.last().2),
        )
    }
}

/// What reading a ranked map answers for the lists that were read from the bytes.
pub open spec fn read_result(read: Option<(Seq<RawInteger>, Seq<RawFloat>)>) -> Result<
    Map<(u64, u16), Number>,
    RankedMapError,
> {
    match read {
        None => Err(RankedMapError::Bincode),
        Some((integers, floats)) => if all_finite(floats) {
            Ok(parts_map(integers, floats))
        } else {
            Err(RankedMapError::NotFinite)
        },
    }
}

impl RankedMap {
    /// The integers and the floats of the map, each list in ascending order
    /// of document and attribute.
    pub fn to_parts(&self) -> (parts: (Vec<RawInteger>, Vec<RawFloat>))
        ensures
            exists|entries: Seq<RankedEntry>| #[trigger]
                lists(entries, self@) && parts.0@ == integers_of(entries) && parts.1@ == floats_of(
                    entries,
                ),
    {
        let entries = self.entries();
        let mut integers: Vec<RawInteger> = Vec::new();
        let mut floats: Vec<RawFloat> = Vec::new();
        let mut i: usize = 0;
        while i < entries.len()
            invariant
                i <= entries.len(),
                integers@ == integers_of(entries@.take(i as int)),
                floats@ == floats_of(entries@.take(i as int)),
            decreases entries.len() - i,
        {
            proof {
                assert(entries@.take(i + 1).drop_last() =~= entries@.take(i as int));
            }
            let entry = entries[i];
            match entry.number {
                Number::Integer(value) => {
                    integers.push((entry.document.0, entry.attribute.0, value));
                },
                Number::Float(bits) => {
                    floats.push((entry.document.0, entry.attribute.0, bits));
                },
            }
            i = i + 1;
        }
        proof {
            assert(entries@.take(i as int) =~= entries@);
        }
        (integers, floats)
    }

    /// The map that holds the integers given and then takes the floats
    /// given, unless a float is not finite.
    pub fn from_parts(integers: &Vec<RawInteger>, floats: &Vec<RawFloat>) -> (res: Result<
        RankedMap,
        RankedMapError,
    >)
        ensures
            match res {
                Ok(map) => read_result(Some((integers@, floats@))) == Ok::<
                    Map<(u64, u16), Number>,
                    RankedMapError,
                >(map@),
                Err(e) => read_result(Some((integers@, floats@))) == Err::<
                    Map<(u64, u16), Number>,
                    RankedMapError,
                >(e),
            },
    {
        let mut map = RankedMap::new();
        let mut i: usize = 0;
        while i < integers.len()
            invariant
                i <= integers.len(),
                map@ == integers_map(integers@.take(i as int)),
            decreases integers.len() - i,
        {
            proof {
                assert(integers@.take(i + 1).drop_last() =~= integers@.take(i as int));
            }
            let entry = integers[i];
            map.insert(DocumentId(entry.0), SchemaAttr(entry.1), Number::Integer(entry.2));
            i = i + 1;
        }
        proof {
            assert(integers@.take(i as int) =~= integers@);
        }
        let mut k: usize = 0;
        while k < floats.len()
            invariant
                k <= floats.len(),
                map@ == parts_map(integers@, floats@.take(k as int)),
                forall|j: int| 0 <= j < k ==> crate::number::is_finite((#[trigger] floats@[j]).2),
            decreases floats.len() - k,
        {
            proof {
                assert(floats@.take(k + 1).drop_last() =~= floats@.take(k as int));
            }
            let entry = floats[k];
            match Number::from_float_bits(entry.2) {
                Some(number) => {
                    map.insert(DocumentId(entry.0), SchemaAttr(entry.1), number);
                },
                None => {
                    return Err(RankedMapError::NotFinite);
                },
            }
            k = k + 1;
        }
        proof {
            assert(floats@.take(k as int) =~= floats@);
        }
        Ok(map)
    }

    /// Reads a ranked map from bytes that begin with what `write_to_bin`
    /// writes: the list of the integers, then the list of the floats.
    pub fn read_from_bin(bytes: &[u8]) -> (res: Result<RankedMap, RankedMapError>)
        ensures
            match res {
                Ok(map) => read_result(ranked_read(bytes@)) == Ok::<
                    Map<(u64, u16), Number>,
                    RankedMapError,
                >(map@),
                Err(e) => read_result(ranked_read(bytes@)) == Err::<
                    Map<(u64, u16), Number>,
                    RankedMapError,
                >(e),
            },
    {
        match bincode_deserialize(bytes) {
            Ok(lists) => {
                proof {
                    crate::ranked_bytes::lemma_ranked_read(bytes@, lists.0@, lists.1@);
                }
                RankedMap::from_parts(&lists.0, &lists.1)
            },
            Err(_) => Err(RankedMapError::Bincode),
        }
    }

    /// Writes the map to bytes: the list of its integers, then the list of
    /// its floats, each in ascending order of document and attribute.
    pub fn write_to_bin(&self) -> (res: Result<Vec<u8>, RankedMapError>)
        ensures
            exists|entries: Seq<RankedEntry>| #[trigger]
                lists(entries, self@) && res == Ok::<Vec<u8>, RankedMapError>(res->Ok_0)
                    && res->Ok_0@ == ranked_bytes(integers_of(entries), floats_of(entries)),
    {
        let parts = self.to_parts();
        let ghost entries = choose|entries: Seq<RankedEntry>| #[trigger]
            lists(entries, self@) && parts.0@ == integers_of(entries) && parts.1@ == floats_of(
                entries,
            );
        match bincode_serialize(&parts.0, &parts.1) {
            Ok(bytes) => {
                assert(lists(entries, self@));
                Ok(bytes)
            },
            Err(_) => Err(RankedMapError::Bincode),
        }
    }
}

/// The documents that an update touches. A hash set holds them.
#[verifier::external_body]
pub struct DocumentSet {
    inner: hashbrown::HashSet<u64>,
}

/// What a document set holds.
pub uninterp spec fn document_set(set: DocumentSet) -> Set<u64>;

/// Calls `hashbrown::HashSet::new`, which makes an empty set.
#[verifier::external_body]
fn raw_set_new() -> (set: DocumentSet)
    ensures
        document_set(set) == Set::<u64>::empty(),
{
    DocumentSet { inner: hashbrown::HashSet::new() }
}

/// Calls `hashbrown::HashSet::insert`: the set holds the value afterwards,
/// and what it held before.
#[verifier::external_body]
fn raw_set_insert(set: &mut DocumentSet, document: u64)
    ensures
        document_set(*final(set)) == document_set(*old(set)).insert(document),
{
    set.inner.insert(document);
}

/// Calls `hashbrown::HashSet::iter`, which visits every value of the set in
/// an order that is not specified: the vector holds the values of the set
/// and nothing else.
#[verifier::external_body]
fn raw_set_values(set: &DocumentSet) -> (values: Vec<DocumentId>)
    ensures
        forall|id: DocumentId| values@.contains(id) <==> document_set(*set).contains(id.0),
{
    set.inner.iter().map(|id| DocumentId(*id)).collect()
}

impl DocumentSet {
    /// The identifiers in the set.
    pub open spec fn view(&self) -> Set<u64> {
        document_set(*self)
    }

    /// A set that holds nothing.
    pub fn new() -> (set: DocumentSet)
        ensures
            set@ == Set::<u64>::empty(),
    {
        raw_set_new()
    }

    /// Adds a document to the set.
    pub fn insert(&mut self, document: DocumentId)
        ensures
            final(self)@ == old(self)@.insert(document.0),
    {
        raw_set_insert(self, document.0)
    }

    /// The documents of the set, in ascending order.
    pub fn to_doc_ids(&self) -> (ids: DocIds)
        ensures
            ascending(ids@),
            forall|id: DocumentId| ids@.contains(id) <==> self@.contains(id.0),
    {
        let values = raw_set_values(self);
        DocIds::new(&values)
    }
}

} // verus!
