use vstd::prelude::*;
use crate::number::is_finite;
use crate::number::Number;
use crate::ranked_bytes::lemma_ranked_bytes_round_trip;
use crate::ranked_bytes::ranked_bytes;
use crate::ranked_bytes::ranked_read;
use crate::ranked_map::all_finite;
use crate::ranked_map::entries_map;
use crate::ranked_map::floats_of;
use crate::ranked_map::integers_of;
use crate::ranked_map::lists;
use crate::ranked_map::parts_map;
use crate::ranked_map::read_result;
use crate::ranked_map::RankedEntry;
use crate::ranked_map::RankedMapError;
use crate::ranked_map::RawFloat;
use crate::ranked_map::RawInteger;

verus! {

/// The key of an entry: its document and its attribute.
pub open spec fn entry_key(entry: RankedEntry) -> (u64, u16) {
    (entry.document.0, entry.attribute.0)
}

/// No two entries have the same key.
pub open spec fn distinct_keys(entries: Seq<RankedEntry>) -> bool {
    forall|i: int, j: int|
        0 <= i < j < entries.len() ==> entry_key(#[trigger] entries[i]) != entry_key(
            #[trigger] entries[j],
        )
}

/// Every float of a ranked map is finite.
pub open spec fn finite_floats(map: Map<(u64, u16), Number>) -> bool {
    forall|k: (u64, u16)| #[trigger]
        map.dom().contains(k) ==> (map[k] matches Number::Float(bits) ==> is_finite(bits))
}

/// Whether an entry of the list has the key.
spec fn has_key(entries: Seq<RankedEntry>, key: (u64, u16)) -> bool {
    exists|i: int| 0 <= i < entries.len() && entry_key(#[trigger] entries[i]) == key
}

/// The integers and the floats among entries are no more than the entries,
/// and each has the key and the number of an entry.
proof fn lemma_parts_of(entries: Seq<RankedEntry>)
    ensures
        integers_of(entries).len() <= entries.len(),
        floats_of(entries).len() <= entries.len(),
        forall|j: int|
            0 <= j < floats_of(entries).len() ==> has_key(
                entries,
                ((#[trigger] floats_of(entries)[j]).0, floats_of(entries)[j].1),
            ),
        forall|j: int|
            0 <= j < floats_of(entries).len() ==> exists|i: int|
                0 <= i < entries.len() && (#[trigger] entries[i]).number == Number::Float(
                    (#[trigger] floats_of(entries)[j]).2,
                ),
    decreases entries.len(),
{
    if entries.len() > 0 {
        let before = entries.drop_last();
        lemma_parts_of(before);
        let floats = floats_of(entries);
        assert forall|j: int| 0 <= j < floats.len() implies has_key(
            entries,
            ((#[trigger] floats[j]).0, floats[j].1),
        ) by {
            if j < floats_of(before).len() {
                assert(floats[j] == floats_of(before)[j]);
                let key = (floats[j].0, floats[j].1);
                assert(has_key(before, key));
                let i = choose|i: int| 0 <= i < before.len() && entry_key(#[trigger] before[i]) == key;
                assert(entries[i] == before[i]);
            } else {
                assert(entry_key(entries[entries.len() - 1]) == (floats[j].0, floats[j].1));
            }
        }
        assert forall|j: int| 0 <= j < floats.len() implies exists|i: int|
            0 <= i < entries.len() && (#[trigger] entries[i]).number == Number::Float(
                (#[trigger] floats[j]).2,
            ) by {
            if j < floats_of(before).len() {
                assert(floats[j] == floats_of(before)[j]);
                let i = choose|i: int|
                    0 <= i < before.len() && (#[trigger] before[i]).number == Number::Float(
                        floats_of(before)[j].2,
                    );
                assert(entries[i] == before[i]);
            } else {
                assert(entries[entries.len() - 1].number == Number::Float(floats[j].2));
            }
        }
    }
}

/// An integer whose key no float has can be taken last.
proof fn lemma_integer_last(integers: Seq<RawInteger>, floats: Seq<RawFloat>, integer: RawInteger)
    requires
        forall|j: int|
            0 <= j < floats.len() ==> ((#[trigger] floats[j]).0, floats[j].1) != (
                integer.0,
                integer.1,
            ),
    ensures
        parts_map(integers.push(integer), floats) == parts_map(integers, floats).insert(
            (integer.0, integer.1),
            Number::Integer(integer.2),
        ),
    decreases floats.len(),
{
    if floats.len() == 0 {
        assert(integers.push(integer).drop_last() =~= integers);
    } else {
        let before = floats.drop_last();
        assert forall|j: int| 0 <= j < before.len() implies ((#[trigger] before[j]).0, before[j].1)
            != (integer.0, integer.1) by {
            assert(before[j] == floats[j]);
        }
        lemma_integer_last(integers, before, integer);
        assert((floats[floats.len() - 1].0, floats[floats.len() - 1].1) != (integer.0, integer.1));
        assert(parts_map(integers.push(integer), floats) =~= parts_map(integers, floats).insert(
            (integer.0, integer.1),
            Number::Integer(integer.2),
        ));
    }
}

/// The integers and then the floats of entries with distinct keys make
/// the map that the entries make.
proof fn lemma_parts_map(entries: Seq<RankedEntry>)
    requires
        distinct_keys(entries),
    ensures
        parts_map(integers_of(entries), floats_of(entries)) == entries_map(entries),
    decreases entries.len(),
{
    if entries.len() == 0 {
    } else {
        let before = entries.drop_last();
        let last = entries.last();
        assert forall|i: int, j: int| 0 <= i < j < before.len() implies entry_key(
            #[trigger] before[i],
        ) != entry_key(#[trigger] before[j]) by {
            assert(before[i] == entries[i] && before[j] == entries[j]);
        }
        lemma_parts_map(before);
        match last.number {
            Number::Float(bits) => {
                assert(floats_of(entries).drop_last() =~= floats_of(before));
            },
            Number::Integer(value) => {
                lemma_parts_of(before);
                let floats = floats_of(before);
                assert forall|j: int| 0 <= j < floats.len() implies ((#[trigger] floats[j]).0, floats[j].1)
                    != entry_key(last) by {
                    let key = (floats[j].0, floats[j].1);
                    assert(has_key(before, key));
                    let i = choose|i: int| 0 <= i < before.len() && entry_key(#[trigger] before[i]) == key;
                    assert(before[i] == entries[i]);
                    assert(entry_key(entries[i]) != entry_key(entries[entries.len() - 1]));
                }
                lemma_integer_last(
                    integers_of(before),
                    floats,
                    (last.document.0, last.attribute.0, value),
                );
            },
        }
    }
}

/// Entries with distinct keys make the map that holds each of them.
proof fn lemma_entries_map(entries: Seq<RankedEntry>)
    requires
        distinct_keys(entries),
    ensures
        forall|k: (u64, u16)| #[trigger] entries_map(entries).dom().contains(k) <==> has_key(entries, k),
        forall|i: int|
            0 <= i < entries.len() ==> entries_map(entries)[entry_key(#[trigger] entries[i])]
                == entries[i].number,
    decreases entries.len(),
{
    if entries.len() > 0 {
        let before = entries.drop_last();
        let last = entries.last();
        assert forall|i: int, j: int| 0 <= i < j < before.len() implies entry_key(
            #[trigger] before[i],
        ) != entry_key(#[trigger] before[j]) by {
            assert(before[i] == entries[i] && before[j] == entries[j]);
        }
        lemma_entries_map(before);
        assert forall|k: (u64, u16)| #[trigger]
            entries_map(entries).dom().contains(k) <==> has_key(entries, k) by {
            if has_key(entries, k) {
                let i = choose|i: int| 0 <= i < entries.len() && entry_key(#[trigger] entries[i]) == k;
                if i < before.len() {
                    assert(before[i] == entries[i]);
                    assert(has_key(before, k));
                }
            }
            if entries_map(entries).dom().contains(k) {
                if k == entry_key(last) {
                    assert(entry_key(entries[entries.len() - 1]) == k);
                } else {
                    assert(has_key(before, k));
                    let i = choose|i: int| 0 <= i < before.len() && entry_key(#[trigger] before[i]) == k;
                    assert(before[i] == entries[i]);
                }
            }
        }
        assert forall|i: int| 0 <= i < entries.len() implies entries_map(entries)[entry_key(
            #[trigger] entries[i],
        )] == entries[i].number by {
            if i < before.len() {
                assert(before[i] == entries[i]);
                assert(entry_key(entries[i]) != entry_key(entries[entries.len() - 1]));
            }
        }
    }
}

/// Reading the bytes that a ranked map writes gives the ranked map back,
/// whatever bytes follow them, where the floats of the map are finite.
pub proof fn lemma_ranked_map_round_trip(
    map: Map<(u64, u16), Number>,
    entries: Seq<RankedEntry>,
    rest: Seq<u8>,
)
    requires
        lists(entries, map),
        entries.len() <= u64::MAX,
        finite_floats(map),
    ensures
        read_result(
            ranked_read(ranked_bytes(integers_of(entries), floats_of(entries)) + rest),
        ) == Ok::<Map<(u64, u16), Number>, RankedMapError>(map),
{
    let integers = integers_of(entries);
    let floats = floats_of(entries);
    lemma_parts_of(entries);
    lemma_ranked_bytes_round_trip(integers, floats, rest);
    assert(distinct_keys(entries));
    lemma_parts_map(entries);
    lemma_entries_map(entries);
    assert forall|j: int| 0 <= j < floats.len() implies is_finite((#[trigger] floats[j]).2) by {
        let i = choose|i: int|
            0 <= i < entries.len() && (#[trigger] entries[i]).number == Number::Float(floats[j].2);
        assert(map.dom().contains((entries[i].document.0, entries[i].attribute.0)));
    }
    assert(all_finite(floats));
    assert forall|k: (u64, u16)| map.dom().contains(k) <==> entries_map(entries).dom().contains(
        k,
    ) by {
        if map.dom().contains(k) {
            let i = choose|i: int|
                0 <= i < entries.len() && (#[trigger] entries[i]).document.0 == k.0
                    && entries[i].attribute.0 == k.1;
            assert(entry_key(entries[i]) == k);
            assert(has_key(entries, k));
        }
        if has_key(entries, k) {
            let i = choose|i: int| 0 <= i < entries.len() && entry_key(#[trigger] entries[i]) == k;
            assert(map.dom().contains((entries[i].document.0, entries[i].attribute.0)));
        }
    }
    assert forall|k: (u64, u16)| map.dom().contains(k) implies map[k] == entries_map(entries)[k] by {
        let i = choose|i: int|
            0 <= i < entries.len() && (#[trigger] entries[i]).document.0 == k.0
                && entries[i].attribute.0 == k.1;
        assert(entry_key(entries[i]) == k);
    }
    assert(map =~= entries_map(entries));
}

} // verus!
