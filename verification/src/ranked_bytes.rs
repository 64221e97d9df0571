use vstd::prelude::*;

verus! {

/// A number of a ranked map with its key, as it is written: the document,
/// the attribute, and the 64 bits of the number.
pub type Record = (u64, u16, u64);

/// The eight bytes of a 64-bit number, the least significant first.
pub open spec fn le_bytes_64(value: u64) -> Seq<u8> {
    seq![
        (value & 0xff) as u8,
        ((value >> 8) & 0xff) as u8,
        ((value >> 16) & 0xff) as u8,
        ((value >> 24) & 0xff) as u8,
        ((value >> 32) & 0xff) as u8,
        ((value >> 40) & 0xff) as u8,
        ((value >> 48) & 0xff) as u8,
        ((value >> 56) & 0xff) as u8,
    ]
}

/// The two bytes of a 16-bit number, the least significant first.
pub open spec fn le_bytes_16(value: u16) -> Seq<u8> {
    seq![(value & 0xff) as u8, (value >> 8) as u8]
}

/// The 64 bits of a signed number, in two's complement.
pub open spec fn bits_of(value: i64) -> u64 {
    if value >= 0 {
        value as u64
    } else {
        (value + u64::MAX + 1) as u64
    }
}

/// The eighteen bytes of a record: the document, the attribute and the
/// number, each with its least significant byte first.
pub open spec fn record_bytes(record: Record) -> Seq<u8> {
    le_bytes_64(record.0) + le_bytes_16(record.1) + le_bytes_64(record.2)
}

/// The bytes of records, one after the other.
pub open spec fn records_bytes(records: Seq<Record>) -> Seq<u8>
    decreases records.len(),
{
    if records.len() == 0 {
        Seq::empty()
    } else {
        records_bytes(records.drop_last()) + record_bytes(records.last())
    }
}

/// The bytes of a list of records: how many there are, in eight bytes with
/// the least significant first, then the records.
pub open spec fn list_bytes(records: Seq<Record>) -> Seq<u8> {
    le_bytes_64(records.len() as u64) + records_bytes(records)
}

/// The integers of a ranked map as records: each number as its 64 bits.
pub open spec fn integer_records(integers: Seq<(u64, u16, i64)>) -> Seq<Record> {
    Seq::new(integers.len(), |i: int| (integers[i].0, integers[i].1, bits_of(integers[i].2)))
}

/// The bytes of a ranked map: the list of its integers, then the list of
/// its floats, each float as its 64 bits.
pub open spec fn ranked_bytes(integers: Seq<(u64, u16, i64)>, floats: Seq<Record>) -> Seq<u8> {
    list_bytes(integer_records(integers)) + list_bytes(floats)
}

/// Bytes begin with the bytes of a ranked map of the given integers and floats.
pub open spec fn begins_with(bytes: Seq<u8>, integers: Seq<(u64, u16, i64)>, floats: Seq<Record>) -> bool {
    &&& integers.len() <= u64::MAX
    &&& floats.len() <= u64::MAX
    &&& ranked_bytes(integers, floats).is_prefix_of(bytes)
}

/// The integers and the floats of the ranked map that bytes begin with, if
/// they begin with one.
pub open spec fn ranked_read(bytes: Seq<u8>) -> Option<(Seq<(u64, u16, i64)>, Seq<Record>)> {
    if exists|integers: Seq<(u64, u16, i64)>, floats: Seq<Record>|
        begins_with(bytes, integers, floats) {
        Some(
            choose|lists: (Seq<(u64, u16, i64)>, Seq<Record>)|
                begins_with(bytes, lists.0, lists.1),
        )
    } else {
        None
    }
}

/// The two bytes of a number say which number it is.
pub proof fn lemma_le_bytes_16_identify(a: u16, b: u16)
    requires
        le_bytes_16(a) == le_bytes_16(b),
    ensures
        a == b,
{
    assert(le_bytes_16(a)[0] == le_bytes_16(b)[0]);
    assert(le_bytes_16(a)[1] == le_bytes_16(b)[1]);
    assert((a >> 8) as u8 == (b >> 8) as u8 && (a & 0xff) as u8 == (b & 0xff) as u8 ==> a == b)
        by (bit_vector);
}

/// The eight bytes of a number say which number it is.
pub proof fn lemma_le_bytes_64_identify(a: u64, b: u64)
    requires
        le_bytes_64(a) == le_bytes_64(b),
    ensures
        a == b,
{
    assert(le_bytes_64(a)[0] == le_bytes_64(b)[0]);
    assert(le_bytes_64(a)[1] == le_bytes_64(b)[1]);
    assert(le_bytes_64(a)[2] == le_bytes_64(b)[2]);
    assert(le_bytes_64(a)[3] == le_bytes_64(b)[3]);
    assert(le_bytes_64(a)[4] == le_bytes_64(b)[4]);
    assert(le_bytes_64(a)[5] == le_bytes_64(b)[5]);
    assert(le_bytes_64(a)[6] == le_bytes_64(b)[6]);
    assert(le_bytes_64(a)[7] == le_bytes_64(b)[7]);
    assert(((a >> 56) & 0xff) as u8 == ((b >> 56) & 0xff) as u8 && ((a >> 48) & 0xff) as u8 == ((b
        >> 48) & 0xff) as u8 && ((a >> 40) & 0xff) as u8 == ((b >> 40) & 0xff) as u8 && ((a >> 32)
        & 0xff) as u8 == ((b >> 32) & 0xff) as u8 && ((a >> 24) & 0xff) as u8 == ((b >> 24)
        & 0xff) as u8 && ((a >> 16) & 0xff) as u8 == ((b >> 16) & 0xff) as u8 && ((a >> 8)
        & 0xff) as u8 == ((b >> 8) & 0xff) as u8 && (a & 0xff) as u8 == (b & 0xff) as u8 ==> a
        == b) by (bit_vector);
}

/// Two byte sequences that are equal begin with the same bytes and go on
/// with the same bytes.
proof fn lemma_split(a: Seq<u8>, ra: Seq<u8>, b: Seq<u8>, rb: Seq<u8>)
    requires
        a.len() == b.len(),
        a + ra == b + rb,
    ensures
        a == b,
        ra == rb,
{
    let n = a.len() as int;
    assert((a + ra).subrange(0, n) =~= a);
    assert((b + rb).subrange(0, n) =~= b);
    assert((a + ra).subrange(n, (a + ra).len() as int) =~= ra);
    assert((b + rb).subrange(n, (b + rb).len() as int) =~= rb);
}

/// The bytes of a record say which record it is, whatever follows them.
proof fn lemma_record_identify(a: Record, ra: Seq<u8>, b: Record, rb: Seq<u8>)
    requires
        record_bytes(a) + ra == record_bytes(b) + rb,
    ensures
        a == b,
        ra == rb,
{
    lemma_split(record_bytes(a), ra, record_bytes(b), rb);
    lemma_split(
        le_bytes_64(a.0) + le_bytes_16(a.1),
        le_bytes_64(a.2),
        le_bytes_64(b.0) + le_bytes_16(b.1),
        le_bytes_64(b.2),
    );
    lemma_split(le_bytes_64(a.0), le_bytes_16(a.1), le_bytes_64(b.0), le_bytes_16(b.1));
    lemma_le_bytes_64_identify(a.0, b.0);
    lemma_le_bytes_16_identify(a.1, b.1);
    lemma_le_bytes_64_identify(a.2, b.2);
}

/// The bytes of as many records say which records they are, whatever
/// follows them.
proof fn lemma_records_identify(a: Seq<Record>, ra: Seq<u8>, b: Seq<Record>, rb: Seq<u8>)
    requires
        a.len() == b.len(),
        records_bytes(a) + ra == records_bytes(b) + rb,
    ensures
        a == b,
        ra == rb,
    decreases a.len(),
{
    if a.len() == 0 {
        assert(records_bytes(a) + ra =~= ra);
        assert(records_bytes(b) + rb =~= rb);
        assert(a =~= b);
    } else {
        let ta = record_bytes(a.last()) + ra;
        let tb = record_bytes(b.last()) + rb;
        assert(records_bytes(a) + ra =~= records_bytes(a.drop_last()) + ta);
        assert(records_bytes(b) + rb =~= records_bytes(b.drop_last()) + tb);
        lemma_records_identify(a.drop_last(), ta, b.drop_last(), tb);
        lemma_record_identify(a.last(), ra, b.last(), rb);
        assert(a =~= a.drop_last().push(a.last()));
        assert(b =~= b.drop_last().push(b.last()));
    }
}

/// The bytes of a list say which list it is, whatever follows them.
proof fn lemma_list_identify(a: Seq<Record>, ra: Seq<u8>, b: Seq<Record>, rb: Seq<u8>)
    requires
        a.len() <= u64::MAX,
        b.len() <= u64::MAX,
        list_bytes(a) + ra == list_bytes(b) + rb,
    ensures
        a == b,
        ra == rb,
{
    let ta = records_bytes(a) + ra;
    let tb = records_bytes(b) + rb;
    assert(list_bytes(a) + ra =~= le_bytes_64(a.len() as u64) + ta);
    assert(list_bytes(b) + rb =~= le_bytes_64(b.len() as u64) + tb);
    lemma_split(le_bytes_64(a.len() as u64), ta, le_bytes_64(b.len() as u64), tb);
    lemma_le_bytes_64_identify(a.len() as u64, b.len() as u64);
    lemma_records_identify(a, ra, b, rb);
}

/// The 64 bits of a signed number say which number it is.
proof fn lemma_integer_records_identify(a: Seq<(u64, u16, i64)>, b: Seq<(u64, u16, i64)>)
    requires
        integer_records(a) == integer_records(b),
    ensures
        a == b,
{
    assert(a.len() == integer_records(a).len());
    assert(b.len() == integer_records(b).len());
    assert forall|i: int| 0 <= i < a.len() implies a[i] == b[i] by {
        assert(integer_records(a)[i] == integer_records(b)[i]);
    }
    assert(a =~= b);
}

/// Bytes begin with the bytes of one ranked map at most.
pub proof fn lemma_begins_with_one(
    bytes: Seq<u8>,
    integers: Seq<(u64, u16, i64)>,
    floats: Seq<Record>,
    others: Seq<(u64, u16, i64)>,
    other_floats: Seq<Record>,
)
    requires
        begins_with(bytes, integers, floats),
        begins_with(bytes, others, other_floats),
    ensures
        integers == others,
        floats == other_floats,
{
    let a = ranked_bytes(integers, floats);
    let b = ranked_bytes(others, other_floats);
    let ra = bytes.skip(a.len() as int);
    let rb = bytes.skip(b.len() as int);
    assert(bytes =~= a + ra);
    assert(bytes =~= b + rb);
    let ta = list_bytes(floats) + ra;
    let tb = list_bytes(other_floats) + rb;
    assert(a + ra =~= list_bytes(integer_records(integers)) + ta);
    assert(b + rb =~= list_bytes(integer_records(others)) + tb);
    lemma_list_identify(integer_records(integers), ta, integer_records(others), tb);
    lemma_list_identify(floats, ra, other_floats, rb);
    lemma_integer_records_identify(integers, others);
}

/// What is read from bytes that begin with the bytes of a ranked map is
/// that ranked map.
pub proof fn lemma_ranked_read(bytes: Seq<u8>, integers: Seq<(u64, u16, i64)>, floats: Seq<Record>)
    requires
        begins_with(bytes, integers, floats),
    ensures
        ranked_read(bytes) == Some((integers, floats)),
{
    let lists = choose|lists: (Seq<(u64, u16, i64)>, Seq<Record>)|
        begins_with(bytes, lists.0, lists.1);
    assert(begins_with(bytes, (integers, floats).0, (integers, floats).1));
    lemma_begins_with_one(bytes, integers, floats, lists.0, lists.1);
}

/// Reading what was written gives back what was written, whatever bytes follow.
pub proof fn lemma_ranked_bytes_round_trip(
    integers: Seq<(u64, u16, i64)>,
    floats: Seq<Record>,
    rest: Seq<u8>,
)
    requires
        integers.len() <= u64::MAX,
        floats.len() <= u64::MAX,
    ensures
        ranked_read(ranked_bytes(integers, floats) + rest) == Some((integers, floats)),
{
    let bytes = ranked_bytes(integers, floats) + rest;
    assert(bytes.subrange(0, ranked_bytes(integers, floats).len() as int) =~= ranked_bytes(
        integers,
        floats,
    ));
    lemma_ranked_read(bytes, integers, floats);
}

} // verus!
