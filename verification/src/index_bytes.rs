use vstd::prelude::*;
use vstd::slice::slice_to_vec;
use vstd::string::StringSliceAdditionalSpecFns;
use vstd::utf8::decode_utf8;
use vstd::utf8::encode_utf8;
use vstd::utf8::valid_utf8;
use crate::document_key::be_bytes_16;
use crate::document_key::be_bytes_64;
use crate::document_key::lemma_be_bytes_16_identify;
use crate::document_key::lemma_be_bytes_64_identify;
use crate::document_key::push_be_16;
use crate::document_key::push_be_64;
use crate::document_key::read_be_16;
use crate::document_key::read_be_64;
use crate::index::index_wf;
use crate::index::EntryView;
use crate::index::Index;
use crate::index::IndexBuilder;
use crate::index::IndexError;
use crate::sorted::ascending;
use crate::sorted::lemma_ascending_unique;
use crate::sorted::Keyed;
use crate::text::string_of;
use crate::text::text_of_bytes;
use crate::tokenizer::scalars_of;
use crate::types::DocIndex;
use crate::types::DocumentId;

verus! {

/// The version of the format, at the head of the bytes of an index.
pub const FORMAT_VERSION: u8 = 1;

/// The number of bytes of a posting.
pub const POSTING_SIZE: usize = 16;

/// The bytes of a posting: its document, attribute, word ordinal, start and
/// length, each with the most significant byte first.
pub open spec fn posting_bytes(p: DocIndex) -> Seq<u8> {
    be_bytes_64(p.document_id.0) + be_bytes_16(p.attribute) + be_bytes_16(p.word_index)
        + be_bytes_16(p.char_index) + be_bytes_16(p.char_length)
}

/// The bytes of a list of postings, one after the other.
pub open spec fn postings_bytes(postings: Seq<DocIndex>) -> Seq<u8>
    decreases postings.len(),
{
    if postings.len() == 0 {
        Seq::empty()
    } else {
        posting_bytes(postings[0]) + postings_bytes(postings.drop_first())
    }
}

/// The record of a word in the dictionary: the length of its UTF-8 form,
/// that form, and the number of its postings.
pub open spec fn record_bytes(entry: EntryView) -> Seq<u8> {
    be_bytes_64(encode_utf8(entry.word).len() as u64) + encode_utf8(entry.word) + be_bytes_64(
        entry.postings.len() as u64,
    )
}

/// The records of the words, in dictionary order.
pub open spec fn dictionary_bytes(entries: Seq<EntryView>) -> Seq<u8>
    decreases entries.len(),
{
    if entries.len() == 0 {
        Seq::empty()
    } else {
        record_bytes(entries[0]) + dictionary_bytes(entries.drop_first())
    }
}

/// The postings of all words, in dictionary order of the words.
pub open spec fn blob_bytes(entries: Seq<EntryView>) -> Seq<u8>
    decreases entries.len(),
{
    if entries.len() == 0 {
        Seq::empty()
    } else {
        postings_bytes(entries[0].postings) + blob_bytes(entries.drop_first())
    }
}

/// The bytes of an index: the version, the number of words, the dictionary,
/// then the length of the postings in bytes and the postings.
pub open spec fn index_bytes(entries: Seq<EntryView>) -> Seq<u8> {
    seq![FORMAT_VERSION] + be_bytes_64(entries.len() as u64) + dictionary_bytes(entries)
        + be_bytes_64(blob_bytes(entries).len() as u64) + blob_bytes(entries)
}

/// A word of the dictionary as it is read: the word and the number of its postings.
pub struct Record {
    pub word: Seq<char>,
    pub count: u64,
}

/// Reads a number of eight bytes, and gives what follows it.
pub open spec fn read_u64(b: Seq<u8>) -> Option<(u64, Seq<u8>)> {
    if b.len() >= 8 && exists|x: u64| #[trigger] be_bytes_64(x) == b.take(8) {
        Some((choose|x: u64| #[trigger] be_bytes_64(x) == b.take(8), b.skip(8)))
    } else {
        None
    }
}

/// Reads a posting, and gives what follows it.
pub open spec fn read_posting(b: Seq<u8>) -> Option<(DocIndex, Seq<u8>)> {
    if b.len() >= 16 && exists|p: DocIndex| #[trigger] posting_bytes(p) == b.take(16) {
        Some((choose|p: DocIndex| #[trigger] posting_bytes(p) == b.take(16), b.skip(16)))
    } else {
        None
    }
}

/// Reads `n` postings, and gives what follows them.
pub open spec fn read_postings(b: Seq<u8>, n: nat) -> Option<(Seq<DocIndex>, Seq<u8>)>
    decreases n,
{
    if n == 0 {
        Some((Seq::empty(), b))
    } else {
        match read_posting(b) {
            None => None,
            Some((p, rest)) => match read_postings(rest, (n - 1) as nat) {
                None => None,
                Some((ps, after)) => Some((seq![p] + ps, after)),
            },
        }
    }
}

/// Reads the record of a word, and gives what follows it.
pub open spec fn read_record(b: Seq<u8>) -> Option<(Record, Seq<u8>)> {
    match read_u64(b) {
        None => None,
        Some((len, b1)) => if len > b1.len() || !valid_utf8(b1.take(len as int)) {
            None
        } else {
            match read_u64(b1.skip(len as int)) {
                None => None,
                Some((count, b2)) => Some(
                    (Record { word: decode_utf8(b1.take(len as int)), count }, b2),
                ),
            }
        },
    }
}

/// Reads the records of `n` words, and gives what follows them.
pub open spec fn read_records(b: Seq<u8>, n: nat) -> Option<(Seq<Record>, Seq<u8>)>
    decreases n,
{
    if n == 0 {
        Some((Seq::empty(), b))
    } else {
        match read_record(b) {
            None => None,
            Some((r, rest)) => match read_records(rest, (n - 1) as nat) {
                None => None,
                Some((rs, after)) => Some((seq![r] + rs, after)),
            },
        }
    }
}

/// Reads the postings of the words of the records, and gives what follows them.
pub open spec fn read_entries(records: Seq<Record>, b: Seq<u8>) -> Option<(Seq<EntryView>, Seq<u8>)>
    decreases records.len(),
{
    if records.len() == 0 {
        Some((Seq::empty(), b))
    } else {
        match read_postings(b, records[0].count as nat) {
            None => None,
            Some((ps, rest)) => match read_entries(records.drop_first(), rest) {
                None => None,
                Some((es, after)) => Some(
                    (seq![EntryView { word: records[0].word, postings: ps }] + es, after),
                ),
            },
        }
    }
}

/// The index that bytes hold: none where the bytes are not those of a
/// well-formed index, with nothing before or after.
pub open spec fn parse_index(b: Seq<u8>) -> Option<Seq<EntryView>> {
    if b.len() == 0 || b[0] != FORMAT_VERSION {
        None
    } else {
        match read_u64(b.skip(1)) {
            None => None,
            Some((n, b1)) => match read_records(b1, n as nat) {
                None => None,
                Some((records, b2)) => match read_u64(b2) {
                    None => None,
                    Some((blob_len, b3)) => if blob_len != b3.len() {
                        None
                    } else {
                        match read_entries(records, b3) {
                            None => None,
                            Some((entries, b4)) => if b4.len() == 0 && index_wf(entries) {
                                Some(entries)
                            } else {
                                None
                            },
                        }
                    },
                },
            },
        }
    }
}

/// The records of the words of an index.
pub open spec fn records_of(entries: Seq<EntryView>) -> Seq<Record> {
    Seq::new(
        entries.len(),
        |i: int| Record { word: entries[i].word, count: entries[i].postings.len() as u64 },
    )
}

/// The sizes of an index fit the sixty-four bits that the format has for them.
pub open spec fn sizes_fit(entries: Seq<EntryView>) -> bool {
    &&& entries.len() <= u64::MAX
    &&& blob_bytes(entries).len() <= u64::MAX
    &&& forall|i: int|
        0 <= i < entries.len() ==> encode_utf8((#[trigger] entries[i]).word).len() <= u64::MAX
            && entries[i].postings.len() <= u64::MAX
}

/// What is read from bytes that start with the bytes of a number.
pub proof fn lemma_read_u64(x: u64, rest: Seq<u8>)
    ensures
        read_u64(be_bytes_64(x) + rest) == Some((x, rest)),
{
    let b = be_bytes_64(x) + rest;
    assert(b.take(8) =~= be_bytes_64(x));
    assert(b.skip(8) =~= rest);
    let y = choose|y: u64| #[trigger] be_bytes_64(y) == b.take(8);
    lemma_be_bytes_64_identify(x, y);
}

/// Two postings with the same bytes are the same posting.
pub proof fn lemma_posting_bytes_identify(p: DocIndex, q: DocIndex)
    requires
        posting_bytes(p) == posting_bytes(q),
    ensures
        p == q,
{
    let a = posting_bytes(p);
    let b = posting_bytes(q);
    assert(a.subrange(0, 8) =~= be_bytes_64(p.document_id.0));
    assert(b.subrange(0, 8) =~= be_bytes_64(q.document_id.0));
    assert(a.subrange(8, 10) =~= be_bytes_16(p.attribute));
    assert(b.subrange(8, 10) =~= be_bytes_16(q.attribute));
    assert(a.subrange(10, 12) =~= be_bytes_16(p.word_index));
    assert(b.subrange(10, 12) =~= be_bytes_16(q.word_index));
    assert(a.subrange(12, 14) =~= be_bytes_16(p.char_index));
    assert(b.subrange(12, 14) =~= be_bytes_16(q.char_index));
    assert(a.subrange(14, 16) =~= be_bytes_16(p.char_length));
    assert(b.subrange(14, 16) =~= be_bytes_16(q.char_length));
    lemma_be_bytes_64_identify(p.document_id.0, q.document_id.0);
    lemma_be_bytes_16_identify(p.attribute, q.attribute);
    lemma_be_bytes_16_identify(p.word_index, q.word_index);
    lemma_be_bytes_16_identify(p.char_index, q.char_index);
    lemma_be_bytes_16_identify(p.char_length, q.char_length);
}

/// What is read from bytes that start with the bytes of a posting.
pub proof fn lemma_read_posting(p: DocIndex, rest: Seq<u8>)
    ensures
        read_posting(posting_bytes(p) + rest) == Some((p, rest)),
{
    let b = posting_bytes(p) + rest;
    assert(posting_bytes(p).len() == 16);
    assert(b.take(16) =~= posting_bytes(p));
    assert(b.skip(16) =~= rest);
    let q = choose|q: DocIndex| #[trigger] posting_bytes(q) == b.take(16);
    lemma_posting_bytes_identify(p, q);
}

/// The bytes of a list of postings are sixteen for each posting.
pub proof fn lemma_postings_bytes_len(postings: Seq<DocIndex>)
    ensures
        postings_bytes(postings).len() == 16 * postings.len(),
    decreases postings.len(),
{
    if postings.len() > 0 {
        lemma_postings_bytes_len(postings.drop_first());
    }
}

/// What is read from bytes that start with the bytes of a list of postings.
pub proof fn lemma_read_postings(postings: Seq<DocIndex>, rest: Seq<u8>)
    ensures
        read_postings(postings_bytes(postings) + rest, postings.len()) == Some((postings, rest)),
    decreases postings.len(),
{
    if postings.len() == 0 {
        assert(postings_bytes(postings) + rest =~= rest);
        assert(postings =~= Seq::<DocIndex>::empty());
    } else {
        let tail = postings.drop_first();
        let b = postings_bytes(postings) + rest;
        assert(b =~= posting_bytes(postings[0]) + (postings_bytes(tail) + rest));
        lemma_read_posting(postings[0], postings_bytes(tail) + rest);
        lemma_read_postings(tail, rest);
        assert(seq![postings[0]] + tail =~= postings);
    }
}

/// What is read from bytes that start with the record of a word.
pub proof fn lemma_read_record(entry: EntryView, rest: Seq<u8>)
    requires
        encode_utf8(entry.word).len() <= u64::MAX,
        entry.postings.len() <= u64::MAX,
    ensures
        read_record(record_bytes(entry) + rest) == Some(
            (Record { word: entry.word, count: entry.postings.len() as u64 }, rest),
        ),
{
    let w = encode_utf8(entry.word);
    let len = w.len() as u64;
    let count = entry.postings.len() as u64;
    let b = record_bytes(entry) + rest;
    let b1 = w + (be_bytes_64(count) + rest);
    assert(b =~= be_bytes_64(len) + b1);
    lemma_read_u64(len, b1);
    assert(b1.take(len as int) =~= w);
    assert(b1.skip(len as int) =~= be_bytes_64(count) + rest);
    vstd::utf8::encode_utf8_valid_utf8(entry.word);
    vstd::utf8::encode_utf8_decode_utf8(entry.word);
    lemma_read_u64(count, rest);
}

/// What is read from bytes that start with a dictionary.
pub proof fn lemma_read_records(entries: Seq<EntryView>, rest: Seq<u8>)
    requires
        forall|i: int|
            0 <= i < entries.len() ==> encode_utf8((#[trigger] entries[i]).word).len() <= u64::MAX
                && entries[i].postings.len() <= u64::MAX,
    ensures
        read_records(dictionary_bytes(entries) + rest, entries.len()) == Some(
            (records_of(entries), rest),
        ),
    decreases entries.len(),
{
    if entries.len() == 0 {
        assert(dictionary_bytes(entries) + rest =~= rest);
        assert(records_of(entries) =~= Seq::<Record>::empty());
    } else {
        let tail = entries.drop_first();
        let b = dictionary_bytes(entries) + rest;
        assert(b =~= record_bytes(entries[0]) + (dictionary_bytes(tail) + rest));
        lemma_read_record(entries[0], dictionary_bytes(tail) + rest);
        assert forall|i: int| 0 <= i < tail.len() implies encode_utf8(
            (#[trigger] tail[i]).word,
        ).len() <= u64::MAX && tail[i].postings.len() <= u64::MAX by {
            assert(tail[i] == entries[i + 1]);
        }
        lemma_read_records(tail, rest);
        assert(seq![
            Record { word: entries[0].word, count: entries[0].postings.len() as u64 },
        ] + records_of(tail) =~= records_of(entries));
    }
}

/// What is read from bytes that start with the postings of a dictionary.
pub proof fn lemma_read_entries(entries: Seq<EntryView>, rest: Seq<u8>)
    requires
        forall|i: int| 0 <= i < entries.len() ==> (#[trigger] entries[i]).postings.len() <= u64::MAX,
    ensures
        read_entries(records_of(entries), blob_bytes(entries) + rest) == Some((entries, rest)),
    decreases entries.len(),
{
    if entries.len() == 0 {
        assert(blob_bytes(entries) + rest =~= rest);
        assert(entries =~= Seq::<EntryView>::empty());
    } else {
        let tail = entries.drop_first();
        let b = blob_bytes(entries) + rest;
        assert(b =~= postings_bytes(entries[0].postings) + (blob_bytes(tail) + rest));
        lemma_read_postings(entries[0].postings, blob_bytes(tail) + rest);
        assert(records_of(entries).drop_first() =~= records_of(tail));
        assert forall|i: int| 0 <= i < tail.len() implies (#[trigger] tail[i]).postings.len()
            <= u64::MAX by {
            assert(tail[i] == entries[i + 1]);
        }
        lemma_read_entries(tail, rest);
        assert(seq![EntryView { word: entries[0].word, postings: entries[0].postings }] + tail
            =~= entries);
    }
}

/// Round trip: the bytes of a well-formed index are read back as that index.
pub proof fn lemma_index_bytes_round_trip(entries: Seq<EntryView>)
    requires
        index_wf(entries),
        sizes_fit(entries),
    ensures
        parse_index(index_bytes(entries)) == Some(entries),
{
    let n = entries.len() as u64;
    let dict = dictionary_bytes(entries);
    let blob = blob_bytes(entries);
    let blob_len = blob.len() as u64;
    let b = index_bytes(entries);
    let b0 = be_bytes_64(n) + (dict + (be_bytes_64(blob_len) + blob));
    assert(b =~= seq![FORMAT_VERSION] + b0);
    assert(b.skip(1) =~= b0);
    lemma_read_u64(n, dict + (be_bytes_64(blob_len) + blob));
    lemma_read_records(entries, be_bytes_64(blob_len) + blob);
    lemma_read_u64(blob_len, blob);
    assert(blob + Seq::<u8>::empty() =~= blob);
    lemma_read_entries(entries, Seq::<u8>::empty());
}

fn take_u64(bytes: &[u8], pos: usize) -> (res: Option<(u64, usize)>)
    requires
        pos <= bytes@.len(),
    ensures
        match res {
            Some((x, next)) => next == pos + 8 && next <= bytes@.len() && read_u64(
                bytes@.skip(pos as int),
            ) == Some((x, bytes@.skip(next as int))),
            None => read_u64(bytes@.skip(pos as int)) is None,
        },
{
    let n = bytes.len();
    if n - pos < 8 {
        return None;
    }
    let x = read_be_64(bytes, pos);
    proof {
        let b = bytes@.skip(pos as int);
        assert(b.take(8) =~= bytes@.subrange(pos as int, pos + 8));
        assert(b.skip(8) =~= bytes@.skip(pos + 8));
        let y = choose|y: u64| #[trigger] be_bytes_64(y) == b.take(8);
        lemma_be_bytes_64_identify(x, y);
    }
    Some((x, pos + 8))
}

fn take_posting(bytes: &[u8], pos: usize) -> (res: Option<(DocIndex, usize)>)
    requires
        pos <= bytes@.len(),
    ensures
        match res {
            Some((p, next)) => next == pos + 16 && next <= bytes@.len() && read_posting(
                bytes@.skip(pos as int),
            ) == Some((p, bytes@.skip(next as int))),
            None => read_posting(bytes@.skip(pos as int)) is None,
        },
{
    let n = bytes.len();
    if n - pos < 16 {
        return None;
    }
    let p = DocIndex {
        document_id: DocumentId(read_be_64(bytes, pos)),
        attribute: read_be_16(bytes, pos + 8),
        word_index: read_be_16(bytes, pos + 10),
        char_index: read_be_16(bytes, pos + 12),
        char_length: read_be_16(bytes, pos + 14),
    };
    proof {
        let b = bytes@.skip(pos as int);
        let t = b.take(16);
        assert(t.subrange(0, 8) =~= bytes@.subrange(pos as int, pos + 8));
        assert(t.subrange(8, 10) =~= bytes@.subrange(pos + 8, pos + 10));
        assert(t.subrange(10, 12) =~= bytes@.subrange(pos + 10, pos + 12));
        assert(t.subrange(12, 14) =~= bytes@.subrange(pos + 12, pos + 14));
        assert(t.subrange(14, 16) =~= bytes@.subrange(pos + 14, pos + 16));
        assert(posting_bytes(p) =~= t.subrange(0, 8) + t.subrange(8, 10) + t.subrange(10, 12)
            + t.subrange(12, 14) + t.subrange(14, 16));
        assert(posting_bytes(p) =~= t);
        assert(b.skip(16) =~= bytes@.skip(pos + 16));
        let q = choose|q: DocIndex| #[trigger] posting_bytes(q) == b.take(16);
        lemma_posting_bytes_identify(p, q);
    }
    Some((p, pos + 16))
}

/// Reading `i + j` postings is reading `i` postings and then `j` postings.
proof fn lemma_read_postings_split(b: Seq<u8>, i: nat, j: nat)
    ensures
        match read_postings(b, i) {
            None => read_postings(b, i + j) is None,
            Some((ps, rest)) => match read_postings(rest, j) {
                None => read_postings(b, i + j) is None,
                Some((qs, after)) => read_postings(b, i + j) == Some((ps + qs, after)),
            },
        },
    decreases i,
{
    if i == 0 {
        match read_postings(b, j) {
            Some((qs, after)) => {
                assert(Seq::<DocIndex>::empty() + qs =~= qs);
            },
            None => {},
        }
    } else {
        match read_posting(b) {
            None => {},
            Some((p, b1)) => {
                lemma_read_postings_split(b1, (i - 1) as nat, j);
                match read_postings(b1, (i - 1) as nat) {
                    None => {},
                    Some((ps, rest)) => match read_postings(rest, j) {
                        None => {},
                        Some((qs, after)) => {
                            assert((seq![p] + ps) + qs =~= seq![p] + (ps + qs));
                        },
                    },
                }
            },
        }
    }
}

fn take_postings(bytes: &[u8], pos: usize, count: u64) -> (res: Option<(Vec<DocIndex>, usize)>)
    requires
        pos <= bytes@.len(),
    ensures
        match res {
            Some((ps, next)) => pos <= next <= bytes@.len() && read_postings(
                bytes@.skip(pos as int),
                count as nat,
            ) == Some((ps@, bytes@.skip(next as int))),
            None => read_postings(bytes@.skip(pos as int), count as nat) is None,
        },
{
    let ghost b = bytes@.skip(pos as int);
    let mut ps: Vec<DocIndex> = Vec::new();
    let mut at = pos;
    let mut i: u64 = 0;
    while i < count
        invariant
            i <= count,
            pos <= at <= bytes@.len(),
            b == bytes@.skip(pos as int),
            read_postings(b, i as nat) == Some((ps@, bytes@.skip(at as int))),
        decreases count - i,
    {
        let ghost before = ps@;
        proof {
            lemma_read_postings_split(b, i as nat, 1);
            lemma_read_postings_split(b, (i + 1) as nat, (count - i - 1) as nat);
        }
        match take_posting(bytes, at) {
            None => {
                return None;
            },
            Some((p, next)) => {
                ps.push(p);
                proof {
                    assert(read_postings(bytes@.skip(next as int), 0) == Some(
                        (Seq::<DocIndex>::empty(), bytes@.skip(next as int)),
                    ));
                    assert(read_postings(bytes@.skip(at as int), 1) == Some(
                        (seq![p] + Seq::<DocIndex>::empty(), bytes@.skip(next as int)),
                    ));
                    assert(ps@ =~= before + (seq![p] + Seq::<DocIndex>::empty()));
                }
                at = next;
            },
        }
        i = i + 1;
    }
    Some((ps, at))
}

/// A word of the dictionary as it is read.
struct ReadRecord {
    word: Vec<char>,
    count: u64,
}

impl ReadRecord {
    spec fn view(&self) -> Record {
        Record { word: self.word@, count: self.count }
    }
}

spec fn record_views(records: Seq<ReadRecord>) -> Seq<Record> {
    Seq::new(records.len(), |i: int| records[i]@)
}

fn take_record(bytes: &[u8], pos: usize) -> (res: Option<(ReadRecord, usize)>)
    requires
        pos <= bytes@.len(),
    ensures
        match res {
            Some((r, next)) => pos <= next <= bytes@.len() && read_record(
                bytes@.skip(pos as int),
            ) == Some((r@, bytes@.skip(next as int))),
            None => read_record(bytes@.skip(pos as int)) is None,
        },
{
    let n = bytes.len();
    let (len, word_start) = match take_u64(bytes, pos) {
        Some(read) => read,
        None => {
            return None;
        },
    };
    if len > (n - word_start) as u64 {
        return None;
    }
    let len: usize = len as usize;
    let word_end = word_start + len;
    let ghost b1 = bytes@.skip(word_start as int);
    let part = vstd::slice::slice_subrange(bytes, word_start, word_end);
    proof {
        assert(b1.take(len as int) =~= part@);
        assert(b1.skip(len as int) =~= bytes@.skip(word_end as int));
    }
    let text = match text_of_bytes(slice_to_vec(part)) {
        Some(text) => text,
        None => {
            return None;
        },
    };
    proof {
        vstd::utf8::encode_utf8_decode_utf8(text@);
    }
    let word = scalars_of(text.as_str());
    match take_u64(bytes, word_end) {
        Some((count, next)) => Some((ReadRecord { word, count }, next)),
        None => None,
    }
}

/// Reading the records of `i + j` words is reading those of `i` words and
/// then those of `j` words.
proof fn lemma_read_records_split(b: Seq<u8>, i: nat, j: nat)
    ensures
        match read_records(b, i) {
            None => read_records(b, i + j) is None,
            Some((rs, rest)) => match read_records(rest, j) {
                None => read_records(b, i + j) is None,
                Some((qs, after)) => read_records(b, i + j) == Some((rs + qs, after)),
            },
        },
    decreases i,
{
    if i == 0 {
        match read_records(b, j) {
            Some((qs, after)) => {
                assert(Seq::<Record>::empty() + qs =~= qs);
            },
            None => {},
        }
    } else {
        match read_record(b) {
            None => {},
            Some((r, b1)) => {
                lemma_read_records_split(b1, (i - 1) as nat, j);
                match read_records(b1, (i - 1) as nat) {
                    None => {},
                    Some((rs, rest)) => match read_records(rest, j) {
                        None => {},
                        Some((qs, after)) => {
                            assert((seq![r] + rs) + qs =~= seq![r] + (rs + qs));
                        },
                    },
                }
            },
        }
    }
}

fn take_records(bytes: &[u8], pos: usize, n: u64) -> (res: Option<(Vec<ReadRecord>, usize)>)
    requires
        pos <= bytes@.len(),
    ensures
        match res {
            Some((rs, next)) => pos <= next <= bytes@.len() && read_records(
                bytes@.skip(pos as int),
                n as nat,
            ) == Some((record_views(rs@), bytes@.skip(next as int))),
            None => read_records(bytes@.skip(pos as int), n as nat) is None,
        },
{
    let ghost b = bytes@.skip(pos as int);
    let mut records: Vec<ReadRecord> = Vec::new();
    let mut at = pos;
    let mut i: u64 = 0;
    proof {
        assert(record_views(records@) =~= Seq::<Record>::empty());
    }
    while i < n
        invariant
            i <= n,
            pos <= at <= bytes@.len(),
            b == bytes@.skip(pos as int),
            read_records(b, i as nat) == Some((record_views(records@), bytes@.skip(at as int))),
        decreases n - i,
    {
        let ghost before = record_views(records@);
        proof {
            lemma_read_records_split(b, i as nat, 1);
            lemma_read_records_split(b, (i + 1) as nat, (n - i - 1) as nat);
        }
        match take_record(bytes, at) {
            None => {
                return None;
            },
            Some((record, next)) => {
                let ghost r = record@;
                records.push(record);
                proof {
                    assert(read_records(bytes@.skip(next as int), 0) == Some(
                        (Seq::<Record>::empty(), bytes@.skip(next as int)),
                    ));
                    assert(read_records(bytes@.skip(at as int), 1) == Some(
                        (seq![r] + Seq::<Record>::empty(), bytes@.skip(next as int)),
                    ));
                    assert(record_views(records@) =~= before + (seq![r] + Seq::<Record>::empty()));
                }
                at = next;
            },
        }
        i = i + 1;
    }
    Some((records, at))
}

/// Reading the postings of the words of records is reading those of the
/// first `k` records and then those of the records that follow.
proof fn lemma_read_entries_split(records: Seq<Record>, k: int, b: Seq<u8>)
    requires
        0 <= k <= records.len(),
    ensures
        match read_entries(records.take(k), b) {
            None => read_entries(records, b) is None,
            Some((es, rest)) => match read_entries(records.skip(k), rest) {
                None => read_entries(records, b) is None,
                Some((fs, after)) => read_entries(records, b) == Some((es + fs, after)),
            },
        },
    decreases k,
{
    if k == 0 {
        assert(records.take(0) =~= Seq::<Record>::empty());
        assert(records.skip(0) =~= records);
        match read_entries(records, b) {
            Some((fs, after)) => {
                assert(Seq::<EntryView>::empty() + fs =~= fs);
            },
            None => {},
        }
    } else {
        let head = records.take(k);
        assert(head[0] == records[0]);
        assert(head.drop_first() =~= records.drop_first().take(k - 1));
        assert(records.drop_first().skip(k - 1) =~= records.skip(k));
        match read_postings(b, records[0].count as nat) {
            None => {},
            Some((ps, b1)) => {
                lemma_read_entries_split(records.drop_first(), k - 1, b1);
                let e = EntryView { word: records[0].word, postings: ps };
                match read_entries(records.drop_first().take(k - 1), b1) {
                    None => {},
                    Some((es, rest)) => match read_entries(records.skip(k), rest) {
                        None => {},
                        Some((fs, after)) => {
                            assert((seq![e] + es) + fs =~= seq![e] + (es + fs));
                        },
                    },
                }
            },
        }
    }
}

/// Reads the postings of the words of the records into an index; none where
/// the bytes do not hold them, or the words with their postings make no
/// well-formed index.
fn take_entries(bytes: &[u8], start: usize, records: &Vec<ReadRecord>) -> (res: Option<
    (IndexBuilder, usize),
>)
    requires
        start <= bytes@.len(),
    ensures
        match res {
            Some((builder, next)) => start <= next <= bytes@.len() && index_wf(builder@)
                && read_entries(record_views(records@), bytes@.skip(start as int)) == Some(
                (builder@, bytes@.skip(next as int)),
            ),
            None => read_entries(
                record_views(records@),
                bytes@.skip(start as int),
            ) matches Some((entries, after)) ==> !index_wf(entries),
        },
{
    let ghost b = bytes@.skip(start as int);
    let ghost all = record_views(records@);
    let mut builder = IndexBuilder::new();
    let mut pos = start;
    let mut k: usize = 0;
    proof {
        assert(all.take(0) =~= Seq::<Record>::empty());
    }
    while k < records.len()
        invariant
            k <= records.len(),
            start <= pos <= bytes@.len(),
            b == bytes@.skip(start as int),
            all == record_views(records@),
            index_wf(builder@),
            builder@.len() == k,
            read_entries(all.take(k as int), b) == Some((builder@, bytes@.skip(pos as int))),
        decreases records.len() - k,
    {
        let ghost built = builder@;
        let ghost head = all.take(k + 1);
        proof {
            assert(head.take(k as int) =~= all.take(k as int));
            assert(head.skip(k as int) =~= seq![all[k as int]]);
            assert(seq![all[k as int]].drop_first() =~= Seq::<Record>::empty());
            assert(all[k as int] == records@[k as int]@);
            lemma_read_entries_split(head, k as int, b);
            lemma_read_entries_split(all, k + 1, b);
        }
        let (postings, next) = match take_postings(bytes, pos, records[k].count) {
            Some(read) => read,
            None => {
                return None;
            },
        };
        let ghost entry = EntryView { word: records@[k as int].word@, postings: postings@ };
        proof {
            assert(read_entries(Seq::<Record>::empty(), bytes@.skip(next as int)) == Some(
                (Seq::<EntryView>::empty(), bytes@.skip(next as int)),
            ));
            assert(seq![all[k as int]][0] == all[k as int]);
            assert(read_entries(seq![all[k as int]], bytes@.skip(pos as int)) == Some(
                (seq![entry] + Seq::<EntryView>::empty(), bytes@.skip(next as int)),
            ));
            assert(built + (seq![entry] + Seq::<EntryView>::empty()) =~= built.push(entry));
            assert(read_entries(head, b) == Some((built.push(entry), bytes@.skip(next as int))));
        }
        let ascends = is_ascending(&postings);
        let word = crate::sorted::copy_of(&records[k].word);
        let taken = if ascends {
            builder.insert(word, &postings).is_ok()
        } else {
            false
        };
        if !taken {
            proof {
                assert(!index_wf(built.push(entry))) by {
                    if index_wf(built.push(entry)) {
                        let full = built.push(entry);
                        assert(full[k as int] == entry);
                        assert(ascending(full[k as int].postings));
                        assert(crate::index::word_ok(full[k as int].word));
                        assert(full[k as int].postings.len() > 0);
                        if k > 0 {
                            assert(full[k - 1] == built[k - 1]);
                            assert(crate::word::word_before(full[k - 1].word, full[k as int].word));
                        }
                    }
                }
                match read_entries(all, b) {
                    Some((entries, after)) => {
                        if index_wf(entries) {
                            lemma_prefix_wf(entries, k + 1);
                            assert(entries.take(k + 1) =~= built.push(entry));
                        }
                    },
                    None => {},
                }
            }
            return None;
        }
        proof {
            lemma_ascending_unique(builder@.last().postings, postings@);
            assert(builder@ =~= built.push(entry));
        }
        pos = next;
        k = k + 1;
    }
    proof {
        assert(all.take(k as int) =~= all);
    }
    Some((builder, pos))
}

/// Whether postings stand in ascending order.
fn is_ascending(postings: &Vec<DocIndex>) -> (yes: bool)
    ensures
        yes == ascending(postings@),
{
    let mut i: usize = 1;
    while i < postings.len()
        invariant
            1 <= i,
            forall|k: int| 1 <= k < i && k < postings.len() ==> (#[trigger] postings[k - 1]).key()
                < postings[k].key(),
        decreases postings.len() - i,
    {
        if postings[i - 1].key_of() >= postings[i].key_of() {
            proof {
                if ascending(postings@) {
                    assert(postings@[i - 1].key() < postings@[i as int].key());
                }
            }
            return false;
        }
        i = i + 1;
    }
    proof {
        assert forall|a: int, b: int| 0 <= a < b < postings.len() implies (
        #[trigger] postings@[a]).key() < (#[trigger] postings@[b]).key() by {
            lemma_steps_ascend(postings@, a, b);
        }
    }
    true
}

/// Postings of which each lies below the next stand in ascending order.
proof fn lemma_steps_ascend(postings: Seq<DocIndex>, a: int, b: int)
    requires
        0 <= a < b < postings.len(),
        forall|k: int| 1 <= k < postings.len() ==> (#[trigger] postings[k - 1]).key()
            < postings[k].key(),
    ensures
        postings[a].key() < postings[b].key(),
    decreases b - a,
{
    assert(postings[b - 1].key() < postings[b].key());
    if a < b - 1 {
        lemma_steps_ascend(postings, a, b - 1);
    }
}

impl Index {
    /// Writes the index to bytes.
    pub fn to_bytes(&self) -> (bytes: Vec<u8>)
        ensures
            bytes@ == index_bytes(self@),
            sizes_fit(self@),
    {
        let n = self.len();
        let mut dict: Vec<u8> = Vec::new();
        let mut blob: Vec<u8> = Vec::new();
        let ghost entries = self@;
        let mut i: usize = 0;
        proof {
            assert(entries.take(0) =~= Seq::<EntryView>::empty());
        }
        while i < n
            invariant
                i <= n,
                n == entries.len(),
                entries == self@,
                dict@ == dictionary_bytes(entries.take(i as int)),
                blob@ == blob_bytes(entries.take(i as int)),
                forall|k: int|
                    0 <= k < i ==> encode_utf8((#[trigger] entries[k]).word).len() <= u64::MAX
                        && entries[k].postings.len() <= u64::MAX,
            decreases n - i,
        {
            let text = string_of(self.word(i));
            let word_bytes = text.as_str().as_bytes();
            let postings = self.postings(i);
            let ghost dict0 = dict@;
            let ghost blob0 = blob@;
            push_be_64(word_bytes.len() as u64, &mut dict);
            let mut k: usize = 0;
            while k < word_bytes.len()
                invariant
                    k <= word_bytes.len(),
                    dict@ == dict0 + be_bytes_64(word_bytes@.len() as u64) + word_bytes@.take(
                        k as int,
                    ),
                decreases word_bytes.len() - k,
            {
                dict.push(word_bytes[k]);
                proof {
                    assert(word_bytes@.take(k + 1) =~= word_bytes@.take(k as int).push(
                        word_bytes@[k as int],
                    ));
                }
                k = k + 1;
            }
            push_be_64(postings.len() as u64, &mut dict);
            let mut j: usize = 0;
            proof {
                assert(word_bytes@.take(k as int) =~= word_bytes@);
                assert(postings@.take(0) =~= Seq::<DocIndex>::empty());
            }
            while j < postings.len()
                invariant
                    j <= postings.len(),
                    blob@ == blob0 + postings_bytes(postings@.take(j as int)),
                decreases postings.len() - j,
            {
                let p = postings[j];
                let ghost before = blob@;
                push_be_64(p.document_id.0, &mut blob);
                push_be_16(p.attribute, &mut blob);
                push_be_16(p.word_index, &mut blob);
                push_be_16(p.char_index, &mut blob);
                push_be_16(p.char_length, &mut blob);
                proof {
                    assert(blob@ =~= before + posting_bytes(p));
                    lemma_postings_bytes_push(postings@.take(j as int), p);
                    assert(postings@.take(j + 1) =~= postings@.take(j as int).push(p));
                }
                j = j + 1;
            }
            proof {
                assert(postings@.take(j as int) =~= postings@);
                let e = entries[i as int];
                assert(dict@ =~= dict0 + record_bytes(e));
                lemma_dictionary_bytes_push(entries.take(i as int), e);
                lemma_blob_bytes_push(entries.take(i as int), e);
                assert(entries.take(i + 1) =~= entries.take(i as int).push(e));
            }
            i = i + 1;
        }
        proof {
            assert(entries.take(i as int) =~= entries);
        }
        let mut bytes: Vec<u8> = Vec::new();
        bytes.push(FORMAT_VERSION);
        push_be_64(n as u64, &mut bytes);
        let blob_len = blob.len();
        let ghost dict_view = dict@;
        let ghost blob_view = blob@;
        bytes.append(&mut dict);
        push_be_64(blob_len as u64, &mut bytes);
        bytes.append(&mut blob);
        proof {
            assert(bytes@ =~= seq![FORMAT_VERSION] + be_bytes_64(n as u64) + dict_view
                + be_bytes_64(blob_len as u64) + blob_view);
        }
        bytes
    }

    /// Reads an index from bytes: the index that the bytes hold, where they
    /// are the bytes of a well-formed index and nothing else.
    pub fn from_bytes(bytes: &[u8]) -> (res: Result<Index, IndexError>)
        ensures
            match res {
                Ok(index) => parse_index(bytes@) == Some(index@),
                Err(e) => e == IndexError::Corruption && parse_index(bytes@) is None,
            },
    {
        let len = bytes.len();
        if len == 0 || bytes[0] != FORMAT_VERSION {
            return Err(IndexError::Corruption);
        }
        let (n, after_count) = match take_u64(bytes, 1) {
            Some(read) => read,
            None => {
                return Err(IndexError::Corruption);
            },
        };
        let (records, after_words) = match take_records(bytes, after_count, n) {
            Some(read) => read,
            None => {
                return Err(IndexError::Corruption);
            },
        };
        let (blob_len, blob_start) = match take_u64(bytes, after_words) {
            Some(read) => read,
            None => {
                return Err(IndexError::Corruption);
            },
        };
        proof {
            assert(bytes@.skip(blob_start as int).len() == len - blob_start);
        }
        if blob_len != (len - blob_start) as u64 {
            return Err(IndexError::Corruption);
        }
        let (builder, end) = match take_entries(bytes, blob_start, &records) {
            Some(read) => read,
            None => {
                return Err(IndexError::Corruption);
            },
        };
        proof {
            assert(bytes@.skip(end as int).len() == len - end);
        }
        if end != len {
            return Err(IndexError::Corruption);
        }
        Ok(builder.build())
    }
}

/// The first entries of a well-formed index make a well-formed index.
proof fn lemma_prefix_wf(entries: Seq<EntryView>, n: int)
    requires
        index_wf(entries),
        0 <= n <= entries.len(),
    ensures
        index_wf(entries.take(n)),
{
    let t = entries.take(n);
    assert forall|i: int, j: int| 0 <= i < j < t.len() implies crate::word::word_before(
        (#[trigger] t[i]).word,
        (#[trigger] t[j]).word,
    ) by {
        assert(t[i] == entries[i]);
        assert(t[j] == entries[j]);
    }
    assert forall|i: int| 0 <= i < t.len() implies crate::index::word_ok((#[trigger] t[i]).word)
        && t[i].postings.len() > 0 && ascending(t[i].postings) by {
        assert(t[i] == entries[i]);
    }
}

/// The bytes of a list of postings with one more posting at its end.
proof fn lemma_postings_bytes_push(postings: Seq<DocIndex>, p: DocIndex)
    ensures
        postings_bytes(postings.push(p)) == postings_bytes(postings) + posting_bytes(p),
    decreases postings.len(),
{
    if postings.len() == 0 {
        let more = postings.push(p);
        assert(more.drop_first() =~= Seq::<DocIndex>::empty());
        assert(more[0] == p);
        assert(postings_bytes(more.drop_first()) =~= Seq::<u8>::empty());
        assert(postings_bytes(more) == posting_bytes(p) + postings_bytes(more.drop_first()));
        assert(postings_bytes(postings) =~= Seq::<u8>::empty());
        assert(postings_bytes(more) =~= postings_bytes(postings) + posting_bytes(p));
    } else {
        let tail = postings.drop_first();
        lemma_postings_bytes_push(tail, p);
        let more = postings.push(p);
        assert(more.drop_first() =~= tail.push(p));
        assert(more[0] == postings[0]);
        assert(postings_bytes(more) == posting_bytes(more[0]) + postings_bytes(more.drop_first()));
        assert(postings_bytes(postings) == posting_bytes(postings[0]) + postings_bytes(tail));
        assert(posting_bytes(postings[0]) + (postings_bytes(tail) + posting_bytes(p)) =~= (
        posting_bytes(postings[0]) + postings_bytes(tail)) + posting_bytes(p));
    }
}

/// The bytes of a dictionary with one more word at its end.
proof fn lemma_dictionary_bytes_push(entries: Seq<EntryView>, e: EntryView)
    ensures
        dictionary_bytes(entries.push(e)) == dictionary_bytes(entries) + record_bytes(e),
    decreases entries.len(),
{
    if entries.len() == 0 {
        let more = entries.push(e);
        assert(more.drop_first() =~= Seq::<EntryView>::empty());
        assert(more[0] == e);
        assert(dictionary_bytes(more.drop_first()) =~= Seq::<u8>::empty());
        assert(dictionary_bytes(more) == record_bytes(e) + dictionary_bytes(more.drop_first()));
        assert(dictionary_bytes(entries) =~= Seq::<u8>::empty());
        assert(dictionary_bytes(more) =~= dictionary_bytes(entries) + record_bytes(e));
    } else {
        let tail = entries.drop_first();
        lemma_dictionary_bytes_push(tail, e);
        let more = entries.push(e);
        assert(more.drop_first() =~= tail.push(e));
        assert(more[0] == entries[0]);
        assert(dictionary_bytes(more) == record_bytes(more[0]) + dictionary_bytes(
            more.drop_first(),
        ));
        assert(dictionary_bytes(entries) == record_bytes(entries[0]) + dictionary_bytes(tail));
        assert(record_bytes(entries[0]) + (dictionary_bytes(tail) + record_bytes(e)) =~= (
        record_bytes(entries[0]) + dictionary_bytes(tail)) + record_bytes(e));
    }
}

/// The postings of a dictionary with one more word at its end.
proof fn lemma_blob_bytes_push(entries: Seq<EntryView>, e: EntryView)
    ensures
        blob_bytes(entries.push(e)) == blob_bytes(entries) + postings_bytes(e.postings),
    decreases entries.len(),
{
    if entries.len() == 0 {
        let more = entries.push(e);
        assert(more.drop_first() =~= Seq::<EntryView>::empty());
        assert(more[0] == e);
        assert(blob_bytes(more.drop_first()) =~= Seq::<u8>::empty());
        assert(blob_bytes(more) == postings_bytes(e.postings) + blob_bytes(more.drop_first()));
        assert(blob_bytes(entries) =~= Seq::<u8>::empty());
        assert(blob_bytes(more) =~= blob_bytes(entries) + postings_bytes(e.postings));
    } else {
        let tail = entries.drop_first();
        lemma_blob_bytes_push(tail, e);
        let more = entries.push(e);
        assert(more.drop_first() =~= tail.push(e));
        assert(more[0] == entries[0]);
        assert(blob_bytes(more) == postings_bytes(more[0].postings) + blob_bytes(more.drop_first()));
        assert(blob_bytes(entries) == postings_bytes(entries[0].postings) + blob_bytes(tail));
        assert(postings_bytes(entries[0].postings) + (blob_bytes(tail) + postings_bytes(
            e.postings,
        )) =~= (postings_bytes(entries[0].postings) + blob_bytes(tail)) + postings_bytes(
            e.postings,
        ));
    }
}

/// What was read.
pub open spec fn read_value<T>(read: Option<(T, Seq<u8>)>) -> T {
    match read {
        Some((value, _)) => value,
        None => arbitrary(),
    }
}

/// What follows what was read.
pub open spec fn read_rest<T>(read: Option<(T, Seq<u8>)>) -> Seq<u8> {
    match read {
        Some((_, rest)) => rest,
        None => Seq::empty(),
    }
}

/// The record of a word as it was read.
pub open spec fn read_record_bytes(r: Record) -> Seq<u8> {
    be_bytes_64(encode_utf8(r.word).len() as u64) + encode_utf8(r.word) + be_bytes_64(r.count)
}

/// The records of a dictionary as they were read.
pub open spec fn read_records_bytes(records: Seq<Record>) -> Seq<u8>
    decreases records.len(),
{
    if records.len() == 0 {
        Seq::empty()
    } else {
        read_record_bytes(records[0]) + read_records_bytes(records.drop_first())
    }
}

/// The bytes from which a number was read are the bytes of that number,
/// then what follows.
pub proof fn lemma_u64_read(b: Seq<u8>)
    requires
        read_u64(b) is Some,
    ensures
        b == be_bytes_64(read_value(read_u64(b))) + read_rest(read_u64(b)),
{
    assert(b =~= b.take(8) + b.skip(8));
}

/// The bytes from which postings were read are the bytes of those postings,
/// then what follows.
pub proof fn lemma_postings_read(b: Seq<u8>, n: nat)
    requires
        read_postings(b, n) is Some,
    ensures
        b == postings_bytes(read_value(read_postings(b, n))) + read_rest(read_postings(b, n)),
        read_value(read_postings(b, n)).len() == n,
    decreases n,
{
    if n == 0 {
        assert(b =~= Seq::<u8>::empty() + b);
    } else {
        let first = read_posting(b)->0;
        let rest = read_postings(first.1, (n - 1) as nat)->0;
        lemma_postings_read(first.1, (n - 1) as nat);
        assert(b =~= b.take(16) + b.skip(16));
        let ps = seq![first.0] + rest.0;
        assert(ps[0] == first.0);
        assert(ps.drop_first() =~= rest.0);
        assert(postings_bytes(ps) == posting_bytes(first.0) + postings_bytes(rest.0));
        assert(b =~= (posting_bytes(first.0) + postings_bytes(rest.0)) + rest.1);
    }
}

/// The bytes from which a record was read are the bytes of that record,
/// then what follows.
pub proof fn lemma_record_read(b: Seq<u8>)
    requires
        read_record(b) is Some,
    ensures
        b == read_record_bytes(read_value(read_record(b))) + read_rest(read_record(b)),
{
    let len = read_value(read_u64(b));
    let b1 = read_rest(read_u64(b));
    let word_bytes = b1.take(len as int);
    let b2 = b1.skip(len as int);
    lemma_u64_read(b);
    lemma_u64_read(b2);
    vstd::utf8::decode_utf8_encode_utf8(word_bytes);
    assert(b1 =~= word_bytes + b2);
    let r = read_value(read_record(b));
    let rest = read_rest(read_record(b));
    assert(encode_utf8(r.word) == word_bytes);
    assert(b =~= (be_bytes_64(len) + word_bytes + be_bytes_64(r.count)) + rest);
}

/// The bytes from which records were read are the bytes of those records,
/// then what follows.
pub proof fn lemma_records_read(b: Seq<u8>, n: nat)
    requires
        read_records(b, n) is Some,
    ensures
        b == read_records_bytes(read_value(read_records(b, n))) + read_rest(read_records(b, n)),
        read_value(read_records(b, n)).len() == n,
    decreases n,
{
    if n == 0 {
        assert(b =~= Seq::<u8>::empty() + b);
    } else {
        let first = read_record(b)->0;
        let rest = read_records(first.1, (n - 1) as nat)->0;
        lemma_record_read(b);
        lemma_records_read(first.1, (n - 1) as nat);
        let rs = seq![first.0] + rest.0;
        assert(rs[0] == first.0);
        assert(rs.drop_first() =~= rest.0);
        assert(read_records_bytes(rs) == read_record_bytes(first.0) + read_records_bytes(rest.0));
        assert(b =~= (read_record_bytes(first.0) + read_records_bytes(rest.0)) + rest.1);
    }
}

/// The bytes from which the postings of a dictionary were read are those
/// postings, then what follows; the entries read are the words of the
/// records, each with as many postings as its record says.
pub proof fn lemma_entries_read(records: Seq<Record>, b: Seq<u8>)
    requires
        read_entries(records, b) is Some,
    ensures
        b == blob_bytes(read_value(read_entries(records, b))) + read_rest(read_entries(records, b)),
        read_records_bytes(records) == dictionary_bytes(read_value(read_entries(records, b))),
        read_value(read_entries(records, b)).len() == records.len(),
    decreases records.len(),
{
    if records.len() == 0 {
        assert(b =~= Seq::<u8>::empty() + b);
    } else {
        let n = records[0].count as nat;
        let first = read_postings(b, n)->0;
        let rest = read_entries(records.drop_first(), first.1)->0;
        lemma_postings_read(b, n);
        lemma_entries_read(records.drop_first(), first.1);
        let e = EntryView { word: records[0].word, postings: first.0 };
        let es = seq![e] + rest.0;
        assert(es[0] == e);
        assert(es.drop_first() =~= rest.0);
        assert(blob_bytes(es) == postings_bytes(e.postings) + blob_bytes(rest.0));
        assert(dictionary_bytes(es) == record_bytes(e) + dictionary_bytes(rest.0));
        assert(record_bytes(e) == read_record_bytes(records[0]));
        assert(b =~= (postings_bytes(first.0) + blob_bytes(rest.0)) + rest.1);
    }
}

/// The bytes from which an index is read are the bytes of that index: an
/// index has one byte form, and no other bytes are read as it.
pub proof fn lemma_index_bytes_canonical(b: Seq<u8>)
    requires
        parse_index(b) is Some,
    ensures
        index_bytes(parse_index(b)->0) == b,
        index_wf(parse_index(b)->0),
{
    let counted = read_u64(b.skip(1))->0;
    let recorded = read_records(counted.1, counted.0 as nat)->0;
    let measured = read_u64(recorded.1)->0;
    let entries = read_entries(recorded.0, measured.1)->0;
    lemma_u64_read(b.skip(1));
    lemma_records_read(counted.1, counted.0 as nat);
    lemma_u64_read(recorded.1);
    lemma_entries_read(recorded.0, measured.1);
    assert(b =~= seq![FORMAT_VERSION] + b.skip(1));
    assert(entries.1 =~= Seq::<u8>::empty());
    assert(measured.1 =~= blob_bytes(entries.0));
    assert(entries.0.len() as u64 == counted.0);
    assert(blob_bytes(entries.0).len() as u64 == measured.0);
    assert(b =~= seq![FORMAT_VERSION] + be_bytes_64(counted.0) + dictionary_bytes(entries.0)
        + be_bytes_64(measured.0) + blob_bytes(entries.0));
}

} // verus!
