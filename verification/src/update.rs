use vstd::prelude::*;
use vstd::slice::slice_to_vec;
use crate::doc_ids::DocIds;
use crate::document::Document;
use crate::document_key::DocumentKey;
use crate::document_key::DocumentKeyAttr;
use crate::index::belongs_at;
use crate::index::entry_views;
use crate::index::has_word;
use crate::index::index_wf;
use crate::index::lemma_belongs_at_unique;
use crate::index::lemma_words_distinct;
use crate::index::locate;
use crate::index::word_ok;
use crate::index::words_ascending;
use crate::index::EntryView;
use crate::index::Index;
use crate::index::IndexBuilder;
use crate::index::WordEntry;
use crate::number::Number;
use crate::ranked_map::DocumentSet;
use crate::ranked_map::RankedEntry;
use crate::ranked_map::RankedMap;
use crate::schema::Schema;
use crate::schema::SchemaView;
use crate::schema::SerializerError;
use crate::sorted::ascending;
use crate::sorted::copy_of;
use crate::sorted::same_elements;
use crate::tokenizer::StopWords;
use crate::tokenizer::WORD_LENGTH_LIMIT;
use crate::types::DocIndex;
use crate::types::DocumentId;
use crate::types::SchemaAttr;
use crate::word::lemma_word_before_transitive;
use crate::word::utf8_len_within;
use crate::word::word_before;

verus! {

/// A word as the index holds it: its scalars, in lowercase.
pub type Token = Vec<char>;

/// What a batch tells the index to do when it is merged into it.
pub enum WriteIndexEvent {
    RemovedDocuments(DocIds),
    UpdatedDocuments(Index),
}

/// What a batch tells the ranked map to do when it is merged into it.
pub enum WriteRankedMapEvent {
    RemovedDocuments(DocIds),
    UpdatedDocuments(RankedMap),
}

/// One operation of a write batch.
pub enum BatchOp {
    /// Sets the value of one attribute of a document.
    Put(DocumentKeyAttr, Vec<u8>),
    /// Deletes the keys from the first up to, and with, the second.
    DeleteRange(DocumentKeyAttr, DocumentKeyAttr),
    /// Merges an event into the value under the key of the index.
    MergeIndex(WriteIndexEvent),
    /// Merges an event into the value under the key of the ranked map.
    MergeRankedMap(WriteRankedMapEvent),
}

/// An operation of a write batch as a plain value.
pub enum BatchOpView {
    Put(DocumentKeyAttr, Seq<u8>),
    DeleteRange(DocumentKeyAttr, DocumentKeyAttr),
    IndexRemoved(Seq<DocumentId>),
    IndexUpdated(Seq<EntryView>),
    RankedRemoved(Seq<DocumentId>),
    RankedUpdated(Map<(u64, u16), Number>),
}

impl BatchOp {
    /// The operation as a plain value.
    pub open spec fn view(&self) -> BatchOpView {
        match *self {
            BatchOp::Put(key, value) => BatchOpView::Put(key, value@),
            BatchOp::DeleteRange(start, end) => BatchOpView::DeleteRange(start, end),
            BatchOp::MergeIndex(WriteIndexEvent::RemovedDocuments(ids)) => BatchOpView::IndexRemoved(
                ids@,
            ),
            BatchOp::MergeIndex(WriteIndexEvent::UpdatedDocuments(index)) => BatchOpView::IndexUpdated(
                index@,
            ),
            BatchOp::MergeRankedMap(
                WriteRankedMapEvent::RemovedDocuments(ids),
            ) => BatchOpView::RankedRemoved(ids@),
            BatchOp::MergeRankedMap(
                WriteRankedMapEvent::UpdatedDocuments(map),
            ) => BatchOpView::RankedUpdated(map@),
        }
    }
}

/// The operations of a vector as plain values.
pub open spec fn op_views(ops: Seq<BatchOp>) -> Seq<BatchOpView> {
    Seq::new(ops.len(), |i: int| ops[i]@)
}

/// The operations staged for one atomic write to the store, in their order.
pub struct WriteBatch {
    ops: Vec<BatchOp>,
}

impl WriteBatch {
    /// The operations, in the order in which they are applied.
    pub closed spec fn view(&self) -> Seq<BatchOpView> {
        op_views(self.ops@)
    }

    /// A batch without operations.
    pub fn new() -> (batch: WriteBatch)
        ensures
            batch@ == Seq::<BatchOpView>::empty(),
    {
        let batch = WriteBatch { ops: Vec::new() };
        assert(batch@ =~= Seq::<BatchOpView>::empty());
        batch
    }

    /// Stages one more operation.
    pub fn push(&mut self, op: BatchOp)
        ensures
            final(self)@ == old(self)@.push(op@),
    {
        self.ops.push(op);
        assert(self@ =~= old(self)@.push(op@));
    }

    /// The number of operations.
    pub fn len(&self) -> (n: usize)
        ensures
            n == self@.len(),
    {
        self.ops.len()
    }

    /// The operation at a place.
    pub fn get(&self, i: usize) -> (op: &BatchOp)
        requires
            i < self@.len(),
        ensures
            op@ == self@[i as int],
    {
        &self.ops[i]
    }

    /// The operations, to apply them one by one.
    pub fn into_ops(self) -> (ops: Vec<BatchOp>)
        ensures
            op_views(ops@) == self@,
    {
        self.ops
    }
}

/// Whether the kind of number, integer or float, is registered for an attribute.
pub open spec fn kind_of(kinds: Seq<(u16, bool)>, attribute: u16) -> Option<bool>
    decreases kinds.len(),
{
    if kinds.len() == 0 {
        None
    } else if kinds.last().0 == attribute {
        Some(kinds.last().1)
    } else {
        kind_of(kinds.drop_last(), attribute)
    }
}

/// The kinds of number that entries of a ranked map give their attributes:
/// for each attribute, the kind of the first entry that has it.
pub open spec fn kinds_of(entries: Seq<RankedEntry>) -> Seq<(u16, bool)>
    decreases entries.len(),
{
    if entries.len() == 0 {
        Seq::empty()
    } else {
        let before = kinds_of(entries.drop_last());
        if kind_of(before, entries.last().attribute.0) is Some {
            before
        } else {
            before.push((entries.last().attribute.0, entries.last().number is Integer))
        }
    }
}

/// An update starts from a ranked map: it holds nothing but the kinds of
/// number that the ranked attributes have in that map.
pub open spec fn starts_from(ranked: Map<(u64, u16), Number>, state: BuilderView) -> bool {
    exists|entries: Seq<RankedEntry>| #[trigger]
        crate::ranked_map::lists(entries, ranked) && state == BuilderView::seeded(kinds_of(entries))
}

/// The place of a word that the dictionary holds.
pub open spec fn place_of_word(words: Seq<EntryView>, word: Seq<char>) -> int {
    choose|i: int| 0 <= i < words.len() && (#[trigger] words[i]).word == word
}

/// The place where a word belongs that the dictionary does not hold.
pub open spec fn insertion_point(words: Seq<EntryView>, word: Seq<char>) -> int {
    choose|k: int| belongs_at(words, word, k)
}

/// The dictionary with one more posting for a word. A word that is empty or
/// longer than the limit is not taken.
pub open spec fn with_posting(words: Seq<EntryView>, word: Seq<char>, posting: DocIndex) -> Seq<
    EntryView,
> {
    if !word_ok(word) {
        words
    } else if has_word(words, word) {
        let i = place_of_word(words, word);
        words.update(i, EntryView { word, postings: words[i].postings.push(posting) })
    } else {
        words.insert(insertion_point(words, word), EntryView { word, postings: seq![posting] })
    }
}

/// What holds of the postings collected: the words in dictionary order, each
/// a valid word with at least one posting.
pub open spec fn collected_wf(words: Seq<EntryView>) -> bool {
    &&& words_ascending(words)
    &&& forall|i: int|
        0 <= i < words.len() ==> word_ok((#[trigger] words[i]).word) && words[i].postings.len() > 0
}

/// Every operation staged is a write or a deletion in the store.
pub open spec fn staged_only(batch: Seq<BatchOpView>) -> bool {
    forall|i: int| 0 <= i < batch.len() ==> (#[trigger] batch[i]) is Put || batch[i] is DeleteRange
}

/// Every posting of a dictionary belongs to one of the documents.
pub open spec fn postings_within(words: Seq<EntryView>, documents: Set<u64>) -> bool {
    forall|i: int, j: int|
        0 <= i < words.len() && 0 <= j < words[i].postings.len() ==> documents.contains(
            (#[trigger] words[i].postings[j]).document_id.0,
        )
}

/// Every ranked value belongs to one of the documents.
pub open spec fn ranked_within(ranked: Map<(u64, u16), Number>, documents: Set<u64>) -> bool {
    forall|k: (u64, u16)| #[trigger] ranked.dom().contains(k) ==> documents.contains(k.0)
}

/// Whether a staged operation belongs to one of the documents: it writes a
/// value of one of them, or deletes keys of one of them and of no other.
pub open spec fn op_within(op: BatchOpView, documents: Set<u64>) -> bool {
    match op {
        BatchOpView::Put(key, _) => documents.contains(key.document.0),
        BatchOpView::DeleteRange(start, end) => start.document == end.document && documents.contains(
            start.document.0,
        ),
        _ => true,
    }
}

/// Every write and every deletion staged belongs to one of the documents.
pub open spec fn staged_within(batch: Seq<BatchOpView>, documents: Set<u64>) -> bool {
    forall|i: int| 0 <= i < batch.len() ==> op_within(#[trigger] batch[i], documents)
}

/// What an update holds belongs to the documents that it touches: its
/// postings, its ranked values, and the writes and deletions that it
/// stages for the store.
pub open spec fn consistent(state: BuilderView) -> bool {
    &&& postings_within(state.words, state.documents)
    &&& ranked_within(state.ranked, state.documents)
    &&& staged_only(state.batch)
    &&& staged_within(state.batch, state.documents)
}

/// The writes and deletions staged for the store, in their order.
pub struct StagedOps {
    batch: WriteBatch,
}

impl StagedOps {
    #[verifier::type_invariant]
    spec fn well_formed(&self) -> bool {
        staged_only(self.batch@)
    }

    /// The operations staged, in their order.
    pub closed spec fn view(&self) -> Seq<BatchOpView> {
        self.batch@
    }

    /// Nothing staged.
    pub fn new() -> (staged: StagedOps)
        ensures
            staged@ == Seq::<BatchOpView>::empty(),
    {
        StagedOps { batch: WriteBatch::new() }
    }

    /// Stages the value of an attribute of a document.
    pub fn put(&mut self, key: DocumentKeyAttr, value: Vec<u8>)
        ensures
            final(self)@ == old(self)@.push(BatchOpView::Put(key, value@)),
            staged_only(final(self)@),
    {
        proof {
            use_type_invariant(&*self);
        }
        let mut batch = WriteBatch::new();
        core::mem::swap(&mut batch, &mut self.batch);
        let ghost before = batch@;
        batch.push(BatchOp::Put(key, value));
        proof {
            assert forall|i: int| 0 <= i < batch@.len() implies (#[trigger] batch@[i]) is Put
                || batch@[i] is DeleteRange by {
                if i < before.len() {
                    assert(batch@[i] == before[i]);
                }
            }
        }
        self.batch = batch;
    }

    /// Stages the deletion of the keys from the first up to, and with, the last.
    pub fn delete_range(&mut self, start: DocumentKeyAttr, end: DocumentKeyAttr)
        ensures
            final(self)@ == old(self)@.push(BatchOpView::DeleteRange(start, end)),
            staged_only(final(self)@),
    {
        proof {
            use_type_invariant(&*self);
        }
        let mut batch = WriteBatch::new();
        core::mem::swap(&mut batch, &mut self.batch);
        let ghost before = batch@;
        batch.push(BatchOp::DeleteRange(start, end));
        proof {
            assert forall|i: int| 0 <= i < batch@.len() implies (#[trigger] batch@[i]) is Put
                || batch@[i] is DeleteRange by {
                if i < before.len() {
                    assert(batch@[i] == before[i]);
                }
            }
        }
        self.batch = batch;
    }

    /// The batch of the operations staged.
    pub fn into_batch(self) -> (batch: WriteBatch)
        ensures
            batch@ == self@,
            staged_only(self@),
    {
        proof {
            use_type_invariant(&self);
        }
        self.batch
    }

    /// What holds of the operations staged.
    pub(crate) fn check(&self)
        ensures
            staged_only(self@),
    {
        proof {
            use_type_invariant(self);
        }
    }
}

/// What an update holds, as plain values.
pub struct BuilderView {
    /// The documents that the update writes or deletes.
    pub documents: Set<u64>,
    /// The ranked values of the documents written.
    pub ranked: Map<(u64, u16), Number>,
    /// For each ranked attribute, whether its values are integers.
    pub kinds: Seq<(u16, bool)>,
    /// The postings collected, word by word in dictionary order.
    pub words: Seq<EntryView>,
    /// The operations staged for the store.
    pub batch: Seq<BatchOpView>,
}

impl BuilderView {
    /// What holds of every update: the words in dictionary order, each a
    /// valid word with at least one posting; the operations staged are
    /// writes and deletions in the store.
    pub open spec fn wf(self) -> bool {
        collected_wf(self.words) && staged_only(self.batch)
    }

    /// The update that holds nothing.
    pub open spec fn empty() -> BuilderView {
        BuilderView {
            documents: Set::empty(),
            ranked: Map::empty(),
            kinds: Seq::empty(),
            words: Seq::empty(),
            batch: Seq::empty(),
        }
    }

    /// The update that holds nothing but the kinds of number that the
    /// ranked attributes have.
    pub open spec fn seeded(kinds: Seq<(u16, bool)>) -> BuilderView {
        BuilderView { kinds, ..BuilderView::empty() }
    }

    /// The update once a document counts as touched.
    pub open spec fn touched(self, document: DocumentId) -> BuilderView {
        BuilderView { documents: self.documents.insert(document.0), ..self }
    }

    /// The update once everything that the store holds of a document is
    /// staged for deletion: the keys of all its attributes, from the least
    /// to the greatest.
    pub open spec fn cleared(self, document: DocumentId) -> BuilderView {
        BuilderView {
            batch: self.batch.push(
                BatchOpView::DeleteRange(
                    DocumentKeyAttr { document, attribute: SchemaAttr(0) },
                    DocumentKeyAttr { document, attribute: SchemaAttr(0xffff) },
                ),
            ),
            ..self
        }
    }

    /// The update once a document is opened: the document counts as touched,
    /// and everything the store holds of it is staged for deletion.
    pub open spec fn opened(self, document: DocumentId) -> BuilderView {
        self.touched(document).cleared(document)
    }

    /// The update once the value of an attribute is staged.
    pub open spec fn with_put(self, document: DocumentId, attribute: SchemaAttr, value: Seq<u8>) -> BuilderView {
        BuilderView {
            batch: self.batch.push(BatchOpView::Put(DocumentKeyAttr { document, attribute }, value)),
            ..self
        }
    }

    /// The update once a posting is added for a word.
    pub open spec fn with_doc_index(self, word: Seq<char>, posting: DocIndex) -> BuilderView {
        BuilderView { words: with_posting(self.words, word, posting), ..self }
    }

    /// Whether a number can be registered for an attribute: no number of the
    /// other kind was registered for it.
    pub open spec fn accepts(self, attribute: SchemaAttr, number: Number) -> bool {
        kind_of(self.kinds, attribute.0) matches Some(integer) ==> integer == (number is Integer)
    }

    /// The update once a ranked value is registered.
    pub open spec fn registered(self, document: DocumentId, attribute: SchemaAttr, number: Number) -> BuilderView {
        BuilderView {
            ranked: self.ranked.insert((document.0, attribute.0), number),
            kinds: if kind_of(self.kinds, attribute.0) is Some {
                self.kinds
            } else {
                self.kinds.push((attribute.0, number is Integer))
            },
            ..self
        }
    }
}

/// Adding a posting keeps the dictionary in order, and changes the postings
/// of the one word.
pub proof fn lemma_with_posting(words: Seq<EntryView>, word: Seq<char>, posting: DocIndex)
    requires
        words_ascending(words),
        forall|i: int|
            0 <= i < words.len() ==> word_ok((#[trigger] words[i]).word) && words[i].postings.len()
                > 0,
    ensures
        words_ascending(with_posting(words, word, posting)),
        forall|i: int|
            0 <= i < with_posting(words, word, posting).len() ==> word_ok(
                (#[trigger] with_posting(words, word, posting)[i]).word,
            ) && with_posting(words, word, posting)[i].postings.len() > 0,
        forall|w: Seq<char>|
            #[trigger] crate::index::postings_of(with_posting(words, word, posting), w) == if w
                == word && word_ok(word) {
                crate::index::postings_of(words, word).push(posting)
            } else {
                crate::index::postings_of(words, w)
            },
{
    let r = with_posting(words, word, posting);
    if !word_ok(word) {
    } else if has_word(words, word) {
        let i = place_of_word(words, word);
        assert forall|a: int, b: int| 0 <= a < b < r.len() implies word_before(
            (#[trigger] r[a]).word,
            (#[trigger] r[b]).word,
        ) by {
            assert(word_before(words[a].word, words[b].word));
        }
        assert forall|w: Seq<char>|
            #[trigger] crate::index::postings_of(r, w) == if w == word {
                crate::index::postings_of(words, word).push(posting)
            } else {
                crate::index::postings_of(words, w)
            } by {
            crate::index::lemma_postings_of_entry(words, i);
            crate::index::lemma_postings_of_entry(r, i);
            if w != word {
                if has_word(words, w) {
                    let j = place_of_word(words, w);
                    assert(r[j] == words[j]);
                    crate::index::lemma_postings_of_entry(words, j);
                    crate::index::lemma_postings_of_entry(r, j);
                } else {
                    if has_word(r, w) {
                        let j = choose|j: int| 0 <= j < r.len() && (#[trigger] r[j]).word == w;
                        assert(words[j].word == w);
                    }
                }
            }
        }
    } else {
        crate::word::lemma_word_before_irreflexive(word);
        assert(exists|k: int| belongs_at(words, word, k)) by {
            lemma_place_exists(words, word, words.len() as int);
        }
        let k = insertion_point(words, word);
        let e = EntryView { word, postings: seq![posting] };
        assert forall|a: int, b: int| 0 <= a < b < r.len() implies word_before(
            (#[trigger] r[a]).word,
            (#[trigger] r[b]).word,
        ) by {
            if b < k {
                assert(word_before(words[a].word, words[b].word));
            } else if b == k {
                assert(word_before(words[a].word, word));
            } else if a < k {
                assert(word_before(words[a].word, words[b - 1].word));
            } else if a == k {
                assert(word_before(word, words[b - 1].word));
            } else {
                assert(word_before(words[a - 1].word, words[b - 1].word));
            }
        }
        assert forall|i: int| 0 <= i < r.len() implies word_ok((#[trigger] r[i]).word)
            && r[i].postings.len() > 0 by {
            if i < k {
                assert(r[i] == words[i]);
            } else if i > k {
                assert(r[i] == words[i - 1]);
            }
        }
        assert forall|w: Seq<char>|
            #[trigger] crate::index::postings_of(r, w) == if w == word {
                crate::index::postings_of(words, word).push(posting)
            } else {
                crate::index::postings_of(words, w)
            } by {
            if w == word {
                assert(r[k] == e);
                crate::index::lemma_postings_of_entry(r, k);
                assert(crate::index::postings_of(words, word) =~= Seq::<DocIndex>::empty());
                assert(seq![posting] =~= Seq::<DocIndex>::empty().push(posting));
            } else if has_word(words, w) {
                let j = place_of_word(words, w);
                crate::index::lemma_postings_of_entry(words, j);
                if j < k {
                    assert(r[j] == words[j]);
                    crate::index::lemma_postings_of_entry(r, j);
                } else {
                    assert(r[j + 1] == words[j]);
                    crate::index::lemma_postings_of_entry(r, j + 1);
                }
            } else {
                if has_word(r, w) {
                    let j = choose|j: int| 0 <= j < r.len() && (#[trigger] r[j]).word == w;
                    if j < k {
                        assert(words[j].word == w);
                    } else if j > k {
                        assert(words[j - 1].word == w);
                    }
                }
            }
        }
    }
}

/// A word that the dictionary does not hold has its place in it.
pub proof fn lemma_insertion_point(words: Seq<EntryView>, word: Seq<char>)
    requires
        words_ascending(words),
        !has_word(words, word),
    ensures
        belongs_at(words, word, insertion_point(words, word)),
{
    lemma_place_exists(words, word, words.len() as int);
}

/// A word that the dictionary does not hold belongs somewhere in it.
proof fn lemma_place_exists(words: Seq<EntryView>, word: Seq<char>, n: int)
    requires
        words_ascending(words),
        !has_word(words, word),
        0 <= n <= words.len(),
        forall|j: int| n <= j < words.len() ==> word_before(word, (#[trigger] words[j]).word),
    ensures
        exists|k: int| belongs_at(words, word, k),
    decreases n,
{
    if n == 0 {
        assert(belongs_at(words, word, 0));
    } else {
        crate::word::lemma_word_before_total(words[n - 1].word, word);
        assert(words[n - 1].word != word);
        if word_before(words[n - 1].word, word) {
            assert forall|j: int| 0 <= j < n implies word_before(
                (#[trigger] words[j]).word,
                word,
            ) by {
                if j < n - 1 {
                    assert(word_before(words[j].word, words[n - 1].word));
                    lemma_word_before_transitive(words[j].word, words[n - 1].word, word);
                }
            }
            assert(belongs_at(words, word, n));
        } else {
            lemma_place_exists(words, word, n - 1);
        }
    }
}

/// Adds a posting to the list of a word, making the word's entry where the
/// dictionary has none yet.
fn add_posting(entries: &mut Vec<WordEntry>, token: Vec<char>, posting: DocIndex)
    requires
        words_ascending(entry_views(old(entries)@)),
    ensures
        entry_views(final(entries)@) == with_posting(entry_views(old(entries)@), token@, posting),
{
    let ghost before = entry_views(entries@);
    let within = utf8_len_within(&token, WORD_LENGTH_LIMIT);
    if token.len() == 0 || within.is_none() {
        return ;
    }
    match locate(entries, &token) {
        Ok(i) => {
            let mut entry = entries.remove(i);
            proof {
                assert(before[i as int].word == token@);
                let j = place_of_word(before, token@);
                lemma_words_distinct(before, i as int, j);
            }
            entry.postings.push(posting);
            entries.insert(i, entry);
            proof {
                assert(entry_views(entries@) =~= with_posting(before, token@, posting));
            }
        },
        Err(k) => {
            proof {
                if has_word(before, token@) {
                    let j = place_of_word(before, token@);
                    crate::word::lemma_word_before_irreflexive(token@);
                    if j < k {
                        assert(word_before(before[j].word, token@));
                    } else {
                        assert(word_before(token@, before[j].word));
                    }
                }
                lemma_belongs_at_unique(before, token@, k as int, insertion_point(before, token@));
            }
            let mut postings: Vec<DocIndex> = Vec::new();
            postings.push(posting);
            entries.insert(k, WordEntry { word: token, postings });
            proof {
                assert(entry_views(entries@) =~= with_posting(before, token@, posting));
            }
        },
    }
}

/// The postings collected for each word, the words in dictionary order.
pub struct WordMap {
    entries: Vec<WordEntry>,
}

impl WordMap {
    #[verifier::type_invariant]
    spec fn well_formed(&self) -> bool {
        collected_wf(entry_views(self.entries@))
    }

    /// The words with their postings, in dictionary order.
    pub closed spec fn view(&self) -> Seq<EntryView> {
        entry_views(self.entries@)
    }

    /// No word at all.
    pub fn new() -> (words: WordMap)
        ensures
            words@ == Seq::<EntryView>::empty(),
    {
        let words = WordMap { entries: Vec::new() };
        assert(words@ =~= Seq::<EntryView>::empty());
        words
    }

    /// Adds a posting for a word. A word that is empty or longer than the
    /// limit is not taken.
    pub fn add(&mut self, token: Vec<char>, posting: DocIndex)
        ensures
            final(self)@ == with_posting(old(self)@, token@, posting),
            collected_wf(final(self)@),
    {
        proof {
            use_type_invariant(&*self);
            lemma_with_posting(self@, token@, posting);
        }
        let mut entries: Vec<WordEntry> = Vec::new();
        core::mem::swap(&mut entries, &mut self.entries);
        add_posting(&mut entries, token, posting);
        self.entries = entries;
    }

    /// The words with their postings, in dictionary order.
    pub fn entries(&self) -> (entries: &Vec<WordEntry>)
        ensures
            entry_views(entries@) == self@,
            collected_wf(self@),
    {
        proof {
            use_type_invariant(self);
        }
        &self.entries
    }
}

/// The kind of number registered for an attribute, if one is.
pub(crate) fn find_kind(kinds: &Vec<(u16, bool)>, attribute: u16) -> (kind: Option<bool>)
    ensures
        kind == kind_of(kinds@, attribute),
{
    let mut i: usize = kinds.len();
    proof {
        assert(kinds@.take(i as int) =~= kinds@);
    }
    while i > 0
        invariant
            i <= kinds.len(),
            kind_of(kinds@, attribute) == kind_of(kinds@.take(i as int), attribute),
        decreases i,
    {
        proof {
            assert(kinds@.take(i as int).drop_last() =~= kinds@.take(i - 1));
        }
        if kinds[i - 1].0 == attribute {
            return Some(kinds[i - 1].1);
        }
        i = i - 1;
    }
    proof {
        assert(kinds@.take(0).len() == 0);
    }
    None
}

/// Accumulates what one batch does: the documents it touches, the postings
/// and ranked values of the documents it writes, and the operations on the
/// store.
pub struct RawUpdateBuilder {
    documents_update: DocumentSet,
    documents_ranked_fields: RankedMap,
    ranked_kinds: Vec<(u16, bool)>,
    indexed_words: WordMap,
    batch: StagedOps,
}

/// The index that a dictionary of collected postings makes: the same words,
/// each with the ascending sequence of its postings.
pub open spec fn flushes_to(words: Seq<EntryView>, index: Seq<EntryView>) -> bool {
    &&& index_wf(index)
    &&& index.len() == words.len()
    &&& forall|i: int|
        0 <= i < words.len() ==> (#[trigger] index[i]).word == words[i].word && same_elements(
            index[i].postings,
            words[i].postings,
        )
}

/// What a batch holds once an update is built: what was staged, then the
/// four operations that merge the update into the index and the ranked map,
/// the removal each time before the update.
pub open spec fn built_from(state: BuilderView, batch: Seq<BatchOpView>) -> bool {
    let n = state.batch.len() as int;
    &&& staged_only(state.batch)
    &&& batch.len() == n + 4
    &&& batch.take(n) == state.batch
    &&& batch[n] matches BatchOpView::IndexRemoved(ids) && ascending(ids) && (forall|
        id: DocumentId,
    | ids.contains(id) <==> state.documents.contains(id.0))
    &&& batch[n + 1] matches BatchOpView::IndexUpdated(index) && flushes_to(state.words, index)
    &&& batch[n + 2] matches BatchOpView::RankedRemoved(ids) && batch[n] == BatchOpView::IndexRemoved(
        ids,
    )
    &&& batch[n + 3] == BatchOpView::RankedUpdated(state.ranked)
}

impl RawUpdateBuilder {
    /// What the update holds.
    pub closed spec fn view(&self) -> BuilderView {
        BuilderView {
            documents: self.documents_update@,
            ranked: self.documents_ranked_fields@,
            kinds: self.ranked_kinds@,
            words: self.indexed_words@,
            batch: self.batch@,
        }
    }

    /// An update that holds nothing.
    pub fn new() -> (builder: RawUpdateBuilder)
        ensures
            builder@ == BuilderView::empty(),
            builder@.wf(),
    {
        let builder = RawUpdateBuilder {
            documents_update: DocumentSet::new(),
            documents_ranked_fields: RankedMap::new(),
            ranked_kinds: Vec::new(),
            indexed_words: WordMap::new(),
            batch: StagedOps::new(),
        };
        proof {
            assert(builder@.kinds =~= Seq::<(u16, bool)>::empty());
        }
        builder
    }

    /// An update that holds nothing but the kinds of number given.
    pub fn with_kinds(kinds: Vec<(u16, bool)>) -> (builder: RawUpdateBuilder)
        ensures
            builder@ == BuilderView::seeded(kinds@),
            builder@.wf(),
    {
        RawUpdateBuilder {
            documents_update: DocumentSet::new(),
            documents_ranked_fields: RankedMap::new(),
            ranked_kinds: kinds,
            indexed_words: WordMap::new(),
            batch: StagedOps::new(),
        }
    }

    /// An update that starts from a ranked map: it holds nothing but the
    /// kinds of number that the ranked attributes have in that map.
    pub fn starting_from(ranked_map: &RankedMap) -> (builder: RawUpdateBuilder)
        ensures
            starts_from(ranked_map@, builder@),
            builder@.wf(),
    {
        let entries = ranked_map.entries();
        let mut kinds: Vec<(u16, bool)> = Vec::new();
        let mut i: usize = 0;
        while i < entries.len()
            invariant
                i <= entries.len(),
                kinds@ == kinds_of(entries@.take(i as int)),
            decreases entries.len() - i,
        {
            proof {
                assert(entries@.take(i + 1).drop_last() =~= entries@.take(i as int));
            }
            let entry = entries[i];
            match find_kind(&kinds, entry.attribute.0) {
                Some(_) => {},
                None => {
                    kinds.push((entry.attribute.0, entry.number.is_integer()));
                },
            }
            i = i + 1;
        }
        proof {
            assert(entries@.take(i as int) =~= entries@);
        }
        RawUpdateBuilder::with_kinds(kinds)
    }

    /// The kinds of number registered.
    pub(crate) fn kinds(&self) -> (kinds: &Vec<(u16, bool)>)
        ensures
            kinds@ == self@.kinds,
    {
        &self.ranked_kinds
    }

    /// What holds of every update.
    pub(crate) fn check(&self)
        ensures
            self@.wf(),
    {
        let entries = self.indexed_words.entries();
        self.batch.check();
    }

    pub(crate) fn touch(&mut self, document_id: DocumentId)
        ensures
            final(self)@ == old(self)@.touched(document_id),
    {
        self.documents_update.insert(document_id);
    }

    pub(crate) fn clear(&mut self, document_id: DocumentId)
        ensures
            final(self)@ == old(self)@.cleared(document_id),
    {
        let start = DocumentKey::new(document_id).with_attribute_min();
        let end = DocumentKey::new(document_id).with_attribute_max();
        self.batch.delete_range(start, end);
    }

    pub(crate) fn open(&mut self, document_id: DocumentId)
        ensures
            final(self)@ == old(self)@.opened(document_id),
    {
        self.touch(document_id);
        self.clear(document_id);
    }

    pub(crate) fn put(&mut self, document_id: DocumentId, attr: SchemaAttr, value: Vec<u8>)
        ensures
            final(self)@ == old(self)@.with_put(document_id, attr, value@),
    {
        let key = DocumentKeyAttr::new(document_id, attr);
        self.batch.put(key, value);
    }

    pub(crate) fn add(&mut self, token: Token, doc_index: DocIndex)
        ensures
            final(self)@ == old(self)@.with_doc_index(token@, doc_index),
            final(self)@.wf(),
    {
        self.batch.check();
        self.indexed_words.add(token, doc_index);
    }

    pub(crate) fn register(&mut self, document_id: DocumentId, attr: SchemaAttr, number: Number) -> (res:
        Result<(), SerializerError>)
        ensures
            old(self)@.accepts(attr, number) ==> res is Ok && final(self)@ == old(self)@.registered(
                document_id,
                attr,
                number,
            ),
            !old(self)@.accepts(attr, number) ==> res == Err::<(), SerializerError>(
                SerializerError::RankedTypeMismatch,
            ) && final(self)@ == old(self)@,
    {
        match find_kind(&self.ranked_kinds, attr.0) {
            Some(integer) => {
                if integer != number.is_integer() {
                    return Err(SerializerError::RankedTypeMismatch);
                }
            },
            None => {
                self.ranked_kinds.push((attr.0, number.is_integer()));
            },
        }
        self.documents_ranked_fields.insert(document_id, attr, number);
        Ok(())
    }

    /// Opens the update of one document: the document counts as touched, and
    /// everything the store holds of it is staged for deletion.
    pub fn document_update<'a>(&'a mut self, document_id: DocumentId) -> (res: Result<
        DocumentUpdate<'a>,
        SerializerError,
    >)
        ensures
            res matches Ok(update) && update.document_id == document_id && (*update.inner)@ == old(
                self,
            )@.opened(document_id) && *final(self) == *final(update.inner),
    {
        self.touch(document_id);
        DocumentUpdate::new(document_id, self)
    }

    /// Closes the update: the documents touched are staged for removal from
    /// the index and the ranked map, then the postings and ranked values
    /// collected are staged to be merged into them.
    pub fn build(self) -> (batch: WriteBatch)
        ensures
            built_from(self@, batch@),
    {
        let ghost state = self@;
        self.batch.check();
        let removed_documents = self.documents_update.to_doc_ids();
        let removed_again = removed_documents.duplicate();
        let mut builder = IndexBuilder::new();
        let mut i: usize = 0;
        let collected = self.indexed_words;
        let words = collected.entries();
        while i < words.len()
            invariant
                i <= words.len(),
                state.wf(),
                state.words == entry_views(words@),
                index_wf(builder@),
                builder@.len() == i,
                forall|k: int|
                    0 <= k < i ==> (#[trigger] builder@[k]).word == state.words[k].word
                        && same_elements(builder@[k].postings, state.words[k].postings),
            decreases words.len() - i,
        {
            let ghost before = builder@;
            proof {
                assert(state.words[i as int] == words@[i as int]@);
                assert(word_ok(state.words[i as int].word));
                if i > 0 {
                    assert(before.last().word == state.words[i - 1].word);
                    assert(word_before(state.words[i - 1].word, state.words[i as int].word));
                }
            }
            let res = builder.insert(copy_of(&words[i].word), &words[i].postings);
            proof {
                assert(res is Ok);
                assert forall|k: int| 0 <= k < i + 1 implies (#[trigger] builder@[k]).word
                    == state.words[k].word && same_elements(
                    builder@[k].postings,
                    state.words[k].postings,
                ) by {
                    if k < i {
                        assert(builder@[k] == builder@.drop_last()[k]);
                    }
                }
            }
            i = i + 1;
        }
        let index = builder.build();
        let mut batch = self.batch.into_batch();
        batch.push(BatchOp::MergeIndex(WriteIndexEvent::RemovedDocuments(removed_documents)));
        batch.push(BatchOp::MergeIndex(WriteIndexEvent::UpdatedDocuments(index)));
        batch.push(BatchOp::MergeRankedMap(WriteRankedMapEvent::RemovedDocuments(removed_again)));
        batch.push(
            BatchOp::MergeRankedMap(
                WriteRankedMapEvent::UpdatedDocuments(self.documents_ranked_fields),
            ),
        );
        proof {
            let n = state.batch.len() as int;
            assert(batch@.take(n) =~= state.batch);
        }
        batch
    }
}

/// The update of one document, open inside the update of a batch.
pub struct DocumentUpdate<'a> {
    pub document_id: DocumentId,
    pub inner: &'a mut RawUpdateBuilder,
}

impl<'a> DocumentUpdate<'a> {
    /// Opens the update of a document in `inner`: everything that the store
    /// holds of the document is staged for deletion, so that what is written
    /// next replaces it.
    pub fn new(document_id: DocumentId, inner: &'a mut RawUpdateBuilder) -> (res: Result<
        DocumentUpdate<'a>,
        SerializerError,
    >)
        ensures
            res matches Ok(update) && update.document_id == document_id && (*update.inner)@ == old(
                inner,
            )@.cleared(document_id) && *final(inner) == *final(update.inner),
    {
        inner.clear(document_id);
        Ok(DocumentUpdate { document_id, inner })
    }

    /// Removes the document: opening the update staged the deletion of all
    /// that the store holds of it, so no operation is added. The document
    /// counts as touched, so that the index and the ranked map lose what
    /// they hold of it.
    pub fn remove(&mut self) -> (res: Result<(), SerializerError>)
        ensures
            res is Ok,
            final(self).document_id == old(self).document_id,
            (*final(self).inner)@ == (*old(self).inner)@.touched(old(self).document_id),
            *final(final(self).inner) == *final(old(self).inner),
    {
        self.inner.touch(self.document_id);
        Ok(())
    }

    /// Stages the value of an attribute of the document.
    pub fn insert_attribute_value(&mut self, attr: SchemaAttr, value: &[u8]) -> (res: Result<
        (),
        SerializerError,
    >)
        ensures
            res is Ok,
            final(self).document_id == old(self).document_id,
            (*final(self).inner)@ == (*old(self).inner)@.with_put(
                old(self).document_id,
                attr,
                value@,
            ),
            *final(final(self).inner) == *final(old(self).inner),
    {
        self.inner.put(self.document_id, attr, slice_to_vec(value));
        Ok(())
    }

    /// Adds a posting for a word. A word that is empty or longer than the
    /// limit is not taken.
    pub fn insert_doc_index(&mut self, token: Token, doc_index: DocIndex) -> (res: Result<
        (),
        SerializerError,
    >)
        ensures
            res is Ok,
            final(self).document_id == old(self).document_id,
            (*final(self).inner)@ == (*old(self).inner)@.with_doc_index(token@, doc_index),
            (*final(self).inner)@.wf(),
            *final(final(self).inner) == *final(old(self).inner),
    {
        self.inner.add(token, doc_index);
        Ok(())
    }

    /// Registers the value by which the document is ranked for an attribute,
    /// unless a value of the other kind was registered for that attribute.
    pub fn register_ranked_attribute(&mut self, attr: SchemaAttr, number: Number) -> (res: Result<
        (),
        SerializerError,
    >)
        ensures
            final(self).document_id == old(self).document_id,
            *final(final(self).inner) == *final(old(self).inner),
            (*old(self).inner)@.accepts(attr, number) ==> res is Ok && (*final(self).inner)@ == (
            *old(self).inner)@.registered(old(self).document_id, attr, number),
            !(*old(self).inner)@.accepts(attr, number) ==> res == Err::<(), SerializerError>(
                SerializerError::RankedTypeMismatch,
            ) && (*final(self).inner)@ == (*old(self).inner)@,
    {
        self.inner.register(self.document_id, attr, number)
    }
}

/// The update of one index: documents are taken into it one by one, then it
/// is built into the batch that the store commits.
pub struct Update {
    schema: Schema,
    raw_builder: RawUpdateBuilder,
}

impl Update {
    #[verifier::type_invariant]
    spec fn well_formed(&self) -> bool {
        self.raw_builder@.wf() && consistent(self.raw_builder@)
    }

    /// The schema of the index.
    pub closed spec fn schema(&self) -> SchemaView {
        self.schema@
    }

    /// What the update holds.
    pub closed spec fn view(&self) -> BuilderView {
        self.raw_builder@
    }

    /// An update that holds nothing, for an index with the given schema.
    pub fn new(schema: Schema) -> (update: Update)
        ensures
            update.schema() == schema@,
            update@ == BuilderView::empty(),
            update@.wf(),
            consistent(update@),
    {
        Update { schema, raw_builder: RawUpdateBuilder::new() }
    }

    /// An update for an index with the given schema and ranked map. It holds
    /// nothing but the kinds of number that the ranked attributes have in the
    /// ranked map, so that a value of the other kind is refused.
    pub fn starting_from(schema: Schema, ranked_map: &RankedMap) -> (update: Update)
        ensures
            update.schema() == schema@,
            starts_from(ranked_map@, update@),
            update@.wf(),
            consistent(update@),
    {
        Update { schema, raw_builder: RawUpdateBuilder::starting_from(ranked_map) }
    }

    /// Takes a document into the update: the document is identified by its
    /// identifying field, all that the store holds of it is staged for
    /// deletion, and its fields are stored, indexed and ranked as the schema
    /// says, in their order: where a name occurs more than once, the value
    /// of the last field of the name is the one that stays in the store and
    /// in the ranked map, and the words of all are indexed. A document that
    /// is refused leaves the update as it is.
    pub fn update_document(&mut self, document: &Document, stop_words: &StopWords) -> (res: Result<
        DocumentId,
        SerializerError,
    >)
        ensures
            final(self).schema() == old(self).schema(),
            final(self)@.wf(),
            consistent(final(self)@),
            (final(self)@, res) == crate::serializer::update_effect(
                old(self)@,
                old(self).schema(),
                document.0@,
                stop_words@,
            ),
    {
        proof {
            use_type_invariant(&*self);
            reveal(crate::serializer::update_effect);
        }
        let document_id = match self.schema.document_id(document) {
            Ok(document_id) => document_id,
            Err(e) => {
                return Err(e);
            },
        };
        let mut kinds = copy_of(self.raw_builder.kinds());
        proof {
            crate::serializer::lemma_fields_verdict(
                old(self)@.opened(document_id),
                old(self).schema(),
                document_id,
                document.0@,
                stop_words@,
            );
        }
        match crate::serializer::check_fields(&self.schema, &mut kinds, &document.0) {
            Ok(_) => {},
            Err(e) => {
                return Err(e);
            },
        }
        let mut builder = RawUpdateBuilder::new();
        core::mem::swap(&mut builder, &mut self.raw_builder);
        builder.open(document_id);
        let _ = crate::serializer::serialize_fields(
            &self.schema,
            &mut builder,
            document_id,
            &document.0,
            stop_words,
        );
        builder.check();
        proof {
            crate::laws_update::lemma_opened(old(self)@, document_id);
            crate::laws_update::lemma_fields_effect(
                old(self)@.opened(document_id),
                old(self).schema(),
                document_id,
                document.0@,
                stop_words@,
            );
        }
        self.raw_builder = builder;
        Ok(document_id)
    }

    /// Removes a document: all that the store, the index and the ranked map
    /// hold of it is staged for deletion.
    pub fn remove_document(&mut self, document: &Document) -> (res: Result<
        DocumentId,
        SerializerError,
    >)
        ensures
            final(self).schema() == old(self).schema(),
            final(self)@.wf(),
            consistent(final(self)@),
            (final(self)@, res) == crate::serializer::remove_effect(
                old(self)@,
                old(self).schema(),
                document.0@,
            ),
    {
        proof {
            use_type_invariant(&*self);
            reveal(crate::serializer::remove_effect);
        }
        let document_id = match self.schema.document_id(document) {
            Ok(document_id) => document_id,
            Err(e) => {
                return Err(e);
            },
        };
        let mut builder = RawUpdateBuilder::new();
        core::mem::swap(&mut builder, &mut self.raw_builder);
        builder.open(document_id);
        builder.check();
        proof {
            crate::laws_update::lemma_opened(old(self)@, document_id);
        }
        self.raw_builder = builder;
        Ok(document_id)
    }

    /// Closes the update into the batch that the store commits.
    pub fn build(self) -> (batch: WriteBatch)
        ensures
            built_from(self@, batch@),
            self@.wf(),
            consistent(self@),
    {
        proof {
            use_type_invariant(&self);
        }
        self.raw_builder.build()
    }
}

} // verus!
