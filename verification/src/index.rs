use vstd::prelude::*;
use crate::doc_ids::DocIds;
use crate::levenshtein::distance;
use crate::levenshtein::edit_distance;
use crate::sorted::ascending;
use crate::sorted::copy_of;
use crate::sorted::union;
use crate::sorted::Keyed;
use crate::tokenizer::WORD_LENGTH_LIMIT;
use crate::types::DocIndex;
use crate::types::DocumentId;
use crate::word::compare_words;
use crate::word::lemma_utf8_len_bounds;
use crate::word::lemma_word_before_irreflexive;
use crate::word::lemma_word_before_total;
use crate::word::lemma_word_before_transitive;
use crate::word::starts_with;
use crate::word::utf8_len;
use crate::word::utf8_len_within;
use crate::word::word_before;
use crate::word::Order;

verus! {

/// A word of the dictionary with the places where it occurs.
pub struct WordEntry {
    pub word: Vec<char>,
    pub postings: Vec<DocIndex>,
}

/// A dictionary entry as a plain value.
pub struct EntryView {
    pub word: Seq<char>,
    pub postings: Seq<DocIndex>,
}

impl WordEntry {
    /// The entry as a plain value.
    pub open spec fn view(&self) -> EntryView {
        EntryView { word: self.word@, postings: self.postings@ }
    }
}

/// The entries of a vector as plain values.
pub open spec fn entry_views(entries: Seq<WordEntry>) -> Seq<EntryView> {
    Seq::new(entries.len(), |i: int| entries[i]@)
}

/// The words stand in dictionary order, none twice.
pub open spec fn words_ascending(entries: Seq<EntryView>) -> bool {
    forall|i: int, j: int|
        0 <= i < j < entries.len() ==> word_before(
            (#[trigger] entries[i]).word,
            (#[trigger] entries[j]).word,
        )
}

/// A word of the dictionary is not empty and within the length limit.
pub open spec fn word_ok(word: Seq<char>) -> bool {
    0 < word.len() && utf8_len(word) <= WORD_LENGTH_LIMIT
}

/// What holds of every index: words in dictionary order, each a valid word
/// with at least one posting, the postings of a word ascending.
pub open spec fn index_wf(entries: Seq<EntryView>) -> bool {
    &&& words_ascending(entries)
    &&& forall|i: int|
        0 <= i < entries.len() ==> {
            &&& word_ok((#[trigger] entries[i]).word)
            &&& entries[i].postings.len() > 0
            &&& ascending(entries[i].postings)
        }
}

/// Whether the dictionary holds a word.
pub open spec fn has_word(entries: Seq<EntryView>, word: Seq<char>) -> bool {
    exists|i: int| 0 <= i < entries.len() && (#[trigger] entries[i]).word == word
}

/// The postings of a word: those of its entry, none where it has no entry.
pub open spec fn postings_of(entries: Seq<EntryView>, word: Seq<char>) -> Seq<DocIndex> {
    if has_word(entries, word) {
        let i = choose|i: int| 0 <= i < entries.len() && (#[trigger] entries[i]).word == word;
        entries[i].postings
    } else {
        Seq::empty()
    }
}

/// `p` is the ascending sequence of the postings that occur in `q` or in `r`.
pub open spec fn merged_postings(p: Seq<DocIndex>, q: Seq<DocIndex>, r: Seq<DocIndex>) -> bool {
    &&& ascending(p)
    &&& forall|x: DocIndex| p.contains(x) <==> q.contains(x) || r.contains(x)
}

/// The postings that are left of `p` once the documents of `ids` are gone.
pub open spec fn without_documents(p: Seq<DocIndex>, ids: Seq<DocumentId>) -> Seq<DocIndex>
    decreases p.len(),
{
    if p.len() == 0 {
        p
    } else if ids.contains(p.last().document_id) {
        without_documents(p.drop_last(), ids)
    } else {
        without_documents(p.drop_last(), ids).push(p.last())
    }
}

/// In a dictionary no word stands at two places.
pub proof fn lemma_words_distinct(entries: Seq<EntryView>, i: int, j: int)
    requires
        words_ascending(entries),
        0 <= i < entries.len(),
        0 <= j < entries.len(),
        entries[i].word == entries[j].word,
    ensures
        i == j,
{
    lemma_word_before_irreflexive(entries[i].word);
    if i < j {
        assert(word_before(entries[i].word, entries[j].word));
    }
    if j < i {
        assert(word_before(entries[j].word, entries[i].word));
    }
}

/// The postings of the word at a place are those that stand at that place.
pub proof fn lemma_postings_of_entry(entries: Seq<EntryView>, i: int)
    requires
        words_ascending(entries),
        0 <= i < entries.len(),
    ensures
        has_word(entries, entries[i].word),
        postings_of(entries, entries[i].word) == entries[i].postings,
{
    let w = entries[i].word;
    assert(has_word(entries, w));
    let j = choose|j: int| 0 <= j < entries.len() && (#[trigger] entries[j]).word == w;
    lemma_words_distinct(entries, i, j);
}

/// What a dictionary holds once an entry is put at its end.
pub proof fn lemma_postings_of_push(entries: Seq<EntryView>, e: EntryView, w: Seq<char>)
    requires
        words_ascending(entries.push(e)),
    ensures
        words_ascending(entries),
        postings_of(entries.push(e), w) == if w == e.word {
            e.postings
        } else {
            postings_of(entries, w)
        },
        has_word(entries.push(e), w) == (w == e.word || has_word(entries, w)),
{
    let t = entries.push(e);
    assert forall|i: int, j: int| 0 <= i < j < entries.len() implies word_before(
        (#[trigger] entries[i]).word,
        (#[trigger] entries[j]).word,
    ) by {
        assert(t[i] == entries[i]);
        assert(t[j] == entries[j]);
    }
    let last = entries.len() as int;
    assert(t[last] == e);
    if w == e.word {
        lemma_postings_of_entry(t, last);
    } else if has_word(entries, w) {
        let i = choose|i: int| 0 <= i < entries.len() && (#[trigger] entries[i]).word == w;
        assert(t[i] == entries[i]);
        lemma_postings_of_entry(t, i);
    } else {
        if has_word(t, w) {
            let k = choose|k: int| 0 <= k < t.len() && (#[trigger] t[k]).word == w;
            if k < last {
                assert(entries[k] == t[k]);
            }
        }
    }
}

/// What the first `i + 1` entries of a dictionary hold, by what the first `i` hold.
proof fn lemma_postings_of_take(entries: Seq<EntryView>, i: int, w: Seq<char>)
    requires
        words_ascending(entries),
        0 <= i < entries.len(),
    ensures
        postings_of(entries.take(i + 1), w) == if w == entries[i].word {
            entries[i].postings
        } else {
            postings_of(entries.take(i), w)
        },
        has_word(entries.take(i + 1), w) == (w == entries[i].word || has_word(
            entries.take(i),
            w,
        )),
{
    let t = entries.take(i + 1);
    assert(t =~= entries.take(i).push(entries[i]));
    assert forall|k: int, l: int| 0 <= k < l < t.len() implies word_before(
        (#[trigger] t[k]).word,
        (#[trigger] t[l]).word,
    ) by {
        assert(t[k] == entries[k]);
        assert(t[l] == entries[l]);
    }
    lemma_postings_of_push(entries.take(i), entries[i], w);
}

/// A dictionary whose words all come before `w`, or all after, does not hold `w`.
proof fn lemma_absent(entries: Seq<EntryView>, w: Seq<char>)
    requires
        forall|k: int|
            0 <= k < entries.len() ==> word_before((#[trigger] entries[k]).word, w) || word_before(
                w,
                entries[k].word,
            ),
    ensures
        !has_word(entries, w),
        postings_of(entries, w) == Seq::<DocIndex>::empty(),
{
    lemma_word_before_irreflexive(w);
}

/// What is left of an ascending sequence is ascending, and holds the
/// postings of the documents that stay.
pub proof fn lemma_without_documents(p: Seq<DocIndex>, ids: Seq<DocumentId>)
    requires
        ascending(p),
    ensures
        ascending(without_documents(p, ids)),
        forall|x: DocIndex|
            #[trigger] without_documents(p, ids).contains(x) <==> p.contains(x) && !ids.contains(
                x.document_id,
            ),
    decreases p.len(),
{
    let f = without_documents(p, ids);
    if p.len() > 0 {
        let p0 = p.drop_last();
        let f0 = without_documents(p0, ids);
        let keep = !ids.contains(p.last().document_id);
        lemma_without_documents(p0, ids);
        assert(p =~= p0.push(p.last()));
        assert forall|x: DocIndex| f.contains(x) <==> p.contains(x) && !ids.contains(
            x.document_id,
        ) by {
            crate::sorted::lemma_push_contains(p0, p.last(), x);
            if keep {
                crate::sorted::lemma_push_contains(f0, p.last(), x);
            }
        }
        if keep {
            assert forall|i: int, j: int| 0 <= i < j < f.len() implies (#[trigger] f[i]).key() < (
            #[trigger] f[j]).key() by {
                if j == f.len() - 1 {
                    assert(f0.contains(f0[i]));
                    assert(p0.contains(f[i]));
                    let k = choose|k: int| 0 <= k < p0.len() && p0[k] == f[i];
                    assert(p[k].key() < p[p.len() - 1].key());
                } else {
                    assert(f0[i].key() < f0[j].key());
                }
            }
        }
    }
}

/// Drops from a posting list the postings of the documents of `ids`.
pub fn remove_from_postings(postings: &Vec<DocIndex>, ids: &DocIds) -> (left: Vec<DocIndex>)
    ensures
        left@ == without_documents(postings@, ids@),
{
    let mut left: Vec<DocIndex> = Vec::new();
    let mut k: usize = 0;
    while k < postings.len()
        invariant
            k <= postings.len(),
            left@ == without_documents(postings@.take(k as int), ids@),
        decreases postings.len() - k,
    {
        proof {
            assert(postings@.take(k + 1).drop_last() =~= postings@.take(k as int));
        }
        if !ids.contains(postings[k].document_id) {
            left.push(postings[k]);
        }
        k = k + 1;
    }
    proof {
        assert(postings@.take(k as int) =~= postings@);
    }
    left
}

/// One step of a merge keeps what the merged dictionary holds of each word.
proof fn lemma_merge_step(
    out: Seq<EntryView>,
    a: Seq<EntryView>,
    b: Seq<EntryView>,
    i: int,
    j: int,
    take_a: bool,
    take_b: bool,
    e: EntryView,
    w: Seq<char>,
)
    requires
        words_ascending(a),
        words_ascending(b),
        words_ascending(out.push(e)),
        0 <= i <= a.len(),
        0 <= j <= b.len(),
        take_a || take_b,
        take_a ==> i < a.len() && e.word == a[i].word,
        take_b ==> j < b.len() && e.word == b[j].word,
        take_a && take_b ==> merged_postings(e.postings, a[i].postings, b[j].postings),
        take_a && !take_b ==> e.postings == a[i].postings && ascending(e.postings),
        take_b && !take_a ==> e.postings == b[j].postings && ascending(e.postings),
        forall|k: int| 0 <= k < i ==> word_before((#[trigger] a[k]).word, e.word),
        forall|k: int| 0 <= k < j ==> word_before((#[trigger] b[k]).word, e.word),
        merged_postings(postings_of(out, w), postings_of(a.take(i), w), postings_of(b.take(j), w)),
    ensures
        merged_postings(
            postings_of(out.push(e), w),
            postings_of(
                a.take(
                    if take_a {
                        i + 1
                    } else {
                        i
                    },
                ),
                w,
            ),
            postings_of(
                b.take(
                    if take_b {
                        j + 1
                    } else {
                        j
                    },
                ),
                w,
            ),
        ),
{
    lemma_postings_of_push(out, e, w);
    if take_a {
        lemma_postings_of_take(a, i, w);
    }
    if take_b {
        lemma_postings_of_take(b, j, w);
    }
    if w == e.word {
        if !take_a {
            assert forall|k: int| 0 <= k < a.take(i).len() implies word_before(
                (#[trigger] a.take(i)[k]).word,
                w,
            ) || word_before(w, a.take(i)[k].word) by {
                assert(a.take(i)[k] == a[k]);
            }
            lemma_absent(a.take(i), w);
        }
        if !take_b {
            assert forall|k: int| 0 <= k < b.take(j).len() implies word_before(
                (#[trigger] b.take(j)[k]).word,
                w,
            ) || word_before(w, b.take(j)[k].word) by {
                assert(b.take(j)[k] == b[k]);
            }
            lemma_absent(b.take(j), w);
        }
    }
}

/// Whether `k` is where `word` belongs in a dictionary that does not hold it:
/// after the words that come before it, before those that come after.
pub open spec fn belongs_at(entries: Seq<EntryView>, word: Seq<char>, k: int) -> bool {
    &&& 0 <= k <= entries.len()
    &&& forall|j: int| 0 <= j < k ==> word_before((#[trigger] entries[j]).word, word)
    &&& forall|j: int| k <= j < entries.len() ==> word_before(word, (#[trigger] entries[j]).word)
}

/// A word belongs at one place only.
pub proof fn lemma_belongs_at_unique(entries: Seq<EntryView>, word: Seq<char>, k: int, l: int)
    requires
        belongs_at(entries, word, k),
        belongs_at(entries, word, l),
    ensures
        k == l,
{
    if k < l {
        assert(word_before(word, entries[k].word));
        assert(word_before(entries[k].word, word));
        lemma_word_before_transitive(word, entries[k].word, word);
        lemma_word_before_irreflexive(word);
    }
    if l < k {
        assert(word_before(word, entries[l].word));
        assert(word_before(entries[l].word, word));
        lemma_word_before_transitive(word, entries[l].word, word);
        lemma_word_before_irreflexive(word);
    }
}

/// Finds a word in a dictionary by bisection: its place, or else the place
/// where it belongs.
pub fn locate(entries: &Vec<WordEntry>, word: &Vec<char>) -> (place: Result<usize, usize>)
    requires
        words_ascending(entry_views(entries@)),
    ensures
        match place {
            Ok(i) => i < entries.len() && entries[i as int].word@ == word@,
            Err(k) => belongs_at(entry_views(entries@), word@, k as int),
        },
{
    let ghost views = entry_views(entries@);
    let mut lo: usize = 0;
    let mut hi: usize = entries.len();
    while lo < hi
        invariant
            lo <= hi <= entries.len(),
            views == entry_views(entries@),
            words_ascending(views),
            forall|k: int| 0 <= k < lo ==> word_before((#[trigger] views[k]).word, word@),
            forall|k: int| hi <= k < views.len() ==> word_before(word@, (#[trigger] views[k]).word),
        decreases hi - lo,
    {
        let mid = lo + (hi - lo) / 2;
        let o = compare_words(&entries[mid].word, word);
        proof {
            assert(views[mid as int].word == entries@[mid as int].word@);
            lemma_word_before_total(views[mid as int].word, word@);
        }
        match o {
            Order::Equal => {
                return Ok(mid);
            },
            Order::Less => {
                proof {
                    assert forall|k: int| 0 <= k < mid + 1 implies word_before(
                        (#[trigger] views[k]).word,
                        word@,
                    ) by {
                        if k < mid {
                            assert(word_before(views[k].word, views[mid as int].word));
                            lemma_word_before_transitive(
                                views[k].word,
                                views[mid as int].word,
                                word@,
                            );
                        }
                    }
                }
                lo = mid + 1;
            },
            Order::Greater => {
                proof {
                    assert forall|k: int| mid <= k < views.len() implies word_before(
                        word@,
                        (#[trigger] views[k]).word,
                    ) by {
                        if mid < k {
                            assert(word_before(views[mid as int].word, views[k].word));
                            lemma_word_before_transitive(
                                word@,
                                views[mid as int].word,
                                views[k].word,
                            );
                        }
                    }
                }
                hi = mid;
            },
        }
    }
    Err(lo)
}

/// The inverted index: a dictionary of words in ascending order, each with
/// the ascending list of the places where it occurs.
pub struct Index {
    entries: Vec<WordEntry>,
}

/// Why a word was not taken into an index under construction, or bytes not
/// read as an index.
#[derive(Clone, Copy, Debug, PartialEq, Eq, Structural)]
pub enum IndexError {
    /// The word does not come after the last word that was put in.
    OutOfOrder,
    /// The word is empty or longer than the limit.
    InvalidWord,
    /// The word comes with no posting.
    NoPostings,
    /// The bytes are not those of an index.
    Corruption,
}

/// Collects the entries of an index, word by word in ascending order.
pub struct IndexBuilder {
    entries: Vec<WordEntry>,
}

impl IndexBuilder {
    #[verifier::type_invariant]
    spec fn well_formed(&self) -> bool {
        index_wf(entry_views(self.entries@))
    }

    /// The entries collected so far.
    pub closed spec fn view(&self) -> Seq<EntryView> {
        entry_views(self.entries@)
    }

    /// A builder that holds no entry.
    pub fn new() -> (builder: IndexBuilder)
        ensures
            builder@ == Seq::<EntryView>::empty(),
    {
        let builder = IndexBuilder { entries: Vec::new() };
        assert(builder@ =~= Seq::<EntryView>::empty());
        builder
    }

    /// What `insert` answers for a word and its postings.
    pub open spec fn insert_result(
        entries: Seq<EntryView>,
        word: Seq<char>,
        postings: Seq<DocIndex>,
    ) -> Result<(), IndexError> {
        if !word_ok(word) {
            Err(IndexError::InvalidWord)
        } else if postings.len() == 0 {
            Err(IndexError::NoPostings)
        } else if entries.len() > 0 && !word_before(entries.last().word, word) {
            Err(IndexError::OutOfOrder)
        } else {
            Ok(())
        }
    }

    /// Puts a word at the end of the dictionary, with the ascending sequence
    /// of the postings given. The builder is unchanged where the word is refused.
    pub fn insert(&mut self, word: Vec<char>, postings: &Vec<DocIndex>) -> (res: Result<
        (),
        IndexError,
    >)
        ensures
            res == Self::insert_result(old(self)@, word@, postings@),
            index_wf(final(self)@),
            res is Err ==> final(self)@ == old(self)@,
            res is Ok ==> final(self)@.len() == old(self)@.len() + 1 && final(self)@.drop_last()
                == old(self)@ && final(self)@.last().word == word@ && ascending(
                final(self)@.last().postings,
            ) && crate::sorted::same_elements(final(self)@.last().postings, postings@),
    {
        proof {
            use_type_invariant(&*self);
        }
        let within = utf8_len_within(&word, WORD_LENGTH_LIMIT);
        if word.len() == 0 || within.is_none() {
            return Err(IndexError::InvalidWord);
        }
        if postings.len() == 0 {
            return Err(IndexError::NoPostings);
        }
        let n = self.entries.len();
        if n > 0 {
            let o = compare_words(&self.entries[n - 1].word, &word);
            proof {
                assert(entry_views(self.entries@).last().word == self.entries@[n - 1].word@);
                lemma_word_before_irreflexive(word@);
            }
            match o {
                Order::Less => {},
                _ => {
                    return Err(IndexError::OutOfOrder);
                },
            }
        }
        let sorted = crate::sorted::sort_dedup(postings);
        proof {
            assert(postings@.contains(postings@[0]));
            assert(sorted@.contains(postings@[0]));
        }
        let ghost before = entry_views(self.entries@);
        let ghost e = EntryView { word: word@, postings: sorted@ };
        let entry = WordEntry { word, postings: sorted };
        let mut entries: Vec<WordEntry> = Vec::new();
        core::mem::swap(&mut entries, &mut self.entries);
        entries.push(entry);
        proof {
            let after = entry_views(entries@);
            assert(after =~= before.push(e));
            assert forall|i: int, j: int| 0 <= i < j < after.len() implies word_before(
                (#[trigger] after[i]).word,
                (#[trigger] after[j]).word,
            ) by {
                if j == after.len() - 1 {
                    if i < j - 1 {
                        assert(word_before(before[i].word, before[j - 1].word));
                        lemma_word_before_transitive(before[i].word, before[j - 1].word, e.word);
                    }
                } else {
                    assert(word_before(before[i].word, before[j].word));
                }
            }
            assert(index_wf(after));
            assert(after.drop_last() =~= before);
        }
        self.entries = entries;
        Ok(())
    }

    /// The index of the entries collected.
    pub fn build(self) -> (index: Index)
        ensures
            index@ == self@,
            index_wf(index@),
    {
        proof {
            use_type_invariant(&self);
        }
        Index { entries: self.entries }
    }
}

/// A word of the index that a lookup found, by its place in the dictionary.
#[derive(Clone, Copy, Debug, PartialEq, Eq, Structural)]
pub struct Found {
    /// The place of the word in the dictionary.
    pub entry: usize,
    /// The edit distance between the word looked for and the word found.
    pub distance: u8,
}

impl Index {
    #[verifier::type_invariant]
    spec fn well_formed(&self) -> bool {
        index_wf(entry_views(self.entries@))
    }

    /// The dictionary, in ascending order of the words.
    pub closed spec fn view(&self) -> Seq<EntryView> {
        entry_views(self.entries@)
    }

    /// The index that holds no word.
    pub fn new() -> (index: Index)
        ensures
            index@ == Seq::<EntryView>::empty(),
    {
        let index = Index { entries: Vec::new() };
        assert(index@ =~= Seq::<EntryView>::empty());
        index
    }

    /// The number of words.
    pub fn len(&self) -> (n: usize)
        ensures
            n == self@.len(),
            index_wf(self@),
    {
        proof {
            use_type_invariant(self);
        }
        self.entries.len()
    }

    /// The word at a place of the dictionary.
    pub fn word(&self, i: usize) -> (word: &Vec<char>)
        requires
            i < self@.len(),
        ensures
            word@ == self@[i as int].word,
    {
        &self.entries[i].word
    }

    /// The postings of the word at a place of the dictionary.
    pub fn postings(&self, i: usize) -> (postings: &Vec<DocIndex>)
        requires
            i < self@.len(),
        ensures
            postings@ == self@[i as int].postings,
    {
        &self.entries[i].postings
    }

    /// The postings of a word, if the index holds it.
    pub fn lookup(&self, word: &Vec<char>) -> (found: Option<&Vec<DocIndex>>)
        ensures
            found is Some == has_word(self@, word@),
            found matches Some(postings) ==> postings@ == postings_of(self@, word@)
                && postings@.len() > 0 && ascending(postings@),
    {
        proof {
            use_type_invariant(self);
        }
        match locate(&self.entries, word) {
            Ok(i) => {
                proof {
                    assert(self@[i as int] == self.entries@[i as int]@);
                    lemma_postings_of_entry(self@, i as int);
                }
                Some(&self.entries[i].postings)
            },
            Err(_) => {
                proof {
                    lemma_absent(self@, word@);
                }
                None
            },
        }
    }

    /// The places of the words that begin with `prefix`, in ascending order.
    pub fn prefix_lookup(&self, prefix: &Vec<char>) -> (places: Vec<usize>)
        ensures
            forall|k: int, l: int| 0 <= k < l < places.len() ==> places[k] < places[l],
            forall|k: int|
                0 <= k < places.len() ==> (#[trigger] places[k]) < self@.len()
                    && prefix@.is_prefix_of(self@[places[k] as int].word),
            forall|i: int|
                0 <= i < self@.len() && prefix@.is_prefix_of((#[trigger] self@[i]).word)
                    ==> places@.contains(i as usize),
    {
        let mut places: Vec<usize> = Vec::new();
        let mut i: usize = 0;
        while i < self.entries.len()
            invariant
                i <= self.entries.len(),
                forall|k: int, l: int| 0 <= k < l < places.len() ==> places[k] < places[l],
                forall|k: int|
                    0 <= k < places.len() ==> (#[trigger] places[k]) < i && prefix@.is_prefix_of(
                        self@[places[k] as int].word,
                    ),
                forall|j: int|
                    0 <= j < i && prefix@.is_prefix_of((#[trigger] self@[j]).word)
                        ==> places@.contains(j as usize),
            decreases self.entries.len() - i,
        {
            let ghost before = places@;
            if starts_with(&self.entries[i].word, prefix) {
                places.push(i);
                proof {
                    assert(places@[before.len() as int] == i);
                }
            }
            proof {
                assert forall|j: int|
                    0 <= j < i + 1 && prefix@.is_prefix_of(
                        (#[trigger] self@[j]).word,
                    ) implies places@.contains(j as usize) by {
                    if j < i {
                        let k = choose|k: int| 0 <= k < before.len() && before[k] == j as usize;
                        assert(places@[k] == j as usize);
                    }
                }
            }
            i = i + 1;
        }
        places
    }

    /// The words within `max_edits` edits of `word`, in ascending order, each
    /// with its edit distance from `word`.
    pub fn dfa_lookup(&self, word: &Vec<char>, max_edits: u8) -> (found: Vec<Found>)
        requires
            word.len() < usize::MAX,
        ensures
            forall|k: int, l: int| 0 <= k < l < found.len() ==> found[k].entry < found[l].entry,
            forall|k: int|
                0 <= k < found.len() ==> (#[trigger] found[k]).entry < self@.len()
                    && found[k].distance == edit_distance(word@, self@[found[k].entry as int].word)
                    && found[k].distance <= max_edits,
            forall|i: int|
                0 <= i < self@.len() && edit_distance(word@, (#[trigger] self@[i]).word)
                    <= max_edits ==> exists|k: int|
                    0 <= k < found.len() && (#[trigger] found[k]).entry == i,
    {
        proof {
            use_type_invariant(self);
        }
        let mut found: Vec<Found> = Vec::new();
        let mut i: usize = 0;
        while i < self.entries.len()
            invariant
                i <= self.entries.len(),
                word.len() < usize::MAX,
                index_wf(self@),
                forall|k: int, l: int|
                    0 <= k < l < found.len() ==> found[k].entry < found[l].entry,
                forall|k: int|
                    0 <= k < found.len() ==> (#[trigger] found[k]).entry < i && found[k].distance
                        == edit_distance(word@, self@[found[k].entry as int].word)
                        && found[k].distance <= max_edits,
                forall|j: int|
                    0 <= j < i && edit_distance(word@, (#[trigger] self@[j]).word) <= max_edits
                        ==> exists|k: int| 0 <= k < found.len() && (#[trigger] found[k]).entry == j,
            decreases self.entries.len() - i,
        {
            let ghost before = found@;
            proof {
                assert(word_ok(self@[i as int].word));
                lemma_utf8_len_bounds(self@[i as int].word);
            }
            let d = distance(word, &self.entries[i].word);
            if d <= max_edits as usize {
                found.push(Found { entry: i, distance: d as u8 });
                proof {
                    assert(found@[before.len() as int].entry == i);
                }
            }
            proof {
                assert forall|j: int|
                    0 <= j < i + 1 && edit_distance(word@, (#[trigger] self@[j]).word)
                        <= max_edits implies exists|k: int|
                    0 <= k < found.len() && (#[trigger] found[k]).entry == j by {
                    if j < i {
                        let k = choose|k: int|
                            0 <= k < before.len() && (#[trigger] before[k]).entry == j;
                        assert(found@[k].entry == j);
                    } else {
                        assert(found@[before.len() as int].entry == j);
                    }
                }
            }
            i = i + 1;
        }
        found
    }

    /// The index that holds, for each word, the postings that either index
    /// holds for it.
    pub fn merge(&self, other: &Index) -> (merged: Index)
        ensures
            index_wf(merged@),
            forall|w: Seq<char>|
                merged_postings(
                    #[trigger] postings_of(merged@, w),
                    postings_of(self@, w),
                    postings_of(other@, w),
                ),
    {
        proof {
            use_type_invariant(self);
            use_type_invariant(other);
        }
        let ghost a = self@;
        let ghost b = other@;
        let mut out: Vec<WordEntry> = Vec::new();
        let ghost mut ov: Seq<EntryView> = Seq::empty();
        let mut i: usize = 0;
        let mut j: usize = 0;
        proof {
            assert(entry_views(out@) =~= ov);
            assert forall|w: Seq<char>|
                merged_postings(
                    #[trigger] postings_of(ov, w),
                    postings_of(a.take(0), w),
                    postings_of(b.take(0), w),
                ) by {}
        }
        while i < self.entries.len() || j < other.entries.len()
            invariant
                i <= self.entries.len(),
                j <= other.entries.len(),
                a == entry_views(self.entries@),
                b == entry_views(other.entries@),
                ov == entry_views(out@),
                index_wf(a),
                index_wf(b),
                index_wf(ov),
                forall|k: int, l: int|
                    0 <= k < ov.len() && i <= l < a.len() ==> word_before(
                        (#[trigger] ov[k]).word,
                        (#[trigger] a[l]).word,
                    ),
                forall|k: int, l: int|
                    0 <= k < ov.len() && j <= l < b.len() ==> word_before(
                        (#[trigger] ov[k]).word,
                        (#[trigger] b[l]).word,
                    ),
                forall|k: int, l: int|
                    0 <= k < i && j <= l < b.len() ==> word_before(
                        (#[trigger] a[k]).word,
                        (#[trigger] b[l]).word,
                    ),
                forall|k: int, l: int|
                    0 <= k < j && i <= l < a.len() ==> word_before(
                        (#[trigger] b[k]).word,
                        (#[trigger] a[l]).word,
                    ),
                forall|w: Seq<char>|
                    merged_postings(
                        #[trigger] postings_of(ov, w),
                        postings_of(a.take(i as int), w),
                        postings_of(b.take(j as int), w),
                    ),
            decreases self.entries.len() - i + other.entries.len() - j,
        {
            let take_a: bool;
            let take_b: bool;
            if j >= other.entries.len() {
                take_a = true;
                take_b = false;
            } else if i >= self.entries.len() {
                take_a = false;
                take_b = true;
            } else {
                let o = compare_words(&self.entries[i].word, &other.entries[j].word);
                proof {
                    assert(a[i as int].word == self.entries@[i as int].word@);
                    assert(b[j as int].word == other.entries@[j as int].word@);
                    lemma_word_before_total(a[i as int].word, b[j as int].word);
                }
                match o {
                    Order::Less => {
                        take_a = true;
                        take_b = false;
                    },
                    Order::Greater => {
                        take_a = false;
                        take_b = true;
                    },
                    Order::Equal => {
                        take_a = true;
                        take_b = true;
                    },
                }
            }
            let entry = if take_a && take_b {
                WordEntry {
                    word: copy_of(&self.entries[i].word),
                    postings: union(&self.entries[i].postings, &other.entries[j].postings),
                }
            } else if take_a {
                WordEntry {
                    word: copy_of(&self.entries[i].word),
                    postings: copy_of(&self.entries[i].postings),
                }
            } else {
                WordEntry {
                    word: copy_of(&other.entries[j].word),
                    postings: copy_of(&other.entries[j].postings),
                }
            };
            let ghost e = entry@;
            let ghost i0 = i as int;
            let ghost j0 = j as int;
            let ghost ov0 = ov;
            proof {
                if take_a {
                    assert(a[i0] == self.entries@[i0]@);
                    assert(word_ok(a[i0].word));
                }
                if take_b {
                    assert(b[j0] == other.entries@[j0]@);
                    assert(word_ok(b[j0].word));
                }
                if take_a && take_b {
                    assert(a[i0].postings.contains(a[i0].postings[0]));
                    assert(e.postings.contains(a[i0].postings[0]));
                }
                // the new word comes before every word that is left
                assert forall|l: int| i0 <= l < a.len() && !(take_a && l == i0) implies word_before(
                    e.word,
                    (#[trigger] a[l]).word,
                ) by {
                    if take_a {
                        assert(word_before(a[i0].word, a[l].word));
                    } else {
                        assert(word_before(b[j0].word, a[i0].word));
                        if i0 < l {
                            assert(word_before(a[i0].word, a[l].word));
                            lemma_word_before_transitive(e.word, a[i0].word, a[l].word);
                        }
                    }
                }
                assert forall|l: int| j0 <= l < b.len() && !(take_b && l == j0) implies word_before(
                    e.word,
                    (#[trigger] b[l]).word,
                ) by {
                    if take_b {
                        assert(word_before(b[j0].word, b[l].word));
                    } else {
                        assert(word_before(a[i0].word, b[j0].word));
                        if j0 < l {
                            assert(word_before(b[j0].word, b[l].word));
                            lemma_word_before_transitive(e.word, b[j0].word, b[l].word);
                        }
                    }
                }
                // and after every word that was passed
                assert forall|k: int| 0 <= k < i0 implies word_before(
                    (#[trigger] a[k]).word,
                    e.word,
                ) by {
                    if take_a {
                        assert(word_before(a[k].word, a[i0].word));
                    } else {
                        assert(word_before(a[k].word, b[j0].word));
                    }
                }
                assert forall|k: int| 0 <= k < j0 implies word_before(
                    (#[trigger] b[k]).word,
                    e.word,
                ) by {
                    if take_b {
                        assert(word_before(b[k].word, b[j0].word));
                    } else {
                        assert(word_before(b[k].word, a[i0].word));
                    }
                }
                assert forall|k: int| 0 <= k < ov0.len() implies word_before(
                    (#[trigger] ov0[k]).word,
                    e.word,
                ) by {
                    if take_a {
                        assert(word_before(ov0[k].word, a[i0].word));
                    } else {
                        assert(word_before(ov0[k].word, b[j0].word));
                    }
                }
            }
            out.push(entry);
            if take_a {
                i = i + 1;
            }
            if take_b {
                j = j + 1;
            }
            proof {
                ov = ov0.push(e);
                assert(entry_views(out@) =~= ov);
                assert forall|k: int, l: int| 0 <= k < l < ov.len() implies word_before(
                    (#[trigger] ov[k]).word,
                    (#[trigger] ov[l]).word,
                ) by {
                    if l < ov0.len() {
                        assert(word_before(ov0[k].word, ov0[l].word));
                    } else {
                        assert(word_before(ov0[k].word, e.word));
                    }
                }
                assert(index_wf(ov));
                assert forall|w: Seq<char>|
                    merged_postings(
                        #[trigger] postings_of(ov, w),
                        postings_of(a.take(i as int), w),
                        postings_of(b.take(j as int), w),
                    ) by {
                    assert(merged_postings(
                        postings_of(ov0, w),
                        postings_of(a.take(i0), w),
                        postings_of(b.take(j0), w),
                    ));
                    lemma_merge_step(ov0, a, b, i0, j0, take_a, take_b, e, w);
                }
            }
        }
        proof {
            assert(a.take(i as int) =~= a);
            assert(b.take(j as int) =~= b);
        }
        Index { entries: out }
    }

    /// The index without the postings of the documents of `ids`. A word whose
    /// postings are all gone leaves the dictionary.
    pub fn remove_documents(&self, ids: &DocIds) -> (index: Index)
        ensures
            index_wf(index@),
            forall|w: Seq<char>| #[trigger]
                postings_of(index@, w) == without_documents(postings_of(self@, w), ids@),
    {
        proof {
            use_type_invariant(self);
        }
        let ghost a = self@;
        let mut out: Vec<WordEntry> = Vec::new();
        let ghost mut ov: Seq<EntryView> = Seq::empty();
        let mut i: usize = 0;
        proof {
            assert(entry_views(out@) =~= ov);
        }
        while i < self.entries.len()
            invariant
                i <= self.entries.len(),
                a == entry_views(self.entries@),
                ov == entry_views(out@),
                index_wf(a),
                index_wf(ov),
                forall|k: int, l: int|
                    0 <= k < ov.len() && i <= l < a.len() ==> word_before(
                        (#[trigger] ov[k]).word,
                        (#[trigger] a[l]).word,
                    ),
                forall|w: Seq<char>| #[trigger]
                    postings_of(ov, w) == without_documents(postings_of(a.take(i as int), w), ids@),
            decreases self.entries.len() - i,
        {
            let left = remove_from_postings(&self.entries[i].postings, ids);
            let ghost i0 = i as int;
            let ghost ov0 = ov;
            proof {
                assert(a[i0] == self.entries@[i0]@);
                lemma_without_documents(a[i0].postings, ids@);
            }
            if left.len() > 0 {
                let entry = WordEntry { word: copy_of(&self.entries[i].word), postings: left };
                let ghost e = entry@;
                out.push(entry);
                proof {
                    ov = ov0.push(e);
                    assert(entry_views(out@) =~= ov);
                    assert forall|k: int, l: int| 0 <= k < l < ov.len() implies word_before(
                        (#[trigger] ov[k]).word,
                        (#[trigger] ov[l]).word,
                    ) by {
                        if l < ov0.len() {
                            assert(word_before(ov0[k].word, ov0[l].word));
                        } else {
                            assert(word_before(ov0[k].word, a[i0].word));
                        }
                    }
                    assert(word_ok(a[i0].word));
                    assert(index_wf(ov));
                    assert forall|k: int, l: int|
                        0 <= k < ov.len() && i0 + 1 <= l < a.len() implies word_before(
                        (#[trigger] ov[k]).word,
                        (#[trigger] a[l]).word,
                    ) by {
                        if k < ov0.len() {
                            assert(word_before(ov0[k].word, a[l].word));
                        } else {
                            assert(word_before(a[i0].word, a[l].word));
                        }
                    }
                    assert forall|w: Seq<char>| #[trigger]
                        postings_of(ov, w) == without_documents(
                            postings_of(a.take(i0 + 1), w),
                            ids@,
                        ) by {
                        assert(postings_of(ov0, w) == without_documents(
                            postings_of(a.take(i0), w),
                            ids@,
                        ));
                        lemma_postings_of_push(ov0, e, w);
                        lemma_postings_of_take(a, i0, w);
                    }
                }
            } else {
                proof {
                    assert forall|w: Seq<char>| #[trigger]
                        postings_of(ov, w) == without_documents(
                            postings_of(a.take(i0 + 1), w),
                            ids@,
                        ) by {
                        assert(postings_of(ov0, w) == without_documents(
                            postings_of(a.take(i0), w),
                            ids@,
                        ));
                        lemma_postings_of_take(a, i0, w);
                        if w == a[i0].word {
                            assert forall|k: int| 0 <= k < ov0.len() implies word_before(
                                (#[trigger] ov0[k]).word,
                                w,
                            ) || word_before(w, ov0[k].word) by {
                                assert(word_before(ov0[k].word, a[i0].word));
                            }
                            lemma_absent(ov0, w);
                            assert(left@ =~= Seq::<DocIndex>::empty());
                        }
                    }
                }
            }
            i = i + 1;
        }
        proof {
            assert(a.take(i as int) =~= a);
        }
        Index { entries: out }
    }
}

} // verus!
