use vstd::prelude::*;
use std::collections::HashMap;
use crate::criterion::DocumentMatch;
use crate::criterion::Match;
use crate::index::index_wf;
use crate::index::word_ok;
use crate::index::EntryView;
use crate::index::Index;
use crate::levenshtein::distance;
use crate::levenshtein::edit_distance;
use crate::levenshtein::max_typos;
use crate::levenshtein::typo_budget;
use crate::rank::document_views;
use crate::rank::DocumentMatchView;
use crate::schema::declares;
use crate::schema::lemma_place_unique;
use crate::schema::place_of;
use crate::schema::Schema;
use crate::schema::SchemaView;
use crate::types::DocIndex;
use crate::types::DocumentId;
use crate::word::lemma_utf8_len_bounds;
use crate::word::starts_with;
use crate::word::utf8_len;

verus! {

/// A match before the matches are gathered by document.
#[derive(Clone, Copy, Debug, PartialEq, Eq, Structural)]
pub struct RawMatch {
    pub document: DocumentId,
    pub found: Match,
}

/// The match that a posting gives for a query word.
pub open spec fn posting_match(posting: DocIndex, query_index: u32, distance: u8, is_exact: bool) -> RawMatch {
    RawMatch {
        document: posting.document_id,
        found: Match {
            query_index,
            distance,
            attribute: posting.attribute,
            word_index: posting.word_index,
            is_exact,
            char_index: posting.char_index,
            char_length: posting.char_length,
        },
    }
}

/// The matches that the postings of an indexed word give, in their order.
pub open spec fn posting_matches(
    postings: Seq<DocIndex>,
    query_index: u32,
    distance: u8,
    is_exact: bool,
) -> Seq<RawMatch> {
    Seq::new(postings.len(), |k: int| posting_match(postings[k], query_index, distance, is_exact))
}

/// How an indexed word matches a query word. The word itself matches
/// exactly, at distance zero. Another word matches the last word of a query
/// where that word is a prefix of it: at distance zero, and not exactly.
/// Any other word matches within the typos tolerated for the query word, at
/// its edit distance.
pub open spec fn word_match(query_word: Seq<char>, is_last: bool, word: Seq<char>) -> Option<
    (u8, bool),
> {
    let d = edit_distance(query_word, word);
    if d == 0 {
        Some((0u8, true))
    } else if is_last && query_word.is_prefix_of(word) {
        Some((0u8, false))
    } else if d <= typo_budget(utf8_len(query_word)) {
        Some((d as u8, false))
    } else {
        None
    }
}

/// The matches of a query word in the first `k` words of the dictionary.
pub open spec fn word_matches(
    entries: Seq<EntryView>,
    query_word: Seq<char>,
    query_index: u32,
    is_last: bool,
    k: int,
) -> Seq<RawMatch>
    decreases k,
{
    if k <= 0 {
        Seq::empty()
    } else {
        let before = word_matches(entries, query_word, query_index, is_last, k - 1);
        match word_match(query_word, is_last, entries[k - 1].word) {
            Some((d, exact)) => before + posting_matches(
                entries[k - 1].postings,
                query_index,
                d,
                exact,
            ),
            None => before,
        }
    }
}

/// The matches of the first `n` words of a query: word by word in the order
/// of the query, for each word in the order of the dictionary.
pub open spec fn query_matches(entries: Seq<EntryView>, words: Seq<Seq<char>>, n: int) -> Seq<
    RawMatch,
>
    decreases n,
{
    if n <= 0 {
        Seq::empty()
    } else {
        query_matches(entries, words, n - 1) + word_matches(
            entries,
            words[n - 1],
            (n - 1) as u32,
            n == words.len(),
            entries.len() as int,
        )
    }
}

/// The matches that lie in one of the attributes allowed.
pub open spec fn restricted(raw: Seq<RawMatch>, allowed: Seq<u16>) -> Seq<RawMatch>
    decreases raw.len(),
{
    if raw.len() == 0 {
        raw
    } else if allowed.contains(raw.last().found.attribute) {
        restricted(raw.drop_last(), allowed).push(raw.last())
    } else {
        restricted(raw.drop_last(), allowed)
    }
}

/// The attributes that a list of names stands for: a name that the schema
/// does not declare stands for none.
pub open spec fn attributes_named(schema: SchemaView, names: Seq<String>) -> Seq<u16>
    decreases names.len(),
{
    if names.len() == 0 {
        Seq::empty()
    } else if declares(schema.attrs, names.last()@) {
        attributes_named(schema, names.drop_last()).push(
            place_of(schema.attrs, names.last()@) as u16,
        )
    } else {
        attributes_named(schema, names.drop_last())
    }
}

/// Whether a document is among the candidates.
pub open spec fn has_document(documents: Seq<DocumentMatchView>, id: DocumentId) -> bool {
    exists|i: int| 0 <= i < documents.len() && (#[trigger] documents[i]).id == id
}

/// The place of a document among the candidates.
pub open spec fn place_of_document(documents: Seq<DocumentMatchView>, id: DocumentId) -> int {
    choose|i: int| 0 <= i < documents.len() && (#[trigger] documents[i]).id == id
}

/// The candidates that a sequence of matches makes: one for each document
/// that has a match, in the order in which the documents first occur, each
/// with its matches in their order.
pub open spec fn candidates(raw: Seq<RawMatch>) -> Seq<DocumentMatchView>
    decreases raw.len(),
{
    if raw.len() == 0 {
        Seq::empty()
    } else {
        let before = candidates(raw.drop_last());
        let last = raw.last();
        if has_document(before, last.document) {
            let i = place_of_document(before, last.document);
            before.update(
                i,
                DocumentMatchView { id: last.document, matches: before[i].matches.push(last.found) },
            )
        } else {
            before.push(DocumentMatchView { id: last.document, matches: seq![last.found] })
        }
    }
}

/// No document occurs twice.
pub open spec fn distinct_ids(documents: Seq<DocumentMatchView>) -> bool {
    forall|i: int, j: int|
        0 <= i < j < documents.len() ==> (#[trigger] documents[i]).id != (
        #[trigger] documents[j]).id
}

/// Whether a document has a match.
pub open spec fn mentions(raw: Seq<RawMatch>, id: DocumentId) -> bool {
    exists|k: int| 0 <= k < raw.len() && (#[trigger] raw[k]).document == id
}

/// No document occurs twice among the candidates, and each has a match.
pub proof fn lemma_candidates(raw: Seq<RawMatch>)
    ensures
        distinct_ids(candidates(raw)),
        forall|i: int|
            0 <= i < candidates(raw).len() ==> (#[trigger] candidates(raw)[i]).matches.len() > 0,
        forall|k: int| 0 <= k < raw.len() ==> has_document(candidates(raw), (#[trigger] raw[k]).document),
        forall|i: int|
            0 <= i < candidates(raw).len() ==> mentions(raw, (#[trigger] candidates(raw)[i]).id),
    decreases raw.len(),
{
    let c = candidates(raw);
    if raw.len() > 0 {
        let r0 = raw.drop_last();
        let before = candidates(r0);
        let last = raw.last();
        lemma_candidates(r0);
        if has_document(before, last.document) {
            let i = place_of_document(before, last.document);
            assert forall|a: int, b: int| 0 <= a < b < c.len() implies (#[trigger] c[a]).id != (
            #[trigger] c[b]).id by {
                assert(before[a].id != before[b].id);
            }
            assert forall|k: int| 0 <= k < raw.len() implies has_document(
                c,
                (#[trigger] raw[k]).document,
            ) by {
                if k < r0.len() {
                    assert(r0[k] == raw[k]);
                    let j = place_of_document(before, raw[k].document);
                    assert(c[j].id == raw[k].document);
                } else {
                    assert(c[i].id == last.document);
                }
            }
            assert forall|j: int| 0 <= j < c.len() implies mentions(raw, (#[trigger] c[j]).id) by {
                assert(c[j].id == before[j].id);
                assert(mentions(r0, before[j].id));
                let k = choose|k: int| 0 <= k < r0.len() && (#[trigger] r0[k]).document == before[j].id;
                assert(raw[k].document == c[j].id);
            }
        } else {
            assert forall|a: int, b: int| 0 <= a < b < c.len() implies (#[trigger] c[a]).id != (
            #[trigger] c[b]).id by {
                if b < before.len() {
                    assert(before[a].id != before[b].id);
                } else {
                    assert(c[a] == before[a]);
                }
            }
            assert forall|k: int| 0 <= k < raw.len() implies has_document(
                c,
                (#[trigger] raw[k]).document,
            ) by {
                if k < r0.len() {
                    assert(r0[k] == raw[k]);
                    let j = place_of_document(before, raw[k].document);
                    assert(c[j].id == raw[k].document);
                } else {
                    assert(c[before.len() as int].id == last.document);
                }
            }
            assert forall|j: int| 0 <= j < c.len() implies mentions(raw, (#[trigger] c[j]).id) by {
                if j < before.len() {
                    assert(c[j] == before[j]);
                    assert(mentions(r0, before[j].id));
                    let k = choose|k: int|
                        0 <= k < r0.len() && (#[trigger] r0[k]).document == before[j].id;
                    assert(raw[k].document == c[j].id);
                } else {
                    assert(raw[raw.len() - 1].document == c[j].id);
                }
            }
        }
    }
}

/// Adds to `raw` the matches of a query word in the index.
pub fn match_word(
    index: &Index,
    word: &Vec<char>,
    query_index: u32,
    is_last: bool,
    raw: &mut Vec<RawMatch>,
)
    requires
        word.len() < usize::MAX,
    ensures
        final(raw)@ == old(raw)@ + word_matches(
            index@,
            word@,
            query_index,
            is_last,
            index@.len() as int,
        ),
{
    let budget = max_typos(word);
    let n = index.len();
    let mut i: usize = 0;
    proof {
        assert(raw@ =~= old(raw)@ + word_matches(index@, word@, query_index, is_last, 0));
    }
    while i < n
        invariant
            i <= n,
            n == index@.len(),
            index_wf(index@),
            word.len() < usize::MAX,
            budget == typo_budget(utf8_len(word@)),
            raw@ == old(raw)@ + word_matches(index@, word@, query_index, is_last, i as int),
        decreases n - i,
    {
        let indexed = index.word(i);
        proof {
            assert(word_ok(index@[i as int].word));
            lemma_utf8_len_bounds(index@[i as int].word);
        }
        let d = distance(word, indexed);
        let how: Option<(u8, bool)> = if d == 0 {
            Some((0u8, true))
        } else if is_last && starts_with(indexed, word) {
            Some((0u8, false))
        } else if d <= budget as usize {
            Some((d as u8, false))
        } else {
            None
        };
        assert(how == word_match(word@, is_last, index@[i as int].word));
        let ghost base = raw@;
        match how {
            Some((distance, is_exact)) => {
                let postings = index.postings(i);
                let ghost all = posting_matches(postings@, query_index, distance, is_exact);
                let mut k: usize = 0;
                while k < postings.len()
                    invariant
                        k <= postings.len(),
                        all == posting_matches(postings@, query_index, distance, is_exact),
                        raw@ == base + all.take(k as int),
                    decreases postings.len() - k,
                {
                    let posting = postings[k];
                    raw.push(
                        RawMatch {
                            document: posting.document_id,
                            found: Match {
                                query_index,
                                distance,
                                attribute: posting.attribute,
                                word_index: posting.word_index,
                                is_exact,
                                char_index: posting.char_index,
                                char_length: posting.char_length,
                            },
                        },
                    );
                    proof {
                        assert(all.take(k + 1) =~= all.take(k as int).push(all[k as int]));
                        assert(raw@ =~= base + all.take(k + 1));
                    }
                    k = k + 1;
                }
                proof {
                    assert(all.take(k as int) =~= all);
                    assert(raw@ =~= old(raw)@ + word_matches(
                        index@,
                        word@,
                        query_index,
                        is_last,
                        i + 1,
                    ));
                }
            },
            None => {},
        }
        i = i + 1;
    }
}

/// Keeps the matches that lie in one of the attributes allowed.
pub fn restrict(raw: &Vec<RawMatch>, allowed: &Vec<u16>) -> (kept: Vec<RawMatch>)
    ensures
        kept@ == restricted(raw@, allowed@),
{
    let mut kept: Vec<RawMatch> = Vec::new();
    let mut i: usize = 0;
    while i < raw.len()
        invariant
            i <= raw.len(),
            kept@ == restricted(raw@.take(i as int), allowed@),
        decreases raw.len() - i,
    {
        proof {
            assert(raw@.take(i + 1).drop_last() =~= raw@.take(i as int));
        }
        let attribute = raw[i].found.attribute;
        let mut found = false;
        let mut k: usize = 0;
        while k < allowed.len() && !found
            invariant
                k <= allowed.len(),
                found ==> allowed@.contains(attribute),
                !found ==> forall|j: int| 0 <= j < k ==> allowed@[j] != attribute,
            decreases allowed.len() - k + if found { 0int } else { 1int },
        {
            if allowed[k] == attribute {
                found = true;
            } else {
                k = k + 1;
            }
        }
        if found {
            kept.push(raw[i]);
        }
        i = i + 1;
    }
    proof {
        assert(raw@.take(i as int) =~= raw@);
    }
    kept
}

/// The attributes that a list of names stands for.
pub fn attributes_of(schema: &Schema, names: &Vec<String>) -> (attributes: Vec<u16>)
    ensures
        attributes@ == attributes_named(schema@, names@),
{
    let n = schema.len();
    let mut attributes: Vec<u16> = Vec::new();
    let mut i: usize = 0;
    while i < names.len()
        invariant
            i <= names.len(),
            schema@.wf(),
            attributes@ == attributes_named(schema@, names@.take(i as int)),
        decreases names.len() - i,
    {
        proof {
            assert(names@.take(i + 1).drop_last() =~= names@.take(i as int));
        }
        match schema.attribute(names[i].as_str()) {
            Some(attribute) => {
                proof {
                    lemma_place_unique(schema@.attrs, attribute.0 as int);
                }
                attributes.push(attribute.0);
            },
            None => {},
        }
        i = i + 1;
    }
    proof {
        assert(names@.take(i as int) =~= names@);
    }
    attributes
}

/// Gathers the matches by document.
pub fn group(raw: &Vec<RawMatch>) -> (documents: Vec<DocumentMatch>)
    ensures
        document_views(documents@) == candidates(raw@),
{
    let mut documents: Vec<DocumentMatch> = Vec::new();
    let mut places: HashMap<u64, usize> = HashMap::new();
    let ghost mut views: Seq<DocumentMatchView> = Seq::empty();
    let mut k: usize = 0;
    proof {
        assert(document_views(documents@) =~= views);
    }
    while k < raw.len()
        invariant
            k <= raw.len(),
            views == document_views(documents@),
            views == candidates(raw@.take(k as int)),
            distinct_ids(views),
            forall|i: int|
                0 <= i < views.len() ==> places@.dom().contains((#[trigger] views[i]).id.0)
                    && places@[views[i].id.0] == i,
            forall|id: u64|
                places@.dom().contains(id) ==> 0 <= #[trigger] places@[id] < views.len()
                    && views[places@[id] as int].id.0 == id,
        decreases raw.len() - k,
    {
        let r = raw[k];
        let ghost views0 = views;
        proof {
            assert(raw@.take(k + 1).drop_last() =~= raw@.take(k as int));
            assert(raw@.take(k + 1).last() == r);
        }
        let place: Option<usize> = match places.get(&r.document.0) {
            Some(p) => Some(*p),
            None => None,
        };
        match place {
            Some(i) => {
                proof {
                    assert(views0[i as int].id == r.document);
                    assert(has_document(views0, r.document));
                    let j = place_of_document(views0, r.document);
                    if i < j {
                        assert(views0[i as int].id != views0[j].id);
                    }
                    if j < i {
                        assert(views0[j].id != views0[i as int].id);
                    }
                }
                documents[i].matches.push(r.found);
                proof {
                    views = views0.update(
                        i as int,
                        DocumentMatchView {
                            id: r.document,
                            matches: views0[i as int].matches.push(r.found),
                        },
                    );
                    assert(document_views(documents@) =~= views);
                    assert forall|a: int, b: int| 0 <= a < b < views.len() implies (
                    #[trigger] views[a]).id != (#[trigger] views[b]).id by {
                        assert(views0[a].id != views0[b].id);
                    }
                }
            },
            None => {
                proof {
                    if has_document(views0, r.document) {
                        let j = place_of_document(views0, r.document);
                        assert(places@.dom().contains(views0[j].id.0));
                    }
                }
                places.insert(r.document.0, documents.len());
                let mut matches: Vec<Match> = Vec::new();
                matches.push(r.found);
                documents.push(DocumentMatch { id: r.document, matches });
                proof {
                    views = views0.push(
                        DocumentMatchView { id: r.document, matches: seq![r.found] },
                    );
                    assert(document_views(documents@) =~= views);
                    assert forall|a: int, b: int| 0 <= a < b < views.len() implies (
                    #[trigger] views[a]).id != (#[trigger] views[b]).id by {
                        if b < views0.len() {
                            assert(views0[a].id != views0[b].id);
                        } else {
                            assert(views[a] == views0[a]);
                            assert(places@.dom().contains(views0[a].id.0));
                        }
                    }
                    assert forall|i: int| 0 <= i < views.len() implies places@.dom().contains(
                        (#[trigger] views[i]).id.0,
                    ) && places@[views[i].id.0] == i by {
                        if i < views0.len() {
                            assert(views[i] == views0[i]);
                        }
                    }
                }
            },
        }
        k = k + 1;
    }
    proof {
        assert(raw@.take(k as int) =~= raw@);
    }
    documents
}

} // verus!
