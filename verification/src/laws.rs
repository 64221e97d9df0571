use vstd::prelude::*;
use crate::criterion::Criterion;
use crate::database::Snapshot;
use crate::document::first_field;
use crate::document::text_of;
use crate::document::Field;
use crate::index::EntryView;
use crate::levenshtein::edit_distance;
use crate::levenshtein::typo_budget;
use crate::matching::candidates;
use crate::matching::distinct_ids;
use crate::matching::lemma_candidates;
use crate::matching::posting_match;
use crate::matching::posting_matches;
use crate::matching::query_matches;
use crate::matching::word_match;
use crate::matching::word_matches;
use crate::matching::RawMatch;
use crate::number::Number;
use crate::query::answers;
use crate::query::length_of;
use crate::query::offset_of;
use crate::query::page_of;
use crate::query::ranking_of;
use crate::query::result_of;
use crate::query::results_of;
use crate::query::search_matches;
use crate::query::window;
use crate::query::Query;
use crate::query::QueryResultView;
use crate::rank::lemma_key_before_irreflexive;
use crate::rank::lemma_key_before_total;
use crate::rank::lemma_key_before_transitive;
use crate::rank::lists_place;
use crate::rank::ranked_before;
use crate::rank::ranked_in_order;
use crate::rank::ranking_key;
use crate::rank::rearranged;
use crate::rank::DocumentMatchView;
use crate::schema::SchemaView;
use crate::word::utf8_len;

verus! {

/// Two documents whose identifying fields have the same UTF-8 bytes have the
/// same identifier.
pub proof fn lemma_id_stability(schema: SchemaView, v: Seq<Field>, w: Seq<Field>)
    requires
        first_field(v, schema.attrs[schema.identifier].name@) matches Some(i) && first_field(
            w,
            schema.attrs[schema.identifier].name@,
        ) matches Some(j) && text_of(v[i].value) matches Some(s) && text_of(
            w[j].value,
        ) matches Some(t) && vstd::utf8::encode_utf8(s) == vstd::utf8::encode_utf8(t),
    ensures
        schema.document_id_of(v) is Ok,
        schema.document_id_of(v) == schema.document_id_of(w),
{
}

/// The distance at which an indexed word matches.
pub open spec fn distance_of(how: Option<(u8, bool)>) -> u8 {
    match how {
        Some((d, _)) => d,
        None => 0,
    }
}

/// Whether an indexed word matches exactly.
pub open spec fn exactness_of(how: Option<(u8, bool)>) -> bool {
    match how {
        Some((_, exact)) => exact,
        None => false,
    }
}

/// A match is explained by a posting of an indexed word that matches the
/// query word.
pub open spec fn explained(
    entries: Seq<EntryView>,
    query_word: Seq<char>,
    query_index: u32,
    is_last: bool,
    r: RawMatch,
) -> bool {
    exists|e: int, j: int|
        0 <= e < entries.len() && 0 <= j < entries[e].postings.len() && word_match(
            query_word,
            is_last,
            entries[e].word,
        ) is Some && r == #[trigger] posting_match(
            entries[e].postings[j],
            query_index,
            distance_of(word_match(query_word, is_last, entries[e].word)),
            exactness_of(word_match(query_word, is_last, entries[e].word)),
        )
}

/// Every match of a query word comes from a posting of an indexed word that
/// matches the query word.
pub proof fn lemma_word_matches_explained(
    entries: Seq<EntryView>,
    query_word: Seq<char>,
    query_index: u32,
    is_last: bool,
    k: int,
)
    requires
        0 <= k <= entries.len(),
    ensures
        forall|x: int|
            0 <= x < word_matches(entries, query_word, query_index, is_last, k).len()
                ==> explained(
                entries,
                query_word,
                query_index,
                is_last,
                #[trigger] word_matches(entries, query_word, query_index, is_last, k)[x],
            ),
    decreases k,
{
    if k > 0 {
        lemma_word_matches_explained(entries, query_word, query_index, is_last, k - 1);
        let before = word_matches(entries, query_word, query_index, is_last, k - 1);
        let all = word_matches(entries, query_word, query_index, is_last, k);
        match word_match(query_word, is_last, entries[k - 1].word) {
            Some((d, exact)) => {
                let added = posting_matches(entries[k - 1].postings, query_index, d, exact);
                assert(all == before + added);
                assert forall|x: int| 0 <= x < all.len() implies explained(
                    entries,
                    query_word,
                    query_index,
                    is_last,
                    #[trigger] all[x],
                ) by {
                    if x < before.len() {
                        assert(all[x] == before[x]);
                    } else {
                        let j = x - before.len();
                        let how = word_match(query_word, is_last, entries[k - 1].word);
                        assert(distance_of(how) == d && exactness_of(how) == exact);
                        assert(added[j] == posting_match(
                            entries[k - 1].postings[j],
                            query_index,
                            d,
                            exact,
                        ));
                        assert(all[x] == posting_match(
                            entries[k - 1].postings[j],
                            query_index,
                            distance_of(how),
                            exactness_of(how),
                        ));
                    }
                }
            },
            None => {},
        }
    }
}

/// A posting of an indexed word that matches the query word gives a match.
pub proof fn lemma_word_matches_complete(
    entries: Seq<EntryView>,
    query_word: Seq<char>,
    query_index: u32,
    is_last: bool,
    k: int,
    e: int,
    j: int,
)
    requires
        0 <= e < k <= entries.len(),
        0 <= j < entries[e].postings.len(),
        word_match(query_word, is_last, entries[e].word) is Some,
    ensures
        word_matches(entries, query_word, query_index, is_last, k).contains(
            posting_match(
                entries[e].postings[j],
                query_index,
                distance_of(word_match(query_word, is_last, entries[e].word)),
                exactness_of(word_match(query_word, is_last, entries[e].word)),
            ),
        ),
    decreases k,
{
    let before = word_matches(entries, query_word, query_index, is_last, k - 1);
    let all = word_matches(entries, query_word, query_index, is_last, k);
    let how = word_match(query_word, is_last, entries[e].word);
    let r = posting_match(entries[e].postings[j], query_index, distance_of(how), exactness_of(how));
    if e == k - 1 {
        let added = posting_matches(
            entries[e].postings,
            query_index,
            distance_of(how),
            exactness_of(how),
        );
        assert(all == before + added);
        assert(added[j] == r);
        assert(all[before.len() + j] == r);
    } else {
        lemma_word_matches_complete(entries, query_word, query_index, is_last, k - 1, e, j);
        let x = choose|x: int| 0 <= x < before.len() && before[x] == r;
        match word_match(query_word, is_last, entries[k - 1].word) {
            Some((d, exact)) => {
                assert(all == before + posting_matches(
                    entries[k - 1].postings,
                    query_index,
                    d,
                    exact,
                ));
                assert(all[x] == r);
            },
            None => {
                assert(all[x] == r);
            },
        }
    }
}

/// What holds of a match of a query: it belongs to a word of the query, its
/// distance is within the typos tolerated for that word, and it comes from a
/// posting of an indexed word that matches that word.
pub open spec fn match_of_query(entries: Seq<EntryView>, words: Seq<Seq<char>>, r: RawMatch) -> bool {
    let q = r.found.query_index as int;
    &&& 0 <= q < words.len()
    &&& r.found.distance <= typo_budget(utf8_len(words[q]))
    &&& r.found.is_exact ==> r.found.distance == 0
    &&& explained(entries, words[q], r.found.query_index, q + 1 == words.len(), r)
}

/// The typo schedule: no match of a query lies further from its query word
/// than the typos tolerated for a word of that length, and a match that
/// lies at an edit distance lies at the edit distance between the query
/// word and the indexed word.
pub proof fn lemma_typo_schedule(entries: Seq<EntryView>, words: Seq<Seq<char>>, n: int)
    requires
        0 <= n <= words.len(),
        words.len() <= 0xffff_ffff,
    ensures
        forall|x: int|
            0 <= x < query_matches(entries, words, n).len() ==> match_of_query(
                entries,
                words,
                #[trigger] query_matches(entries, words, n)[x],
            ),
    decreases n,
{
    if n > 0 {
        lemma_typo_schedule(entries, words, n - 1);
        let before = query_matches(entries, words, n - 1);
        let added = word_matches(
            entries,
            words[n - 1],
            (n - 1) as u32,
            n == words.len(),
            entries.len() as int,
        );
        lemma_word_matches_explained(
            entries,
            words[n - 1],
            (n - 1) as u32,
            n == words.len(),
            entries.len() as int,
        );
        let all = query_matches(entries, words, n);
        assert(all == before + added);
        assert forall|x: int| 0 <= x < all.len() implies match_of_query(
            entries,
            words,
            #[trigger] all[x],
        ) by {
            if x < before.len() {
                assert(all[x] == before[x]);
            } else {
                let r = added[x - before.len()];
                assert(all[x] == r);
                assert(explained(entries, words[n - 1], (n - 1) as u32, n == words.len(), r));
            }
        }
    }
}

/// How an indexed word matches a query word: at its edit distance, within
/// the typos tolerated, or at distance zero as a word that the last query
/// word begins. A word that does not match lies beyond the typos tolerated.
pub proof fn lemma_word_match(query_word: Seq<char>, is_last: bool, word: Seq<char>)
    ensures
        match word_match(query_word, is_last, word) {
            Some((d, exact)) => d <= typo_budget(utf8_len(query_word)) && (exact ==> d == 0) && (d
                == edit_distance(query_word, word) || (is_last && query_word.is_prefix_of(word)
                && d == 0 && !exact)),
            None => edit_distance(query_word, word) > typo_budget(utf8_len(query_word)),
        },
{
}

/// The documents stand in strictly ascending order of the pipeline.
pub open spec fn strictly_ranked(
    pipeline: Seq<Criterion>,
    ranked: Map<(u64, u16), Number>,
    documents: Seq<DocumentMatchView>,
) -> bool {
    forall|x: int, y: int|
        0 <= x < y < documents.len() ==> ranked_before(
            pipeline,
            ranked,
            #[trigger] documents[x],
            #[trigger] documents[y],
        )
}

/// A ranking of documents of which none occurs twice is strictly ascending,
/// and holds the documents that were ranked.
pub proof fn lemma_ranking_strict(
    pipeline: Seq<Criterion>,
    ranked: Map<(u64, u16), Number>,
    documents: Seq<DocumentMatchView>,
    order: Seq<usize>,
    sorted: Seq<DocumentMatchView>,
)
    requires
        distinct_ids(documents),
        rearranged(documents, order, sorted),
        ranked_in_order(pipeline, ranked, sorted),
    ensures
        strictly_ranked(pipeline, ranked, sorted),
        forall|d: DocumentMatchView| sorted.contains(d) <==> documents.contains(d),
        distinct_ids(sorted),
{
    assert forall|x: int, y: int| 0 <= x < y < sorted.len() implies (#[trigger] sorted[x]).id != (
    #[trigger] sorted[y]).id by {
        assert(sorted[x] == documents[order[x] as int]);
        assert(sorted[y] == documents[order[y] as int]);
        assert(order[x] != order[y]);
        if order[x] < order[y] {
            assert(documents[order[x] as int].id != documents[order[y] as int].id);
        } else {
            assert(documents[order[y] as int].id != documents[order[x] as int].id);
        }
    }
    assert forall|x: int, y: int| 0 <= x < y < sorted.len() implies ranked_before(
        pipeline,
        ranked,
        #[trigger] sorted[x],
        #[trigger] sorted[y],
    ) by {
        let a = sorted[x];
        let b = sorted[y];
        assert(a == documents[order[x] as int]);
        assert(b == documents[order[y] as int]);
        assert(order[x] != order[y]);
        if order[x] < order[y] {
            assert(documents[order[x] as int].id != documents[order[y] as int].id);
        } else {
            assert(documents[order[y] as int].id != documents[order[x] as int].id);
        }
        let ka = ranking_key(pipeline, a, ranked);
        let kb = ranking_key(pipeline, b, ranked);
        assert(ka[pipeline.len() as int] == a.id.0);
        assert(kb[pipeline.len() as int] == b.id.0);
        lemma_key_before_total(ka, kb);
        assert(!ranked_before(pipeline, ranked, sorted[y], sorted[x]));
    }
    assert forall|d: DocumentMatchView| sorted.contains(d) <==> documents.contains(d) by {
        if sorted.contains(d) {
            let x = choose|x: int| 0 <= x < sorted.len() && sorted[x] == d;
            assert(documents[order[x] as int] == d);
        }
        if documents.contains(d) {
            let v = choose|v: int| 0 <= v < documents.len() && documents[v] == d;
            assert(lists_place(order, v));
            let x = choose|x: int| 0 <= x < order.len() && #[trigger] order[x] == v;
            assert(sorted[x] == d);
        }
    }
}

/// Two strictly ascending sequences of the same documents are the same sequence.
pub proof fn lemma_strictly_ranked_unique(
    pipeline: Seq<Criterion>,
    ranked: Map<(u64, u16), Number>,
    a: Seq<DocumentMatchView>,
    b: Seq<DocumentMatchView>,
)
    requires
        strictly_ranked(pipeline, ranked, a),
        strictly_ranked(pipeline, ranked, b),
        forall|d: DocumentMatchView| a.contains(d) <==> b.contains(d),
    ensures
        a == b,
    decreases a.len(),
{
    if a.len() == 0 {
        if b.len() > 0 {
            assert(b.contains(b[0]));
        }
        assert(a =~= b);
    } else {
        let x = a.last();
        assert(a.contains(x));
        assert(b.contains(x));
        let y = b.last();
        assert(b.contains(y));
        assert(a.contains(y));
        let ix = choose|i: int| 0 <= i < b.len() && b[i] == x;
        let iy = choose|i: int| 0 <= i < a.len() && a[i] == y;
        let kx = ranking_key(pipeline, x, ranked);
        let ky = ranking_key(pipeline, y, ranked);
        lemma_key_before_irreflexive(kx);
        if x != y {
            assert(ix < b.len() - 1);
            assert(ranked_before(pipeline, ranked, b[ix], b[b.len() - 1]));
            assert(iy < a.len() - 1);
            assert(ranked_before(pipeline, ranked, a[iy], a[a.len() - 1]));
            lemma_key_before_transitive(kx, ky, kx);
        }
        let a0 = a.drop_last();
        let b0 = b.drop_last();
        assert forall|z: DocumentMatchView| a0.contains(z) <==> b0.contains(z) by {
            let kz = ranking_key(pipeline, z, ranked);
            if a0.contains(z) {
                let i = choose|i: int| 0 <= i < a0.len() && a0[i] == z;
                assert(a[i] == z);
                assert(ranked_before(pipeline, ranked, a[i], a[a.len() - 1]));
                assert(a.contains(z));
                let j = choose|j: int| 0 <= j < b.len() && b[j] == z;
                assert(j < b.len() - 1);
                assert(b0[j] == z);
            }
            if b0.contains(z) {
                let i = choose|i: int| 0 <= i < b0.len() && b0[i] == z;
                assert(b[i] == z);
                assert(ranked_before(pipeline, ranked, b[i], b[b.len() - 1]));
                assert(b.contains(z));
                let j = choose|j: int| 0 <= j < a.len() && a[j] == z;
                assert(j < a.len() - 1);
                assert(a0[j] == z);
            }
        }
        assert forall|p: int, q: int| 0 <= p < q < a0.len() implies ranked_before(
            pipeline,
            ranked,
            #[trigger] a0[p],
            #[trigger] a0[q],
        ) by {
            assert(ranked_before(pipeline, ranked, a[p], a[q]));
        }
        assert forall|p: int, q: int| 0 <= p < q < b0.len() implies ranked_before(
            pipeline,
            ranked,
            #[trigger] b0[p],
            #[trigger] b0[q],
        ) by {
            assert(ranked_before(pipeline, ranked, b[p], b[q]));
        }
        lemma_strictly_ranked_unique(pipeline, ranked, a0, b0);
        assert(a =~= a0.push(x));
        assert(b =~= b0.push(y));
    }
}

/// The candidates of a query have one ranking only.
pub proof fn lemma_ranking_unique(
    snapshot: Snapshot,
    query: Query,
    a: Seq<DocumentMatchView>,
    b: Seq<DocumentMatchView>,
)
    requires
        ranking_of(snapshot, query, a),
        ranking_of(snapshot, query, b),
    ensures
        a == b,
{
    let pipeline = crate::config::pipeline_of(snapshot.schema, snapshot.config);
    let documents = candidates(search_matches(snapshot, query));
    lemma_candidates(search_matches(snapshot, query));
    let oa = choose|order: Seq<usize>| rearranged(documents, order, a);
    let ob = choose|order: Seq<usize>| rearranged(documents, order, b);
    lemma_ranking_strict(pipeline, snapshot.state.ranked, documents, oa, a);
    lemma_ranking_strict(pipeline, snapshot.state.ranked, documents, ob, b);
    lemma_strictly_ranked_unique(pipeline, snapshot.state.ranked, a, b);
}

/// For a fixed view of an index, what a query returns is a function of the
/// query: two answers to one query are the same answer.
pub proof fn lemma_search_deterministic(
    snapshot: Snapshot,
    query: Query,
    first: Seq<QueryResultView>,
    second: Seq<QueryResultView>,
)
    requires
        answers(snapshot, query, first),
        answers(snapshot, query, second),
    ensures
        first == second,
{
    let a = choose|ranked: Seq<DocumentMatchView>| #[trigger]
        ranking_of(snapshot, query, ranked) && first == results_of(
            snapshot,
            query,
            page_of(snapshot, ranked, offset_of(query), length_of(query)),
            page_of(snapshot, ranked, offset_of(query), length_of(query)).len() as int,
        );
    let b = choose|ranked: Seq<DocumentMatchView>| #[trigger]
        ranking_of(snapshot, query, ranked) && second == results_of(
            snapshot,
            query,
            page_of(snapshot, ranked, offset_of(query), length_of(query)),
            page_of(snapshot, ranked, offset_of(query), length_of(query)).len() as int,
        );
    lemma_ranking_unique(snapshot, query, a, b);
}

/// Where every document of a page can be retrieved, the results are those
/// of the documents of the page, one for one.
proof fn lemma_results_of_all(
    snapshot: Snapshot,
    query: Query,
    page: Seq<DocumentMatchView>,
    k: int,
)
    requires
        0 <= k <= page.len(),
        forall|i: int| 0 <= i < page.len() ==> result_of(snapshot, query, #[trigger] page[i]) is Some,
    ensures
        results_of(snapshot, query, page, k).len() == k,
        forall|i: int|
            0 <= i < k ==> Some(#[trigger] results_of(snapshot, query, page, k)[i]) == result_of(
                snapshot,
                query,
                page[i],
            ),
    decreases k,
{
    if k > 0 {
        lemma_results_of_all(snapshot, query, page, k - 1);
        let before = results_of(snapshot, query, page, k - 1);
        let all = results_of(snapshot, query, page, k);
        assert(result_of(snapshot, query, page[k - 1]) is Some);
        assert forall|i: int| 0 <= i < k implies Some(#[trigger] all[i]) == result_of(
            snapshot,
            query,
            page[i],
        ) by {
            if i < k - 1 {
                assert(all[i] == before[i]);
            }
        }
    }
}

/// Two queries that differ in the page they ask for, and in nothing else.
pub open spec fn same_but_page(a: Query, b: Query) -> bool {
    &&& a.query == b.query
    &&& a.cropped_fields == b.cropped_fields
    &&& a.attributes_to_retrieve == b.attributes_to_retrieve
    &&& a.restrict_searchable_attributes == b.restrict_searchable_attributes
}

/// Every document that gives a hit can be retrieved.
pub proof fn lemma_kept_retrievable(snapshot: Snapshot, ranked: Seq<DocumentMatchView>, k: int)
    requires
        0 <= k <= ranked.len(),
    ensures
        forall|i: int|
            0 <= i < crate::query::kept_up_to(snapshot, ranked, k).len()
                ==> crate::query::retrievable(
                snapshot,
                (#[trigger] crate::query::kept_up_to(snapshot, ranked, k)[i]).id,
            ),
    decreases k,
{
    if k > 0 {
        lemma_kept_retrievable(snapshot, ranked, k - 1);
        let before = crate::query::kept_up_to(snapshot, ranked, k - 1);
        let all = crate::query::kept_up_to(snapshot, ranked, k);
        assert forall|i: int| 0 <= i < all.len() implies crate::query::retrievable(
            snapshot,
            (#[trigger] all[i]).id,
        ) by {
            if i < before.len() {
                assert(all[i] == before[i]);
            }
        }
    }
}

/// A query returns one hit for each document of its page, in the order of
/// the page.
pub proof fn lemma_one_hit_each(
    snapshot: Snapshot,
    query: Query,
    ranked: Seq<DocumentMatchView>,
    offset: int,
    length: int,
)
    requires
        0 <= offset,
        0 <= length,
    ensures
        results_of(
            snapshot,
            query,
            page_of(snapshot, ranked, offset, length),
            page_of(snapshot, ranked, offset, length).len() as int,
        ).len() == page_of(snapshot, ranked, offset, length).len(),
        forall|i: int|
            0 <= i < page_of(snapshot, ranked, offset, length).len() ==> Some(
                #[trigger] results_of(
                    snapshot,
                    query,
                    page_of(snapshot, ranked, offset, length),
                    page_of(snapshot, ranked, offset, length).len() as int,
                )[i],
            ) == result_of(snapshot, query, page_of(snapshot, ranked, offset, length)[i]),
{
    let all = crate::query::kept_up_to(snapshot, ranked, ranked.len() as int);
    let page = page_of(snapshot, ranked, offset, length);
    lemma_kept_retrievable(snapshot, ranked, ranked.len() as int);
    assert forall|i: int| 0 <= i < page.len() implies result_of(snapshot, query, #[trigger] page[i])
        is Some by {
        assert(page[i] == all[i + offset]);
        assert(crate::query::retrievable(snapshot, all[i + offset].id));
    }
    lemma_results_of_all(snapshot, query, page, page.len() as int);
}

/// Pagination: the hits from `offset` on of a query for the first
/// `offset + length` hits are the hits of the same query for `length` hits
/// from `offset` on.
pub proof fn lemma_pagination(
    snapshot: Snapshot,
    whole: Query,
    part: Query,
    offset: int,
    length: int,
    first: Seq<QueryResultView>,
    second: Seq<QueryResultView>,
)
    requires
        0 <= offset,
        0 <= length,
        same_but_page(whole, part),
        offset_of(whole) == 0,
        length_of(whole) == offset + length,
        offset_of(part) == offset,
        length_of(part) == length,
        answers(snapshot, whole, first),
        answers(snapshot, part, second),
    ensures
        second == window(first, offset, length),
{
    let a = choose|ranked: Seq<DocumentMatchView>| #[trigger]
        ranking_of(snapshot, whole, ranked) && first == results_of(
            snapshot,
            whole,
            page_of(snapshot, ranked, offset_of(whole), length_of(whole)),
            page_of(snapshot, ranked, offset_of(whole), length_of(whole)).len() as int,
        );
    let b = choose|ranked: Seq<DocumentMatchView>| #[trigger]
        ranking_of(snapshot, part, ranked) && second == results_of(
            snapshot,
            part,
            page_of(snapshot, ranked, offset_of(part), length_of(part)),
            page_of(snapshot, ranked, offset_of(part), length_of(part)).len() as int,
        );
    assert(search_matches(snapshot, whole) == search_matches(snapshot, part));
    assert(ranking_of(snapshot, whole, b));
    lemma_ranking_unique(snapshot, whole, a, b);
    let long_page = page_of(snapshot, a, 0, offset + length);
    let short_page = page_of(snapshot, a, offset, length);
    lemma_one_hit_each(snapshot, whole, a, 0, offset + length);
    lemma_one_hit_each(snapshot, part, a, offset, length);
    let w = window(first, offset, length);
    assert(short_page =~= window(long_page, offset, length));
    assert(second.len() == w.len());
    assert forall|i: int| 0 <= i < second.len() implies second[i] == w[i] by {
        assert(Some(second[i]) == result_of(snapshot, part, short_page[i]));
        assert(short_page[i] == long_page[i + offset]);
        assert(Some(first[i + offset]) == result_of(snapshot, whole, long_page[i + offset]));
        assert(result_of(snapshot, whole, long_page[i + offset]) == result_of(
            snapshot,
            part,
            long_page[i + offset],
        ));
    }
    assert(second =~= w);
}

/// The documents kept for their distinct values are documents of the ranking.
pub proof fn lemma_kept_within(snapshot: Snapshot, ranked: Seq<DocumentMatchView>, k: int)
    requires
        0 <= k <= ranked.len(),
    ensures
        forall|d: DocumentMatchView|
            crate::query::kept_up_to(snapshot, ranked, k).contains(d) ==> ranked.contains(d),
    decreases k,
{
    if k > 0 {
        lemma_kept_within(snapshot, ranked, k - 1);
        let before = crate::query::kept_up_to(snapshot, ranked, k - 1);
        assert forall|d: DocumentMatchView|
            crate::query::kept_up_to(snapshot, ranked, k).contains(d) implies ranked.contains(
            d,
        ) by {
            crate::sorted::lemma_push_contains(before, ranked[k - 1], d);
            if d == ranked[k - 1] {
                assert(ranked[k - 1] == d);
            }
        }
    }
}

/// A match comes from a posting of the index.
pub open spec fn from_posting(entries: Seq<EntryView>, r: RawMatch) -> bool {
    exists|e: int, j: int|
        0 <= e < entries.len() && 0 <= j < entries[e].postings.len() && r.document == (
        #[trigger] entries[e].postings[j]).document_id
}

/// Every match of a query comes from a posting of the index.
pub proof fn lemma_matches_from_postings(entries: Seq<EntryView>, words: Seq<Seq<char>>, n: int)
    requires
        0 <= n <= words.len(),
    ensures
        forall|x: int|
            0 <= x < query_matches(entries, words, n).len() ==> from_posting(
                entries,
                #[trigger] query_matches(entries, words, n)[x],
            ),
    decreases n,
{
    if n > 0 {
        lemma_matches_from_postings(entries, words, n - 1);
        let before = query_matches(entries, words, n - 1);
        let added = word_matches(
            entries,
            words[n - 1],
            (n - 1) as u32,
            n == words.len(),
            entries.len() as int,
        );
        lemma_word_matches_explained(
            entries,
            words[n - 1],
            (n - 1) as u32,
            n == words.len(),
            entries.len() as int,
        );
        let all = query_matches(entries, words, n);
        assert(all == before + added);
        assert forall|x: int| 0 <= x < all.len() implies from_posting(entries, #[trigger] all[x]) by {
            if x < before.len() {
                assert(all[x] == before[x]);
            } else {
                let r = added[x - before.len()];
                assert(all[x] == r);
                let is_last = n == words.len();
                let word = words[n - 1];
                let query_index = (n - 1) as u32;
                assert(explained(entries, word, query_index, is_last, r));
                let (e, j) = choose|e: int, j: int|
                    0 <= e < entries.len() && 0 <= j < entries[e].postings.len() && word_match(
                        word,
                        is_last,
                        entries[e].word,
                    ) is Some && r == #[trigger] posting_match(
                        entries[e].postings[j],
                        query_index,
                        distance_of(word_match(word, is_last, entries[e].word)),
                        exactness_of(word_match(word, is_last, entries[e].word)),
                    );
                assert(r.document == entries[e].postings[j].document_id);
            }
        }
    }
}

} // verus!
