use vstd::prelude::*;
use crate::config::stop_words_of;
use crate::criterion::Match;
use crate::database::Snapshot;
use crate::laws::lemma_kept_within;
use crate::laws::lemma_ranking_strict;
use crate::laws::lemma_typo_schedule;
use crate::laws::match_of_query;
use crate::laws_round_trip::lemma_restricted_within;
use crate::matching::attributes_named;
use crate::matching::candidates;
use crate::matching::has_document;
use crate::matching::lemma_candidates;
use crate::matching::place_of_document;
use crate::matching::query_matches;
use crate::matching::RawMatch;
use crate::query::answers;
use crate::query::kept_up_to;
use crate::query::length_of;
use crate::query::offset_of;
use crate::query::page_of;
use crate::query::query_words;
use crate::query::ranking_of;
use crate::query::readable;
use crate::query::result_of;
use crate::query::results_of;
use crate::query::retrieved_matches;
use crate::query::search_matches;
use crate::query::stored_hits;
use crate::query::MatchView;
use crate::query::Query;
use crate::query::QueryResultView;
use crate::rank::rearranged;
use crate::rank::DocumentMatchView;
use crate::schema::SchemaView;

verus! {

/// The place that a match gives in an answer: the name of its attribute,
/// where it starts and how long it is.
pub open spec fn place_of_found(schema: SchemaView, found: Match) -> MatchView {
    MatchView {
        attribute: schema.attrs[found.attribute as int].name@,
        start: found.char_index,
        length: found.char_length,
    }
}

/// A place comes from a match of a query that keeps to the typo schedule:
/// the match belongs to a word of the query, comes from a posting of an
/// indexed word that matches that word, and lies no further from it than
/// the typos tolerated for a word of that length.
pub open spec fn place_from_match(snapshot: Snapshot, query: Query, place: MatchView) -> bool {
    exists|r: RawMatch| #[trigger]
        search_matches(snapshot, query).contains(r) && r.found.attribute
            < snapshot.schema.attrs.len() && place == place_of_found(snapshot.schema, r.found)
            && match_of_query(
            snapshot.entries,
            query_words(query.query@, stop_words_of(snapshot.config)),
            r,
        )
}

/// Every match of a candidate is a match of its document among the matches
/// that the candidates were made of.
pub proof fn lemma_candidate_from(raw: Seq<RawMatch>, i: int, y: int)
    requires
        0 <= i < candidates(raw).len(),
        0 <= y < candidates(raw)[i].matches.len(),
    ensures
        raw.contains(
            RawMatch { document: candidates(raw)[i].id, found: candidates(raw)[i].matches[y] },
        ),
    decreases raw.len(),
{
    let c = candidates(raw);
    let wanted = RawMatch { document: c[i].id, found: c[i].matches[y] };
    if raw.len() > 0 {
        let r0 = raw.drop_last();
        let before = candidates(r0);
        let last = raw.last();
        lemma_candidates(r0);
        if has_document(before, last.document) {
            let k = place_of_document(before, last.document);
            assert(0 <= k < before.len() && before[k].id == last.document);
            if i == k && y == before[k].matches.len() {
                assert(raw[raw.len() - 1] == wanted);
            } else {
                assert(before[i].id == c[i].id);
                assert(before[i].matches[y] == c[i].matches[y]);
                lemma_candidate_from(r0, i, y);
                let x = choose|x: int| 0 <= x < r0.len() && r0[x] == wanted;
                assert(raw[x] == wanted);
            }
        } else {
            if i == before.len() {
                assert(raw[raw.len() - 1] == wanted);
            } else {
                assert(before[i] == c[i]);
                lemma_candidate_from(r0, i, y);
                let x = choose|x: int| 0 <= x < r0.len() && r0[x] == wanted;
                assert(raw[x] == wanted);
            }
        }
    }
}

/// Every place that can be read is the place of a match in an attribute of
/// the schema.
proof fn lemma_readable_from(schema: SchemaView, matches: Seq<Match>, p: int)
    requires
        0 <= p < readable(schema, matches).len(),
    ensures
        exists|y: int|
            0 <= y < matches.len() && (#[trigger] matches[y]).attribute < schema.attrs.len()
                && readable(schema, matches)[p] == place_of_found(schema, matches[y]),
    decreases matches.len(),
{
    if matches.len() > 0 {
        let before = readable(schema, matches.drop_last());
        if p < before.len() {
            lemma_readable_from(schema, matches.drop_last(), p);
            let y = choose|y: int|
                0 <= y < matches.drop_last().len() && (#[trigger] matches.drop_last()[y]).attribute
                    < schema.attrs.len() && before[p] == place_of_found(
                    schema,
                    matches.drop_last()[y],
                );
            assert(matches[y] == matches.drop_last()[y]);
        } else {
            assert(matches[matches.len() - 1].attribute < schema.attrs.len());
        }
    }
}

/// Every place retrieved is one of the places.
proof fn lemma_retrieved_from(places: Seq<MatchView>, names: Seq<String>, p: int)
    requires
        0 <= p < retrieved_matches(places, names).len(),
    ensures
        places.contains(retrieved_matches(places, names)[p]),
    decreases places.len(),
{
    if places.len() > 0 {
        let before = retrieved_matches(places.drop_last(), names);
        if p < before.len() {
            lemma_retrieved_from(places.drop_last(), names, p);
            let y = choose|y: int| 0 <= y < places.drop_last().len() && places.drop_last()[y] == before[p];
            assert(places[y] == before[p]);
        } else {
            assert(places[places.len() - 1] == retrieved_matches(places, names)[p]);
        }
    }
}

/// Every result of a page is the result of one of its documents.
proof fn lemma_result_from(
    snapshot: Snapshot,
    query: Query,
    page: Seq<DocumentMatchView>,
    k: int,
    i: int,
)
    requires
        0 <= k <= page.len(),
        0 <= i < results_of(snapshot, query, page, k).len(),
    ensures
        exists|j: int|
            0 <= j < k && result_of(snapshot, query, #[trigger] page[j]) == Some(
                results_of(snapshot, query, page, k)[i],
            ),
    decreases k,
{
    if k > 0 {
        let before = results_of(snapshot, query, page, k - 1);
        if i < before.len() {
            lemma_result_from(snapshot, query, page, k - 1, i);
            let j = choose|j: int|
                0 <= j < k - 1 && result_of(snapshot, query, #[trigger] page[j]) == Some(before[i]);
            assert(result_of(snapshot, query, page[j]) == Some(
                results_of(snapshot, query, page, k)[i],
            ));
        } else {
            assert(result_of(snapshot, query, page[k - 1]) == Some(
                results_of(snapshot, query, page, k)[i],
            ));
        }
    }
}

/// The typo schedule, in the answer: every place of a hit of a query that
/// crops nothing comes from a match of the query, and that match lies no
/// further from its query word than the typos tolerated for a word of that
/// length; as a word that the last query word begins it lies at distance
/// zero, whatever its edit distance.
pub proof fn lemma_places_in_schedule(
    snapshot: Snapshot,
    query: Query,
    results: Seq<QueryResultView>,
    i: int,
    p: int,
)
    requires
        query.cropped_fields is None,
        answers(snapshot, query, results),
        0 <= i < results.len(),
        0 <= p < results[i].matches.len(),
    ensures
        place_from_match(snapshot, query, results[i].matches[p]),
{
    let ranked = choose|ranked: Seq<DocumentMatchView>| #[trigger]
        ranking_of(snapshot, query, ranked) && results == results_of(
            snapshot,
            query,
            page_of(snapshot, ranked, offset_of(query), length_of(query)),
            page_of(snapshot, ranked, offset_of(query), length_of(query)).len() as int,
        );
    let page = page_of(snapshot, ranked, offset_of(query), length_of(query));
    lemma_result_from(snapshot, query, page, page.len() as int, i);
    let j = choose|j: int|
        0 <= j < page.len() && result_of(snapshot, query, #[trigger] page[j]) == Some(results[i]);
    let document = page[j];
    let place = results[i].matches[p];
    // the place is the place of a match of the document
    let places = readable(snapshot.schema, document.matches);
    let hits = stored_hits(snapshot, document.id, snapshot.schema.attrs.len() as int)->0;
    match query.attributes_to_retrieve {
        Some(names) => {
            assert(results[i].matches == retrieved_matches(places, names@));
            lemma_retrieved_from(places, names@, p);
        },
        None => {
            assert(results[i].matches == places);
        },
    }
    assert(places.contains(place));
    let z = choose|z: int| 0 <= z < places.len() && places[z] == place;
    lemma_readable_from(snapshot.schema, document.matches, z);
    let y = choose|y: int|
        0 <= y < document.matches.len() && (#[trigger] document.matches[y]).attribute
            < snapshot.schema.attrs.len() && places[z] == place_of_found(
            snapshot.schema,
            document.matches[y],
        );
    // the document is a candidate
    let all = kept_up_to(snapshot, ranked, ranked.len() as int);
    lemma_kept_within(snapshot, ranked, ranked.len() as int);
    let from = if offset_of(query) <= all.len() {
        offset_of(query)
    } else {
        all.len() as int
    };
    assert(page[j] == all[from + j]);
    assert(all.contains(document));
    assert(ranked.contains(document));
    let raw = search_matches(snapshot, query);
    let documents = candidates(raw);
    let order = choose|order: Seq<usize>| rearranged(documents, order, ranked);
    lemma_candidates(raw);
    lemma_ranking_strict(
        crate::config::pipeline_of(snapshot.schema, snapshot.config),
        snapshot.state.ranked,
        documents,
        order,
        ranked,
    );
    assert(documents.contains(document));
    let c = choose|c: int| 0 <= c < documents.len() && documents[c] == document;
    lemma_candidate_from(raw, c, y);
    let r = RawMatch { document: document.id, found: document.matches[y] };
    assert(raw.contains(r));
    // the match keeps to the schedule
    let words = query_words(query.query@, stop_words_of(snapshot.config));
    let found = query_matches(snapshot.entries, words, words.len() as int);
    let x = choose|x: int| 0 <= x < raw.len() && raw[x] == r;
    match query.restrict_searchable_attributes {
        Some(names) => {
            lemma_restricted_within(found, attributes_named(snapshot.schema, names@), x);
        },
        None => {},
    }
    assert(found.contains(r));
    let w = choose|w: int| 0 <= w < found.len() && found[w] == r;
    lemma_typo_schedule(snapshot.entries, words, words.len() as int);
    assert(match_of_query(snapshot.entries, words, found[w]));
}

} // verus!
