use vstd::prelude::*;
use crate::batch::deletes_effect;
use crate::batch::inserts_effect;
use crate::batch::listed;
use crate::batch::request_effect;
use crate::config::stop_words_of;
use crate::criterion::Match;
use crate::crop::HitView;
use crate::database::Snapshot;
use crate::document::text_of;
use crate::document::Document;
use crate::document::DocumentsUpdate;
use crate::index::postings_of;
use crate::index_map::lemma_index_map_wf;
use crate::laws_round_trip::indexed_field;
use crate::laws_round_trip::lemma_document_indexed;
use crate::laws_round_trip::lemma_posting_committed;
use crate::laws_round_trip::posting_of_token;
use crate::laws_stored::lemma_written_stored;
use crate::laws_stored::none_from;
use crate::laws_update::lemma_remove_consistent;
use crate::laws_update::lemma_update_consistent;
use crate::schema::place_of;
use crate::serializer::fits;
use crate::serializer::update_effect;
use crate::state::apply_ops;
use crate::tokenizer::tokens_of;
use crate::update::built_from;
use crate::update::consistent;
use crate::update::BatchOpView;
use crate::update::BuilderView;
use crate::laws_round_trip::exact_match;
use crate::laws_round_trip::lemma_word_found;
use crate::matching::candidates;
use crate::matching::posting_match;
use crate::query::answers;
use crate::matching::attributes_named;
use crate::matching::lemma_candidates;
use crate::laws::lemma_ranking_strict;
use crate::query::accepted;
use crate::query::distinct_key;
use crate::query::kept;
use crate::query::kept_up_to;
use crate::query::names_hold;
use crate::query::retrieved_hits;
use crate::query::retrieved_matches;
use crate::schema::declares;
use crate::types::DocumentId;
use crate::query::length_of;
use crate::query::offset_of;
use crate::query::page_of;
use crate::query::query_words;
use crate::query::ranking_of;
use crate::query::readable;
use crate::query::result_of;
use crate::query::results_of;
use crate::query::search_matches;
use crate::query::stored_hits;
use crate::query::MatchView;
use crate::query::Query;
use crate::query::QueryResultView;
use crate::rank::rearranged;
use crate::rank::DocumentMatchView;
use crate::schema::SchemaView;
use crate::types::DocIndex;

verus! {

/// The place that a posting gives in the answer to a query: the name of its
/// attribute, where the word starts and how long it is.
pub open spec fn place_of_posting(schema: SchemaView, posting: DocIndex) -> MatchView {
    MatchView {
        attribute: schema.attrs[posting.attribute as int].name@,
        start: posting.char_index,
        length: posting.char_length,
    }
}

/// A match in an attribute of the schema is among the places that can be read.
proof fn lemma_readable_holds(schema: SchemaView, matches: Seq<Match>, x: int)
    requires
        0 <= x < matches.len(),
        matches[x].attribute < schema.attrs.len(),
    ensures
        readable(schema, matches).contains(
            MatchView {
                attribute: schema.attrs[matches[x].attribute as int].name@,
                start: matches[x].char_index,
                length: matches[x].char_length,
            },
        ),
    decreases matches.len(),
{
    let place = MatchView {
        attribute: schema.attrs[matches[x].attribute as int].name@,
        start: matches[x].char_index,
        length: matches[x].char_length,
    };
    let before = readable(schema, matches.drop_last());
    if x == matches.len() - 1 {
        assert(readable(schema, matches) == before.push(place));
        assert(readable(schema, matches)[before.len() as int] == place);
    } else {
        assert(matches.drop_last()[x] == matches[x]);
        lemma_readable_holds(schema, matches.drop_last(), x);
        let y = choose|y: int| 0 <= y < before.len() && before[y] == place;
        if matches.last().attribute < schema.attrs.len() {
            assert(readable(schema, matches)[y] == place);
        }
    }
}

/// A document of the ranking that gives a hit is among the documents that
/// give a hit; these are no more than the documents of the ranking.
proof fn lemma_kept_holds(snapshot: Snapshot, ranked: Seq<DocumentMatchView>, k: int, i: int)
    requires
        0 <= i < k <= ranked.len(),
        kept(snapshot, ranked, i),
    ensures
        kept_up_to(snapshot, ranked, k).contains(ranked[i]),
        kept_up_to(snapshot, ranked, k).len() <= k,
    decreases k,
{
    lemma_kept_count(snapshot, ranked, k);
    let before = kept_up_to(snapshot, ranked, k - 1);
    let all = kept_up_to(snapshot, ranked, k);
    if i == k - 1 {
        assert(all[before.len() as int] == ranked[i]);
    } else {
        lemma_kept_holds(snapshot, ranked, k - 1, i);
        let y = choose|y: int| 0 <= y < before.len() && before[y] == ranked[i];
        if kept(snapshot, ranked, k - 1) {
            assert(all[y] == ranked[i]);
        }
    }
}

/// The documents that give a hit are no more than the documents looked at.
proof fn lemma_kept_count(snapshot: Snapshot, ranked: Seq<DocumentMatchView>, k: int)
    requires
        0 <= k,
    ensures
        kept_up_to(snapshot, ranked, k).len() <= k,
    decreases k,
{
    if k > 0 {
        lemma_kept_count(snapshot, ranked, k - 1);
    }
}

/// A place that the query retrieves is among the places retrieved.
proof fn lemma_retrieved_holds(matches: Seq<MatchView>, names: Seq<String>, x: int)
    requires
        0 <= x < matches.len(),
        names_hold(names, matches[x].attribute),
    ensures
        retrieved_matches(matches, names).contains(matches[x]),
    decreases matches.len(),
{
    let before = retrieved_matches(matches.drop_last(), names);
    let all = retrieved_matches(matches, names);
    if x == matches.len() - 1 {
        assert(all[before.len() as int] == matches[x]);
    } else {
        assert(matches.drop_last()[x] == matches[x]);
        lemma_retrieved_holds(matches.drop_last(), names, x);
        let y = choose|y: int| 0 <= y < before.len() && before[y] == matches[x];
        if names_hold(names, matches.last().attribute) {
            assert(all[y] == matches[x]);
        }
    }
}

/// The stored attributes of a document as a query shows them: all of them,
/// or those that the query asks to retrieve.
pub open spec fn shown(hits: Seq<HitView>, query: Query) -> Seq<HitView> {
    match query.attributes_to_retrieve {
        Some(names) => retrieved_hits(hits, names@),
        None => hits,
    }
}

/// No other document that matches the query has the distinct value of the
/// document, so that the document is not left out for it.
pub open spec fn sole_of_its_value(snapshot: Snapshot, query: Query, id: DocumentId) -> bool {
    distinct_key(snapshot, id) is None || forall|d: DocumentMatchView|
        #![trigger candidates(search_matches(snapshot, query)).contains(d)]
        candidates(search_matches(snapshot, query)).contains(d) && d.id != id ==> distinct_key(
            snapshot,
            d.id,
        ) != distinct_key(snapshot, id)
}

/// What a query returns for a document of its page is among its results.
proof fn lemma_results_hold(
    snapshot: Snapshot,
    query: Query,
    page: Seq<DocumentMatchView>,
    k: int,
    j: int,
)
    requires
        0 <= j < k <= page.len(),
        result_of(snapshot, query, page[j]) is Some,
    ensures
        results_of(snapshot, query, page, k).contains(result_of(snapshot, query, page[j])->0),
    decreases k,
{
    let wanted = result_of(snapshot, query, page[j])->0;
    let before = results_of(snapshot, query, page, k - 1);
    let all = results_of(snapshot, query, page, k);
    if j == k - 1 {
        assert(all == before.push(wanted));
        assert(all[before.len() as int] == wanted);
    } else {
        lemma_results_hold(snapshot, query, page, k - 1, j);
        let y = choose|y: int| 0 <= y < before.len() && before[y] == wanted;
        match result_of(snapshot, query, page[k - 1]) {
            Some(result) => {
                assert(all == before.push(result));
                assert(all[y] == wanted);
            },
            None => {},
        }
    }
}

/// Round trip, into the answer: where the index holds a posting under a
/// word of a query, in an attribute of the schema, and the store holds the
/// document of the posting as text, the query answers with that document:
/// with its stored attributes as the query shows them, and among its
/// places the attribute of the posting by its name, where the word starts
/// and how long it is; the match that gives this place is exact and lies at
/// distance zero. This is said of a query that does not leave the
/// attribute out of its search or of what it retrieves, and crops nothing;
/// of a document that no other document found hides by its distinct value;
/// and of a page that starts at the first document and is long enough for
/// all that were found.
pub proof fn lemma_found_in_answers(
    snapshot: Snapshot,
    query: Query,
    q: int,
    posting: DocIndex,
    hits: Seq<HitView>,
    results: Seq<QueryResultView>,
)
    requires
        snapshot.wf(),
        query.restrict_searchable_attributes matches Some(names) ==> attributes_named(
            snapshot.schema,
            names@,
        ).contains(posting.attribute),
        query.attributes_to_retrieve matches Some(names) ==> names_hold(
            names@,
            place_of_posting(snapshot.schema, posting).attribute,
        ),
        query.cropped_fields is None,
        sole_of_its_value(snapshot, query, posting.document_id),
        offset_of(query) == 0,
        candidates(search_matches(snapshot, query)).len() <= length_of(query),
        0 <= q < query_words(query.query@, stop_words_of(snapshot.config)).len(),
        snapshot.state.index.dom().contains(
            query_words(query.query@, stop_words_of(snapshot.config))[q],
        ),
        snapshot.state.index[query_words(
            query.query@,
            stop_words_of(snapshot.config),
        )[q]].contains(posting),
        posting.attribute < snapshot.schema.attrs.len(),
        stored_hits(snapshot, posting.document_id, snapshot.schema.attrs.len() as int) == Some(hits),
        hits.len() > 0,
        answers(snapshot, query, results),
    ensures
        search_matches(snapshot, query).contains(posting_match(posting, q as u32, 0, true)),
        exists|i: int|
            0 <= i < results.len() && (#[trigger] results[i]).hits == shown(hits, query)
                && results[i].matches.contains(place_of_posting(snapshot.schema, posting)),
{
    let ranked = choose|ranked: Seq<DocumentMatchView>| #[trigger]
        ranking_of(snapshot, query, ranked) && results == results_of(
            snapshot,
            query,
            page_of(snapshot, ranked, offset_of(query), length_of(query)),
            page_of(snapshot, ranked, offset_of(query), length_of(query)).len() as int,
        );
    lemma_word_found(snapshot, query, q, posting, ranked);
    let d = choose|d: int|
        0 <= d < ranked.len() && (#[trigger] ranked[d]).id == posting.document_id
            && ranked[d].matches.contains(exact_match(posting, q as u32));
    let documents = candidates(search_matches(snapshot, query));
    let order = choose|order: Seq<usize>| rearranged(documents, order, ranked);
    lemma_candidates(search_matches(snapshot, query));
    lemma_ranking_strict(
        crate::config::pipeline_of(snapshot.schema, snapshot.config),
        snapshot.state.ranked,
        documents,
        order,
        ranked,
    );
    assert(accepted(snapshot, ranked, d)) by {
        if distinct_key(snapshot, ranked[d].id) is Some {
            assert forall|j: int| 0 <= j < d implies distinct_key(
                snapshot,
                (#[trigger] ranked[j]).id,
            ) != distinct_key(snapshot, ranked[d].id) by {
                assert(ranked.contains(ranked[j]));
                assert(documents.contains(ranked[j]));
                assert(ranked[j].id != ranked[d].id);
            }
        }
    }
    assert(kept(snapshot, ranked, d));
    lemma_kept_holds(snapshot, ranked, ranked.len() as int, d);
    let all = kept_up_to(snapshot, ranked, ranked.len() as int);
    let page = page_of(snapshot, ranked, offset_of(query), length_of(query));
    assert(page =~= all);
    let p = choose|p: int| 0 <= p < all.len() && all[p] == ranked[d];
    let found = exact_match(posting, q as u32);
    let x = choose|x: int| 0 <= x < ranked[d].matches.len() && ranked[d].matches[x] == found;
    lemma_readable_holds(snapshot.schema, ranked[d].matches, x);
    let places = readable(snapshot.schema, ranked[d].matches);
    let place = place_of_posting(snapshot.schema, posting);
    assert(places.contains(place));
    let wanted = result_of(snapshot, query, page[p])->0;
    assert(result_of(snapshot, query, page[p]) is Some);
    assert(wanted.hits == shown(hits, query));
    assert(wanted.matches.contains(place)) by {
        match query.attributes_to_retrieve {
            Some(names) => {
                let y = choose|y: int| 0 <= y < places.len() && places[y] == place;
                lemma_retrieved_holds(places, names@, y);
            },
            None => {},
        }
    }
    lemma_results_hold(snapshot, query, page, page.len() as int, p);
    let i = choose|i: int| 0 <= i < results.len() && results[i] == wanted;
    assert(results[i].hits == shown(hits, query));
}

/// The attributes that names stand for hold the attribute of a name that
/// the schema declares.
proof fn lemma_attributes_named(schema: SchemaView, names: Seq<String>, name: Seq<char>)
    requires
        names_hold(names, name),
        declares(schema.attrs, name),
    ensures
        attributes_named(schema, names).contains(place_of(schema.attrs, name) as u16),
    decreases names.len(),
{
    let before = attributes_named(schema, names.drop_last());
    let all = attributes_named(schema, names);
    let wanted = place_of(schema.attrs, name) as u16;
    if names.last()@ == name {
        assert(all[before.len() as int] == wanted);
    } else {
        let i = choose|i: int| 0 <= i < names.len() && (#[trigger] names[i])@ == name;
        assert(names.drop_last()[i] == names[i]);
        lemma_attributes_named(schema, names.drop_last(), name);
        let y = choose|y: int| 0 <= y < before.len() && before[y] == wanted;
        if declares(schema.attrs, names.last()@) {
            assert(all[y] == wanted);
        }
    }
}

/// Taking documents into an update keeps the update consistent and keeps
/// the postings that it holds.
proof fn lemma_inserts_keep(
    state: BuilderView,
    schema: SchemaView,
    documents: Seq<Document>,
    stop_words: Set<Seq<char>>,
    j: int,
    k: int,
)
    requires
        state.wf(),
        consistent(state),
        0 <= j <= k <= documents.len(),
    ensures
        inserts_effect(state, schema, documents, stop_words, k).wf(),
        consistent(inserts_effect(state, schema, documents, stop_words, k)),
        forall|w: Seq<char>, p: DocIndex|
            postings_of(inserts_effect(state, schema, documents, stop_words, j).words, w).contains(
                p,
            ) ==> #[trigger] postings_of(
                inserts_effect(state, schema, documents, stop_words, k).words,
                w,
            ).contains(p),
    decreases k,
{
    if k > 0 {
        let before = inserts_effect(state, schema, documents, stop_words, k - 1);
        if j < k {
            lemma_inserts_keep(state, schema, documents, stop_words, j, k - 1);
        } else {
            lemma_inserts_keep(state, schema, documents, stop_words, k - 1, k - 1);
        }
        lemma_update_consistent(before, schema, documents[k - 1].0@, stop_words);
        if j < k {
            let after = inserts_effect(state, schema, documents, stop_words, k);
            assert forall|w: Seq<char>, p: DocIndex|
                postings_of(
                    inserts_effect(state, schema, documents, stop_words, j).words,
                    w,
                ).contains(p) implies #[trigger] postings_of(after.words, w).contains(p) by {
                assert(postings_of(before.words, w).contains(p));
            }
        }
    }
}

/// Removing documents keeps the update consistent and the postings that it holds.
proof fn lemma_deletes_keep(state: BuilderView, schema: SchemaView, documents: Seq<Document>, k: int)
    requires
        state.wf(),
        consistent(state),
        0 <= k <= documents.len(),
    ensures
        deletes_effect(state, schema, documents, k).wf(),
        consistent(deletes_effect(state, schema, documents, k)),
        deletes_effect(state, schema, documents, k).words == state.words,
    decreases k,
{
    if k > 0 {
        lemma_deletes_keep(state, schema, documents, k - 1);
        lemma_remove_consistent(
            deletes_effect(state, schema, documents, k - 1),
            schema,
            documents[k - 1].0@,
        );
    }
}

/// Round trip: a request is carried out on an index, and the index is then
/// asked for a word of an indexed field of a document that the request had
/// taken in. Where no document that the request takes in after it, and none
/// that it removes, has the identifier of the document, the answer holds
/// the document: with its stored attributes, and among its places the
/// field by its name, where the word starts in the text of the field and
/// how long it is; the match that gives this place is exact and lies at
/// distance zero. This is said of a query that does not leave the field
/// out of its search or of what it retrieves, and crops nothing; of a
/// document that no other document found hides by its distinct value; and
/// of a page that starts at the first document and is long enough for all
/// that were found.
pub proof fn lemma_round_trip(
    before: Snapshot,
    start: BuilderView,
    request: DocumentsUpdate,
    d: int,
    f: int,
    t: int,
    batch: Seq<BatchOpView>,
    after: Snapshot,
    query: Query,
    q: int,
    results: Seq<QueryResultView>,
)
    requires
        before.wf(),
        after.wf(),
        start.wf(),
        consistent(start),
        built_from(
            request_effect(start, before.schema, request, stop_words_of(before.config)),
            batch,
        ),
        after.schema == before.schema,
        after.config == before.config,
        after.state == apply_ops(before.state, batch),
        0 <= d < listed(request.insert).len(),
        update_effect(
            inserts_effect(
                start,
                before.schema,
                listed(request.insert),
                stop_words_of(before.config),
                d,
            ),
            before.schema,
            listed(request.insert)[d].0@,
            stop_words_of(before.config),
        ).1 is Ok,
        0 <= f < listed(request.insert)[d].0@.len(),
        indexed_field(before.schema, listed(request.insert)[d].0@[f]),
        0 <= t < tokens_of(
            text_of(listed(request.insert)[d].0@[f].value)->0,
            stop_words_of(before.config),
        ).len(),
        fits(
            tokens_of(
                text_of(listed(request.insert)[d].0@[f].value)->0,
                stop_words_of(before.config),
            )[t],
        ),
        0 <= q < query_words(query.query@, stop_words_of(after.config)).len(),
        query_words(query.query@, stop_words_of(after.config))[q] == tokens_of(
            text_of(listed(request.insert)[d].0@[f].value)->0,
            stop_words_of(before.config),
        )[t].word,
        query.restrict_searchable_attributes matches Some(names) ==> names_hold(
            names@,
            listed(request.insert)[d].0@[f].name@,
        ),
        query.attributes_to_retrieve matches Some(names) ==> names_hold(
            names@,
            listed(request.insert)[d].0@[f].name@,
        ),
        query.cropped_fields is None,
        sole_of_its_value(
            after,
            query,
            before.schema.document_id_of(listed(request.insert)[d].0@)->Ok_0,
        ),
        offset_of(query) == 0,
        candidates(search_matches(after, query)).len() <= length_of(query),
        none_from(
            before.schema,
            listed(request.insert),
            d + 1,
            before.schema.document_id_of(listed(request.insert)[d].0@)->Ok_0,
        ),
        none_from(
            before.schema,
            listed(request.delete),
            0,
            before.schema.document_id_of(listed(request.insert)[d].0@)->Ok_0,
        ),
        answers(after, query, results),
    ensures
        search_matches(after, query).contains(
            posting_match(
                posting_of_token(
                    before.schema,
                    before.schema.document_id_of(listed(request.insert)[d].0@)->Ok_0,
                    listed(request.insert)[d].0@[f],
                    stop_words_of(before.config),
                    t,
                ),
                q as u32,
                0,
                true,
            ),
        ),
        exists|i: int|
            0 <= i < results.len() && (#[trigger] results[i]).hits == shown(
                stored_hits(
                    after,
                    before.schema.document_id_of(listed(request.insert)[d].0@)->Ok_0,
                    after.schema.attrs.len() as int,
                )->0,
                query,
            ) && results[i].matches.contains(
                MatchView {
                    attribute: listed(request.insert)[d].0@[f].name@,
                    start: tokens_of(
                        text_of(listed(request.insert)[d].0@[f].value)->0,
                        stop_words_of(before.config),
                    )[t].char_index as u16,
                    length: tokens_of(
                        text_of(listed(request.insert)[d].0@[f].value)->0,
                        stop_words_of(before.config),
                    )[t].char_length as u16,
                },
            ),
{
    let schema = before.schema;
    let stop_words = stop_words_of(before.config);
    let inserts = listed(request.insert);
    let deletes = listed(request.delete);
    let fields = inserts[d].0@;
    let token = tokens_of(text_of(fields[f].value)->0, stop_words)[t];
    let taken = inserts_effect(start, schema, inserts, stop_words, d);
    lemma_inserts_keep(start, schema, inserts, stop_words, d, d);
    reveal(update_effect);
    let document = schema.document_id_of(fields)->Ok_0;
    assert(update_effect(taken, schema, fields, stop_words).1 == Ok::<
        crate::types::DocumentId,
        crate::schema::SerializerError,
    >(document));
    lemma_document_indexed(taken, schema, fields, stop_words, f, t);
    let posting = posting_of_token(schema, document, fields[f], stop_words, t);
    assert(inserts_effect(start, schema, inserts, stop_words, d + 1) == update_effect(
        taken,
        schema,
        fields,
        stop_words,
    ).0);
    lemma_inserts_keep(start, schema, inserts, stop_words, d + 1, inserts.len() as int);
    let inserted = inserts_effect(start, schema, inserts, stop_words, inserts.len() as int);
    assert(postings_of(inserted.words, token.word).contains(posting));
    lemma_deletes_keep(inserted, schema, deletes, deletes.len() as int);
    let built = request_effect(start, schema, request, stop_words);
    assert(built.words == inserted.words);
    lemma_index_map_wf(before.entries);
    lemma_posting_committed(before.state, built, batch, token.word, posting);
    let place = place_of(schema.attrs, fields[f].name@);
    assert(posting.attribute == place as u16);
    match query.restrict_searchable_attributes {
        Some(names) => {
            lemma_attributes_named(schema, names@, fields[f].name@);
        },
        None => {},
    }
    lemma_written_stored(
        before.state,
        schema,
        start,
        inserts,
        deletes,
        stop_words,
        d,
        batch,
        after,
    );
    let hits = stored_hits(after, document, after.schema.attrs.len() as int)->0;
    lemma_found_in_answers(after, query, q, posting, hits, results);
    assert(place_of_posting(after.schema, posting).attribute == fields[f].name@);
}

} // verus!
