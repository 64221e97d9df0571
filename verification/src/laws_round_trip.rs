use vstd::prelude::*;
use crate::config::stop_words_of;
use crate::criterion::Match;
use crate::database::Snapshot;
use crate::document::text_of;
use crate::document::Field;
use crate::index::has_word;
use crate::index::lemma_postings_of_entry;
use crate::index::postings_of;
use crate::index::word_ok;
use crate::index::EntryView;
use crate::index_map::index_map;
use crate::index_map::lemma_index_map_wf;
use crate::index_map::lemma_union_of;
use crate::index_map::map_wf;
use crate::index_map::postings_in;
use crate::index_map::removed_map;
use crate::laws::distance_of;
use crate::laws::exactness_of;
use crate::laws::lemma_ranking_strict;
use crate::laws::lemma_word_matches_complete;
use crate::update::consistent;
use crate::laws_commit::index_without;
use crate::laws_commit::lemma_apply_built;
use crate::laws_commit::lemma_removed_map_wf;
use crate::update::staged_only;
use crate::laws_update::lemma_field_effect;
use crate::laws_update::lemma_fields_effect;
use crate::laws_update::lemma_index_tokens;
use crate::laws_update::lemma_opened;
use crate::levenshtein::lemma_edit_distance_same;
use crate::matching::attributes_named;
use crate::matching::candidates;
use crate::matching::has_document;
use crate::matching::lemma_candidates;
use crate::matching::mentions;
use crate::matching::place_of_document;
use crate::matching::posting_match;
use crate::matching::query_matches;
use crate::matching::restricted;
use crate::matching::word_match;
use crate::matching::word_matches;
use crate::matching::RawMatch;
use crate::query::kept_up_to;
use crate::query::page_of;
use crate::query::query_words;
use crate::query::ranking_of;
use crate::query::search_matches;
use crate::query::Query;
use crate::rank::rearranged;
use crate::rank::DocumentMatchView;
use crate::schema::declares;
use crate::schema::place_of;
use crate::schema::SchemaView;
use crate::serializer::field_effect;
use crate::serializer::fields_effect;
use crate::serializer::fits;
use crate::serializer::posting_for;
use crate::serializer::update_effect;
use crate::state::apply_ops;
use crate::state::StateView;
use crate::tokenizer::lemma_tokens_from;
use crate::tokenizer::token_of_text;
use crate::tokenizer::tokens_of;
use crate::types::DocIndex;
use crate::types::DocumentId;
use crate::types::SchemaAttr;
use crate::update::built_from;
use crate::update::BatchOpView;
use crate::update::BuilderView;

verus! {

/// A field of a document is indexed: the schema declares it as indexed, and
/// its value has a text.
pub open spec fn indexed_field(schema: SchemaView, field: Field) -> bool {
    &&& declares(schema.attrs, field.name@)
    &&& schema.attrs[place_of(schema.attrs, field.name@)].props.indexed
    &&& text_of(field.value) is Some
}

/// The posting of the token at place `t` of an indexed field.
pub open spec fn posting_of_token(
    schema: SchemaView,
    document: DocumentId,
    field: Field,
    stop_words: Set<Seq<char>>,
    t: int,
) -> DocIndex {
    posting_for(
        document,
        place_of(schema.attrs, field.name@) as u16,
        tokens_of(text_of(field.value)->0, stop_words)[t],
    )
}

proof fn lemma_field_posting(
    state: BuilderView,
    schema: SchemaView,
    document: DocumentId,
    field: Field,
    stop_words: Set<Seq<char>>,
    t: int,
)
    requires
        state.wf(),
        consistent(state),
        state.documents.contains(document.0),
        indexed_field(schema, field),
        0 <= t < tokens_of(text_of(field.value)->0, stop_words).len(),
        fits(tokens_of(text_of(field.value)->0, stop_words)[t]),
    ensures
        postings_of(
            field_effect(state, schema, document, field, stop_words).0.words,
            tokens_of(text_of(field.value)->0, stop_words)[t].word,
        ).contains(posting_of_token(schema, document, field, stop_words, t)),
{
    let place = place_of(schema.attrs, field.name@);
    let attribute = SchemaAttr(place as u16);
    let props = schema.attrs[place].props;
    let text = text_of(field.value)->0;
    let tokens = tokens_of(text, stop_words);
    lemma_tokens_from(text, 0, 0, stop_words);
    assert(token_of_text(text, stop_words, tokens[t]));
    assert(word_ok(tokens[t].word));
    let stored = if props.stored {
        state.with_put(document, attribute, vstd::utf8::encode_utf8(text))
    } else {
        state
    };
    assert(staged_only(stored.batch)) by {
        assert forall|i: int| 0 <= i < stored.batch.len() implies (#[trigger] stored.batch[i]) is Put
            || stored.batch[i] is DeleteRange by {
            if i < state.batch.len() {
                assert(stored.batch[i] == state.batch[i]);
            }
        }
    }
    lemma_index_tokens(stored, document, attribute.0, tokens);
    assert(posting_of_token(schema, document, field, stop_words, t) == posting_for(
        document,
        attribute.0,
        tokens[t],
    ));
}

proof fn lemma_fields_posting(
    state: BuilderView,
    schema: SchemaView,
    document: DocumentId,
    fields: Seq<Field>,
    stop_words: Set<Seq<char>>,
    f: int,
    t: int,
)
    requires
        state.wf(),
        consistent(state),
        state.documents.contains(document.0),
        0 <= f < fields.len(),
        fields_effect(state, schema, document, fields, stop_words).1 is Ok,
        indexed_field(schema, fields[f]),
        0 <= t < tokens_of(text_of(fields[f].value)->0, stop_words).len(),
        fits(tokens_of(text_of(fields[f].value)->0, stop_words)[t]),
    ensures
        postings_of(
            fields_effect(state, schema, document, fields, stop_words).0.words,
            tokens_of(text_of(fields[f].value)->0, stop_words)[t].word,
        ).contains(posting_of_token(schema, document, fields[f], stop_words, t)),
    decreases fields.len(),
{
    let before = fields_effect(state, schema, document, fields.drop_last(), stop_words);
    lemma_fields_effect(state, schema, document, fields.drop_last(), stop_words);
    assert(before.1 is Ok);
    if f == fields.len() - 1 {
        lemma_field_posting(before.0, schema, document, fields[f], stop_words, t);
    } else {
        assert(fields.drop_last()[f] == fields[f]);
        lemma_fields_posting(state, schema, document, fields.drop_last(), stop_words, f, t);
        lemma_field_effect(before.0, schema, document, fields.last(), stop_words);
    }
}

/// Round trip, into the update: once a document is taken into an update,
/// the update holds, under each word of each indexed field of the document,
/// the posting of that word: the document, the attribute, and the place of
/// the word in the text.
pub proof fn lemma_document_indexed(
    state: BuilderView,
    schema: SchemaView,
    fields: Seq<Field>,
    stop_words: Set<Seq<char>>,
    f: int,
    t: int,
)
    requires
        state.wf(),
        consistent(state),
        update_effect(state, schema, fields, stop_words).1 is Ok,
        0 <= f < fields.len(),
        indexed_field(schema, fields[f]),
        0 <= t < tokens_of(text_of(fields[f].value)->0, stop_words).len(),
        fits(tokens_of(text_of(fields[f].value)->0, stop_words)[t]),
    ensures
        postings_of(
            update_effect(state, schema, fields, stop_words).0.words,
            tokens_of(text_of(fields[f].value)->0, stop_words)[t].word,
        ).contains(
            posting_of_token(
                schema,
                update_effect(state, schema, fields, stop_words).1->Ok_0,
                fields[f],
                stop_words,
                t,
            ),
        ),
{
    reveal(update_effect);
    let document = schema.document_id_of(fields)->Ok_0;
    lemma_opened(state, document);
    lemma_fields_posting(state.opened(document), schema, document, fields, stop_words, f, t);
}

/// Round trip, into the index: once the batch of an update is committed,
/// the index holds every posting that the update holds, under its word.
pub proof fn lemma_posting_committed(
    state: StateView,
    update: BuilderView,
    batch: Seq<BatchOpView>,
    word: Seq<char>,
    posting: DocIndex,
)
    requires
        map_wf(state.index),
        built_from(update, batch),
        postings_of(update.words, word).contains(posting),
    ensures
        apply_ops(state, batch).index.dom().contains(word),
        apply_ops(state, batch).index[word].contains(posting),
{
    lemma_apply_built(state, update, batch);
    let n = update.batch.len() as int;
    let ids = batch[n]->IndexRemoved_0;
    let index = batch[n + 1]->IndexUpdated_0;
    let removed = removed_map(state.index, ids);
    lemma_removed_map_wf(state.index, ids);
    lemma_index_map_wf(index);
    assert(has_word(update.words, word));
    let e = choose|e: int| 0 <= e < update.words.len() && (#[trigger] update.words[e]).word == word;
    assert(index[e].word == word);
    lemma_postings_of_entry(index, e);
    let j = choose|j: int| 0 <= j < update.words.len() && (#[trigger] update.words[j]).word == word;
    assert(postings_of(update.words, word) == update.words[j].postings);
    assert(index[j].word == word);
    lemma_postings_of_entry(index, j);
    assert(index[j].postings.contains(posting));
    let p = postings_in(removed, word);
    let q = postings_in(index_map(index), word);
    lemma_union_of(p, q);
    assert(q.contains(posting));
}

/// A match of a sequence of matches is a match of the candidate that its
/// document makes.
pub proof fn lemma_candidate_holds(raw: Seq<RawMatch>, x: int)
    requires
        0 <= x < raw.len(),
    ensures
        has_document(candidates(raw), raw[x].document),
        candidates(raw)[place_of_document(candidates(raw), raw[x].document)].matches.contains(
            raw[x].found,
        ),
    decreases raw.len(),
{
    let c = candidates(raw);
    let r0 = raw.drop_last();
    let before = candidates(r0);
    let last = raw.last();
    lemma_candidates(raw);
    lemma_candidates(r0);
    assert(has_document(c, raw[x].document));
    let i = place_of_document(c, raw[x].document);
    if x == raw.len() - 1 {
        if has_document(before, last.document) {
            let k = place_of_document(before, last.document);
            assert(c[k].id == last.document);
            if i < k {
                assert(c[i].id != c[k].id);
            }
            if k < i {
                assert(c[k].id != c[i].id);
            }
            assert(c[k].matches == before[k].matches.push(last.found));
            assert(c[k].matches[before[k].matches.len() as int] == last.found);
        } else {
            let k = before.len() as int;
            assert(c[k].id == last.document);
            if i < k {
                assert(c[i].id != c[k].id);
            }
            assert(c[k].matches[0] == last.found);
        }
    } else {
        assert(r0[x] == raw[x]);
        lemma_candidate_holds(r0, x);
        let k = place_of_document(before, raw[x].document);
        let y = choose|y: int|
            0 <= y < before[k].matches.len() && before[k].matches[y] == raw[x].found;
        assert(c[k].id == raw[x].document);
        if i < k {
            assert(c[i].id != c[k].id);
        }
        if k < i {
            assert(c[k].id != c[i].id);
        }
        if has_document(before, last.document) {
            let l = place_of_document(before, last.document);
            if l == k {
                assert(c[k].matches == before[k].matches.push(last.found));
                assert(c[k].matches[y] == raw[x].found);
            } else {
                assert(c[k] == before[k]);
                assert(c[k].matches[y] == raw[x].found);
            }
        } else {
            assert(c[k] == before[k]);
            assert(c[k].matches[y] == raw[x].found);
        }
    }
}

proof fn lemma_query_matches_complete(
    entries: Seq<EntryView>,
    words: Seq<Seq<char>>,
    n: int,
    q: int,
    e: int,
    j: int,
)
    requires
        0 <= q < n <= words.len(),
        0 <= e < entries.len(),
        0 <= j < entries[e].postings.len(),
        word_match(words[q], q + 1 == words.len(), entries[e].word) is Some,
    ensures
        query_matches(entries, words, n).contains(
            posting_match(
                entries[e].postings[j],
                q as u32,
                distance_of(word_match(words[q], q + 1 == words.len(), entries[e].word)),
                exactness_of(word_match(words[q], q + 1 == words.len(), entries[e].word)),
            ),
        ),
    decreases n,
{
    let how = word_match(words[q], q + 1 == words.len(), entries[e].word);
    let r = posting_match(entries[e].postings[j], q as u32, distance_of(how), exactness_of(how));
    let before = query_matches(entries, words, n - 1);
    let added = word_matches(
        entries,
        words[n - 1],
        (n - 1) as u32,
        n == words.len(),
        entries.len() as int,
    );
    let all = query_matches(entries, words, n);
    assert(all == before + added);
    if q == n - 1 {
        lemma_word_matches_complete(
            entries,
            words[q],
            q as u32,
            q + 1 == words.len(),
            entries.len() as int,
            e,
            j,
        );
        let x = choose|x: int| 0 <= x < added.len() && added[x] == r;
        assert(all[before.len() + x] == r);
    } else {
        lemma_query_matches_complete(entries, words, n - 1, q, e, j);
        let x = choose|x: int| 0 <= x < before.len() && before[x] == r;
        assert(all[x] == r);
    }
}

/// The exact match of a query word that a posting gives.
pub open spec fn exact_match(posting: DocIndex, query_index: u32) -> Match {
    Match {
        query_index,
        distance: 0,
        attribute: posting.attribute,
        word_index: posting.word_index,
        is_exact: true,
        char_index: posting.char_index,
        char_length: posting.char_length,
    }
}

/// A match in an attribute that is allowed is among the matches allowed.
proof fn lemma_restricted_holds(raw: Seq<RawMatch>, allowed: Seq<u16>, x: int)
    requires
        0 <= x < raw.len(),
        allowed.contains(raw[x].found.attribute),
    ensures
        restricted(raw, allowed).contains(raw[x]),
    decreases raw.len(),
{
    let before = restricted(raw.drop_last(), allowed);
    let all = restricted(raw, allowed);
    if x == raw.len() - 1 {
        assert(all[before.len() as int] == raw[x]);
    } else {
        assert(raw.drop_last()[x] == raw[x]);
        lemma_restricted_holds(raw.drop_last(), allowed, x);
        let y = choose|y: int| 0 <= y < before.len() && before[y] == raw[x];
        if allowed.contains(raw.last().found.attribute) {
            assert(all[y] == raw[x]);
        }
    }
}

/// Round trip, out of the index: where the index holds a posting under a
/// word, a query that has that word, and does not leave the attribute of
/// the posting out of its search, has among its matches the match that the
/// posting gives the word, exact and at distance zero, and finds the
/// posting's document with that match, in the posting's attribute and at
/// the posting's place.
pub proof fn lemma_word_found(
    snapshot: Snapshot,
    query: Query,
    q: int,
    posting: DocIndex,
    ranked: Seq<DocumentMatchView>,
)
    requires
        snapshot.wf(),
        query.restrict_searchable_attributes matches Some(names) ==> attributes_named(
            snapshot.schema,
            names@,
        ).contains(posting.attribute),
        0 <= q < query_words(query.query@, stop_words_of(snapshot.config)).len(),
        snapshot.state.index.dom().contains(
            query_words(query.query@, stop_words_of(snapshot.config))[q],
        ),
        snapshot.state.index[query_words(
            query.query@,
            stop_words_of(snapshot.config),
        )[q]].contains(posting),
        ranking_of(snapshot, query, ranked),
    ensures
        search_matches(snapshot, query).contains(posting_match(posting, q as u32, 0, true)),
        exists|i: int|
            0 <= i < ranked.len() && (#[trigger] ranked[i]).id == posting.document_id
                && ranked[i].matches.contains(exact_match(posting, q as u32)),
{
    let words = query_words(query.query@, stop_words_of(snapshot.config));
    let word = words[q];
    let entries = snapshot.entries;
    assert(has_word(entries, word));
    let e = choose|e: int| 0 <= e < entries.len() && (#[trigger] entries[e]).word == word;
    lemma_postings_of_entry(entries, e);
    let j = choose|j: int| 0 <= j < entries[e].postings.len() && entries[e].postings[j] == posting;
    lemma_edit_distance_same(word);
    let how = word_match(word, q + 1 == words.len(), word);
    assert(how == Some((0u8, true)));
    lemma_query_matches_complete(entries, words, words.len() as int, q, e, j);
    let found = query_matches(entries, words, words.len() as int);
    let raw = search_matches(snapshot, query);
    let r = posting_match(posting, q as u32, 0, true);
    assert(found.contains(r));
    match query.restrict_searchable_attributes {
        Some(names) => {
            let y = choose|y: int| 0 <= y < found.len() && found[y] == r;
            lemma_restricted_holds(found, attributes_named(snapshot.schema, names@), y);
        },
        None => {},
    }
    assert(raw.contains(r));
    let x = choose|x: int| 0 <= x < raw.len() && raw[x] == r;
    lemma_candidate_holds(raw, x);
    lemma_candidates(raw);
    let documents = candidates(raw);
    let k = place_of_document(documents, posting.document_id);
    let order = choose|order: Seq<usize>| rearranged(documents, order, ranked);
    lemma_ranking_strict(
        crate::config::pipeline_of(snapshot.schema, snapshot.config),
        snapshot.state.ranked,
        documents,
        order,
        ranked,
    );
    assert(documents.contains(documents[k]));
    assert(ranked.contains(documents[k]));
    let i = choose|i: int| 0 <= i < ranked.len() && ranked[i] == documents[k];
    assert(ranked[i].id == posting.document_id);
    assert(r.found == exact_match(posting, q as u32));
}

/// A document that is no candidate is in no page.
proof fn lemma_page_within(
    snapshot: Snapshot,
    ranked: Seq<DocumentMatchView>,
    offset: int,
    length: int,
    i: int,
)
    requires
        0 <= offset,
        0 <= length,
        0 <= i < page_of(snapshot, ranked, offset, length).len(),
    ensures
        ranked.contains(page_of(snapshot, ranked, offset, length)[i]),
{
    let all = kept_up_to(snapshot, ranked, ranked.len() as int);
    crate::laws::lemma_kept_within(snapshot, ranked, ranked.len() as int);
    let page = page_of(snapshot, ranked, offset, length);
    assert(all[i + offset] == page[i]);
    assert(all.contains(page[i]));
}

/// Every match that is allowed is one of the matches.
pub proof fn lemma_restricted_within(raw: Seq<RawMatch>, allowed: Seq<u16>, x: int)
    requires
        0 <= x < restricted(raw, allowed).len(),
    ensures
        raw.contains(restricted(raw, allowed)[x]),
    decreases raw.len(),
{
    if raw.len() > 0 {
        let r0 = raw.drop_last();
        let before = restricted(r0, allowed);
        if x < before.len() {
            lemma_restricted_within(r0, allowed, x);
            let y = choose|y: int| 0 <= y < r0.len() && r0[y] == before[x];
            assert(raw[y] == before[x]);
        } else {
            assert(raw[raw.len() - 1] == restricted(raw, allowed)[x]);
        }
    }
}

/// Delete-then-lookup, in the answers: where no word of the index has a
/// posting for a document, no page of any query holds that document.
pub proof fn lemma_not_found(
    snapshot: Snapshot,
    query: Query,
    document: DocumentId,
    ranked: Seq<DocumentMatchView>,
    offset: int,
    length: int,
)
    requires
        snapshot.wf(),
        index_without(snapshot.state.index, document),
        ranking_of(snapshot, query, ranked),
        0 <= offset,
        0 <= length,
    ensures
        forall|i: int|
            0 <= i < page_of(snapshot, ranked, offset, length).len() ==> (#[trigger] page_of(
                snapshot,
                ranked,
                offset,
                length,
            )[i]).id != document,
{
    let words = query_words(query.query@, stop_words_of(snapshot.config));
    let entries = snapshot.entries;
    let found = query_matches(entries, words, words.len() as int);
    let raw = search_matches(snapshot, query);
    crate::laws::lemma_matches_from_postings(entries, words, words.len() as int);
    lemma_index_map_wf(entries);
    assert forall|x: int| 0 <= x < found.len() implies (#[trigger] found[x]).document != document by {
        let r = found[x];
        let qi = r.found.query_index;
        assert(crate::laws::from_posting(entries, r));
        let (e, j) = choose|e: int, j: int|
            0 <= e < entries.len() && 0 <= j < entries[e].postings.len() && r.document
                == (#[trigger] entries[e].postings[j]).document_id;
        lemma_postings_of_entry(entries, e);
        assert(snapshot.state.index.dom().contains(entries[e].word));
        assert(snapshot.state.index[entries[e].word][j].document_id != document);
    }
    assert forall|x: int| 0 <= x < raw.len() implies (#[trigger] raw[x]).document != document by {
        match query.restrict_searchable_attributes {
            Some(names) => {
                lemma_restricted_within(found, attributes_named(snapshot.schema, names@), x);
                let y = choose|y: int| 0 <= y < found.len() && found[y] == raw[x];
                assert(found[y].document != document);
            },
            None => {},
        }
    }
    lemma_candidates(raw);
    let documents = candidates(raw);
    let order = choose|order: Seq<usize>| rearranged(documents, order, ranked);
    lemma_ranking_strict(
        crate::config::pipeline_of(snapshot.schema, snapshot.config),
        snapshot.state.ranked,
        documents,
        order,
        ranked,
    );
    assert forall|i: int|
        0 <= i < page_of(snapshot, ranked, offset, length).len() implies (#[trigger] page_of(
        snapshot,
        ranked,
        offset,
        length,
    )[i]).id != document by {
        let d = page_of(snapshot, ranked, offset, length)[i];
        lemma_page_within(snapshot, ranked, offset, length, i);
        assert(documents.contains(d));
        let k = choose|k: int| 0 <= k < documents.len() && documents[k] == d;
        assert(mentions(raw, documents[k].id));
        let x = choose|x: int| 0 <= x < raw.len() && (#[trigger] raw[x]).document == d.id;
        assert(raw[x].document != document);
    }
}

} // verus!
