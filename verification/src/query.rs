use vstd::prelude::*;
use crate::config::pipeline_of;
use crate::config::stop_words_of;
use crate::criterion::DocumentMatch;
use crate::crop::crop_document;
use crate::crop::crop_effect;
use crate::crop::hit_views;
use crate::crop::sorted_by_position;
use crate::crop::Hit;
use crate::crop::HitView;
use crate::database::has_index;
use crate::database::index_place;
use crate::database::stored_field;
use crate::database::Database;
use crate::database::DatabaseView;
use crate::database::Snapshot;
use crate::document_key::DocumentKeyAttr;
use crate::matching::attributes_named;
use crate::matching::attributes_of;
use crate::matching::candidates;
use crate::matching::group;
use crate::matching::match_word;
use crate::matching::query_matches;
use crate::matching::restrict;
use crate::matching::restricted;
use crate::matching::RawMatch;
use crate::rank::document_views;
use crate::rank::rank_documents;
use crate::rank::ranked_in_order;
use crate::rank::rearranged;
use crate::rank::DocumentMatchView;
use crate::schema::Schema;
use crate::schema::SchemaView;
use crate::sorted::copy_of;
use crate::text::same_text;
use crate::text::text_of_bytes;
use crate::tokenizer::lemma_tokens_from;
use crate::tokenizer::token_views;
use crate::tokenizer::tokenize;
use crate::tokenizer::tokens_of;
use crate::types::DocumentId;
use crate::types::SchemaAttr;
use crate::word::lemma_utf8_len_bounds;

verus! {

/// The number of hits that a query asks for where it does not say.
pub const DEFAULT_LENGTH: usize = 20;

/// The most hits that a query may ask for.
pub const MAX_LENGTH: usize = 500;

/// The widest context that a crop takes; a wider one counts as this.
pub const MAX_CONTEXT: usize = 0x3fff_ffff;

/// The most words of a query that are looked up.
pub const MAX_QUERY_WORDS: usize = 0xffff_ffff;

/// A field to crop in the hits, and the number of scalars to keep before
/// the first match.
#[derive(Clone, Debug, PartialEq, Eq)]
pub struct CroppedField {
    pub name: String,
    pub length: usize,
}

/// A search request.
#[derive(Clone, Debug, PartialEq, Eq)]
pub struct Query {
    /// The text to search for.
    pub query: String,
    /// The number of hits to skip; none where it is not given.
    pub offset: Option<usize>,
    /// The number of hits to return; twenty where it is not given.
    pub length: Option<usize>,
    /// The fields to crop around their first match, in the order in which
    /// they are cropped. A field that is named more than once is cropped
    /// once for each time, each time as the crop before left it.
    pub cropped_fields: Option<Vec<CroppedField>>,
    /// The attributes to return; all stored ones where it is not given.
    pub attributes_to_retrieve: Option<Vec<String>>,
    /// The attributes to search in; all indexed ones where it is not given.
    pub restrict_searchable_attributes: Option<Vec<String>>,
}

/// Where a query word was found in a hit.
#[derive(Clone, Debug, PartialEq, Eq)]
pub struct Match {
    pub attribute: String,
    pub start: u16,
    pub length: u16,
}

/// One document that a query found: its stored attributes, in the order of
/// the schema and each name once, and the places of the query words in
/// them.
#[derive(Clone, Debug, PartialEq, Eq)]
pub struct QueryResult {
    pub hits: Vec<Hit>,
    pub matches: Vec<Match>,
}

/// Why a query was not answered.
#[derive(Clone, Copy, Debug, PartialEq, Eq, Structural)]
pub enum QueryError {
    UnknownIndex,
    InvalidLimit,
    Cancelled,
}

/// A place of a query word as a plain value.
pub struct MatchView {
    pub attribute: Seq<char>,
    pub start: u16,
    pub length: u16,
}

/// A found document as a plain value.
pub struct QueryResultView {
    pub hits: Seq<HitView>,
    pub matches: Seq<MatchView>,
}

impl Match {
    /// The place as a plain value.
    pub open spec fn view(&self) -> MatchView {
        MatchView { attribute: self.attribute@, start: self.start, length: self.length }
    }
}

/// The places of a vector as plain values.
pub open spec fn match_views(matches: Seq<Match>) -> Seq<MatchView> {
    Seq::new(matches.len(), |i: int| matches[i]@)
}

impl QueryResult {
    /// The found document as a plain value.
    pub open spec fn view(&self) -> QueryResultView {
        QueryResultView { hits: hit_views(self.hits@), matches: match_views(self.matches@) }
    }
}

/// No name occurs twice among the stored attributes of any of the found
/// documents.
pub open spec fn hits_named_once(results: Seq<QueryResultView>) -> bool {
    forall|i: int| 0 <= i < results.len() ==> crate::crop::names_once((#[trigger] results[i]).hits)
}

/// The found documents of a vector as plain values.
pub open spec fn result_views(results: Seq<QueryResult>) -> Seq<QueryResultView> {
    Seq::new(results.len(), |i: int| results[i]@)
}

/// The number of hits to skip.
pub open spec fn offset_of(query: Query) -> int {
    match query.offset {
        Some(offset) => offset as int,
        None => 0,
    }
}

/// The number of hits to return.
pub open spec fn length_of(query: Query) -> int {
    match query.length {
        Some(length) => length as int,
        None => DEFAULT_LENGTH as int,
    }
}

/// The words of a query: the words of its tokens, in their order.
pub open spec fn query_words(text: Seq<char>, stop_words: Set<Seq<char>>) -> Seq<Seq<char>> {
    let tokens = tokens_of(text, stop_words);
    Seq::new(
        if tokens.len() <= MAX_QUERY_WORDS {
            tokens.len()
        } else {
            MAX_QUERY_WORDS as nat
        },
        |i: int| tokens[i].word,
    )
}

/// The matches of a query in an index: those of its words, in the attributes
/// that the query allows.
pub open spec fn search_matches(snapshot: Snapshot, query: Query) -> Seq<RawMatch> {
    let words = query_words(query.query@, stop_words_of(snapshot.config));
    let raw = query_matches(snapshot.entries, words, words.len() as int);
    match query.restrict_searchable_attributes {
        Some(names) => restricted(raw, attributes_named(snapshot.schema, names@)),
        None => raw,
    }
}

/// The value by which documents are told apart where the settings name a
/// distinct field: the stored value of that field.
pub open spec fn distinct_key(snapshot: Snapshot, id: DocumentId) -> Option<Seq<u8>> {
    match snapshot.config.distinct_field {
        Some(field) => stored_field(snapshot, field@, id),
        None => None,
    }
}

/// Whether the document at a place of the ranking is kept for its distinct
/// value: it has none, or no document before it has the same.
pub open spec fn accepted(snapshot: Snapshot, ranked: Seq<DocumentMatchView>, i: int) -> bool {
    distinct_key(snapshot, ranked[i].id) is None || forall|j: int|
        0 <= j < i ==> distinct_key(snapshot, (#[trigger] ranked[j]).id) != distinct_key(
            snapshot,
            ranked[i].id,
        )
}

/// Whether a document can be retrieved: the store holds an attribute of it,
/// and every value that the store holds of it is text.
pub open spec fn retrievable(snapshot: Snapshot, id: DocumentId) -> bool {
    stored_hits(snapshot, id, snapshot.schema.attrs.len() as int) matches Some(hits) && hits.len()
        > 0
}

/// Whether the document at a place of the ranking gives a hit: it is kept
/// for its distinct value and can be retrieved.
pub open spec fn kept(snapshot: Snapshot, ranked: Seq<DocumentMatchView>, i: int) -> bool {
    accepted(snapshot, ranked, i) && retrievable(snapshot, ranked[i].id)
}

/// The documents that give a hit among the first `k` of the ranking.
pub open spec fn kept_up_to(snapshot: Snapshot, ranked: Seq<DocumentMatchView>, k: int) -> Seq<
    DocumentMatchView,
>
    decreases k,
{
    if k <= 0 {
        Seq::empty()
    } else if kept(snapshot, ranked, k - 1) {
        kept_up_to(snapshot, ranked, k - 1).push(ranked[k - 1])
    } else {
        kept_up_to(snapshot, ranked, k - 1)
    }
}

/// The part of a sequence from `offset` on, at most `length` long.
pub open spec fn window<T>(all: Seq<T>, offset: int, length: int) -> Seq<T> {
    let from = if offset <= all.len() {
        offset
    } else {
        all.len() as int
    };
    let to = if offset + length <= all.len() {
        offset + length
    } else {
        all.len() as int
    };
    all.subrange(from, to)
}

/// The documents of the page that a query asks for: of the documents that
/// give a hit, in ranked order, those from the offset on, as many as asked
/// for. A document that is left out for its distinct value, or cannot be
/// retrieved, takes no place of the page.
pub open spec fn page_of(
    snapshot: Snapshot,
    ranked: Seq<DocumentMatchView>,
    offset: int,
    length: int,
) -> Seq<DocumentMatchView> {
    window(kept_up_to(snapshot, ranked, ranked.len() as int), offset, length)
}

/// The stored attributes of a document, among the first `k` attributes of
/// the schema, in their order; none where a stored value is no UTF-8.
pub open spec fn stored_hits(snapshot: Snapshot, id: DocumentId, k: int) -> Option<Seq<HitView>>
    decreases k,
{
    if k <= 0 {
        Some(Seq::empty())
    } else {
        match stored_hits(snapshot, id, k - 1) {
            None => None,
            Some(hits) => {
                let key = DocumentKeyAttr { document: id, attribute: SchemaAttr((k - 1) as u16) };
                if snapshot.state.documents.dom().contains(key) {
                    if vstd::utf8::valid_utf8(snapshot.state.documents[key]) {
                        Some(
                            hits.push(
                                HitView {
                                    name: snapshot.schema.attrs[k - 1].name@,
                                    value: vstd::utf8::decode_utf8(snapshot.state.documents[key]),
                                },
                            ),
                        )
                    } else {
                        None
                    }
                } else {
                    Some(hits)
                }
            },
        }
    }
}

/// The context of a crop: the length asked for, at most the widest context.
pub open spec fn context_of(field: CroppedField) -> int {
    if field.length <= MAX_CONTEXT {
        field.length as int
    } else {
        MAX_CONTEXT as int
    }
}

/// What the first `k` crops do to the attributes and matches of a hit:
/// each crop works on what the crops before it left, also where it names
/// the field of an earlier crop.
pub open spec fn crops_effect(
    hits: Seq<HitView>,
    matches: Seq<crate::criterion::Match>,
    schema: SchemaView,
    fields: Seq<CroppedField>,
    k: int,
) -> (Seq<HitView>, Seq<crate::criterion::Match>)
    decreases k,
{
    if k <= 0 {
        (hits, matches)
    } else {
        let before = crops_effect(hits, matches, schema, fields, k - 1);
        crop_effect(
            before.0,
            sorted_by_position(before.1),
            schema,
            fields[k - 1].name@,
            context_of(fields[k - 1]),
        )
    }
}

/// The places of the matches by the names of their attributes; a match in
/// an attribute that the schema does not have is left out.
pub open spec fn readable(schema: SchemaView, matches: Seq<crate::criterion::Match>) -> Seq<
    MatchView,
>
    decreases matches.len(),
{
    if matches.len() == 0 {
        Seq::empty()
    } else if matches.last().attribute < schema.attrs.len() {
        readable(schema, matches.drop_last()).push(
            MatchView {
                attribute: schema.attrs[matches.last().attribute as int].name@,
                start: matches.last().char_index,
                length: matches.last().char_length,
            },
        )
    } else {
        readable(schema, matches.drop_last())
    }
}

/// Whether a list of names holds a name.
pub open spec fn names_hold(names: Seq<String>, name: Seq<char>) -> bool {
    exists|i: int| 0 <= i < names.len() && (#[trigger] names[i])@ == name
}

/// The attributes whose names are among the names given.
pub open spec fn retrieved_hits(hits: Seq<HitView>, names: Seq<String>) -> Seq<HitView>
    decreases hits.len(),
{
    if hits.len() == 0 {
        hits
    } else if names_hold(names, hits.last().name) {
        retrieved_hits(hits.drop_last(), names).push(hits.last())
    } else {
        retrieved_hits(hits.drop_last(), names)
    }
}

/// The places that lie in attributes whose names are among the names given.
pub open spec fn retrieved_matches(matches: Seq<MatchView>, names: Seq<String>) -> Seq<MatchView>
    decreases matches.len(),
{
    if matches.len() == 0 {
        matches
    } else if names_hold(names, matches.last().attribute) {
        retrieved_matches(matches.drop_last(), names).push(matches.last())
    } else {
        retrieved_matches(matches.drop_last(), names)
    }
}

/// What a query returns for a document of its page: the stored attributes of
/// the document and the places of its matches, cropped and restricted as the
/// query asks. Nothing where the store holds no attribute of the document,
/// or a stored value of the document is no text: such a document is in no
/// page.
pub open spec fn result_of(snapshot: Snapshot, query: Query, document: DocumentMatchView) -> Option<
    QueryResultView,
> {
    match stored_hits(snapshot, document.id, snapshot.schema.attrs.len() as int) {
        None => None,
        Some(hits) => if hits.len() == 0 {
            None
        } else {
            let cropped = match query.cropped_fields {
                Some(fields) => crops_effect(
                    hits,
                    document.matches,
                    snapshot.schema,
                    fields@,
                    fields@.len() as int,
                ),
                None => (hits, document.matches),
            };
            let places = readable(snapshot.schema, cropped.1);
            match query.attributes_to_retrieve {
                Some(names) => Some(
                    QueryResultView {
                        hits: retrieved_hits(cropped.0, names@),
                        matches: retrieved_matches(places, names@),
                    },
                ),
                None => Some(QueryResultView { hits: cropped.0, matches: places }),
            }
        },
    }
}

/// What a query returns for the first `k` documents of its page.
pub open spec fn results_of(
    snapshot: Snapshot,
    query: Query,
    page: Seq<DocumentMatchView>,
    k: int,
) -> Seq<QueryResultView>
    decreases k,
{
    if k <= 0 {
        Seq::empty()
    } else {
        match result_of(snapshot, query, page[k - 1]) {
            Some(result) => results_of(snapshot, query, page, k - 1).push(result),
            None => results_of(snapshot, query, page, k - 1),
        }
    }
}

/// `ranked` is the ranking of the candidates of a query: the documents that
/// match it, sorted by the criteria of the index.
pub open spec fn ranking_of(snapshot: Snapshot, query: Query, ranked: Seq<DocumentMatchView>) -> bool {
    &&& ranked_in_order(pipeline_of(snapshot.schema, snapshot.config), snapshot.state.ranked, ranked)
    &&& exists|order: Seq<usize>|
        rearranged(candidates(search_matches(snapshot, query)), order, ranked)
}

/// `results` is what a query returns on an index: the page that it asks for
/// of the ranking of its candidates, each document with its stored
/// attributes and the places of its matches.
pub open spec fn answers(snapshot: Snapshot, query: Query, results: Seq<QueryResultView>) -> bool {
    exists|ranked: Seq<DocumentMatchView>| #[trigger]
        ranking_of(snapshot, query, ranked) && results == results_of(
            snapshot,
            query,
            page_of(snapshot, ranked, offset_of(query), length_of(query)),
            page_of(snapshot, ranked, offset_of(query), length_of(query)).len() as int,
        )
}

/// The matches of a query in an index.
pub fn find_matches(view: &DatabaseView, query: &Query) -> (raw: Vec<RawMatch>)
    ensures
        raw@ == search_matches(view@, *query),
{
    let schema = view.schema();
    let stop_words = view.config().stop_words();
    let tokens = tokenize(query.query.as_str(), &stop_words);
    let ghost views = tokens_of(query.query@, stop_words@);
    let ghost words = query_words(query.query@, stop_words@);
    let n = if tokens.len() <= MAX_QUERY_WORDS {
        tokens.len()
    } else {
        MAX_QUERY_WORDS
    };
    let index = view.index();
    let mut raw: Vec<RawMatch> = Vec::new();
    let mut i: usize = 0;
    proof {
        lemma_tokens_from(query.query@, 0, 0, stop_words@);
        assert(raw@ =~= query_matches(index@, words, 0));
    }
    while i < n
        invariant
            i <= n,
            n == words.len(),
            n <= MAX_QUERY_WORDS,
            n <= tokens.len(),
            views == token_views(tokens@),
            words == query_words(query.query@, stop_words@),
            views == tokens_of(query.query@, stop_words@),
            forall|k: int|
                0 <= k < views.len() ==> crate::tokenizer::kept((#[trigger] views[k]).word, stop_words@),
            raw@ == query_matches(index@, words, i as int),
        decreases n - i,
    {
        proof {
            assert(views[i as int] == tokens@[i as int]@);
            assert(crate::tokenizer::kept(views[i as int].word, stop_words@));
            lemma_utf8_len_bounds(views[i as int].word);
            assert(words[i as int] == tokens@[i as int].word@);
        }
        match_word(index, &tokens[i].word, i as u32, i + 1 == n, &mut raw);
        i = i + 1;
    }
    match &query.restrict_searchable_attributes {
        Some(names) => {
            let allowed = attributes_of(schema, names);
            restrict(&raw, &allowed)
        },
        None => raw,
    }
}

fn same_bytes(a: &Vec<u8>, b: &Vec<u8>) -> (same: bool)
    ensures
        same == (a@ == b@),
{
    if a.len() != b.len() {
        return false;
    }
    let mut i: usize = 0;
    while i < a.len()
        invariant
            i <= a.len(),
            a.len() == b.len(),
            a@.take(i as int) == b@.take(i as int),
        decreases a.len() - i,
    {
        if a[i] != b[i] {
            return false;
        }
        proof {
            assert(a@.take(i + 1) =~= a@.take(i as int).push(a@[i as int]));
            assert(b@.take(i + 1) =~= b@.take(i as int).push(b@[i as int]));
        }
        i = i + 1;
    }
    proof {
        assert(a@ =~= a@.take(i as int));
        assert(b@ =~= b@.take(i as int));
    }
    true
}

fn distinct_value<'a>(view: &'a DatabaseView, id: DocumentId) -> (value: Option<&'a Vec<u8>>)
    ensures
        match value {
            Some(bytes) => distinct_key(view@, id) == Some(bytes@),
            None => distinct_key(view@, id) is None,
        },
{
    match &view.config().distinct_field {
        Some(field) => view.raw_field_by_document_id(field.as_str(), id),
        None => None,
    }
}

/// The documents kept are kept whatever follows them in the ranking.
proof fn lemma_kept_prefix(snapshot: Snapshot, ranked: Seq<DocumentMatchView>, k: int, n: int)
    requires
        0 <= k <= n <= ranked.len(),
    ensures
        kept_up_to(snapshot, ranked, k).len() <= kept_up_to(snapshot, ranked, n).len(),
        kept_up_to(snapshot, ranked, n).take(
            kept_up_to(snapshot, ranked, k).len() as int,
        ) == kept_up_to(snapshot, ranked, k),
        kept_up_to(snapshot, ranked, k).len() <= k,
    decreases n - k,
{
    lemma_kept_len(snapshot, ranked, k);
    if k == n {
        assert(kept_up_to(snapshot, ranked, n).take(
            kept_up_to(snapshot, ranked, k).len() as int,
        ) =~= kept_up_to(snapshot, ranked, k));
    } else {
        lemma_kept_prefix(snapshot, ranked, k, n - 1);
        let a = kept_up_to(snapshot, ranked, k);
        let b = kept_up_to(snapshot, ranked, n - 1);
        let c = kept_up_to(snapshot, ranked, n);
        assert(c.take(a.len() as int) =~= b.take(a.len() as int));
    }
}

proof fn lemma_kept_len(snapshot: Snapshot, ranked: Seq<DocumentMatchView>, k: int)
    requires
        0 <= k,
    ensures
        kept_up_to(snapshot, ranked, k).len() <= k,
    decreases k,
{
    if k > 0 {
        lemma_kept_len(snapshot, ranked, k - 1);
    }
}

/// Whether a document kept before has the distinct value of the document
/// at place `j`.
pub open spec fn covered(
    snapshot: Snapshot,
    docs: Seq<DocumentMatchView>,
    seen: Seq<usize>,
    j: int,
) -> bool {
    exists|s: int|
        0 <= s < seen.len() && distinct_key(snapshot, docs[(#[trigger] seen[s]) as int].id)
            == distinct_key(snapshot, docs[j].id)
}

/// `seen` holds places before `i` of documents with a distinct value, and
/// the distinct value of every document before `i` that has one is the value
/// of a document at one of these places.
pub open spec fn seen_up_to(
    snapshot: Snapshot,
    docs: Seq<DocumentMatchView>,
    seen: Seq<usize>,
    i: int,
) -> bool {
    &&& forall|s: int|
        0 <= s < seen.len() ==> (#[trigger] seen[s]) < i && distinct_key(
            snapshot,
            docs[seen[s] as int].id,
        ) is Some
    &&& forall|j: int|
        0 <= j < i && distinct_key(snapshot, docs[j].id) is Some ==> #[trigger] covered(
            snapshot,
            docs,
            seen,
            j,
        )
}

/// Whether the document at place `i` of the ranking is kept; its place is
/// remembered where it is kept for its distinct value.
fn accept(view: &DatabaseView, ranked: &Vec<DocumentMatch>, seen: &mut Vec<usize>, i: usize) -> (keep:
    bool)
    requires
        i < ranked.len(),
        seen_up_to(view@, document_views(ranked@), old(seen)@, i as int),
    ensures
        keep == accepted(view@, document_views(ranked@), i as int),
        seen_up_to(view@, document_views(ranked@), final(seen)@, i + 1),
{
    let ghost docs = document_views(ranked@);
    let ghost snapshot = view@;
    let ghost seen0 = seen@;
    let document = &ranked[i];
    proof {
        assert(docs[i as int] == document@);
    }
    match distinct_value(view, document.id) {
        None => {
            proof {
                assert forall|j: int|
                    0 <= j < i + 1 && distinct_key(
                        snapshot,
                        docs[j].id,
                    ) is Some implies #[trigger] covered(snapshot, docs, seen@, j) by {
                    assert(covered(snapshot, docs, seen0, j));
                }
            }
            true
        },
        Some(value) => {
            let mut found = false;
            let mut s: usize = 0;
            while s < seen.len() && !found
                invariant
                    s <= seen.len(),
                    i < ranked.len(),
                    seen@ == seen0,
                    docs == document_views(ranked@),
                    snapshot == view@,
                    distinct_key(snapshot, docs[i as int].id) == Some(value@),
                    seen_up_to(snapshot, docs, seen0, i as int),
                    found ==> covered(snapshot, docs, seen0, i as int),
                    !found ==> forall|t: int|
                        0 <= t < s ==> distinct_key(snapshot, docs[(#[trigger] seen0[t]) as int].id)
                            != distinct_key(snapshot, docs[i as int].id),
                decreases seen.len() - s + if found { 0int } else { 1int },
            {
                let place = seen[s];
                let other = &ranked[place];
                proof {
                    assert(seen0[s as int] == place);
                    assert(docs[place as int] == other@);
                }
                match distinct_value(view, other.id) {
                    Some(other_value) => {
                        if same_bytes(value, other_value) {
                            found = true;
                        } else {
                            s = s + 1;
                        }
                    },
                    None => {
                        s = s + 1;
                    },
                }
            }
            proof {
                if found {
                    let t = choose|t: int|
                        0 <= t < seen0.len() && distinct_key(
                            snapshot,
                            docs[(#[trigger] seen0[t]) as int].id,
                        ) == distinct_key(snapshot, docs[i as int].id);
                    assert(seen0[t] < i);
                    assert(distinct_key(snapshot, docs[seen0[t] as int].id) == distinct_key(
                        snapshot,
                        docs[i as int].id,
                    ));
                    assert(!accepted(snapshot, docs, i as int));
                } else {
                    assert forall|j: int| 0 <= j < i implies distinct_key(
                        snapshot,
                        (#[trigger] docs[j]).id,
                    ) != distinct_key(snapshot, docs[i as int].id) by {
                        if distinct_key(snapshot, docs[j].id) is Some {
                            assert(covered(snapshot, docs, seen0, j));
                            let t = choose|t: int|
                                0 <= t < seen0.len() && distinct_key(
                                    snapshot,
                                    docs[(#[trigger] seen0[t]) as int].id,
                                ) == distinct_key(snapshot, docs[j].id);
                            assert(distinct_key(snapshot, docs[seen0[t] as int].id)
                                != distinct_key(snapshot, docs[i as int].id));
                        }
                    }
                }
            }
            if !found {
                seen.push(i);
            }
            proof {
                assert forall|j: int|
                    0 <= j < i + 1 && distinct_key(
                        snapshot,
                        docs[j].id,
                    ) is Some implies #[trigger] covered(snapshot, docs, seen@, j) by {
                    if j < i {
                        assert(covered(snapshot, docs, seen0, j));
                        let t = choose|t: int|
                            0 <= t < seen0.len() && distinct_key(
                                snapshot,
                                docs[(#[trigger] seen0[t]) as int].id,
                            ) == distinct_key(snapshot, docs[j].id);
                        assert(seen@[t] == seen0[t]);
                    } else if found {
                        let t = choose|t: int|
                            0 <= t < seen0.len() && distinct_key(
                                snapshot,
                                docs[(#[trigger] seen0[t]) as int].id,
                            ) == distinct_key(snapshot, docs[i as int].id);
                        assert(seen@[t] == seen0[t]);
                    } else {
                        assert(seen@[seen0.len() as int] == i);
                    }
                }
                assert forall|t: int| 0 <= t < seen@.len() implies (#[trigger] seen@[t]) < i + 1
                    && distinct_key(snapshot, docs[seen@[t] as int].id) is Some by {
                    if t < seen0.len() {
                        assert(seen@[t] == seen0[t]);
                    }
                }
            }
            !found
        },
    }
}

/// A window of a sequence with one more element at its end.
proof fn lemma_window_push<T>(all: Seq<T>, x: T, offset: int, length: int)
    requires
        0 <= offset,
        0 <= length,
        window(all, offset, length).len() < length,
    ensures
        window(all.push(x), offset, length) == if all.len() >= offset {
            window(all, offset, length).push(x)
        } else {
            window(all, offset, length)
        },
{
    if all.len() >= offset {
        assert(window(all.push(x), offset, length) =~= window(all, offset, length).push(x));
    } else {
        assert(window(all.push(x), offset, length) =~= window(all, offset, length));
    }
}

/// A full window does not change with what follows.
proof fn lemma_window_full<T>(part: Seq<T>, all: Seq<T>, offset: int, length: int)
    requires
        0 <= offset,
        0 <= length,
        part.len() <= all.len(),
        all.take(part.len() as int) == part,
        window(part, offset, length).len() == length,
    ensures
        window(all, offset, length) == window(part, offset, length),
{
    assert forall|x: int| 0 <= x < length implies window(all, offset, length)[x] == window(
        part,
        offset,
        length,
    )[x] by {
        assert(all.take(part.len() as int)[offset + x] == all[offset + x]);
    }
    assert(window(all, offset, length) =~= window(part, offset, length));
}

/// The page that a query asks for, of documents in ranked order. A document
/// that is left out for its distinct value, or cannot be retrieved, takes
/// no place of the page.
pub fn take_page(view: &DatabaseView, ranked: &Vec<DocumentMatch>, offset: usize, length: usize) -> (page:
    Vec<DocumentMatch>)
    ensures
        document_views(page@) == page_of(
            view@,
            document_views(ranked@),
            offset as int,
            length as int,
        ),
{
    let ghost docs = document_views(ranked@);
    let ghost snapshot = view@;
    let n = ranked.len();
    let mut page: Vec<DocumentMatch> = Vec::new();
    let mut seen: Vec<usize> = Vec::new();
    let mut count: usize = 0;
    let mut i: usize = 0;
    proof {
        assert(document_views(page@) =~= window(
            kept_up_to(snapshot, docs, 0),
            offset as int,
            length as int,
        ));
    }
    while i < n && page.len() < length
        invariant
            i <= n,
            n == ranked.len(),
            docs == document_views(ranked@),
            snapshot == view@,
            count == kept_up_to(snapshot, docs, i as int).len(),
            count <= i,
            document_views(page@) == window(
                kept_up_to(snapshot, docs, i as int),
                offset as int,
                length as int,
            ),
            seen_up_to(snapshot, docs, seen@, i as int),
        decreases n - i,
    {
        let ghost before = kept_up_to(snapshot, docs, i as int);
        let ghost page0 = document_views(page@);
        let keep = accept(view, ranked, &mut seen, i) && can_retrieve(view, ranked[i].id);
        proof {
            assert(docs[i as int] == ranked@[i as int]@);
        }
        if keep {
            let document = &ranked[i];
            proof {
                assert(docs[i as int] == document@);
                lemma_window_push(before, docs[i as int], offset as int, length as int);
            }
            if count >= offset {
                page.push(DocumentMatch { id: document.id, matches: copy_of(&document.matches) });
                proof {
                    assert(document_views(page@) =~= page0.push(docs[i as int]));
                }
            }
            count = count + 1;
        }
        i = i + 1;
    }
    proof {
        let part = kept_up_to(snapshot, docs, i as int);
        let all = kept_up_to(snapshot, docs, n as int);
        lemma_kept_prefix(snapshot, docs, i as int, n as int);
        if i < n {
            lemma_window_full(part, all, offset as int, length as int);
        }
    }
    page
}

fn names_contain(names: &Vec<String>, name: &str) -> (yes: bool)
    ensures
        yes == names_hold(names@, name@),
{
    let mut i: usize = 0;
    while i < names.len()
        invariant
            i <= names.len(),
            forall|k: int| 0 <= k < i ==> (#[trigger] names[k])@ != name@,
        decreases names.len() - i,
    {
        if same_text(names[i].as_str(), name) {
            return true;
        }
        i = i + 1;
    }
    false
}

/// Whether a document can be retrieved.
fn can_retrieve(view: &DatabaseView, id: DocumentId) -> (yes: bool)
    ensures
        yes == retrievable(view@, id),
{
    match load_hits(view, id) {
        Some(hits) => hits.len() > 0,
        None => false,
    }
}

/// The stored attributes of a document, in the order of the schema; no
/// name occurs twice among them.
fn load_hits(view: &DatabaseView, id: DocumentId) -> (hits: Option<Vec<Hit>>)
    ensures
        match hits {
            Some(h) => stored_hits(view@, id, view@.schema.attrs.len() as int) == Some(hit_views(h@))
                && crate::crop::names_once(hit_views(h@)),
            None => stored_hits(view@, id, view@.schema.attrs.len() as int) is None,
        },
{
    let schema = view.schema();
    let documents = view.documents();
    let n = schema.len();
    let mut hits: Vec<Hit> = Vec::new();
    let mut k: usize = 0;
    proof {
        assert(hit_views(hits@) =~= Seq::<HitView>::empty());
    }
    while k < n
        invariant
            k <= n,
            n == view@.schema.attrs.len(),
            n <= crate::schema::MAX_ATTRIBUTES,
            schema@ == view@.schema,
            documents@ == view@.state.documents,
            stored_hits(view@, id, k as int) == Some(hit_views(hits@)),
        decreases n - k,
    {
        let attribute = SchemaAttr(k as u16);
        let ghost before = hit_views(hits@);
        match documents.get(DocumentKeyAttr { document: id, attribute }) {
            Some(bytes) => {
                match text_of_bytes(copy_of(bytes)) {
                    Some(value) => {
                        proof {
                            vstd::utf8::encode_utf8_decode_utf8(value@);
                        }
                        let name = schema.attribute_name(attribute).to_owned();
                        hits.push(Hit { name, value });
                        proof {
                            assert(hit_views(hits@) =~= before.push(
                                HitView {
                                    name: view@.schema.attrs[k as int].name@,
                                    value: vstd::utf8::decode_utf8(bytes@),
                                },
                            ));
                        }
                    },
                    None => {
                        proof {
                            lemma_stored_hits_none(view@, id, k + 1, n as int);
                        }
                        return None;
                    },
                }
            },
            None => {},
        }
        k = k + 1;
    }
    proof {
        crate::laws_names::lemma_stored_names(view@, id, n as int);
    }
    Some(hits)
}

/// Once a stored value is no text, the document has no hits.
proof fn lemma_stored_hits_none(snapshot: Snapshot, id: DocumentId, k: int, n: int)
    requires
        0 <= k <= n,
        stored_hits(snapshot, id, k) is None,
    ensures
        stored_hits(snapshot, id, n) is None,
    decreases n - k,
{
    if k < n {
        lemma_stored_hits_none(snapshot, id, k, n - 1);
    }
}

fn readable_matches(schema: &Schema, matches: &Vec<crate::criterion::Match>) -> (places: Vec<Match>)
    ensures
        match_views(places@) == readable(schema@, matches@),
{
    let n = schema.len();
    let mut places: Vec<Match> = Vec::new();
    let mut i: usize = 0;
    proof {
        assert(match_views(places@) =~= readable(schema@, matches@.take(0)));
    }
    while i < matches.len()
        invariant
            i <= matches.len(),
            n == schema@.attrs.len(),
            match_views(places@) == readable(schema@, matches@.take(i as int)),
        decreases matches.len() - i,
    {
        let m = matches[i];
        let ghost before = match_views(places@);
        proof {
            assert(matches@.take(i + 1).drop_last() =~= matches@.take(i as int));
        }
        if (m.attribute as usize) < n {
            let attribute = schema.attribute_name(SchemaAttr::new(m.attribute)).to_owned();
            places.push(Match { attribute, start: m.char_index, length: m.char_length });
            proof {
                assert(match_views(places@) =~= before.push(
                    MatchView {
                        attribute: schema@.attrs[m.attribute as int].name@,
                        start: m.char_index,
                        length: m.char_length,
                    },
                ));
            }
        }
        i = i + 1;
    }
    proof {
        assert(matches@.take(i as int) =~= matches@);
    }
    places
}

fn retrieve_hits(hits: Vec<Hit>, names: &Vec<String>) -> (kept: Vec<Hit>)
    ensures
        hit_views(kept@) == retrieved_hits(hit_views(hits@), names@),
{
    let ghost all = hit_views(hits@);
    let mut kept: Vec<Hit> = Vec::new();
    let mut i: usize = 0;
    proof {
        assert(hit_views(kept@) =~= retrieved_hits(all.take(0), names@));
    }
    while i < hits.len()
        invariant
            i <= hits.len(),
            all == hit_views(hits@),
            hit_views(kept@) == retrieved_hits(all.take(i as int), names@),
        decreases hits.len() - i,
    {
        let ghost before = hit_views(kept@);
        proof {
            assert(all.take(i + 1).drop_last() =~= all.take(i as int));
            assert(all.take(i + 1).last() == hits@[i as int]@);
        }
        if names_contain(names, hits[i].name.as_str()) {
            kept.push(Hit { name: hits[i].name.clone(), value: hits[i].value.clone() });
            proof {
                assert(hit_views(kept@) =~= before.push(hits@[i as int]@));
            }
        }
        i = i + 1;
    }
    proof {
        assert(all.take(i as int) =~= all);
    }
    kept
}

fn retrieve_matches(matches: Vec<Match>, names: &Vec<String>) -> (kept: Vec<Match>)
    ensures
        match_views(kept@) == retrieved_matches(match_views(matches@), names@),
{
    let ghost all = match_views(matches@);
    let mut kept: Vec<Match> = Vec::new();
    let mut i: usize = 0;
    proof {
        assert(match_views(kept@) =~= retrieved_matches(all.take(0), names@));
    }
    while i < matches.len()
        invariant
            i <= matches.len(),
            all == match_views(matches@),
            match_views(kept@) == retrieved_matches(all.take(i as int), names@),
        decreases matches.len() - i,
    {
        let ghost before = match_views(kept@);
        proof {
            assert(all.take(i + 1).drop_last() =~= all.take(i as int));
            assert(all.take(i + 1).last() == matches@[i as int]@);
        }
        if names_contain(names, matches[i].attribute.as_str()) {
            kept.push(
                Match {
                    attribute: matches[i].attribute.clone(),
                    start: matches[i].start,
                    length: matches[i].length,
                },
            );
            proof {
                assert(match_views(kept@) =~= before.push(matches@[i as int]@));
            }
        }
        i = i + 1;
    }
    proof {
        assert(all.take(i as int) =~= all);
    }
    kept
}

/// What a query returns for one document of its page.
pub fn materialize(view: &DatabaseView, query: &Query, document: &DocumentMatch) -> (result: Option<
    QueryResult,
>)
    ensures
        match result {
            Some(r) => result_of(view@, *query, document@) == Some(r@) && crate::crop::names_once(
                r@.hits,
            ),
            None => result_of(view@, *query, document@) is None,
        },
{
    let schema = view.schema();
    proof {
        crate::laws_names::lemma_result_names(view@, *query, document@);
    }
    let mut hits = match load_hits(view, document.id) {
        Some(hits) => hits,
        None => {
            return None;
        },
    };
    if hits.len() == 0 {
        return None;
    }
    let mut matches = copy_of(&document.matches);
    match &query.cropped_fields {
        Some(fields) => {
            let ghost hits0 = hit_views(hits@);
            let mut k: usize = 0;
            while k < fields.len()
                invariant
                    k <= fields.len(),
                    (hit_views(hits@), matches@) == crops_effect(
                        hits0,
                        document.matches@,
                        schema@,
                        fields@,
                        k as int,
                    ),
                decreases fields.len() - k,
            {
                let context = if fields[k].length <= MAX_CONTEXT {
                    fields[k].length
                } else {
                    MAX_CONTEXT
                };
                crop_document(&mut hits, &mut matches, schema, fields[k].name.as_str(), context);
                k = k + 1;
            }
        },
        None => {},
    }
    let places = readable_matches(schema, &matches);
    match &query.attributes_to_retrieve {
        Some(names) => Some(
            QueryResult {
                hits: retrieve_hits(hits, names),
                matches: retrieve_matches(places, names),
            },
        ),
        None => Some(QueryResult { hits, matches: places }),
    }
}

/// The page that a query asks for: the documents that match it are ranked
/// by the criteria of the index, and the page is taken of the ranking.
fn ranked_page(view: &DatabaseView, query: &Query, candidates: &Vec<DocumentMatch>, length: usize) -> (page:
    Vec<DocumentMatch>)
    requires
        document_views(candidates@) == crate::matching::candidates(search_matches(view@, *query)),
        length == length_of(*query),
    ensures
        exists|ranked: Seq<DocumentMatchView>| #[trigger]
            ranking_of(view@, *query, ranked) && document_views(page@) == page_of(
                view@,
                ranked,
                offset_of(*query),
                length_of(*query),
            ),
{
    let offset = match query.offset {
        Some(offset) => offset,
        None => 0,
    };
    let pipeline = view.config().pipeline(view.schema());
    let ranked = rank_documents(candidates, &pipeline, view.ranked_map());
    let page = take_page(view, &ranked, offset, length);
    proof {
        assert(ranking_of(view@, *query, document_views(ranked@)));
    }
    page
}

/// What a query returns for the documents of its page.
fn materialize_page(view: &DatabaseView, query: &Query, page: &Vec<DocumentMatch>) -> (results: Vec<
    QueryResult,
>)
    ensures
        result_views(results@) == results_of(
            view@,
            *query,
            document_views(page@),
            page.len() as int,
        ),
        hits_named_once(result_views(results@)),
{
    let ghost pages = document_views(page@);
    let schema = view.schema();
    proof {
        crate::laws_names::lemma_results_names(view@, *query, pages, page.len() as int);
    }
    let mut results: Vec<QueryResult> = Vec::new();
    let mut k: usize = 0;
    proof {
        assert(result_views(results@) =~= results_of(view@, *query, pages, 0));
    }
    while k < page.len()
        invariant
            k <= page.len(),
            pages == document_views(page@),
            result_views(results@) == results_of(view@, *query, pages, k as int),
        decreases page.len() - k,
    {
        let ghost before = result_views(results@);
        proof {
            assert(pages[k as int] == page@[k as int]@);
        }
        match materialize(view, query, &page[k]) {
            Some(result) => {
                let ghost r = result@;
                results.push(result);
                proof {
                    assert(result_views(results@) =~= before.push(r));
                }
            },
            None => {},
        }
        k = k + 1;
    }
    results
}

/// Answers a query on one index: the documents that match are ranked by the
/// criteria of the index, and the page asked for is returned with the stored
/// attributes of its documents.
pub fn search_in(view: &DatabaseView, query: &Query) -> (res: Result<Vec<QueryResult>, QueryError>)
    ensures
        length_of(*query) > MAX_LENGTH ==> res == Err::<Vec<QueryResult>, QueryError>(
            QueryError::InvalidLimit,
        ),
        length_of(*query) <= MAX_LENGTH ==> (res matches Ok(results) && answers(
            view@,
            *query,
            result_views(results@),
        )),
        res matches Ok(results) ==> hits_named_once(result_views(results@)),
{
    let length = match query.length {
        Some(length) => length,
        None => DEFAULT_LENGTH,
    };
    if length > MAX_LENGTH {
        return Err(QueryError::InvalidLimit);
    }
    let raw = find_matches(view, query);
    let candidates = group(&raw);
    let page = ranked_page(view, query, &candidates, length);
    Ok(materialize_page(view, query, &page))
}

/// Answers a query that can be cancelled from outside, by setting the flag
/// `cancelled`. The flag is looked at twice: before the documents that
/// match are ranked, and once the page is taken. A query that is found
/// cancelled answers so; one that is not answers as `search_in` does.
pub fn search_in_until(
    view: &DatabaseView,
    query: &Query,
    cancelled: &std::sync::atomic::AtomicBool,
) -> (res: Result<Vec<QueryResult>, QueryError>)
    ensures
        length_of(*query) > MAX_LENGTH ==> res == Err::<Vec<QueryResult>, QueryError>(
            QueryError::InvalidLimit,
        ),
        length_of(*query) <= MAX_LENGTH ==> match res {
            Ok(results) => answers(view@, *query, result_views(results@)),
            Err(e) => e == QueryError::Cancelled,
        },
        res matches Ok(results) ==> hits_named_once(result_views(results@)),
{
    let length = match query.length {
        Some(length) => length,
        None => DEFAULT_LENGTH,
    };
    if length > MAX_LENGTH {
        return Err(QueryError::InvalidLimit);
    }
    let raw = find_matches(view, query);
    let candidates = group(&raw);
    match crate::cancel::checkpoint(cancelled) {
        Ok(_) => {},
        Err(e) => {
            return Err(e);
        },
    }
    let page = ranked_page(view, query, &candidates, length);
    match crate::cancel::checkpoint(cancelled) {
        Ok(_) => {},
        Err(e) => {
            return Err(e);
        },
    }
    Ok(materialize_page(view, query, &page))
}

/// Answers a query on the index of the given name.
pub fn search(index: String, query: Query, db: &Database) -> (res: Result<
    Vec<QueryResult>,
    QueryError,
>)
    ensures
        !has_index(db@, index@) ==> res == Err::<Vec<QueryResult>, QueryError>(
            QueryError::UnknownIndex,
        ),
        has_index(db@, index@) && length_of(query) > MAX_LENGTH ==> res == Err::<
            Vec<QueryResult>,
            QueryError,
        >(QueryError::InvalidLimit),
        has_index(db@, index@) && length_of(query) <= MAX_LENGTH ==> (res matches Ok(results)
            && answers(db@[index_place(db@, index@)].view@, query, result_views(results@))),
        res matches Ok(results) ==> hits_named_once(result_views(results@)),
{
    match db.view_of(index.as_str()) {
        Some(view) => search_in(view, &query),
        None => Err(QueryError::UnknownIndex),
    }
}

/// Answers a query on the index of the given name; the query can be
/// cancelled from outside, by setting the flag `cancelled`.
pub fn search_until(
    index: String,
    query: Query,
    db: &Database,
    cancelled: &std::sync::atomic::AtomicBool,
) -> (res: Result<Vec<QueryResult>, QueryError>)
    ensures
        !has_index(db@, index@) ==> res == Err::<Vec<QueryResult>, QueryError>(
            QueryError::UnknownIndex,
        ),
        has_index(db@, index@) && length_of(query) > MAX_LENGTH ==> res == Err::<
            Vec<QueryResult>,
            QueryError,
        >(QueryError::InvalidLimit),
        has_index(db@, index@) && length_of(query) <= MAX_LENGTH ==> match res {
            Ok(results) => answers(db@[index_place(db@, index@)].view@, query, result_views(results@)),
            Err(e) => e == QueryError::Cancelled,
        },
        res matches Ok(results) ==> hits_named_once(result_views(results@)),
{
    match db.view_of(index.as_str()) {
        Some(view) => search_in_until(view, &query, cancelled),
        None => Err(QueryError::UnknownIndex),
    }
}

} // verus!
