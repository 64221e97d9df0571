use vstd::prelude::*;
use crate::criterion::Match;
use crate::crop::crop_effect;
use crate::crop::names_once;
use crate::crop::HitView;
use crate::database::Snapshot;
use crate::query::answers;
use crate::query::crops_effect;
use crate::query::page_of;
use crate::query::result_of;
use crate::query::results_of;
use crate::query::retrieved_hits;
use crate::query::stored_hits;
use crate::query::CroppedField;
use crate::query::Query;
use crate::query::QueryResultView;
use crate::rank::DocumentMatchView;
use crate::schema::SchemaView;
use crate::types::DocumentId;

verus! {

/// Whether one of the first `k` attributes of the schema has the name.
pub open spec fn declared_before(schema: SchemaView, name: Seq<char>, k: int) -> bool {
    exists|a: int| 0 <= a < k && (#[trigger] schema.attrs[a]).name@ == name
}

/// The stored attributes of a document are attributes of the schema, each
/// at most once.
pub proof fn lemma_stored_names(snapshot: Snapshot, id: DocumentId, k: int)
    requires
        snapshot.schema.wf(),
        0 <= k <= snapshot.schema.attrs.len(),
        stored_hits(snapshot, id, k) is Some,
    ensures
        names_once(stored_hits(snapshot, id, k)->0),
        forall|i: int|
            0 <= i < stored_hits(snapshot, id, k)->0.len() ==> declared_before(
                snapshot.schema,
                (#[trigger] stored_hits(snapshot, id, k)->0[i]).name,
                k,
            ),
    decreases k,
{
    if k > 0 {
        let before = stored_hits(snapshot, id, k - 1)->0;
        let all = stored_hits(snapshot, id, k)->0;
        lemma_stored_names(snapshot, id, k - 1);
        assert forall|i: int| 0 <= i < all.len() implies declared_before(
            snapshot.schema,
            (#[trigger] all[i]).name,
            k,
        ) by {
            if i < before.len() {
                assert(all[i] == before[i]);
                assert(declared_before(snapshot.schema, before[i].name, k - 1));
                let a = choose|a: int|
                    0 <= a < k - 1 && (#[trigger] snapshot.schema.attrs[a]).name@ == before[i].name;
                assert(snapshot.schema.attrs[a].name@ == all[i].name);
            } else {
                assert(snapshot.schema.attrs[k - 1].name@ == all[i].name);
            }
        }
        assert forall|i: int, j: int| 0 <= i < j < all.len() implies (#[trigger] all[i]).name != (
        #[trigger] all[j]).name by {
            if j < before.len() {
                assert(all[i] == before[i] && all[j] == before[j]);
            } else {
                assert(all[i] == before[i]);
                assert(declared_before(snapshot.schema, before[i].name, k - 1));
                let a = choose|a: int|
                    0 <= a < k - 1 && (#[trigger] snapshot.schema.attrs[a]).name@ == before[i].name;
                assert(snapshot.schema.attrs[a].name@ != snapshot.schema.attrs[k - 1].name@);
            }
        }
    }
}

/// Whether an attribute is the first of its name.
spec fn first_named(hits: Seq<HitView>, name: Seq<char>, i: int) -> bool {
    0 <= i < hits.len() && hits[i].name == name && forall|k: int|
        0 <= k < i ==> (#[trigger] hits[k]).name != name
}

/// Where an attribute has a name, one is the first of that name.
proof fn lemma_first_named(hits: Seq<HitView>, name: Seq<char>, k: int)
    requires
        0 <= k < hits.len(),
        hits[k].name == name,
    ensures
        exists|i: int| first_named(hits, name, i),
    decreases k,
{
    if exists|j: int| 0 <= j < k && (#[trigger] hits[j]).name == name {
        let j = choose|j: int| 0 <= j < k && (#[trigger] hits[j]).name == name;
        lemma_first_named(hits, name, j);
    } else {
        assert(first_named(hits, name, k));
    }
}

/// Crops change the values of the stored attributes, not their names.
proof fn lemma_crops_names(
    hits: Seq<HitView>,
    matches: Seq<Match>,
    schema: SchemaView,
    fields: Seq<CroppedField>,
    k: int,
)
    requires
        0 <= k <= fields.len(),
    ensures
        crops_effect(hits, matches, schema, fields, k).0.len() == hits.len(),
        forall|i: int|
            0 <= i < hits.len() ==> (#[trigger] crops_effect(hits, matches, schema, fields, k).0[i]).name
                == hits[i].name,
    decreases k,
{
    if k > 0 {
        lemma_crops_names(hits, matches, schema, fields, k - 1);
        let before = crops_effect(hits, matches, schema, fields, k - 1);
        let field = fields[k - 1].name@;
        let after = crop_effect(
            before.0,
            crate::crop::sorted_by_position(before.1),
            schema,
            field,
            crate::query::context_of(fields[k - 1]),
        );
        assert(crops_effect(hits, matches, schema, fields, k) == after);
        if crate::schema::declares(schema.attrs, field) && crate::crop::has_hit(before.0, field) {
            let some = choose|x: int| 0 <= x < before.0.len() && (#[trigger] before.0[x]).name == field;
            lemma_first_named(before.0, field, some);
            let first = choose|x: int| first_named(before.0, field, x);
            assert(0 <= first < before.0.len() && (#[trigger] before.0[first]).name == field
                && forall|k: int| 0 <= k < first ==> (#[trigger] before.0[k]).name != field);
            let i = crate::crop::first_hit(before.0, field);
            assert(0 <= i < before.0.len());
            assert(after.0.len() == before.0.len());
            assert forall|x: int| 0 <= x < hits.len() implies (#[trigger] after.0[x]).name
                == hits[x].name by {
                assert(before.0[x].name == hits[x].name);
            }
        } else {
            assert(after.0 == before.0);
        }
    }
}

/// Of attributes that occur once each, those retrieved occur once each.
proof fn lemma_retrieved_names(hits: Seq<HitView>, names: Seq<String>)
    requires
        names_once(hits),
    ensures
        names_once(retrieved_hits(hits, names)),
        forall|x: int|
            0 <= x < retrieved_hits(hits, names).len() ==> hits.contains(
                #[trigger] retrieved_hits(hits, names)[x],
            ),
    decreases hits.len(),
{
    if hits.len() > 0 {
        let h0 = hits.drop_last();
        let before = retrieved_hits(h0, names);
        let all = retrieved_hits(hits, names);
        assert forall|i: int, j: int| 0 <= i < j < h0.len() implies (#[trigger] h0[i]).name != (
        #[trigger] h0[j]).name by {
            assert(h0[i] == hits[i] && h0[j] == hits[j]);
        }
        lemma_retrieved_names(h0, names);
        assert forall|x: int| 0 <= x < all.len() implies hits.contains(#[trigger] all[x]) by {
            if x < before.len() {
                assert(all[x] == before[x]);
                assert(h0.contains(before[x]));
                let y = choose|y: int| 0 <= y < h0.len() && h0[y] == before[x];
                assert(hits[y] == all[x]);
            } else {
                assert(hits[hits.len() - 1] == all[x]);
            }
        }
        assert forall|i: int, j: int| 0 <= i < j < all.len() implies (#[trigger] all[i]).name != (
        #[trigger] all[j]).name by {
            assert(all[i] == before[i]);
            assert(h0.contains(before[i]));
            let y = choose|y: int| 0 <= y < h0.len() && h0[y] == before[i];
            assert(hits[y] == all[i]);
            if j < before.len() {
                assert(all[j] == before[j]);
            } else {
                assert(all[j] == hits[hits.len() - 1]);
                assert(hits[y].name != hits[hits.len() - 1].name);
            }
        }
    }
}

/// No name occurs twice among the stored attributes that a query returns
/// for a document.
pub proof fn lemma_result_names(snapshot: Snapshot, query: Query, document: DocumentMatchView)
    requires
        snapshot.schema.wf(),
    ensures
        result_of(snapshot, query, document) matches Some(result) ==> names_once(result.hits),
{
    let n = snapshot.schema.attrs.len() as int;
    match stored_hits(snapshot, document.id, n) {
        None => {},
        Some(hits) => {
            lemma_stored_names(snapshot, document.id, n);
            let cropped = match query.cropped_fields {
                Some(fields) => crops_effect(
                    hits,
                    document.matches,
                    snapshot.schema,
                    fields@,
                    fields@.len() as int,
                ),
                None => (hits, document.matches),
            };
            match query.cropped_fields {
                Some(fields) => {
                    lemma_crops_names(
                        hits,
                        document.matches,
                        snapshot.schema,
                        fields@,
                        fields@.len() as int,
                    );
                },
                None => {},
            }
            assert(names_once(cropped.0)) by {
                assert forall|i: int, j: int| 0 <= i < j < cropped.0.len() implies (
                #[trigger] cropped.0[i]).name != (#[trigger] cropped.0[j]).name by {
                    assert(hits[i].name != hits[j].name);
                }
            }
            match query.attributes_to_retrieve {
                Some(names) => {
                    lemma_retrieved_names(cropped.0, names@);
                },
                None => {},
            }
        },
    }
}

/// No name occurs twice among the stored attributes of a hit.
pub proof fn lemma_results_names(
    snapshot: Snapshot,
    query: Query,
    page: Seq<DocumentMatchView>,
    k: int,
)
    requires
        snapshot.schema.wf(),
        0 <= k <= page.len(),
    ensures
        forall|i: int|
            0 <= i < results_of(snapshot, query, page, k).len() ==> names_once(
                (#[trigger] results_of(snapshot, query, page, k)[i]).hits,
            ),
    decreases k,
{
    if k > 0 {
        lemma_results_names(snapshot, query, page, k - 1);
        lemma_result_names(snapshot, query, page[k - 1]);
        let before = results_of(snapshot, query, page, k - 1);
        let all = results_of(snapshot, query, page, k);
        assert forall|i: int| 0 <= i < all.len() implies names_once((#[trigger] all[i]).hits) by {
            if i < before.len() {
                assert(all[i] == before[i]);
            }
        }
    }
}

/// No name occurs twice among the stored attributes of a hit of an answer.
pub proof fn lemma_answers_names(snapshot: Snapshot, query: Query, results: Seq<QueryResultView>)
    requires
        snapshot.schema.wf(),
        answers(snapshot, query, results),
    ensures
        forall|i: int| 0 <= i < results.len() ==> names_once((#[trigger] results[i]).hits),
{
    let ranked = choose|ranked: Seq<DocumentMatchView>| #[trigger]
        crate::query::ranking_of(snapshot, query, ranked) && results == results_of(
            snapshot,
            query,
            page_of(snapshot, ranked, crate::query::offset_of(query), crate::query::length_of(query)),
            page_of(
                snapshot,
                ranked,
                crate::query::offset_of(query),
                crate::query::length_of(query),
            ).len() as int,
        );
    let page = page_of(
        snapshot,
        ranked,
        crate::query::offset_of(query),
        crate::query::length_of(query),
    );
    lemma_results_names(snapshot, query, page, page.len() as int);
}

} // verus!
