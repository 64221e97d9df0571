use vstd::prelude::*;
use crate::index::has_word;
use crate::index::index_wf;
use crate::index::lemma_postings_of_entry;
use crate::index::merged_postings;
use crate::index::postings_of;
use crate::index::without_documents;
use crate::index::EntryView;
use crate::sorted::ascending;
use crate::sorted::lemma_ascending_unique;
use crate::sorted::lemma_push_contains;
use crate::sorted::Keyed;
use crate::types::DocIndex;
use crate::types::DocumentId;

verus! {

/// What an index holds, word by word: the postings of each word that has some.
pub open spec fn index_map(entries: Seq<EntryView>) -> Map<Seq<char>, Seq<DocIndex>> {
    Map::new(|w: Seq<char>| has_word(entries, w), |w: Seq<char>| postings_of(entries, w))
}

/// The postings of a word in a map: none where the map does not hold the word.
pub open spec fn postings_in(map: Map<Seq<char>, Seq<DocIndex>>, word: Seq<char>) -> Seq<DocIndex> {
    if map.dom().contains(word) {
        map[word]
    } else {
        Seq::empty()
    }
}

/// The ascending sequence of the postings that occur in one of two ascending
/// sequences.
pub open spec fn union_of(p: Seq<DocIndex>, q: Seq<DocIndex>) -> Seq<DocIndex>
    decreases p.len() + q.len(),
{
    if p.len() == 0 {
        q
    } else if q.len() == 0 {
        p
    } else if p.last().key() > q.last().key() {
        union_of(p.drop_last(), q).push(p.last())
    } else if p.last().key() < q.last().key() {
        union_of(p, q.drop_last()).push(q.last())
    } else {
        union_of(p.drop_last(), q.drop_last()).push(p.last())
    }
}

/// What two indexes hold together: for each word, the postings that either holds.
pub open spec fn merged_map(
    a: Map<Seq<char>, Seq<DocIndex>>,
    b: Map<Seq<char>, Seq<DocIndex>>,
) -> Map<Seq<char>, Seq<DocIndex>> {
    Map::new(
        |w: Seq<char>| a.dom().contains(w) || b.dom().contains(w),
        |w: Seq<char>| union_of(postings_in(a, w), postings_in(b, w)),
    )
}

/// What an index holds once the documents of `ids` are gone: a word that
/// loses all its postings is gone too.
pub open spec fn removed_map(a: Map<Seq<char>, Seq<DocIndex>>, ids: Seq<DocumentId>) -> Map<
    Seq<char>,
    Seq<DocIndex>,
> {
    Map::new(
        |w: Seq<char>| a.dom().contains(w) && without_documents(a[w], ids).len() > 0,
        |w: Seq<char>| without_documents(a[w], ids),
    )
}

/// Every word of a map has postings, and they are ascending.
pub open spec fn map_wf(map: Map<Seq<char>, Seq<DocIndex>>) -> bool {
    forall|w: Seq<char>| map.dom().contains(w) ==> (#[trigger] map[w]).len() > 0 && ascending(map[w])
}

/// An ascending sequence stays ascending without its last posting, and what
/// is left lies below that posting.
proof fn lemma_ascending_drop_last(p: Seq<DocIndex>)
    requires
        ascending(p),
        p.len() > 0,
    ensures
        ascending(p.drop_last()),
        forall|i: int| 0 <= i < p.len() - 1 ==> (#[trigger] p.drop_last()[i]).key() < p.last().key(),
{
    let d = p.drop_last();
    assert forall|i: int, j: int| 0 <= i < j < d.len() implies (#[trigger] d[i]).key() < (
    #[trigger] d[j]).key() by {
        assert(p[i].key() < p[j].key());
    }
    assert forall|i: int| 0 <= i < p.len() - 1 implies (#[trigger] d[i]).key() < p.last().key() by {
        assert(p[i].key() < p[p.len() - 1].key());
    }
}

/// The union of two ascending sequences is ascending and holds what they hold.
pub proof fn lemma_union_of(p: Seq<DocIndex>, q: Seq<DocIndex>)
    requires
        ascending(p),
        ascending(q),
    ensures
        merged_postings(union_of(p, q), p, q),
    decreases p.len() + q.len(),
{
    let u = union_of(p, q);
    if p.len() == 0 {
        assert forall|x: DocIndex| u.contains(x) <==> p.contains(x) || q.contains(x) by {}
    } else if q.len() == 0 {
        assert forall|x: DocIndex| u.contains(x) <==> p.contains(x) || q.contains(x) by {}
    } else {
        lemma_ascending_drop_last(p);
        lemma_ascending_drop_last(q);
        let (p0, q0, last) = if p.last().key() > q.last().key() {
            (p.drop_last(), q, p.last())
        } else if p.last().key() < q.last().key() {
            (p, q.drop_last(), q.last())
        } else {
            (p.drop_last(), q.drop_last(), p.last())
        };
        let u0 = union_of(p0, q0);
        lemma_union_of(p0, q0);
        assert(u == u0.push(last));
        if p.last().key() == q.last().key() {
            DocIndex::key_identifies(p.last(), q.last());
        }
        assert(p =~= p.drop_last().push(p.last()));
        assert(q =~= q.drop_last().push(q.last()));
        // everything merged so far lies below the posting put last
        assert forall|i: int| 0 <= i < u0.len() implies (#[trigger] u0[i]).key() < last.key() by {
            assert(u0.contains(u0[i]));
            if p0.contains(u0[i]) {
                let k = choose|k: int| 0 <= k < p0.len() && p0[k] == u0[i];
                if p0.len() == p.len() {
                    if k < p.len() - 1 {
                        assert(p[k].key() < p[p.len() - 1].key());
                    }
                } else {
                    assert(p.drop_last()[k].key() < p.last().key());
                }
            } else {
                let k = choose|k: int| 0 <= k < q0.len() && q0[k] == u0[i];
                if q0.len() == q.len() {
                    if k < q.len() - 1 {
                        assert(q[k].key() < q[q.len() - 1].key());
                    }
                } else {
                    assert(q.drop_last()[k].key() < q.last().key());
                }
            }
        }
        assert forall|i: int, j: int| 0 <= i < j < u.len() implies (#[trigger] u[i]).key() < (
        #[trigger] u[j]).key() by {
            if j < u0.len() {
                assert(u0[i].key() < u0[j].key());
            } else {
                assert(u0[i].key() < last.key());
            }
        }
        assert forall|x: DocIndex| u.contains(x) <==> p.contains(x) || q.contains(x) by {
            lemma_push_contains(u0, last, x);
            lemma_push_contains(p.drop_last(), p.last(), x);
            lemma_push_contains(q.drop_last(), q.last(), x);
        }
    }
}

/// An index holds a word exactly where it has postings for it.
pub proof fn lemma_index_map_wf(entries: Seq<EntryView>)
    requires
        index_wf(entries),
    ensures
        map_wf(index_map(entries)),
        forall|w: Seq<char>| has_word(entries, w) <==> (#[trigger] postings_of(entries, w)).len() > 0,
        forall|w: Seq<char>| ascending(#[trigger] postings_of(entries, w)),
        forall|w: Seq<char>| #[trigger] postings_in(index_map(entries), w) == postings_of(entries, w),
{
    assert forall|w: Seq<char>| has_word(entries, w) implies (#[trigger] postings_of(
        entries,
        w,
    )).len() > 0 && ascending(postings_of(entries, w)) by {
        let i = choose|i: int| 0 <= i < entries.len() && (#[trigger] entries[i]).word == w;
        lemma_postings_of_entry(entries, i);
    }
}

/// The index that a merge makes holds what the two indexes hold together.
pub proof fn lemma_merge_map(a: Seq<EntryView>, b: Seq<EntryView>, r: Seq<EntryView>)
    requires
        index_wf(a),
        index_wf(b),
        index_wf(r),
        forall|w: Seq<char>|
            merged_postings(#[trigger] postings_of(r, w), postings_of(a, w), postings_of(b, w)),
    ensures
        index_map(r) == merged_map(index_map(a), index_map(b)),
{
    lemma_index_map_wf(a);
    lemma_index_map_wf(b);
    lemma_index_map_wf(r);
    let m = merged_map(index_map(a), index_map(b));
    assert forall|w: Seq<char>| index_map(r).dom().contains(w) <==> m.dom().contains(w) by {
        let pr = postings_of(r, w);
        let pa = postings_of(a, w);
        let pb = postings_of(b, w);
        assert(merged_postings(pr, pa, pb));
        if pr.len() > 0 {
            assert(pr.contains(pr[0]));
        }
        if pa.len() > 0 {
            assert(pa.contains(pa[0]));
            assert(pr.contains(pa[0]));
        }
        if pb.len() > 0 {
            assert(pb.contains(pb[0]));
            assert(pr.contains(pb[0]));
        }
    }
    assert forall|w: Seq<char>| index_map(r).dom().contains(w) implies index_map(r)[w] == m[w] by {
        let pr = postings_of(r, w);
        let pa = postings_of(a, w);
        let pb = postings_of(b, w);
        assert(merged_postings(pr, pa, pb));
        lemma_union_of(pa, pb);
        assert(postings_in(index_map(a), w) == pa);
        assert(postings_in(index_map(b), w) == pb);
        lemma_ascending_unique(pr, union_of(pa, pb));
    }
    assert(index_map(r) =~= m);
}

/// The index that a removal makes holds what is left of the index.
pub proof fn lemma_remove_map(a: Seq<EntryView>, ids: Seq<DocumentId>, r: Seq<EntryView>)
    requires
        index_wf(a),
        index_wf(r),
        forall|w: Seq<char>| #[trigger] postings_of(r, w) == without_documents(postings_of(a, w), ids),
    ensures
        index_map(r) == removed_map(index_map(a), ids),
{
    lemma_index_map_wf(a);
    lemma_index_map_wf(r);
    let m = removed_map(index_map(a), ids);
    assert forall|w: Seq<char>| index_map(r).dom().contains(w) <==> m.dom().contains(w) by {
        assert(postings_of(r, w) == without_documents(postings_of(a, w), ids));
        assert(postings_in(index_map(a), w) == postings_of(a, w));
    }
    assert forall|w: Seq<char>| index_map(r).dom().contains(w) implies index_map(r)[w] == m[w] by {
        assert(postings_of(r, w) == without_documents(postings_of(a, w), ids));
        assert(postings_in(index_map(a), w) == postings_of(a, w));
    }
    assert(index_map(r) =~= m);
}

} // verus!
