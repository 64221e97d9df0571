use vstd::prelude::*;
use crate::criterion::criterion_score;
use crate::criterion::score;
use crate::criterion::Criterion;
use crate::criterion::DocumentMatch;
use crate::criterion::Match;
use crate::number::Number;
use crate::ranked_map::RankedMap;
use crate::sorted::copy_of;
use crate::types::DocumentId;

verus! {

/// A candidate document as a plain value.
pub struct DocumentMatchView {
    pub id: DocumentId,
    pub matches: Seq<Match>,
}

impl DocumentMatch {
    /// The candidate as a plain value.
    pub open spec fn view(&self) -> DocumentMatchView {
        DocumentMatchView { id: self.id, matches: self.matches@ }
    }
}

/// The documents of a vector as plain values.
pub open spec fn document_views(documents: Seq<DocumentMatch>) -> Seq<DocumentMatchView> {
    Seq::new(documents.len(), |i: int| documents[i]@)
}

/// The scores by which a document is ranked: one for each criterion of the
/// pipeline, in its order, then the document's identifier to break ties.
pub open spec fn ranking_key(
    pipeline: Seq<Criterion>,
    document: DocumentMatchView,
    ranked: Map<(u64, u16), Number>,
) -> Seq<int> {
    Seq::new(
        pipeline.len(),
        |i: int| score(pipeline[i], document.id, document.matches, ranked),
    ).push(document.id.0 as int)
}

/// The order on keys of one length: the first score that differs decides.
pub open spec fn key_before(a: Seq<int>, b: Seq<int>) -> bool
    decreases a.len(),
{
    if a.len() == 0 || b.len() == 0 {
        false
    } else if a[0] == b[0] {
        key_before(a.drop_first(), b.drop_first())
    } else {
        a[0] < b[0]
    }
}

/// One document is ranked before another: the first criterion that tells
/// them apart prefers it, or no criterion does and its identifier is lower.
pub open spec fn ranked_before(
    pipeline: Seq<Criterion>,
    ranked: Map<(u64, u16), Number>,
    a: DocumentMatchView,
    b: DocumentMatchView,
) -> bool {
    key_before(ranking_key(pipeline, a, ranked), ranking_key(pipeline, b, ranked))
}

/// No key comes before itself.
pub proof fn lemma_key_before_irreflexive(a: Seq<int>)
    ensures
        !key_before(a, a),
    decreases a.len(),
{
    if a.len() > 0 {
        lemma_key_before_irreflexive(a.drop_first());
    }
}

/// Of two different keys of one length, exactly one comes before the other.
pub proof fn lemma_key_before_total(a: Seq<int>, b: Seq<int>)
    requires
        a.len() == b.len(),
    ensures
        a != b ==> (key_before(a, b) <==> !key_before(b, a)),
        a == b ==> !key_before(a, b),
    decreases a.len(),
{
    if a == b {
        lemma_key_before_irreflexive(a);
    } else if a.len() == 0 {
        assert(a =~= b);
    } else if a[0] == b[0] {
        if a.drop_first() == b.drop_first() {
            assert(a =~= seq![a[0]] + a.drop_first());
            assert(b =~= seq![b[0]] + b.drop_first());
        }
        lemma_key_before_total(a.drop_first(), b.drop_first());
    }
}

/// The order on keys is transitive.
pub proof fn lemma_key_before_transitive(a: Seq<int>, b: Seq<int>, c: Seq<int>)
    requires
        key_before(a, b),
        key_before(b, c),
    ensures
        key_before(a, c),
    decreases a.len(),
{
    if a.len() > 0 && a[0] == b[0] && b[0] == c[0] {
        lemma_key_before_transitive(a.drop_first(), b.drop_first(), c.drop_first());
    }
}

/// Where `c` does not come before `b`, nor `b` before `a`, `c` does not come
/// before `a`.
pub proof fn lemma_key_not_before(a: Seq<int>, b: Seq<int>, c: Seq<int>)
    requires
        a.len() == b.len(),
        b.len() == c.len(),
        !key_before(b, a),
        !key_before(c, b),
    ensures
        !key_before(c, a),
{
    lemma_key_before_total(a, b);
    lemma_key_before_total(b, c);
    lemma_key_before_irreflexive(a);
    if key_before(c, a) {
        if a == b {
        } else if b == c {
        } else {
            lemma_key_before_transitive(c, a, b);
        }
    }
}

/// Keys that agree on their first `i` scores are ordered as what follows them is.
proof fn lemma_key_before_skip(a: Seq<int>, b: Seq<int>, i: int)
    requires
        0 <= i <= a.len(),
        i <= b.len(),
        a.take(i) == b.take(i),
    ensures
        key_before(a, b) == key_before(a.skip(i), b.skip(i)),
    decreases i,
{
    if i == 0 {
        assert(a.skip(0) =~= a);
        assert(b.skip(0) =~= b);
    } else {
        assert(a[0] == a.take(i)[0]);
        assert(b[0] == b.take(i)[0]);
        let a1 = a.drop_first();
        let b1 = b.drop_first();
        assert(a1.take(i - 1) =~= a.take(i).drop_first());
        assert(b1.take(i - 1) =~= b.take(i).drop_first());
        lemma_key_before_skip(a1, b1, i - 1);
        assert(a1.skip(i - 1) =~= a.skip(i));
        assert(b1.skip(i - 1) =~= b.skip(i));
    }
}

/// The scores of a key as integers.
pub open spec fn ints(key: Seq<i128>) -> Seq<int> {
    Seq::new(key.len(), |i: int| key[i] as int)
}

/// Whether one key comes before another of the same length.
fn key_less(a: &Vec<i128>, b: &Vec<i128>) -> (less: bool)
    requires
        a.len() == b.len(),
    ensures
        less == key_before(ints(a@), ints(b@)),
{
    let ghost x = ints(a@);
    let ghost y = ints(b@);
    let mut i: usize = 0;
    while i < a.len()
        invariant
            i <= a.len(),
            a.len() == b.len(),
            x == ints(a@),
            y == ints(b@),
            x.take(i as int) == y.take(i as int),
        decreases a.len() - i,
    {
        if a[i] != b[i] {
            proof {
                lemma_key_before_skip(x, y, i as int);
                assert(x.skip(i as int)[0] == a@[i as int]);
                assert(y.skip(i as int)[0] == b@[i as int]);
            }
            return a[i] < b[i];
        }
        proof {
            assert(x.take(i + 1) =~= x.take(i as int).push(x[i as int]));
            assert(y.take(i + 1) =~= y.take(i as int).push(y[i as int]));
        }
        i = i + 1;
    }
    proof {
        lemma_key_before_skip(x, y, i as int);
        assert(x.skip(i as int).len() == 0);
    }
    false
}

/// The key of the document at a place.
pub open spec fn key_at(keys: Seq<Vec<i128>>, i: int) -> Seq<int> {
    ints(keys[i]@)
}

/// The places listed stand in the order of their keys: none before one
/// whose key comes before its own.
pub open spec fn in_order(keys: Seq<Vec<i128>>, order: Seq<usize>) -> bool {
    forall|x: int, y: int|
        0 <= x < y < order.len() ==> !key_before(
            key_at(keys, (#[trigger] order[y]) as int),
            key_at(keys, (#[trigger] order[x]) as int),
        )
}

/// Whether the list holds a place.
pub open spec fn lists_place(order: Seq<usize>, v: int) -> bool {
    exists|x: int| 0 <= x < order.len() && #[trigger] order[x] == v
}

/// The list holds each place from `lo` up to `hi` once, and nothing else.
pub open spec fn covers(order: Seq<usize>, lo: int, hi: int) -> bool {
    &&& order.len() == hi - lo
    &&& forall|x: int| 0 <= x < order.len() ==> lo <= (#[trigger] order[x]) < hi
    &&& forall|x: int, y: int|
        0 <= x < y < order.len() ==> (#[trigger] order[x]) != (#[trigger] order[y])
    &&& forall|v: int| lo <= v < hi ==> #[trigger] lists_place(order, v)
}

fn merge_orders(
    keys: &Vec<Vec<i128>>,
    a: &Vec<usize>,
    b: &Vec<usize>,
    Ghost(lo): Ghost<int>,
    Ghost(mid): Ghost<int>,
    Ghost(hi): Ghost<int>,
    Ghost(width): Ghost<int>,
) -> (out: Vec<usize>)
    requires
        0 <= lo <= mid <= hi <= keys.len(),
        forall|i: int| 0 <= i < keys.len() ==> (#[trigger] keys[i]).len() == width,
        covers(a@, lo, mid),
        covers(b@, mid, hi),
        in_order(keys@, a@),
        in_order(keys@, b@),
    ensures
        covers(out@, lo, hi),
        in_order(keys@, out@),
{
    let mut out: Vec<usize> = Vec::new();
    let mut i: usize = 0;
    let mut j: usize = 0;
    // where each place of `a` and of `b` went, and where each place of `out` came from
    let ghost mut from_a: Seq<int> = Seq::empty();
    let ghost mut from_b: Seq<int> = Seq::empty();
    while i < a.len() || j < b.len()
        invariant
            0 <= lo <= mid <= hi <= keys.len(),
            forall|k: int| 0 <= k < keys.len() ==> (#[trigger] keys[k]).len() == width,
            covers(a@, lo, mid),
            covers(b@, mid, hi),
            in_order(keys@, a@),
            in_order(keys@, b@),
            i <= a.len(),
            j <= b.len(),
            out.len() == i + j,
            from_a.len() == i,
            from_b.len() == j,
            forall|p: int|
                0 <= p < i ==> 0 <= (#[trigger] from_a[p]) < out.len() && out[from_a[p]] == a[p],
            forall|q: int|
                0 <= q < j ==> 0 <= (#[trigger] from_b[q]) < out.len() && out[from_b[q]] == b[q],
            forall|x: int|
                0 <= x < out.len() ==> (lo <= (#[trigger] out[x]) < mid && exists|p: int|
                    0 <= p < i && #[trigger] a[p] == out[x]) || (mid <= out[x] < hi && exists|
                    q: int,
                | 0 <= q < j && #[trigger] b[q] == out[x]),
            forall|x: int, y: int|
                0 <= x < y < out.len() ==> (#[trigger] out[x]) != (#[trigger] out[y]),
            in_order(keys@, out@),
            forall|x: int, p: int|
                0 <= x < out.len() && i <= p < a.len() ==> !key_before(
                    key_at(keys@, (#[trigger] a[p]) as int),
                    key_at(keys@, (#[trigger] out[x]) as int),
                ),
            forall|x: int, q: int|
                0 <= x < out.len() && j <= q < b.len() ==> !key_before(
                    key_at(keys@, (#[trigger] b[q]) as int),
                    key_at(keys@, (#[trigger] out[x]) as int),
                ),
        decreases a.len() - i + b.len() - j,
    {
        let take_a = if j >= b.len() {
            true
        } else if i >= a.len() {
            false
        } else {
            !key_less(&keys[b[j]], &keys[a[i]])
        };
        let ghost out0 = out@;
        if take_a {
            let next = a[i];
            proof {
                // what is left comes no earlier than the place taken
                assert forall|p: int| i + 1 <= p < a.len() implies !key_before(
                    key_at(keys@, (#[trigger] a[p]) as int),
                    key_at(keys@, next as int),
                ) by {
                    assert(!key_before(key_at(keys@, a[p] as int), key_at(keys@, a[i as int] as int)));
                }
                assert forall|q: int| j <= q < b.len() implies !key_before(
                    key_at(keys@, (#[trigger] b[q]) as int),
                    key_at(keys@, next as int),
                ) by {
                    if q > j {
                        assert(!key_before(
                            key_at(keys@, b[q] as int),
                            key_at(keys@, b[j as int] as int),
                        ));
                        lemma_key_not_before(
                            key_at(keys@, next as int),
                            key_at(keys@, b[j as int] as int),
                            key_at(keys@, b[q] as int),
                        );
                    }
                }
                assert forall|x: int| 0 <= x < out0.len() implies out0[x] != next by {
                    if lo <= out0[x] < mid {
                        let p = choose|p: int| 0 <= p < i && #[trigger] a[p] == out0[x];
                        assert(a[p] != a[i as int]);
                    }
                }
            }
            out.push(next);
            proof {
                from_a = from_a.push(out0.len() as int);
                assert forall|x: int| 0 <= x < out.len() implies (lo <= (#[trigger] out[x]) < mid
                    && exists|p: int| 0 <= p < i + 1 && #[trigger] a[p] == out[x]) || (mid
                    <= out[x] < hi && exists|q: int| 0 <= q < j && #[trigger] b[q] == out[x]) by {
                    if x < out0.len() {
                        assert(out[x] == out0[x]);
                        if lo <= out0[x] < mid {
                            let p = choose|p: int| 0 <= p < i && #[trigger] a[p] == out0[x];
                            assert(a[p] == out[x]);
                        }
                    } else {
                        assert(a[i as int] == out[x]);
                    }
                }
                assert forall|x: int, y: int| 0 <= x < y < out.len() implies !key_before(
                    key_at(keys@, (#[trigger] out[y]) as int),
                    key_at(keys@, (#[trigger] out[x]) as int),
                ) by {
                    if y < out0.len() {
                        assert(out[x] == out0[x]);
                        assert(out[y] == out0[y]);
                    } else {
                        assert(out[x] == out0[x]);
                        assert(!key_before(
                            key_at(keys@, a[i as int] as int),
                            key_at(keys@, out0[x] as int),
                        ));
                    }
                }
            }
            i = i + 1;
        } else {
            let next = b[j];
            proof {
                assert forall|q: int| j + 1 <= q < b.len() implies !key_before(
                    key_at(keys@, (#[trigger] b[q]) as int),
                    key_at(keys@, next as int),
                ) by {
                    assert(!key_before(key_at(keys@, b[q] as int), key_at(keys@, b[j as int] as int)));
                }
                assert forall|p: int| i <= p < a.len() implies !key_before(
                    key_at(keys@, (#[trigger] a[p]) as int),
                    key_at(keys@, next as int),
                ) by {
                    // `next` comes before `a[i]`, which comes no later than `a[p]`
                    let kb = key_at(keys@, next as int);
                    let ka = key_at(keys@, a[i as int] as int);
                    let kp = key_at(keys@, a[p] as int);
                    lemma_key_before_total(kb, ka);
                    if p > i {
                        assert(!key_before(kp, ka));
                        lemma_key_not_before(kb, ka, kp);
                    }
                }
                assert forall|x: int| 0 <= x < out0.len() implies out0[x] != next by {
                    if mid <= out0[x] < hi {
                        let q = choose|q: int| 0 <= q < j && #[trigger] b[q] == out0[x];
                        assert(b[q] != b[j as int]);
                    }
                }
            }
            out.push(next);
            proof {
                from_b = from_b.push(out0.len() as int);
                assert forall|x: int| 0 <= x < out.len() implies (lo <= (#[trigger] out[x]) < mid
                    && exists|p: int| 0 <= p < i && #[trigger] a[p] == out[x]) || (mid <= out[x]
                    < hi && exists|q: int| 0 <= q < j + 1 && #[trigger] b[q] == out[x]) by {
                    if x < out0.len() {
                        assert(out[x] == out0[x]);
                        if mid <= out0[x] < hi {
                            let q = choose|q: int| 0 <= q < j && #[trigger] b[q] == out0[x];
                            assert(b[q] == out[x]);
                        }
                    } else {
                        assert(b[j as int] == out[x]);
                    }
                }
                assert forall|x: int, y: int| 0 <= x < y < out.len() implies !key_before(
                    key_at(keys@, (#[trigger] out[y]) as int),
                    key_at(keys@, (#[trigger] out[x]) as int),
                ) by {
                    if y < out0.len() {
                        assert(out[x] == out0[x]);
                        assert(out[y] == out0[y]);
                    } else {
                        assert(out[x] == out0[x]);
                        assert(!key_before(
                            key_at(keys@, b[j as int] as int),
                            key_at(keys@, out0[x] as int),
                        ));
                    }
                }
            }
            j = j + 1;
        }
    }
    proof {
        assert forall|v: int| lo <= v < hi implies #[trigger] lists_place(out@, v) by {
            if v < mid {
                assert(lists_place(a@, v));
                let p = choose|p: int| 0 <= p < a.len() && #[trigger] a[p] == v;
                assert(out[from_a[p]] == v);
            } else {
                assert(lists_place(b@, v));
                let q = choose|q: int| 0 <= q < b.len() && #[trigger] b[q] == v;
                assert(out[from_b[q]] == v);
            }
        }
    }
    out
}

fn sort_places(keys: &Vec<Vec<i128>>, lo: usize, hi: usize, Ghost(width): Ghost<int>) -> (order: Vec<
    usize,
>)
    requires
        lo <= hi <= keys.len(),
        forall|i: int| 0 <= i < keys.len() ==> (#[trigger] keys[i]).len() == width,
    ensures
        covers(order@, lo as int, hi as int),
        in_order(keys@, order@),
    decreases hi - lo,
{
    if hi - lo == 0 {
        Vec::new()
    } else if hi - lo == 1 {
        let mut order: Vec<usize> = Vec::new();
        order.push(lo);
        proof {
            assert(order@[0] == lo);
            assert(lists_place(order@, lo as int));
        }
        order
    } else {
        let mid = lo + (hi - lo) / 2;
        let left = sort_places(keys, lo, mid, Ghost(width));
        let right = sort_places(keys, mid, hi, Ghost(width));
        merge_orders(
            keys,
            &left,
            &right,
            Ghost(lo as int),
            Ghost(mid as int),
            Ghost(hi as int),
            Ghost(width),
        )
    }
}

/// The scores by which a document is ranked.
fn key_of(pipeline: &Vec<Criterion>, document: &DocumentMatch, ranked_map: &RankedMap) -> (key: Vec<
    i128,
>)
    ensures
        ints(key@) == ranking_key(pipeline@, document@, ranked_map@),
        key.len() == pipeline.len() + 1,
{
    let mut key: Vec<i128> = Vec::new();
    let mut i: usize = 0;
    while i < pipeline.len()
        invariant
            i <= pipeline.len(),
            key.len() == i,
            forall|k: int|
                0 <= k < i ==> key[k] == score(
                    pipeline[k],
                    document.id,
                    document.matches@,
                    ranked_map@,
                ),
        decreases pipeline.len() - i,
    {
        key.push(criterion_score(pipeline[i], document, ranked_map));
        i = i + 1;
    }
    key.push(document.id.0 as i128);
    proof {
        assert(ints(key@) =~= ranking_key(pipeline@, document@, ranked_map@));
    }
    key
}

/// The documents stand in the order of the pipeline: none before one that
/// is ranked before it.
pub open spec fn ranked_in_order(
    pipeline: Seq<Criterion>,
    ranked: Map<(u64, u16), Number>,
    documents: Seq<DocumentMatchView>,
) -> bool {
    forall|x: int, y: int|
        0 <= x < y < documents.len() ==> !ranked_before(
            pipeline,
            ranked,
            #[trigger] documents[y],
            #[trigger] documents[x],
        )
}

/// `sorted` holds the documents of `documents`, each as often, in the order
/// of `order`.
pub open spec fn rearranged(
    documents: Seq<DocumentMatchView>,
    order: Seq<usize>,
    sorted: Seq<DocumentMatchView>,
) -> bool {
    &&& covers(order, 0, documents.len() as int)
    &&& sorted.len() == documents.len()
    &&& forall|x: int| 0 <= x < sorted.len() ==> #[trigger] sorted[x] == documents[order[x] as int]
}

/// Sorts the candidates by the criteria of the pipeline, the first criterion
/// that tells two documents apart deciding, and the lower identifier first
/// where none does. The result holds the same documents.
pub fn rank_documents(
    documents: &Vec<DocumentMatch>,
    pipeline: &Vec<Criterion>,
    ranked_map: &RankedMap,
) -> (sorted: Vec<DocumentMatch>)
    ensures
        ranked_in_order(pipeline@, ranked_map@, document_views(sorted@)),
        exists|order: Seq<usize>|
            rearranged(document_views(documents@), order, document_views(sorted@)),
{
    let n = documents.len();
    let ghost width = pipeline.len() + 1;
    let ghost views = document_views(documents@);
    let mut keys: Vec<Vec<i128>> = Vec::new();
    let mut i: usize = 0;
    while i < n
        invariant
            i <= n,
            n == documents.len(),
            keys.len() == i,
            width == pipeline.len() + 1,
            views == document_views(documents@),
            forall|k: int|
                0 <= k < i ==> (#[trigger] keys[k]).len() == width && key_at(keys@, k)
                    == ranking_key(pipeline@, views[k], ranked_map@),
        decreases n - i,
    {
        let key = key_of(pipeline, &documents[i], ranked_map);
        keys.push(key);
        i = i + 1;
    }
    let order = sort_places(&keys, 0, n, Ghost(width as int));
    let mut sorted: Vec<DocumentMatch> = Vec::new();
    let mut x: usize = 0;
    while x < n
        invariant
            x <= n,
            n == documents.len(),
            n == keys.len(),
            sorted.len() == x,
            views == document_views(documents@),
            covers(order@, 0, n as int),
            forall|k: int| 0 <= k < x ==> (#[trigger] sorted[k])@ == views[order[k] as int],
        decreases n - x,
    {
        let place = order[x];
        let document = &documents[place];
        sorted.push(DocumentMatch { id: document.id, matches: copy_of(&document.matches) });
        x = x + 1;
    }
    proof {
        let result = document_views(sorted@);
        assert forall|a: int, b: int| 0 <= a < b < result.len() implies !ranked_before(
            pipeline@,
            ranked_map@,
            #[trigger] result[b],
            #[trigger] result[a],
        ) by {
            assert(result[a] == views[order[a] as int]);
            assert(result[b] == views[order[b] as int]);
            assert(!key_before(key_at(keys@, order[b] as int), key_at(keys@, order[a] as int)));
        }
        assert(rearranged(views, order@, result));
    }
    sorted
}

} // verus!
