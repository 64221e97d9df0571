use vstd::prelude::*;
use crate::criterion::Match;
use crate::schema::declares;
use crate::schema::lemma_place_unique;
use crate::schema::place_of;
use crate::schema::Schema;
use crate::schema::SchemaView;
use crate::text::same_text;
use crate::text::string_of;
use crate::tokenizer::scalars_of;

verus! {

/// One stored attribute of a document that a query found: its name and its value.
#[derive(Clone, Debug, PartialEq, Eq)]
pub struct Hit {
    pub name: String,
    pub value: String,
}

/// A stored attribute as a plain value.
pub struct HitView {
    pub name: Seq<char>,
    pub value: Seq<char>,
}

impl Hit {
    /// The attribute as a plain value.
    pub open spec fn view(&self) -> HitView {
        HitView { name: self.name@, value: self.value@ }
    }
}

/// No name occurs twice among the stored attributes.
pub open spec fn names_once(hits: Seq<HitView>) -> bool {
    forall|i: int, j: int|
        0 <= i < j < hits.len() ==> (#[trigger] hits[i]).name != (#[trigger] hits[j]).name
}

/// The stored attributes of a vector as plain values.
pub open spec fn hit_views(hits: Seq<Hit>) -> Seq<HitView> {
    Seq::new(hits.len(), |i: int| hits[i]@)
}

/// Where the cropped text starts: `context` scalars before the first match,
/// or at the start of the text where the first match lies nearer to it.
pub open spec fn crop_start(matches: Seq<Match>, context: int) -> int {
    if matches.len() > 0 && matches[0].char_index >= context {
        matches[0].char_index - context
    } else {
        0
    }
}

/// The part of a text from `start` on, at most `2 * context` scalars long.
pub open spec fn cropped(text: Seq<char>, start: int, context: int) -> Seq<char> {
    let from = if start <= text.len() {
        start
    } else {
        text.len() as int
    };
    let to = if start + 2 * context <= text.len() {
        start + 2 * context
    } else {
        text.len() as int
    };
    text.subrange(from, to)
}

/// The number of matches, from the first on, that end within `limit`.
pub open spec fn fitting(matches: Seq<Match>, limit: int) -> int
    decreases matches.len(),
{
    if matches.len() == 0 {
        0
    } else if matches[0].char_index + matches[0].char_length <= limit {
        1 + fitting(matches.drop_first(), limit)
    } else {
        0
    }
}

/// A match in the cropped text: it starts `start` scalars earlier.
pub open spec fn shifted(m: Match, start: int) -> Match {
    Match { char_index: (m.char_index - start) as u16, ..m }
}

/// The matches of the cropped text: those that end within it, from the
/// first match on up to the first that does not, each moved with the text.
pub open spec fn cropped_matches(matches: Seq<Match>, context: int) -> Seq<Match> {
    let start = crop_start(matches, context);
    Seq::new(
        fitting(matches, start + 2 * context) as nat,
        |i: int| shifted(matches[i], start),
    )
}

/// No match starts before the first.
pub open spec fn first_starts_first(matches: Seq<Match>) -> bool {
    forall|i: int| 0 <= i < matches.len() ==> matches[0].char_index <= (#[trigger] matches[i]).char_index
}

/// No match that the cropped text keeps starts before the cropped text.
pub open spec fn kept_start_within(matches: Seq<Match>, context: int) -> bool {
    let start = crop_start(matches, context);
    forall|i: int|
        0 <= i < fitting(matches, start + 2 * context) ==> start <= (#[trigger] matches[i]).char_index
}

/// Where no match starts before the first, none that the cropped text
/// keeps starts before the cropped text.
pub proof fn lemma_kept_start_within(matches: Seq<Match>, context: int)
    requires
        first_starts_first(matches),
        0 <= context,
    ensures
        kept_start_within(matches, context),
{
    let start = crop_start(matches, context);
    lemma_fitting_bounds(matches, start + 2 * context);
    assert forall|i: int| 0 <= i < fitting(matches, start + 2 * context) implies start <= (
    #[trigger] matches[i]).char_index by {
        assert(matches[0].char_index <= matches[i].char_index);
    }
}

proof fn lemma_fitting_bounds(matches: Seq<Match>, limit: int)
    ensures
        0 <= fitting(matches, limit) <= matches.len(),
    decreases matches.len(),
{
    if matches.len() > 0 {
        lemma_fitting_bounds(matches.drop_first(), limit);
    }
}

/// The leading matches that fit are counted one by one.
proof fn lemma_fitting_step(matches: Seq<Match>, limit: int, k: int)
    requires
        0 <= k <= matches.len(),
        forall|i: int| 0 <= i < k ==> (#[trigger] matches[i]).char_index + matches[i].char_length <= limit,
    ensures
        fitting(matches, limit) == k + fitting(matches.skip(k), limit),
    decreases k,
{
    if k == 0 {
        assert(matches.skip(0) =~= matches);
    } else {
        let rest = matches.drop_first();
        assert forall|i: int| 0 <= i < k - 1 implies (#[trigger] rest[i]).char_index
            + rest[i].char_length <= limit by {
            assert(rest[i] == matches[i + 1]);
        }
        lemma_fitting_step(rest, limit, k - 1);
        assert(rest.skip(k - 1) =~= matches.skip(k));
        assert(matches[0].char_index + matches[0].char_length <= limit);
    }
}

/// Crops a text around the first of its matches: the text starts `context`
/// scalars before that match and is at most twice `context` long; the
/// matches that end within it are moved with it, so none of them may start
/// before it.
pub fn crop_text(text: &str, matches: &Vec<Match>, context: usize) -> (res: (String, Vec<Match>))
    requires
        2 * context + 0xffff <= usize::MAX,
        kept_start_within(matches@, context as int),
    ensures
        res.0@ == cropped(text@, crop_start(matches@, context as int), context as int),
        res.1@ == cropped_matches(matches@, context as int),
{
    let char_index: usize = if matches.len() > 0 {
        matches[0].char_index as usize
    } else {
        0
    };
    let start: usize = if char_index >= context {
        char_index - context
    } else {
        0
    };
    let limit: usize = start + 2 * context;
    let scalars = scalars_of(text);
    let n = scalars.len();
    let from = if start <= n {
        start
    } else {
        n
    };
    let to = if limit <= n {
        limit
    } else {
        n
    };
    let mut part: Vec<char> = Vec::new();
    let mut i: usize = from;
    while i < to
        invariant
            from <= i <= to <= n,
            n == scalars.len(),
            part@ == scalars@.subrange(from as int, i as int),
        decreases to - i,
    {
        part.push(scalars[i]);
        proof {
            assert(scalars@.subrange(from as int, i + 1) =~= scalars@.subrange(
                from as int,
                i as int,
            ).push(scalars@[i as int]));
        }
        i = i + 1;
    }
    let mut kept: Vec<Match> = Vec::new();
    let mut k: usize = 0;
    while k < matches.len() && matches[k].char_index as usize + matches[k].char_length as usize
        <= limit
        invariant
            k <= matches.len(),
            start == crop_start(matches@, context as int),
            limit == start + 2 * context,
            kept_start_within(matches@, context as int),
            kept.len() == k,
            forall|j: int|
                0 <= j < k ==> (#[trigger] matches@[j]).char_index + matches@[j].char_length
                    <= limit,
            forall|j: int| 0 <= j < k ==> #[trigger] kept[j] == shifted(matches@[j], start as int),
        decreases matches.len() - k,
    {
        let m = matches[k];
        proof {
            lemma_fitting_step(matches@, limit as int, k + 1);
            lemma_fitting_bounds(matches@.skip(k + 1), limit as int);
            assert(start <= matches@[k as int].char_index);
        }
        kept.push(
            Match {
                query_index: m.query_index,
                distance: m.distance,
                attribute: m.attribute,
                word_index: m.word_index,
                is_exact: m.is_exact,
                char_index: m.char_index - start as u16,
                char_length: m.char_length,
            },
        );
        k = k + 1;
    }
    proof {
        lemma_fitting_step(matches@, limit as int, k as int);
        let rest = matches@.skip(k as int);
        if k < matches.len() {
            assert(rest[0] == matches@[k as int]);
        }
        assert(fitting(rest, limit as int) == 0);
        assert(kept@ =~= cropped_matches(matches@, context as int));
    }
    (string_of(&part), kept)
}

/// The matches that lie in an attribute.
pub open spec fn of_attribute(matches: Seq<Match>, attribute: u16) -> Seq<Match>
    decreases matches.len(),
{
    if matches.len() == 0 {
        matches
    } else if matches.last().attribute == attribute {
        of_attribute(matches.drop_last(), attribute).push(matches.last())
    } else {
        of_attribute(matches.drop_last(), attribute)
    }
}

/// The matches that do not lie in an attribute.
pub open spec fn not_of_attribute(matches: Seq<Match>, attribute: u16) -> Seq<Match>
    decreases matches.len(),
{
    if matches.len() == 0 {
        matches
    } else if matches.last().attribute != attribute {
        not_of_attribute(matches.drop_last(), attribute).push(matches.last())
    } else {
        not_of_attribute(matches.drop_last(), attribute)
    }
}

/// Whether a document has a stored attribute of the given name.
pub open spec fn has_hit(hits: Seq<HitView>, name: Seq<char>) -> bool {
    exists|i: int| 0 <= i < hits.len() && (#[trigger] hits[i]).name == name
}

/// The place of the first stored attribute of the given name.
pub open spec fn first_hit(hits: Seq<HitView>, name: Seq<char>) -> int {
    choose|i: int|
        0 <= i < hits.len() && (#[trigger] hits[i]).name == name && forall|k: int|
            0 <= k < i ==> (#[trigger] hits[k]).name != name
}

/// What cropping a field does to the stored attributes of a document and to
/// its matches, once the matches are sorted. Nothing, where the schema does
/// not declare the field or the document has no such attribute. Else the
/// attribute's text is cropped around the first match that lies in it, and
/// the matches of the attribute are replaced by those of the cropped text,
/// which come last.
pub open spec fn crop_effect(
    hits: Seq<HitView>,
    sorted: Seq<Match>,
    schema: SchemaView,
    field: Seq<char>,
    length: int,
) -> (Seq<HitView>, Seq<Match>) {
    if !declares(schema.attrs, field) || !has_hit(hits, field) {
        (hits, sorted)
    } else {
        let attribute = place_of(schema.attrs, field) as u16;
        let i = first_hit(hits, field);
        let selected = of_attribute(sorted, attribute);
        let start = crop_start(selected, length);
        (
            hits.update(
                i,
                HitView { name: hits[i].name, value: cropped(hits[i].value, start, length) },
            ),
            not_of_attribute(sorted, attribute) + cropped_matches(selected, length),
        )
    }
}

/// One match starts no later than another, and is no longer where they
/// start together.
pub open spec fn starts_no_later(a: Match, b: Match) -> bool {
    a.char_index < b.char_index || (a.char_index == b.char_index && a.char_length <= b.char_length)
}

/// The matches stand in the order of their starts, and of their lengths
/// where they start together.
pub open spec fn by_position(ms: Seq<Match>) -> bool {
    forall|x: int, y: int|
        0 <= x < y < ms.len() ==> starts_no_later(#[trigger] ms[x], #[trigger] ms[y])
}

/// A sorted sequence of matches with one more match, put behind the matches
/// that start no later.
pub open spec fn inserted(ms: Seq<Match>, m: Match) -> Seq<Match>
    decreases ms.len(),
{
    if ms.len() == 0 {
        seq![m]
    } else if starts_no_later(ms.last(), m) {
        ms.push(m)
    } else {
        inserted(ms.drop_last(), m).push(ms.last())
    }
}

/// The matches sorted by where they start and how long they are; matches
/// that start together and are as long keep their order.
pub open spec fn sorted_by_position(ms: Seq<Match>) -> Seq<Match>
    decreases ms.len(),
{
    if ms.len() == 0 {
        ms
    } else {
        inserted(sorted_by_position(ms.drop_last()), ms.last())
    }
}

proof fn lemma_inserted(ms: Seq<Match>, m: Match)
    requires
        by_position(ms),
    ensures
        by_position(inserted(ms, m)),
        inserted(ms, m).len() == ms.len() + 1,
        forall|x: Match| #[trigger] inserted(ms, m).contains(x) <==> ms.contains(x) || x == m,
    decreases ms.len(),
{
    let r = inserted(ms, m);
    if ms.len() == 0 {
        assert(r[0] == m);
        assert forall|x: Match| r.contains(x) <==> ms.contains(x) || x == m by {
            if r.contains(x) {
                let i = choose|i: int| 0 <= i < r.len() && r[i] == x;
            }
        }
    } else if starts_no_later(ms.last(), m) {
        assert forall|x: int, y: int| 0 <= x < y < r.len() implies starts_no_later(
            #[trigger] r[x],
            #[trigger] r[y],
        ) by {
            if y < ms.len() {
                assert(starts_no_later(ms[x], ms[y]));
            } else if x < ms.len() - 1 {
                assert(starts_no_later(ms[x], ms[ms.len() - 1]));
            }
        }
        assert forall|x: Match| r.contains(x) <==> ms.contains(x) || x == m by {
            crate::sorted::lemma_push_contains(ms, m, x);
        }
    } else {
        let d = ms.drop_last();
        assert forall|x: int, y: int| 0 <= x < y < d.len() implies starts_no_later(
            #[trigger] d[x],
            #[trigger] d[y],
        ) by {
            assert(starts_no_later(ms[x], ms[y]));
        }
        lemma_inserted(d, m);
        let r0 = inserted(d, m);
        assert forall|x: int, y: int| 0 <= x < y < r.len() implies starts_no_later(
            #[trigger] r[x],
            #[trigger] r[y],
        ) by {
            if y < r0.len() {
                assert(starts_no_later(r0[x], r0[y]));
            } else {
                assert(r[y] == ms.last());
                assert(r[x] == r0[x]);
                assert(r0.contains(r0[x]));
                assert(d.contains(r0[x]) || r0[x] == m);
                if d.contains(r0[x]) {
                    let k = choose|k: int| 0 <= k < d.len() && d[k] == r0[x];
                    assert(d[k] == ms[k]);
                    assert(starts_no_later(ms[k], ms[ms.len() - 1]));
                } else {
                    assert(starts_no_later(m, ms.last()));
                }
            }
        }
        assert forall|x: Match| r.contains(x) <==> ms.contains(x) || x == m by {
            crate::sorted::lemma_push_contains(r0, ms.last(), x);
            crate::sorted::lemma_push_contains(d, ms.last(), x);
            assert(ms =~= d.push(ms.last()));
        }
    }
}

/// Sorting keeps the matches and puts them in order.
pub proof fn lemma_sorted_by_position(ms: Seq<Match>)
    ensures
        by_position(sorted_by_position(ms)),
        sorted_by_position(ms).len() == ms.len(),
        forall|x: Match| sorted_by_position(ms).contains(x) <==> ms.contains(x),
    decreases ms.len(),
{
    if ms.len() > 0 {
        lemma_sorted_by_position(ms.drop_last());
        lemma_inserted(sorted_by_position(ms.drop_last()), ms.last());
        assert forall|x: Match| sorted_by_position(ms).contains(x) <==> ms.contains(x) by {
            crate::sorted::lemma_push_contains(ms.drop_last(), ms.last(), x);
            assert(ms =~= ms.drop_last().push(ms.last()));
        }
    }
}

/// Sorts matches by where they start and how long they are.
pub fn sort_by_position(ms: &Vec<Match>) -> (sorted: Vec<Match>)
    ensures
        sorted@ == sorted_by_position(ms@),
{
    let mut sorted: Vec<Match> = Vec::new();
    let mut i: usize = 0;
    while i < ms.len()
        invariant
            i <= ms.len(),
            sorted@ == sorted_by_position(ms@.take(i as int)),
        decreases ms.len() - i,
    {
        let m = ms[i];
        let ghost before = sorted@;
        proof {
            assert(ms@.take(i + 1).drop_last() =~= ms@.take(i as int));
        }
        let mut k: usize = sorted.len();
        proof {
            assert(before.take(k as int) =~= before);
            assert(before.skip(k as int) =~= Seq::<Match>::empty());
        }
        while k > 0 && !(sorted[k - 1].char_index < m.char_index || (sorted[k - 1].char_index
            == m.char_index && sorted[k - 1].char_length <= m.char_length))
            invariant
                k <= sorted.len(),
                sorted@ == before,
                inserted(before, m) == inserted(before.take(k as int), m) + before.skip(k as int),
            decreases k,
        {
            proof {
                let head = before.take(k as int);
                assert(head.last() == before[k - 1]);
                assert(head.drop_last() =~= before.take(k - 1));
                assert(inserted(head, m) == inserted(before.take(k - 1), m).push(before[k - 1]));
                assert(inserted(before.take(k - 1), m).push(before[k - 1]) + before.skip(k as int)
                    =~= inserted(before.take(k - 1), m) + before.skip(k - 1));
            }
            k = k - 1;
        }
        proof {
            let head = before.take(k as int);
            if k > 0 {
                assert(head.last() == before[k - 1]);
            }
            assert(inserted(head, m) == head.push(m));
            assert(before.insert(k as int, m) =~= head.push(m) + before.skip(k as int));
        }
        sorted.insert(k, m);
        i = i + 1;
    }
    proof {
        assert(ms@.take(i as int) =~= ms@);
    }
    sorted
}

/// In matches sorted by position, no match of an attribute starts before
/// the first match of that attribute.
proof fn lemma_selected_first(sorted: Seq<Match>, attribute: u16)
    requires
        by_position(sorted),
    ensures
        first_starts_first(of_attribute(sorted, attribute)),
        by_position(of_attribute(sorted, attribute)),
        forall|i: int|
            0 <= i < of_attribute(sorted, attribute).len() ==> sorted.contains(
                #[trigger] of_attribute(sorted, attribute)[i],
            ),
    decreases sorted.len(),
{
    let sel = of_attribute(sorted, attribute);
    if sorted.len() > 0 {
        let s0 = sorted.drop_last();
        let sel0 = of_attribute(s0, attribute);
        assert forall|x: int, y: int| 0 <= x < y < s0.len() implies starts_no_later(
            #[trigger] s0[x],
            #[trigger] s0[y],
        ) by {
            assert(starts_no_later(sorted[x], sorted[y]));
        }
        lemma_selected_first(s0, attribute);
        assert forall|i: int| 0 <= i < sel.len() implies sorted.contains(#[trigger] sel[i]) by {
            if i < sel0.len() {
                assert(s0.contains(sel0[i]));
                let k = choose|k: int| 0 <= k < s0.len() && s0[k] == sel0[i];
                assert(sorted[k] == sel[i]);
            } else {
                assert(sorted[sorted.len() - 1] == sel[i]);
            }
        }
        if sorted.last().attribute == attribute {
            assert forall|x: int, y: int| 0 <= x < y < sel.len() implies starts_no_later(
                #[trigger] sel[x],
                #[trigger] sel[y],
            ) by {
                if y < sel0.len() {
                    assert(starts_no_later(sel0[x], sel0[y]));
                } else {
                    assert(s0.contains(sel0[x]));
                    let k = choose|k: int| 0 <= k < s0.len() && s0[k] == sel0[x];
                    assert(starts_no_later(sorted[k], sorted[sorted.len() - 1]));
                }
            }
        }
        assert forall|i: int| 0 <= i < sel.len() implies sel[0].char_index <= (
        #[trigger] sel[i]).char_index by {
            if i > 0 {
                assert(starts_no_later(sel[0], sel[i]));
            }
        }
    }
}

/// Crops one field of a document that a query found, and moves the matches
/// that lie in it. Where the document has more than one attribute of the
/// field's name, the first is cropped. The matches are sorted by where they start and how long
/// they are; those of the cropped field come last.
pub fn crop_document(
    document: &mut Vec<Hit>,
    matches: &mut Vec<Match>,
    schema: &Schema,
    field: &str,
    length: usize,
)
    requires
        2 * length + 0xffff <= usize::MAX,
    ensures
        (hit_views(final(document)@), final(matches)@) == crop_effect(
            hit_views(old(document)@),
            sorted_by_position(old(matches)@),
            schema@,
            field@,
            length as int,
        ),
{
    let sorted = sort_by_position(matches);
    let ghost hits0 = hit_views(document@);
    let n = schema.len();
    let attribute = match schema.attribute(field) {
        Some(attribute) => attribute,
        None => {
            *matches = sorted;
            return ;
        },
    };
    proof {
        lemma_place_unique(schema@.attrs, attribute.0 as int);
    }
    let mut place: usize = 0;
    while place < document.len() && !same_text(document[place].name.as_str(), field)
        invariant
            place <= document.len(),
            hits0 == hit_views(document@),
            forall|k: int| 0 <= k < place ==> (#[trigger] hits0[k]).name != field@,
        decreases document.len() - place,
    {
        place = place + 1;
    }
    if place >= document.len() {
        *matches = sorted;
        return ;
    }
    proof {
        assert(hits0[place as int].name == field@);
        let j = first_hit(hits0, field@);
        if j < place {
            assert(hits0[j].name != field@);
        }
    }
    let mut selected: Vec<Match> = Vec::new();
    let mut others: Vec<Match> = Vec::new();
    let mut i: usize = 0;
    while i < sorted.len()
        invariant
            i <= sorted.len(),
            selected@ == of_attribute(sorted@.take(i as int), attribute.0),
            others@ == not_of_attribute(sorted@.take(i as int), attribute.0),
        decreases sorted.len() - i,
    {
        proof {
            assert(sorted@.take(i + 1).drop_last() =~= sorted@.take(i as int));
        }
        if sorted[i].attribute == attribute.0 {
            selected.push(sorted[i]);
        } else {
            others.push(sorted[i]);
        }
        i = i + 1;
    }
    proof {
        assert(sorted@.take(i as int) =~= sorted@);
        lemma_sorted_by_position(matches@);
        lemma_selected_first(sorted@, attribute.0);
        lemma_kept_start_within(selected@, length as int);
    }
    let (cropped_text, mut moved) = crop_text(document[place].value.as_str(), &selected, length);
    others.append(&mut moved);
    let name = document[place].name.clone();
    document.remove(place);
    document.insert(place, Hit { name, value: cropped_text });
    proof {
        assert(hit_views(document@) =~= hits0.update(
            place as int,
            HitView {
                name: hits0[place as int].name,
                value: cropped(
                    hits0[place as int].value,
                    crop_start(selected@, length as int),
                    length as int,
                ),
            },
        ));
    }
    *matches = others;
}

} // verus!
