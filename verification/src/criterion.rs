use vstd::prelude::*;
use crate::number::Number;
use crate::ranked_map::RankedMap;
use crate::types::DocumentId;
use crate::types::SchemaAttr;

verus! {

/// One occurrence of a query word in a document: which word of the query,
/// how far the indexed word is from it, and where the indexed word stands.
#[derive(Clone, Copy, Debug, PartialEq, Eq, Structural)]
pub struct Match {
    pub query_index: u32,
    pub distance: u8,
    pub attribute: u16,
    pub word_index: u16,
    pub is_exact: bool,
    pub char_index: u16,
    pub char_length: u16,
}

/// A candidate document with the occurrences of the query's words in it.
#[derive(Debug)]
pub struct DocumentMatch {
    pub id: DocumentId,
    pub matches: Vec<Match>,
}

/// A rule that ranks documents: the lower its score, the better the document.
#[derive(Clone, Copy, Debug, PartialEq, Eq, Structural)]
pub enum Criterion {
    /// The sum, over the query words matched, of the least distance of a match.
    SumOfTypos,
    /// The more query words are matched, the better.
    NumberOfWords,
    /// The closer the matches of consecutive query words, the better.
    WordsProximity,
    /// The sum of the attributes of the matches.
    SumOfWordsAttribute,
    /// The sum of the word ordinals of the matches.
    SumOfWordsPosition,
    /// The more exact matches at the start of an attribute, the better.
    Exact,
    /// Ascending document identifier.
    DocumentId,
    /// The ranked value of an attribute, ascending or descending; a document
    /// without a value comes after every document with one.
    SortByAttr { attribute: SchemaAttr, ascending: bool },
}

/// The greatest gap between two matches that counts; a wider gap counts as this.
pub const MAX_GAP: u16 = 8;

/// The score of a document that has no ranked value: above every ranked value.
pub open spec fn missing_score() -> int {
    0x8_0000_0000_0000_0000
}

/// `ms[i]` is the first match of its query word.
pub open spec fn first_of_query(ms: Seq<Match>, i: int) -> bool {
    forall|j: int| 0 <= j < i ==> (#[trigger] ms[j]).query_index != ms[i].query_index
}

/// `ms[i]` has the least distance among the matches of its query word, and
/// is the first of those that have it.
pub open spec fn best_of_query(ms: Seq<Match>, i: int) -> bool {
    forall|j: int|
        0 <= j < ms.len() && (#[trigger] ms[j]).query_index == ms[i].query_index ==> ms[j].distance
            > ms[i].distance || (ms[j].distance == ms[i].distance && j >= i)
}

/// The penalty for two matches of consecutive query words: the square of
/// their gap in words, at most eight, where they lie in one attribute, and
/// the square of eight where they do not.
pub open spec fn penalty(a: Match, b: Match) -> int {
    if a.attribute == b.attribute {
        let gap = if a.word_index <= b.word_index {
            b.word_index - a.word_index
        } else {
            a.word_index - b.word_index
        };
        if gap < MAX_GAP {
            gap * gap
        } else {
            MAX_GAP * MAX_GAP
        }
    } else {
        MAX_GAP * MAX_GAP
    }
}

/// The least penalty between `ms[b]` and one of the first `k` matches that
/// belongs to the query word just before that of `ms[b]`.
pub open spec fn nearest_up_to(ms: Seq<Match>, b: int, k: int) -> Option<int>
    decreases k,
{
    if k <= 0 {
        None
    } else {
        let rest = nearest_up_to(ms, b, k - 1);
        if ms[k - 1].query_index + 1 == ms[b].query_index {
            let p = penalty(ms[k - 1], ms[b]);
            match rest {
                Some(v) => if v <= p {
                    Some(v)
                } else {
                    Some(p)
                },
                None => Some(p),
            }
        } else {
            rest
        }
    }
}

/// The least penalty between `ms[b]` and a match of the query word just
/// before its own; none where that word has no match.
pub open spec fn nearest(ms: Seq<Match>, b: int) -> Option<int> {
    nearest_up_to(ms, b, ms.len() as int)
}

/// `ms[b]` is the match of its query word that lies nearest to a match of
/// the query word before, and the first of those that lie as near.
pub open spec fn nearest_of_query(ms: Seq<Match>, b: int) -> bool {
    &&& nearest(ms, b) is Some
    &&& forall|j: int|
        0 <= j < ms.len() && (#[trigger] ms[j]).query_index == ms[b].query_index ==> nearest(
            ms,
            j,
        ) is Some && (nearest(ms, j)->0 > nearest(ms, b)->0 || (nearest(ms, j)->0 == nearest(
            ms,
            b,
        )->0 && j >= b))
}

/// What the match `ms[i]` adds to the score of a criterion.
pub open spec fn term(criterion: Criterion, ms: Seq<Match>, i: int) -> int {
    match criterion {
        Criterion::SumOfTypos => if best_of_query(ms, i) {
            ms[i].distance as int
        } else {
            0
        },
        Criterion::NumberOfWords => if first_of_query(ms, i) {
            -1
        } else {
            0
        },
        Criterion::WordsProximity => if nearest_of_query(ms, i) {
            nearest(ms, i)->0
        } else {
            0
        },
        Criterion::SumOfWordsAttribute => ms[i].attribute as int,
        Criterion::SumOfWordsPosition => ms[i].word_index as int,
        Criterion::Exact => if ms[i].is_exact && ms[i].word_index == 0 {
            -1
        } else {
            0
        },
        _ => 0,
    }
}

/// What the first `k` matches add to the score of a criterion.
pub open spec fn terms_up_to(criterion: Criterion, ms: Seq<Match>, k: int) -> int
    decreases k,
{
    if k <= 0 {
        0
    } else {
        terms_up_to(criterion, ms, k - 1) + term(criterion, ms, k - 1)
    }
}

/// The score that a criterion gives a document: the lower, the better.
pub open spec fn score(
    criterion: Criterion,
    id: DocumentId,
    ms: Seq<Match>,
    ranked: Map<(u64, u16), Number>,
) -> int {
    match criterion {
        Criterion::DocumentId => id.0 as int,
        Criterion::SortByAttr { attribute, ascending } => if ranked.dom().contains(
            (id.0, attribute.0),
        ) {
            if ascending {
                ranked[(id.0, attribute.0)].rank()
            } else {
                -ranked[(id.0, attribute.0)].rank()
            }
        } else {
            missing_score()
        },
        _ => terms_up_to(criterion, ms, ms.len() as int),
    }
}

fn is_first_of_query(ms: &Vec<Match>, i: usize) -> (yes: bool)
    requires
        i < ms.len(),
    ensures
        yes == first_of_query(ms@, i as int),
{
    let mut j: usize = 0;
    while j < i
        invariant
            j <= i < ms.len(),
            forall|k: int| 0 <= k < j ==> (#[trigger] ms@[k]).query_index != ms@[i as int].query_index,
        decreases i - j,
    {
        if ms[j].query_index == ms[i].query_index {
            return false;
        }
        j = j + 1;
    }
    true
}

fn is_best_of_query(ms: &Vec<Match>, i: usize) -> (yes: bool)
    requires
        i < ms.len(),
    ensures
        yes == best_of_query(ms@, i as int),
{
    let mut j: usize = 0;
    while j < ms.len()
        invariant
            j <= ms.len(),
            i < ms.len(),
            forall|k: int|
                0 <= k < j && (#[trigger] ms@[k]).query_index == ms@[i as int].query_index
                    ==> ms@[k].distance > ms@[i as int].distance || (ms@[k].distance
                    == ms@[i as int].distance && k >= i),
        decreases ms.len() - j,
    {
        if ms[j].query_index == ms[i].query_index {
            if !(ms[j].distance > ms[i].distance || (ms[j].distance == ms[i].distance && j >= i)) {
                return false;
            }
        }
        j = j + 1;
    }
    true
}

fn penalty_of(a: &Match, b: &Match) -> (p: u8)
    ensures
        p == penalty(*a, *b),
        p <= 64,
{
    if a.attribute == b.attribute {
        let gap: u16 = if a.word_index <= b.word_index {
            b.word_index - a.word_index
        } else {
            a.word_index - b.word_index
        };
        if gap < MAX_GAP {
            assert(gap * gap <= 49) by (nonlinear_arith)
                requires
                    0 <= gap < 8,
            ;
            (gap * gap) as u8
        } else {
            64
        }
    } else {
        64
    }
}

fn nearest_of(ms: &Vec<Match>, b: usize) -> (near: Option<u8>)
    requires
        b < ms.len(),
    ensures
        match near {
            Some(v) => nearest(ms@, b as int) == Some(v as int) && v <= 64,
            None => nearest(ms@, b as int) is None,
        },
{
    let mut near: Option<u8> = None;
    let mut k: usize = 0;
    while k < ms.len()
        invariant
            k <= ms.len(),
            b < ms.len(),
            match near {
                Some(v) => nearest_up_to(ms@, b as int, k as int) == Some(v as int) && v <= 64,
                None => nearest_up_to(ms@, b as int, k as int) is None,
            },
        decreases ms.len() - k,
    {
        if ms[k].query_index < u32::MAX && ms[k].query_index + 1 == ms[b].query_index {
            let p = penalty_of(&ms[k], &ms[b]);
            near = match near {
                Some(v) => if v <= p {
                    Some(v)
                } else {
                    Some(p)
                },
                None => Some(p),
            };
        }
        k = k + 1;
    }
    near
}

/// For each match, the least penalty between it and a match of the query
/// word before its own.
fn nearest_of_all(ms: &Vec<Match>) -> (near: Vec<Option<u8>>)
    ensures
        near.len() == ms.len(),
        forall|b: int|
            0 <= b < ms.len() ==> match #[trigger] near[b] {
                Some(v) => nearest(ms@, b) == Some(v as int) && v <= 64,
                None => nearest(ms@, b) is None,
            },
{
    let mut near: Vec<Option<u8>> = Vec::new();
    let mut b: usize = 0;
    while b < ms.len()
        invariant
            b <= ms.len(),
            near.len() == b,
            forall|c: int|
                0 <= c < b ==> match #[trigger] near[c] {
                    Some(v) => nearest(ms@, c) == Some(v as int) && v <= 64,
                    None => nearest(ms@, c) is None,
                },
        decreases ms.len() - b,
    {
        let n = nearest_of(ms, b);
        near.push(n);
        b = b + 1;
    }
    near
}

fn is_nearest_of_query(ms: &Vec<Match>, near: &Vec<Option<u8>>, b: usize) -> (yes: bool)
    requires
        b < ms.len(),
        near.len() == ms.len(),
        forall|c: int|
            0 <= c < ms.len() ==> match #[trigger] near[c] {
                Some(v) => nearest(ms@, c) == Some(v as int) && v <= 64,
                None => nearest(ms@, c) is None,
            },
    ensures
        yes == nearest_of_query(ms@, b as int),
{
    let own = match near[b] {
        Some(v) => v,
        None => {
            return false;
        },
    };
    let mut j: usize = 0;
    while j < ms.len()
        invariant
            j <= ms.len(),
            b < ms.len(),
            near.len() == ms.len(),
            nearest(ms@, b as int) == Some(own as int),
            forall|c: int|
                0 <= c < ms.len() ==> match #[trigger] near[c] {
                    Some(v) => nearest(ms@, c) == Some(v as int) && v <= 64,
                    None => nearest(ms@, c) is None,
                },
            forall|k: int|
                0 <= k < j && (#[trigger] ms@[k]).query_index == ms@[b as int].query_index
                    ==> nearest(ms@, k) is Some && (nearest(ms@, k)->0 > own || (nearest(ms@, k)->0
                    == own && k >= b)),
        decreases ms.len() - j,
    {
        if ms[j].query_index == ms[b].query_index {
            let ghost nj = near[j as int];
            match near[j] {
                Some(v) => {
                    if !(v > own || (v == own && j >= b)) {
                        return false;
                    }
                },
                None => {
                    return false;
                },
            }
        }
        j = j + 1;
    }
    true
}

/// The score that a criterion computes from the matches of a document.
pub fn matches_score(criterion: Criterion, ms: &Vec<Match>) -> (s: i128)
    requires
        !(criterion is DocumentId),
        !(criterion is SortByAttr),
    ensures
        s == terms_up_to(criterion, ms@, ms@.len() as int),
{
    let near = match criterion {
        Criterion::WordsProximity => nearest_of_all(ms),
        _ => Vec::new(),
    };
    let mut s: i128 = 0;
    let mut i: usize = 0;
    while i < ms.len()
        invariant
            i <= ms.len(),
            !(criterion is DocumentId),
            !(criterion is SortByAttr),
            criterion is WordsProximity ==> near.len() == ms.len() && forall|c: int|
                0 <= c < ms.len() ==> match #[trigger] near[c] {
                    Some(v) => nearest(ms@, c) == Some(v as int) && v <= 64,
                    None => nearest(ms@, c) is None,
                },
            s == terms_up_to(criterion, ms@, i as int),
            -0x1_0000 * i <= s <= 0x1_0000 * i,
        decreases ms.len() - i,
    {
        let t: i128 = match criterion {
            Criterion::SumOfTypos => if is_best_of_query(ms, i) {
                ms[i].distance as i128
            } else {
                0
            },
            Criterion::NumberOfWords => if is_first_of_query(ms, i) {
                -1
            } else {
                0
            },
            Criterion::WordsProximity => if is_nearest_of_query(ms, &near, i) {
                match near[i] {
                    Some(v) => v as i128,
                    None => 0,
                }
            } else {
                0
            },
            Criterion::SumOfWordsAttribute => ms[i].attribute as i128,
            Criterion::SumOfWordsPosition => ms[i].word_index as i128,
            Criterion::Exact => if ms[i].is_exact && ms[i].word_index == 0 {
                -1
            } else {
                0
            },
            _ => 0,
        };
        assert(t == term(criterion, ms@, i as int));
        s = s + t;
        i = i + 1;
    }
    s
}

/// The score that a criterion gives a document: the lower, the better.
pub fn criterion_score(criterion: Criterion, document: &DocumentMatch, ranked_map: &RankedMap) -> (s:
    i128)
    ensures
        s == score(criterion, document.id, document.matches@, ranked_map@),
{
    match criterion {
        Criterion::DocumentId => document.id.0 as i128,
        Criterion::SortByAttr { attribute, ascending } => {
            match ranked_map.get(document.id, attribute) {
                Some(number) => {
                    let rank = rank_of(number);
                    if ascending {
                        rank
                    } else {
                        -rank
                    }
                },
                None => 0x8_0000_0000_0000_0000,
            }
        },
        _ => matches_score(criterion, &document.matches),
    }
}

fn rank_of(number: Number) -> (rank: i128)
    ensures
        rank == number.rank(),
        -0x8000_0000_0000_0000 <= rank < 0x1_8000_0000_0000_0000,
{
    match number {
        Number::Integer(i) => i as i128,
        Number::Float(bits) => {
            let key: u64 = if bits >> 63 == 1 {
                !bits
            } else {
                bits | 0x8000_0000_0000_0000
            };
            0x8000_0000_0000_0000 + key as i128
        },
    }
}

} // verus!
