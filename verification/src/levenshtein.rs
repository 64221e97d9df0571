use vstd::prelude::*;
use crate::word::utf8_len;
use crate::word::utf8_len_within;

verus! {

/// The least of three numbers.
pub open spec fn min3(a: nat, b: nat, c: nat) -> nat {
    if a <= b && a <= c {
        a
    } else if b <= c {
        b
    } else {
        c
    }
}

/// The Levenshtein distance between two words: the least number of scalars
/// to insert, delete or replace to turn one into the other.
pub open spec fn edit_distance(a: Seq<char>, b: Seq<char>) -> nat
    decreases a.len() + b.len(),
{
    if a.len() == 0 {
        b.len()
    } else if b.len() == 0 {
        a.len()
    } else {
        let replaced = edit_distance(a.drop_last(), b.drop_last()) + if a.last() == b.last() {
            0nat
        } else {
            1nat
        };
        let deleted = edit_distance(a.drop_last(), b) + 1;
        let inserted = edit_distance(a, b.drop_last()) + 1;
        min3(replaced, deleted, inserted)
    }
}

/// The distance is at most the length of the longer word.
pub proof fn lemma_edit_distance_bound(a: Seq<char>, b: Seq<char>)
    ensures
        edit_distance(a, b) <= if a.len() <= b.len() {
            b.len()
        } else {
            a.len()
        },
    decreases a.len() + b.len(),
{
    if a.len() > 0 && b.len() > 0 {
        lemma_edit_distance_bound(a.drop_last(), b.drop_last());
    }
}

/// A word is at distance zero from itself.
pub proof fn lemma_edit_distance_same(a: Seq<char>)
    ensures
        edit_distance(a, a) == 0,
    decreases a.len(),
{
    if a.len() > 0 {
        lemma_edit_distance_same(a.drop_last());
    }
}

/// Computes the Levenshtein distance between two words.
pub fn distance(a: &Vec<char>, b: &Vec<char>) -> (d: usize)
    requires
        a.len() < usize::MAX,
        b.len() < usize::MAX,
    ensures
        d == edit_distance(a@, b@),
{
    let n = a.len();
    let m = b.len();
    let mut prev: Vec<usize> = Vec::new();
    let mut j: usize = 0;
    while j <= m
        invariant
            j <= m + 1,
            m == b.len(),
            m < usize::MAX,
            prev.len() == j,
            forall|k: int| 0 <= k < j ==> prev[k] == k,
        decreases m + 1 - j,
    {
        prev.push(j);
        j = j + 1;
    }
    proof {
        assert forall|k: int| 0 <= k <= m implies #[trigger] prev[k] == edit_distance(
            a@.take(0),
            b@.take(k),
        ) by {
            assert(a@.take(0).len() == 0);
        }
    }
    let mut i: usize = 0;
    while i < n
        invariant
            i <= n,
            n == a.len(),
            m == b.len(),
            n < usize::MAX,
            m < usize::MAX,
            prev.len() == m + 1,
            forall|k: int|
                0 <= k <= m ==> #[trigger] prev[k] == edit_distance(a@.take(i as int), b@.take(k)),
        decreases n - i,
    {
        let mut cur: Vec<usize> = Vec::new();
        cur.push(i + 1);
        let ghost head = a@.take(i + 1);
        proof {
            assert(head.drop_last() =~= a@.take(i as int));
            assert(head.last() == a@[i as int]);
            assert(b@.take(0).len() == 0);
        }
        let mut j: usize = 0;
        while j < m
            invariant
                j <= m,
                i < n,
                n == a.len(),
                m == b.len(),
                n < usize::MAX,
                m < usize::MAX,
                prev.len() == m + 1,
                cur.len() == j + 1,
                head == a@.take(i + 1),
                head.drop_last() == a@.take(i as int),
                head.last() == a@[i as int],
                forall|k: int|
                    0 <= k <= m ==> #[trigger] prev[k] == edit_distance(
                        a@.take(i as int),
                        b@.take(k),
                    ),
                forall|k: int| 0 <= k <= j ==> #[trigger] cur[k] == edit_distance(head, b@.take(k)),
            decreases m - j,
        {
            let ghost other = b@.take(j + 1);
            proof {
                assert(other.drop_last() =~= b@.take(j as int));
                assert(other.last() == b@[j as int]);
                lemma_edit_distance_bound(a@.take(i as int), b@.take(j as int));
                lemma_edit_distance_bound(a@.take(i as int), other);
                lemma_edit_distance_bound(head, b@.take(j as int));
                assert(prev[j as int] == edit_distance(a@.take(i as int), b@.take(j as int)));
                assert(prev[j + 1] == edit_distance(a@.take(i as int), other));
                assert(cur[j as int] == edit_distance(head, b@.take(j as int)));
            }
            let replaced = if a[i] == b[j] {
                prev[j]
            } else {
                prev[j] + 1
            };
            let deleted = prev[j + 1] + 1;
            let inserted = cur[j] + 1;
            let best = if replaced <= deleted && replaced <= inserted {
                replaced
            } else if deleted <= inserted {
                deleted
            } else {
                inserted
            };
            assert(best == edit_distance(head, other));
            cur.push(best);
            j = j + 1;
        }
        prev = cur;
        i = i + 1;
    }
    proof {
        assert(a@.take(n as int) =~= a@);
        assert(b@.take(m as int) =~= b@);
    }
    prev[m]
}

/// The number of typos tolerated for a query word, by its length in bytes:
/// none under four bytes, one under nine, two from there on.
pub open spec fn typo_budget(len: nat) -> nat {
    if len < 4 {
        0
    } else if len < 9 {
        1
    } else {
        2
    }
}

/// The number of typos tolerated for a query word.
pub fn max_typos(word: &Vec<char>) -> (k: u8)
    ensures
        k == typo_budget(utf8_len(word@)),
{
    match utf8_len_within(word, 8) {
        Some(n) => if n < 4 {
            0
        } else {
            1
        },
        None => 2,
    }
}

} // verus!
