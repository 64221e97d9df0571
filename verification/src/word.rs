use vstd::prelude::*;

verus! {

/// How one value stands to another in a total order.
#[derive(Clone, Copy, Debug, PartialEq, Eq, Structural)]
pub enum Order {
    Less,
    Equal,
    Greater,
}

/// The dictionary order on words: scalar by scalar, a proper prefix first.
/// This is also the byte order of the words' UTF-8 forms.
pub open spec fn word_before(a: Seq<char>, b: Seq<char>) -> bool
    decreases a.len(),
{
    if b.len() == 0 {
        false
    } else if a.len() == 0 {
        true
    } else if a[0] == b[0] {
        word_before(a.drop_first(), b.drop_first())
    } else {
        a[0] < b[0]
    }
}

/// Where `a` stands to `b` in the dictionary order.
pub open spec fn word_order(a: Seq<char>, b: Seq<char>) -> Order {
    if a == b {
        Order::Equal
    } else if word_before(a, b) {
        Order::Less
    } else {
        Order::Greater
    }
}

/// No word comes before itself.
pub proof fn lemma_word_before_irreflexive(a: Seq<char>)
    ensures
        !word_before(a, a),
    decreases a.len(),
{
    if a.len() > 0 {
        lemma_word_before_irreflexive(a.drop_first());
    }
}

/// Of two different words exactly one comes before the other.
pub proof fn lemma_word_before_total(a: Seq<char>, b: Seq<char>)
    ensures
        a != b ==> (word_before(a, b) <==> !word_before(b, a)),
        a == b ==> !word_before(a, b),
    decreases a.len(),
{
    if a == b {
        lemma_word_before_irreflexive(a);
    } else if a.len() == 0 || b.len() == 0 {
        if a.len() == 0 && b.len() == 0 {
            assert(a =~= b);
        }
    } else if a[0] == b[0] {
        if a.drop_first() == b.drop_first() {
            assert(a =~= seq![a[0]] + a.drop_first());
            assert(b =~= seq![b[0]] + b.drop_first());
        }
        lemma_word_before_total(a.drop_first(), b.drop_first());
    }
}

/// The dictionary order is transitive.
pub proof fn lemma_word_before_transitive(a: Seq<char>, b: Seq<char>, c: Seq<char>)
    requires
        word_before(a, b),
        word_before(b, c),
    ensures
        word_before(a, c),
    decreases a.len(),
{
    if a.len() > 0 && a[0] == b[0] && b[0] == c[0] {
        lemma_word_before_transitive(a.drop_first(), b.drop_first(), c.drop_first());
    }
}

/// Two words that agree on their first `i` scalars are ordered as what follows
/// those scalars is.
proof fn lemma_word_before_skip(a: Seq<char>, b: Seq<char>, i: int)
    requires
        0 <= i <= a.len(),
        i <= b.len(),
        a.take(i) == b.take(i),
    ensures
        word_before(a, b) == word_before(a.skip(i), b.skip(i)),
    decreases i,
{
    if i == 0 {
        assert(a.skip(0) =~= a);
        assert(b.skip(0) =~= b);
    } else {
        assert(a[0] == a.take(i)[0]);
        assert(b[0] == b.take(i)[0]);
        let a1 = a.drop_first();
        let b1 = b.drop_first();
        assert(a1.take(i - 1) =~= a.take(i).drop_first());
        assert(b1.take(i - 1) =~= b.take(i).drop_first());
        lemma_word_before_skip(a1, b1, i - 1);
        assert(a1.skip(i - 1) =~= a.skip(i));
        assert(b1.skip(i - 1) =~= b.skip(i));
    }
}

/// Compares two words in the dictionary order.
pub fn compare_words(a: &Vec<char>, b: &Vec<char>) -> (o: Order)
    ensures
        o == word_order(a@, b@),
{
    let mut i: usize = 0;
    while i < a.len() && i < b.len()
        invariant
            i <= a.len(),
            i <= b.len(),
            a@.take(i as int) == b@.take(i as int),
        decreases a.len() - i,
    {
        if a[i] != b[i] {
            proof {
                lemma_word_before_skip(a@, b@, i as int);
                assert(a@.skip(i as int)[0] == a@[i as int]);
                assert(b@.skip(i as int)[0] == b@[i as int]);
                assert(a@ != b@);
            }
            if a[i] < b[i] {
                return Order::Less;
            } else {
                return Order::Greater;
            }
        }
        proof {
            assert(a@.take(i + 1) =~= a@.take(i as int).push(a@[i as int]));
            assert(b@.take(i + 1) =~= b@.take(i as int).push(b@[i as int]));
        }
        i = i + 1;
    }
    proof {
        lemma_word_before_skip(a@, b@, i as int);
        if a.len() == b.len() {
            assert(a@ =~= a@.take(i as int));
            assert(b@ =~= b@.take(i as int));
        } else {
            assert(a@.len() != b@.len());
        }
    }
    if a.len() == b.len() {
        Order::Equal
    } else if a.len() < b.len() {
        Order::Less
    } else {
        Order::Greater
    }
}

/// Whether two words are the same word.
pub fn same_word(a: &Vec<char>, b: &Vec<char>) -> (same: bool)
    ensures
        same == (a@ == b@),
{
    if a.len() != b.len() {
        return false;
    }
    let mut i: usize = 0;
    while i < a.len()
        invariant
            i <= a.len(),
            a.len() == b.len(),
            a@.take(i as int) == b@.take(i as int),
        decreases a.len() - i,
    {
        if a[i] != b[i] {
            return false;
        }
        proof {
            assert(a@.take(i + 1) =~= a@.take(i as int).push(a@[i as int]));
            assert(b@.take(i + 1) =~= b@.take(i as int).push(b@[i as int]));
        }
        i = i + 1;
    }
    proof {
        assert(a@ =~= a@.take(i as int));
        assert(b@ =~= b@.take(i as int));
    }
    true
}

/// Whether `word` begins with `prefix`.
pub fn starts_with(word: &Vec<char>, prefix: &Vec<char>) -> (yes: bool)
    ensures
        yes == prefix@.is_prefix_of(word@),
{
    if prefix.len() > word.len() {
        return false;
    }
    let mut i: usize = 0;
    while i < prefix.len()
        invariant
            i <= prefix.len() <= word.len(),
            prefix@.take(i as int) == word@.take(i as int),
        decreases prefix.len() - i,
    {
        if prefix[i] != word[i] {
            proof {
                if prefix@.is_prefix_of(word@) {
                    assert(word@.subrange(0, prefix@.len() as int)[i as int] == prefix@[i as int]);
                }
            }
            return false;
        }
        proof {
            assert(prefix@.take(i + 1) =~= prefix@.take(i as int).push(prefix@[i as int]));
            assert(word@.take(i + 1) =~= word@.take(i as int).push(word@[i as int]));
        }
        i = i + 1;
    }
    proof {
        assert(prefix@ =~= prefix@.take(i as int));
        assert(word@.take(i as int) =~= word@.subrange(0, prefix@.len() as int));
    }
    true
}

/// The number of bytes that UTF-8 takes for one scalar.
pub open spec fn utf8_width(c: char) -> nat {
    if (c as u32) < 0x80 {
        1
    } else if (c as u32) < 0x800 {
        2
    } else if (c as u32) < 0x1_0000 {
        3
    } else {
        4
    }
}

/// The length in bytes of a word's UTF-8 form.
pub open spec fn utf8_len(word: Seq<char>) -> nat
    decreases word.len(),
{
    if word.len() == 0 {
        0
    } else {
        utf8_len(word.drop_last()) + utf8_width(word.last())
    }
}

/// A word has at least as many bytes as scalars.
pub proof fn lemma_utf8_len_bounds(word: Seq<char>)
    ensures
        word.len() <= utf8_len(word) <= 4 * word.len(),
    decreases word.len(),
{
    if word.len() > 0 {
        lemma_utf8_len_bounds(word.drop_last());
    }
}

/// The byte length of a prefix is at most that of the word.
proof fn lemma_utf8_len_take(word: Seq<char>, i: int)
    requires
        0 <= i <= word.len(),
    ensures
        utf8_len(word.take(i)) <= utf8_len(word),
    decreases word.len() - i,
{
    if i < word.len() {
        assert(word.take(i + 1).drop_last() =~= word.take(i));
        lemma_utf8_len_take(word, i + 1);
    } else {
        assert(word.take(i) =~= word);
    }
}

fn width_of(c: char) -> (n: usize)
    ensures
        n == utf8_width(c),
{
    let v: u32 = c as u32;
    if v < 0x80 {
        1
    } else if v < 0x800 {
        2
    } else if v < 0x1_0000 {
        3
    } else {
        4
    }
}

/// The length in bytes of the word's UTF-8 form, where it is at most `limit`.
pub fn utf8_len_within(word: &Vec<char>, limit: usize) -> (len: Option<usize>)
    ensures
        match len {
            Some(n) => n == utf8_len(word@) && n <= limit,
            None => utf8_len(word@) > limit,
        },
{
    let mut n: usize = 0;
    let mut i: usize = 0;
    while i < word.len()
        invariant
            i <= word.len(),
            n == utf8_len(word@.take(i as int)),
            n <= limit,
        decreases word.len() - i,
    {
        let w = width_of(word[i]);
        proof {
            assert(word@.take(i + 1).drop_last() =~= word@.take(i as int));
            lemma_utf8_len_take(word@, i + 1);
        }
        if w > limit - n {
            return None;
        }
        n = n + w;
        i = i + 1;
    }
    proof {
        assert(word@.take(i as int) =~= word@);
    }
    Some(n)
}

} // verus!
