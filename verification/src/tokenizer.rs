use vstd::prelude::*;
use crate::word::same_word;
use crate::word::utf8_len;
use crate::word::utf8_len_within;

verus! {

/// The longest word that is kept, in bytes of its UTF-8 form.
pub const WORD_LENGTH_LIMIT: usize = 64;

/// Whether a scalar is a letter or a digit, as `char::is_alphanumeric` answers.
pub uninterp spec fn is_word_scalar(c: char) -> bool;

/// The lowercase mapping of a scalar, as `char::to_lowercase` yields it.
pub uninterp spec fn lowercase_of(c: char) -> Seq<char>;

/// Calls `char::is_alphanumeric`. Unicode decides which scalars are letters
/// or digits; the contract only names the answer.
#[verifier::external_body]
fn is_alphanumeric(c: char) -> (yes: bool)
    ensures
        yes == is_word_scalar(c),
{
    c.is_alphanumeric()
}

/// Calls `char::to_lowercase` and collects the scalars it yields. Unicode
/// decides the mapping; the contract only names the result.
#[verifier::external_body]
fn to_lowercase(c: char) -> (lower: Vec<char>)
    ensures
        lower@ == lowercase_of(c),
{
    c.to_lowercase().collect()
}

/// The scalars of a text.
pub fn scalars_of(text: &str) -> (scalars: Vec<char>)
    ensures
        scalars@ == text@,
{
    let mut scalars: Vec<char> = Vec::new();
    for c in it: text.chars()
        invariant
            scalars@ == it.seq().take(it.index() as int),
    {
        scalars.push(c);
    }
    scalars
}

/// The words that are dropped at indexing and at query time alike.
pub struct StopWords {
    words: Vec<Vec<char>>,
}

impl StopWords {
    /// The set of stop words.
    pub closed spec fn view(&self) -> Set<Seq<char>> {
        Set::new(|w: Seq<char>| exists|i: int| 0 <= i < self.words.len() && self.words[i]@ == w)
    }

    /// No stop word at all.
    pub fn new() -> (stop_words: StopWords)
        ensures
            stop_words@ == Set::<Seq<char>>::empty(),
    {
        let stop_words = StopWords { words: Vec::new() };
        assert(stop_words@ =~= Set::<Seq<char>>::empty());
        stop_words
    }

    /// Adds a word to the set.
    pub fn insert(&mut self, word: &str)
        ensures
            final(self)@ == old(self)@.insert(word@),
    {
        let scalars = scalars_of(word);
        let ghost before = self.words@;
        self.words.push(scalars);
        proof {
            assert forall|w: Seq<char>| final(self)@.contains(w) <==> old(self)@.insert(
                word@,
            ).contains(w) by {
                if old(self)@.contains(w) {
                    let i = choose|i: int| 0 <= i < before.len() && before[i]@ == w;
                    assert(self.words[i]@ == w);
                }
                if w == word@ {
                    assert(self.words[before.len() as int]@ == w);
                }
            }
            assert(final(self)@ =~= old(self)@.insert(word@));
        }
    }

    /// Whether a word is a stop word.
    pub fn contains(&self, word: &Vec<char>) -> (yes: bool)
        ensures
            yes == self@.contains(word@),
    {
        let mut i: usize = 0;
        while i < self.words.len()
            invariant
                i <= self.words.len(),
                forall|k: int| 0 <= k < i ==> self.words[k]@ != word@,
            decreases self.words.len() - i,
        {
            if same_word(&self.words[i], word) {
                return true;
            }
            i = i + 1;
        }
        false
    }
}

/// A word of a text: its lowercase form, its ordinal among the words kept,
/// and the place of the word in the text, counted in scalars.
#[derive(Debug)]
pub struct Token {
    pub word: Vec<char>,
    pub word_index: usize,
    pub char_index: usize,
    pub char_length: usize,
}

/// A token as a plain value.
pub struct TokenView {
    pub word: Seq<char>,
    pub word_index: int,
    pub char_index: int,
    pub char_length: int,
}

impl Token {
    /// The token as a plain value.
    pub open spec fn view(&self) -> TokenView {
        TokenView {
            word: self.word@,
            word_index: self.word_index as int,
            char_index: self.char_index as int,
            char_length: self.char_length as int,
        }
    }
}

/// The tokens of a vector as plain values.
pub open spec fn token_views(tokens: Seq<Token>) -> Seq<TokenView> {
    Seq::new(tokens.len(), |i: int| tokens[i]@)
}

/// Where the run of letters and digits that covers position `from` ends.
pub open spec fn run_end(text: Seq<char>, from: int) -> int
    decreases text.len() - from,
{
    if from < 0 || from >= text.len() || !is_word_scalar(text[from]) {
        from
    } else {
        run_end(text, from + 1)
    }
}

/// The lowercase form of a word, scalar by scalar.
pub open spec fn lowercase(word: Seq<char>) -> Seq<char>
    decreases word.len(),
{
    if word.len() == 0 {
        Seq::empty()
    } else {
        lowercase(word.drop_last()) + lowercase_of(word.last())
    }
}

/// A word is kept unless it is empty, longer than the limit or a stop word.
pub open spec fn kept(word: Seq<char>, stop_words: Set<Seq<char>>) -> bool {
    word.len() > 0 && utf8_len(word) <= WORD_LENGTH_LIMIT && !stop_words.contains(word)
}

/// A run ends inside the text, past its start where that is a letter or digit.
pub proof fn lemma_run_end_bounds(text: Seq<char>, from: int)
    requires
        0 <= from <= text.len(),
    ensures
        from <= run_end(text, from) <= text.len(),
        from < text.len() && is_word_scalar(text[from]) ==> from < run_end(text, from),
        forall|k: int| from <= k < run_end(text, from) ==> is_word_scalar(#[trigger] text[k]),
        run_end(text, from) < text.len() ==> !is_word_scalar(text[run_end(text, from)]),
    decreases text.len() - from,
{
    if from < text.len() && is_word_scalar(text[from]) {
        lemma_run_end_bounds(text, from + 1);
    }
}

/// A stretch of letters and digits that stops at the text's end or at another
/// scalar is the run that starts where it starts.
proof fn lemma_run_end_is(text: Seq<char>, from: int, end: int)
    requires
        0 <= from <= end <= text.len(),
        forall|k: int| from <= k < end ==> is_word_scalar(#[trigger] text[k]),
        end < text.len() ==> !is_word_scalar(text[end]),
    ensures
        run_end(text, from) == end,
    decreases end - from,
{
    if from < end {
        lemma_run_end_is(text, from + 1, end);
    }
}

/// The tokens of the text from position `from` on, the next word kept taking
/// the ordinal `word_index`. A token is a maximal run of letters and digits,
/// in lowercase. A word that is not kept takes no ordinal.
pub open spec fn tokens_from(
    text: Seq<char>,
    from: int,
    word_index: int,
    stop_words: Set<Seq<char>>,
) -> Seq<TokenView>
    decreases text.len() - from,
{
    if from < 0 || from >= text.len() {
        Seq::empty()
    } else if !is_word_scalar(text[from]) {
        tokens_from(text, from + 1, word_index, stop_words)
    } else {
        let end = run_end(text, from);
        proof {
            lemma_run_end_bounds(text, from);
        }
        let word = lowercase(text.subrange(from, end));
        if kept(word, stop_words) {
            seq![
                TokenView { word, word_index, char_index: from, char_length: end - from },
            ] + tokens_from(text, end, word_index + 1, stop_words)
        } else {
            tokens_from(text, end, word_index, stop_words)
        }
    }
}

/// No run of letters and digits goes across position `from`.
pub open spec fn at_boundary(text: Seq<char>, from: int) -> bool {
    from <= 0 || from >= text.len() || !is_word_scalar(text[from - 1]) || !is_word_scalar(
        text[from],
    )
}

/// What holds of a token of a text: its word is the lowercase form of a
/// maximal run of letters and digits of the text, and is kept.
pub open spec fn token_of_text(text: Seq<char>, stop_words: Set<Seq<char>>, t: TokenView) -> bool {
    &&& kept(t.word, stop_words)
    &&& 0 <= t.char_index
    &&& 0 < t.char_length
    &&& t.char_index + t.char_length <= text.len()
    &&& t.word == lowercase(text.subrange(t.char_index, t.char_index + t.char_length))
    &&& run_end(text, t.char_index) == t.char_index + t.char_length
    &&& (t.char_index == 0 || !is_word_scalar(text[t.char_index - 1]))
}

/// Each token of a text is the lowercase form of a maximal run of letters
/// and digits; the tokens stand in the order of the text, their ordinals
/// counting up one by one.
pub proof fn lemma_tokens_from(
    text: Seq<char>,
    from: int,
    word_index: int,
    stop_words: Set<Seq<char>>,
)
    requires
        0 <= from <= text.len(),
        at_boundary(text, from),
    ensures
        forall|k: int|
            0 <= k < tokens_from(text, from, word_index, stop_words).len() ==> token_of_text(
                text,
                stop_words,
                #[trigger] tokens_from(text, from, word_index, stop_words)[k],
            ) && tokens_from(text, from, word_index, stop_words)[k].word_index == word_index + k
                && from <= tokens_from(text, from, word_index, stop_words)[k].char_index,
    decreases text.len() - from,
{
    let tokens = tokens_from(text, from, word_index, stop_words);
    if from >= text.len() {
    } else if !is_word_scalar(text[from]) {
        let rest = tokens_from(text, from + 1, word_index, stop_words);
        lemma_tokens_from(text, from + 1, word_index, stop_words);
        assert(tokens == rest);
        assert forall|k: int| 0 <= k < tokens.len() implies token_of_text(
            text,
            stop_words,
            #[trigger] tokens[k],
        ) && tokens[k].word_index == word_index + k && from <= tokens[k].char_index by {
            assert(token_of_text(text, stop_words, rest[k]));
        }
    } else {
        let end = run_end(text, from);
        lemma_run_end_bounds(text, from);
        let word = lowercase(text.subrange(from, end));
        if kept(word, stop_words) {
            let rest = tokens_from(text, end, word_index + 1, stop_words);
            lemma_tokens_from(text, end, word_index + 1, stop_words);
            let first = TokenView { word, word_index, char_index: from, char_length: end - from };
            assert(tokens == seq![first] + rest);
            assert forall|k: int| 0 <= k < tokens.len() implies token_of_text(
                text,
                stop_words,
                #[trigger] tokens[k],
            ) && tokens[k].word_index == word_index + k && from <= tokens[k].char_index by {
                if k == 0 {
                    assert(tokens[0] == first);
                } else {
                    assert(tokens[k] == rest[k - 1]);
                    assert(token_of_text(text, stop_words, rest[k - 1]));
                }
            }
        } else {
            let rest = tokens_from(text, end, word_index, stop_words);
            lemma_tokens_from(text, end, word_index, stop_words);
            assert(tokens == rest);
            assert forall|k: int| 0 <= k < tokens.len() implies token_of_text(
                text,
                stop_words,
                #[trigger] tokens[k],
            ) && tokens[k].word_index == word_index + k && from <= tokens[k].char_index by {
                assert(token_of_text(text, stop_words, rest[k]));
            }
        }
    }
}

/// The tokens of a text.
pub open spec fn tokens_of(text: Seq<char>, stop_words: Set<Seq<char>>) -> Seq<TokenView> {
    tokens_from(text, 0, 0, stop_words)
}

/// Splits a text into its tokens, in the order of the text.
pub fn tokenize(text: &str, stop_words: &StopWords) -> (tokens: Vec<Token>)
    ensures
        token_views(tokens@) == tokens_of(text@, stop_words@),
{
    let scalars = scalars_of(text);
    let n = scalars.len();
    let mut tokens: Vec<Token> = Vec::new();
    let mut pos: usize = 0;
    let mut word_index: usize = 0;
    proof {
        assert(token_views(tokens@) =~= Seq::<TokenView>::empty());
    }
    while pos < n
        invariant
            pos <= n,
            n == scalars.len(),
            scalars@ == text@,
            word_index <= pos,
            token_views(tokens@) + tokens_from(text@, pos as int, word_index as int, stop_words@)
                == tokens_of(text@, stop_words@),
        decreases n - pos,
    {
        if !is_alphanumeric(scalars[pos]) {
            pos = pos + 1;
        } else {
            let start = pos;
            let mut word: Vec<char> = Vec::new();
            let mut end: usize = pos;
            proof {
                assert(text@.subrange(start as int, end as int) =~= Seq::<char>::empty());
            }
            while end < n && is_alphanumeric(scalars[end])
                invariant
                    start <= end <= n,
                    n == scalars.len(),
                    scalars@ == text@,
                    forall|k: int| start <= k < end ==> is_word_scalar(#[trigger] text@[k]),
                    word@ == lowercase(text@.subrange(start as int, end as int)),
                decreases n - end,
            {
                let mut lower = to_lowercase(scalars[end]);
                proof {
                    assert(text@.subrange(start as int, end + 1).drop_last() =~= text@.subrange(
                        start as int,
                        end as int,
                    ));
                }
                word.append(&mut lower);
                end = end + 1;
            }
            proof {
                lemma_run_end_is(text@, start as int, end as int);
            }
            let within = utf8_len_within(&word, WORD_LENGTH_LIMIT);
            let keep = word.len() > 0 && within.is_some() && !stop_words.contains(&word);
            assert(keep == kept(word@, stop_words@));
            if keep {
                let ghost before = token_views(tokens@);
                let token = Token {
                    word,
                    word_index,
                    char_index: start,
                    char_length: end - start,
                };
                let ghost view = token@;
                tokens.push(token);
                proof {
                    assert(token_views(tokens@) =~= before + seq![view]);
                    assert(before + (seq![view] + tokens_from(
                        text@,
                        end as int,
                        word_index + 1,
                        stop_words@,
                    )) =~= (before + seq![view]) + tokens_from(
                        text@,
                        end as int,
                        word_index + 1,
                        stop_words@,
                    ));
                }
                word_index = word_index + 1;
            }
            pos = end;
        }
    }
    proof {
        assert(token_views(tokens@) + Seq::<TokenView>::empty() =~= token_views(tokens@));
    }
    tokens
}

} // verus!
