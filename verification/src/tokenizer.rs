//! Splitting text into normalized tokens.

use crate::trusted::{
    alphanumeric, char_is_alphanumeric, char_is_whitespace, is_whitespace, lowercase,
    str_to_lowercase, string_push,
};
use vstd::prelude::*;

verus! {

/// The words of `text`: its maximal runs of characters that are not
/// whitespace, from left to right.
pub open spec fn words(text: Seq<char>) -> Seq<Seq<char>>
    decreases text.len(),
{
    if text.len() == 0 {
        Seq::empty()
    } else {
        let before = words(text.drop_last());
        let c = text.last();
        if is_whitespace(c) {
            before
        } else if text.len() >= 2 && !is_whitespace(text[text.len() - 2]) {
            before.drop_last().push(before.last().push(c))
        } else {
            before.push(seq![c])
        }
    }
}

/// The normal form of a word: its lower-case form without the characters
/// that are neither letters nor digits.
pub open spec fn normalize(word: Seq<char>) -> Seq<char> {
    lowercase(word).filter(letters_and_digits())
}

/// The test that a character passes when it is a letter or a digit.
pub open spec fn letters_and_digits() -> spec_fn(char) -> bool {
    |c: char| alphanumeric(c)
}

/// The function that takes a word to its normal form.
pub open spec fn normalizing() -> spec_fn(Seq<char>) -> Seq<char> {
    |w: Seq<char>| normalize(w)
}

/// The test that a token passes when it holds at least one character.
pub open spec fn non_empty() -> spec_fn(Seq<char>) -> bool {
    |t: Seq<char>| t.len() > 0
}

/// The normal forms of `ws`, in order, without those that are empty.
pub open spec fn normalize_all(ws: Seq<Seq<char>>) -> Seq<Seq<char>> {
    ws.map_values(normalizing()).filter(non_empty())
}

/// The tokens of `text`: the non-empty normal forms of its words.
pub open spec fn tokens_of(text: Seq<char>) -> Seq<Seq<char>> {
    normalize_all(words(text))
}

/// A splitter of text into words. It is fed the characters of the text one
/// by one, each with the answer to the question whether it separates words.
pub struct WordSplitter {
    /// The words that have ended, in the order in which they ended.
    pub closed: Vec<String>,
    /// The characters of the word that has begun and not ended yet; empty
    /// between words.
    pub open: String,
}

impl WordSplitter {
    /// The words fed so far: those that have ended and, behind them, the one
    /// that has begun.
    pub open spec fn so_far(&self) -> Seq<Seq<char>> {
        if self.open@.len() > 0 {
            self.closed.deep_view().push(self.open@)
        } else {
            self.closed.deep_view()
        }
    }

    /// A splitter that has been fed nothing.
    pub fn new() -> (splitter: WordSplitter)
        ensures
            splitter.closed.deep_view() == Seq::<Seq<char>>::empty(),
            splitter.open@ == Seq::<char>::empty(),
    {
        let splitter = WordSplitter { closed: Vec::new(), open: String::new() };
        assert(splitter.closed.deep_view() == Seq::<Seq<char>>::empty());
        splitter
    }

    /// Feeds the character `c`. Where `is_break` holds, `c` separates words:
    /// the word that has begun ends. Where it does not, `c` is the next
    /// character of the word that has begun, or the first of a new word.
    pub fn feed(&mut self, c: char, is_break: bool)
        ensures
            is_break ==> final(self).closed.deep_view() == old(self).so_far(),
            is_break ==> final(self).open@ == Seq::<char>::empty(),
            !is_break ==> final(self).closed.deep_view() == old(self).closed.deep_view(),
            !is_break ==> final(self).open@ == old(self).open@.push(c),
    {
        if is_break {
            if !self.open.as_str().is_empty() {
                let ghost ended = self.closed.deep_view();
                let mut word = String::new();
                std::mem::swap(&mut word, &mut self.open);
                self.closed.push(word);
                assert(self.closed.deep_view() == ended.push(word@));
            }
        } else {
            string_push(&mut self.open, c);
        }
    }

    /// Ends the text and hands out its words.
    pub fn finish(self) -> (words: Vec<String>)
        ensures
            words.deep_view() == self.so_far(),
    {
        let mut words = self.closed;
        if !self.open.as_str().is_empty() {
            let ghost ended = words.deep_view();
            words.push(self.open);
            assert(words.deep_view() == ended.push(self.open@));
        }
        words
    }
}

/// Splits `text` into its words.
pub fn split_words(text: &str) -> (found: Vec<String>)
    ensures
        found.deep_view() == words(text@),
{
    let mut splitter = WordSplitter::new();
    for c in it: text.chars()
        invariant
            it.seq() == text@,
            scanned(text@.take(it.index()), splitter.closed.deep_view(), splitter.open@),
    {
        proof {
            assert(text@.take(it.index() + 1) == text@.take(it.index()).push(c));
            lemma_scan(text@.take(it.index()), splitter.closed.deep_view(), splitter.open@, c);
        }
        let is_break = char_is_whitespace(c);
        splitter.feed(c, is_break);
    }
    assert(text@.take(text@.len() as int) == text@);
    splitter.finish()
}

/// Keeps the letters and digits of `lowered`, in order, and drops every
/// other character.
pub fn keep_letters_and_digits(lowered: &str) -> (kept: String)
    ensures
        kept@ == lowered@.filter(letters_and_digits()),
{
    let mut kept = String::new();
    for c in it: lowered.chars()
        invariant
            it.seq() == lowered@,
            kept@ == lowered@.take(it.index()).filter(letters_and_digits()),
    {
        proof {
            lowered@.take(it.index()).lemma_filter_push(c, letters_and_digits());
            assert(lowered@.take(it.index() + 1) == lowered@.take(it.index()).push(c));
        }
        if char_is_alphanumeric(c) {
            string_push(&mut kept, c);
        }
    }
    assert(lowered@.take(lowered@.len() as int) == lowered@);
    kept
}

/// Normalizes one word.
pub fn normalize_word(word: &str) -> (token: String)
    ensures
        token@ == normalize(word@),
{
    let lowered = str_to_lowercase(word);
    keep_letters_and_digits(lowered.as_str())
}

/// Splits `text` into words at whitespace, normalizes each word and keeps
/// the normal forms that are not empty, in the order of the words.
pub fn tokenize(text: &str) -> (tokens: Vec<String>)
    ensures
        tokens.deep_view() == tokens_of(text@),
{
    let found = split_words(text);
    let ghost raw = found.deep_view();
    let mut tokens: Vec<String> = Vec::new();
    proof {
        assert(tokens.deep_view() == Seq::<Seq<char>>::empty());
        assert(raw.take(0) == Seq::<Seq<char>>::empty());
        lemma_no_words_no_tokens();
    }
    for word in it: found
        invariant
            it.seq().len() == raw.len(),
            forall|k: int| 0 <= k < raw.len() ==> raw[k] == #[trigger] it.seq()[k]@,
            tokens.deep_view() == normalize_all(raw.take(it.index())),
    {
        proof {
            assert(raw.take(it.index() + 1) == raw.take(it.index()).push(word@));
            lemma_normalize_all_push(raw.take(it.index()), word@);
        }
        let ghost done = tokens.deep_view();
        let token = normalize_word(word.as_str());
        if !token.as_str().is_empty() {
            tokens.push(token);
            assert(tokens.deep_view() == done.push(token@));
        }
    }
    assert(raw.take(raw.len() as int) == raw);
    tokens
}

/// What a scan from the left knows after the characters `prefix`: the words
/// `closed` that have ended, and the characters `open` of a word that has
/// begun and not ended yet (none when `open` is empty).
spec fn scanned(prefix: Seq<char>, closed: Seq<Seq<char>>, open: Seq<char>) -> bool {
    let ws = words(prefix);
    if open.len() > 0 {
        &&& prefix.len() > 0
        &&& !is_whitespace(prefix.last())
        &&& ws.len() > 0
        &&& ws.last() == open
        &&& closed == ws.drop_last()
    } else {
        &&& prefix.len() > 0 ==> is_whitespace(prefix.last())
        &&& closed == ws
    }
}

/// One more character takes a scan to its next state.
proof fn lemma_scan(prefix: Seq<char>, closed: Seq<Seq<char>>, open: Seq<char>, c: char)
    requires
        scanned(prefix, closed, open),
    ensures
        is_whitespace(c) && open.len() > 0 ==> scanned(
            prefix.push(c),
            closed.push(open),
            Seq::empty(),
        ),
        is_whitespace(c) && open.len() == 0 ==> scanned(prefix.push(c), closed, Seq::empty()),
        !is_whitespace(c) ==> scanned(prefix.push(c), closed, open.push(c)),
{
    let next = prefix.push(c);
    let ws = words(prefix);
    assert(next.drop_last() == prefix);
    if open.len() > 0 {
        assert(ws == ws.drop_last().push(open));
        assert(ws.drop_last().push(open.push(c)).drop_last() == ws.drop_last());
    } else {
        assert(ws.push(seq![c]).drop_last() == ws);
        assert(seq![c] == open.push(c));
    }
}

/// One more word adds its token, where it has one, and leaves the tokens
/// before it as they are.
pub proof fn lemma_normalize_all_push(ws: Seq<Seq<char>>, w: Seq<char>)
    ensures
        normalize(w).len() > 0 ==> normalize_all(ws.push(w)) == normalize_all(ws).push(
            normalize(w),
        ),
        normalize(w).len() == 0 ==> normalize_all(ws.push(w)) == normalize_all(ws),
{
    ws.lemma_push_map_commute(normalizing(), w);
    ws.map_values(normalizing()).lemma_filter_push(normalize(w), non_empty());
}

/// Without words there are no tokens.
pub proof fn lemma_no_words_no_tokens()
    ensures
        normalize_all(Seq::empty()) == Seq::<Seq<char>>::empty(),
{
    let normal = Seq::<Seq<char>>::empty().map_values(normalizing());
    normal.lemma_filter_len(non_empty());
}

/// Whether `word` is in normal form: it is its own lower-case form, and each
/// of its characters is a letter or a digit.
pub open spec fn is_normal(word: Seq<char>) -> bool {
    &&& lowercase(word) == word
    &&& forall|i: int| 0 <= i < word.len() ==> alphanumeric(#[trigger] word[i])
}

/// Whether no character of `text` is whitespace.
pub open spec fn is_unbroken(text: Seq<char>) -> bool {
    forall|i: int| 0 <= i < text.len() ==> !is_whitespace(#[trigger] text[i])
}

/// Whether every character of `text` is whitespace.
pub open spec fn is_blank(text: Seq<char>) -> bool {
    forall|i: int| 0 <= i < text.len() ==> is_whitespace(#[trigger] text[i])
}

/// The function that takes a word to its lower-case form.
pub open spec fn lowering() -> spec_fn(Seq<char>) -> Seq<char> {
    |w: Seq<char>| lowercase(w)
}

/// Whether `a` and `b` have the same number of words and, word for word,
/// the same lower-case forms: they differ at most in the case of their
/// letters and in the whitespace between their words.
pub open spec fn same_ignoring_case(a: Seq<char>, b: Seq<char>) -> bool {
    words(a).map_values(lowering()) == words(b).map_values(lowering())
}

/// A sequence whose elements all pass a test is left as it is by a filter
/// for that test.
proof fn lemma_filter_keeps_all<A>(s: Seq<A>, pred: spec_fn(A) -> bool)
    requires
        forall|i: int| 0 <= i < s.len() ==> pred(#[trigger] s[i]),
    ensures
        s.filter(pred) == s,
    decreases s.len(),
{
    if s.len() == 0 {
        s.lemma_filter_len(pred);
    } else {
        let init = s.drop_last();
        lemma_filter_keeps_all(init, pred);
        init.lemma_filter_push(s.last(), pred);
        assert(init.push(s.last()) == s);
    }
}

/// Normalizing leaves a word in normal form as it is.
pub proof fn lemma_normal_form_is_fixed(word: Seq<char>)
    requires
        is_normal(word),
    ensures
        normalize(word) == word,
{
    lemma_filter_keeps_all(word, letters_and_digits());
}

/// Every character of a normal form is a letter or a digit.
pub proof fn lemma_normalize_keeps_letters_and_digits(word: Seq<char>)
    ensures
        forall|i: int|
            0 <= i < normalize(word).len() ==> alphanumeric(#[trigger] normalize(word)[i]),
{
    assert forall|i: int| 0 <= i < normalize(word).len() implies alphanumeric(
        #[trigger] normalize(word)[i],
    ) by {
        lowercase(word).lemma_filter_pred(letters_and_digits(), i);
    }
}

/// Normalizing twice gives what normalizing once gives, where the normal
/// form is its own lower-case form.
pub proof fn lemma_normalize_twice(word: Seq<char>)
    requires
        lowercase(normalize(word)) == normalize(word),
    ensures
        is_normal(normalize(word)),
        normalize(normalize(word)) == normalize(word),
{
    lemma_normalize_keeps_letters_and_digits(word);
    lemma_normal_form_is_fixed(normalize(word));
}

/// Every token of a text is the normal form of one of its words, holds at
/// least one character, and holds letters and digits only.
pub proof fn lemma_tokens_are_clean(text: Seq<char>, k: int)
    requires
        0 <= k < tokens_of(text).len(),
    ensures
        tokens_of(text)[k].len() > 0,
        exists|j: int|
            0 <= j < words(text).len() && tokens_of(text)[k] == normalize(words(text)[j]),
        forall|i: int|
            0 <= i < tokens_of(text)[k].len() ==> alphanumeric(#[trigger] tokens_of(text)[k][i]),
{
    let normal = words(text).map_values(normalizing());
    let token = tokens_of(text)[k];
    normal.lemma_filter_pred(non_empty(), k);
    normal.lemma_filter_contains_rev(non_empty(), token);
    let j = choose|j: int| 0 <= j < normal.len() && normal[j] == token;
    lemma_normalize_keeps_letters_and_digits(words(text)[j]);
}

/// The normal form of a word of a text is a token of the text, where it is
/// not empty.
pub proof fn lemma_word_gives_token(text: Seq<char>, j: int)
    requires
        0 <= j < words(text).len(),
        normalize(words(text)[j]).len() > 0,
    ensures
        tokens_of(text).contains(normalize(words(text)[j])),
{
    let normal = words(text).map_values(normalizing());
    assert(normal[j] == normalize(words(text)[j]));
    normal.lemma_filter_contains(non_empty(), j);
}

/// A text that ends inside a word has at least one word.
proof fn lemma_words_open_end(text: Seq<char>)
    requires
        text.len() > 0,
        !is_whitespace(text.last()),
    ensures
        words(text).len() > 0,
{
}

/// A text of nothing but whitespace has no words.
pub proof fn lemma_blank_has_no_words(text: Seq<char>)
    requires
        is_blank(text),
    ensures
        words(text) == Seq::<Seq<char>>::empty(),
    decreases text.len(),
{
    if text.len() > 0 {
        lemma_blank_has_no_words(text.drop_last());
    }
}

/// A text of nothing but whitespace has no tokens; the empty text is one.
pub proof fn lemma_blank_has_no_tokens(text: Seq<char>)
    requires
        is_blank(text),
    ensures
        tokens_of(text) == Seq::<Seq<char>>::empty(),
{
    lemma_blank_has_no_words(text);
    lemma_no_words_no_tokens();
}

/// A text without whitespace that is not empty is one word.
pub proof fn lemma_unbroken_is_one_word(word: Seq<char>)
    requires
        word.len() > 0,
        is_unbroken(word),
    ensures
        words(word) == seq![word],
    decreases word.len(),
{
    let init = word.drop_last();
    if init.len() == 0 {
        assert(words(init) == Seq::<Seq<char>>::empty());
        assert(seq![word.last()] == word);
    } else {
        lemma_unbroken_is_one_word(init);
        assert(init.push(word.last()) == word);
    }
}

/// The tokens of a single word: its normal form, where that is not empty.
pub proof fn lemma_tokens_of_word(word: Seq<char>)
    requires
        word.len() > 0,
        is_unbroken(word),
    ensures
        normalize(word).len() > 0 ==> tokens_of(word) == seq![normalize(word)],
        normalize(word).len() == 0 ==> tokens_of(word) == Seq::<Seq<char>>::empty(),
{
    lemma_unbroken_is_one_word(word);
    lemma_no_words_no_tokens();
    lemma_normalize_all_push(Seq::empty(), word);
}

/// A word in normal form that holds no whitespace is its own single token.
pub proof fn lemma_normal_word_is_its_token(word: Seq<char>)
    requires
        word.len() > 0,
        is_unbroken(word),
        is_normal(word),
    ensures
        tokens_of(word) == seq![word],
{
    lemma_normal_form_is_fixed(word);
    lemma_tokens_of_word(word);
}

/// The words of two texts with one whitespace character between them are
/// the words of the first and then those of the second.
pub proof fn lemma_words_joined(a: Seq<char>, sep: char, b: Seq<char>)
    requires
        is_whitespace(sep),
    ensures
        words(a + seq![sep] + b) == words(a) + words(b),
    decreases b.len(),
{
    let head = a + seq![sep];
    if b.len() == 0 {
        assert(head.drop_last() == a);
    } else {
        // The last character of `b` does to the words of the whole text what
        // it does to the words of `b`.
        let init = b.drop_last();
        lemma_words_joined(a, sep, init);
        assert((head + b).drop_last() == head + init);
        if init.len() > 0 && !is_whitespace(init.last()) {
            lemma_words_open_end(init);
        }
    }
}

/// The tokens of words put one behind the other are the tokens of the first
/// and then those of the second.
pub proof fn lemma_normalize_all_concat(x: Seq<Seq<char>>, y: Seq<Seq<char>>)
    ensures
        normalize_all(x + y) == normalize_all(x) + normalize_all(y),
{
    assert((x + y).map_values(normalizing()) == x.map_values(normalizing()) + y.map_values(
        normalizing(),
    ));
    Seq::filter_distributes_over_add(
        x.map_values(normalizing()),
        y.map_values(normalizing()),
        non_empty(),
    );
}

/// The tokens of two texts with one whitespace character between them are
/// the tokens of the first and then those of the second.
pub proof fn lemma_tokens_joined(a: Seq<char>, sep: char, b: Seq<char>)
    requires
        is_whitespace(sep),
    ensures
        tokens_of(a + seq![sep] + b) == tokens_of(a) + tokens_of(b),
{
    lemma_words_joined(a, sep, b);
    lemma_normalize_all_concat(words(a), words(b));
}

/// Texts that differ at most in the case of their letters and in the
/// whitespace between their words have the same tokens.
pub proof fn lemma_tokens_ignore_case(a: Seq<char>, b: Seq<char>)
    requires
        same_ignoring_case(a, b),
    ensures
        tokens_of(a) == tokens_of(b),
{
    let lower = lowering();
    let wa = words(a);
    let wb = words(b);
    assert(wa.map_values(lower).len() == wb.map_values(lower).len());
    assert forall|j: int| 0 <= j < wa.len() implies normalize(wa[j]) == normalize(wb[j]) by {
        assert(wa.map_values(lower)[j] == wb.map_values(lower)[j]);
    }
    assert(wa.map_values(normalizing()) == wb.map_values(normalizing()));
}

/// Two single words with the same lower-case form have the same tokens.
pub proof fn lemma_word_tokens_ignore_case(a: Seq<char>, b: Seq<char>)
    requires
        a.len() > 0,
        b.len() > 0,
        is_unbroken(a),
        is_unbroken(b),
        lowercase(a) == lowercase(b),
    ensures
        same_ignoring_case(a, b),
        tokens_of(a) == tokens_of(b),
{
    lemma_unbroken_is_one_word(a);
    lemma_unbroken_is_one_word(b);
    assert(seq![a].map_values(lowering()) == seq![b].map_values(lowering()));
    lemma_tokens_ignore_case(a, b);
}

} // verus!
