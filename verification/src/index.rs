//! The word index: a corpus of lines and the inverted index over it.

use crate::listing::{ascending_listing, common_numbers, strictly_ascending};
use crate::postings::{indexes, occurs, occurs_somewhere, PostingsBuilder};
use crate::tokenizer::{
    is_blank, is_unbroken, lemma_blank_has_no_tokens, lemma_tokens_ignore_case,
    lemma_tokens_joined, lemma_tokens_of_word, lemma_word_gives_token,
    lemma_word_tokens_ignore_case, normalize, same_ignoring_case, tokenize, tokens_of, words,
};
use crate::trusted::lowercase;
use vstd::hash_map::StringHashMap;
use vstd::prelude::*;

verus! {

/// What a word index stands for: the lines of the corpus, and for each token
/// of the index the set of the numbers of the lines listed under it.
pub struct IndexView {
    pub lines: Seq<Seq<char>>,
    pub postings: Map<Seq<char>, Set<usize>>,
}

impl IndexView {
    /// The numbers listed under `token`; none where `token` is no key.
    pub open spec fn lines_with(self, token: Seq<char>) -> Set<usize> {
        if self.postings.contains_key(token) {
            self.postings[token]
        } else {
            Set::empty()
        }
    }

    /// The numbers that are listed under every token of `tokens`; none where
    /// `tokens` is empty.
    pub open spec fn hits(self, tokens: Seq<Seq<char>>) -> Set<usize> {
        Set::new(
            |n: usize|
                tokens.len() > 0 && forall|k: int|
                    0 <= k < tokens.len() ==> self.lines_with(#[trigger] tokens[k]).contains(n),
        )
    }

    /// The numbers that a search for `query` finds.
    pub open spec fn search(self, query: Seq<char>) -> Set<usize> {
        self.hits(tokens_of(query))
    }

    /// Whether the corpus has a line `n` and that line holds every token of
    /// `tokens`, of which there is at least one.
    pub open spec fn holds_all(self, n: usize, tokens: Seq<Seq<char>>) -> bool {
        &&& n < self.lines.len()
        &&& tokens.len() > 0
        &&& forall|k: int|
            0 <= k < tokens.len() ==> tokens_of(self.lines[n as int]).contains(#[trigger] tokens[k])
    }

    /// The line with the number `line_number`, where the corpus has one.
    pub open spec fn fetch(self, line_number: usize) -> Option<Seq<char>> {
        if line_number < self.lines.len() {
            Some(self.lines[line_number as int])
        } else {
            None
        }
    }
}

/// The function that takes a line to its tokens.
pub open spec fn tokenizing() -> spec_fn(Seq<char>) -> Seq<Seq<char>> {
    |line: Seq<char>| tokens_of(line)
}

/// The tokens of each line of `lines`.
pub open spec fn token_lists(lines: Seq<Seq<char>>) -> Seq<Seq<Seq<char>>> {
    lines.map_values(tokenizing())
}

/// The index of the corpus `lines`: its keys are the tokens that occur on
/// some line, and each key has the numbers of the lines on which it occurs.
pub open spec fn index_of(lines: Seq<Seq<char>>) -> IndexView {
    IndexView {
        lines,
        postings: Map::new(
            |t: Seq<char>| occurs_somewhere(token_lists(lines), t),
            |t: Seq<char>| Set::new(|n: usize| occurs(token_lists(lines), t, n)),
        ),
    }
}

/// A corpus of lines with an inverted index from tokens to line numbers.
pub struct WordIndex {
    /// The lines of the corpus; the number of a line is its position here.
    pub lines: Vec<String>,
    /// For each token, the numbers of the lines on which it occurs.
    pub index: StringHashMap<Vec<usize>>,
}

impl View for WordIndex {
    type V = IndexView;

    open spec fn view(&self) -> IndexView {
        IndexView {
            lines: self.lines.deep_view(),
            postings: Map::new(
                |t: Seq<char>| self.index@.contains_key(t),
                |t: Seq<char>| self.index@[t]@.to_set(),
            ),
        }
    }
}

impl WordIndex {
    /// Whether the index is the index of the corpus: its keys are the tokens
    /// of the lines, each key lists the numbers of the lines that hold it,
    /// and no list holds a number twice.
    pub open spec fn wf(&self) -> bool {
        &&& self@ == index_of(self@.lines)
        &&& forall|t: Seq<char>| #[trigger]
            self.index@.contains_key(t) ==> self.index@[t]@.no_duplicates()
    }

    /// Builds the index of a corpus. The lines are tokenized one by one, in
    /// order; the number of a line is its position in `lines`.
    pub fn new(lines: Vec<String>) -> (built: WordIndex)
        ensures
            built.lines == lines,
            indexes(built.index@, token_lists(lines.deep_view())),
            built.wf(),
    {
        let ghost corpus = lines.deep_view();
        let mut builder = PostingsBuilder::new();
        let mut i: usize = 0;
        while i < lines.len()
            invariant
                i <= lines.len(),
                corpus == lines.deep_view(),
                builder.wf(),
                builder@ == token_lists(corpus).take(i as int),
            decreases lines.len() - i,
        {
            let tokens = tokenize(lines[i].as_str());
            assert(token_lists(corpus).take(i + 1) == token_lists(corpus).take(i as int).push(
                tokens.deep_view(),
            ));
            builder.push_line(tokens);
            i += 1;
        }
        assert(token_lists(corpus).take(lines.len() as int) == token_lists(corpus));
        let index = builder.finish();
        let built = WordIndex { lines, index };
        proof {
            lemma_indexes_is_index_of(built.index@, corpus);
        }
        built
    }

    /// Finds the lines that are listed under every one of `tokens`, which are
    /// looked up as they are. The result is in rising order and holds no
    /// number twice; it is empty where `tokens` is empty or one of them is no
    /// key of the index.
    pub fn search_tokens(&self, tokens: &Vec<String>) -> (found: Vec<usize>)
        ensures
            strictly_ascending(found@),
            found@.to_set() == self@.hits(tokens.deep_view()),
            self.wf() ==> forall|n: usize|
                found@.contains(n) <==> self@.holds_all(n, tokens.deep_view()),
    {
        let ghost wanted = tokens.deep_view();
        proof {
            if self.wf() {
                lemma_hits_are_lines_with_all(self@.lines, wanted);
            }
        }
        if tokens.len() == 0 {
            return Vec::new();
        }
        let mut candidates: Vec<usize> = match self.index.get(tokens[0].as_str()) {
            Some(list) => list.clone(),
            None => {
                proof {
                    lemma_hits_within(self@, wanted, 0);
                }
                return Vec::new();
            },
        };
        proof {
            lemma_hits_push(self@, wanted.take(0), wanted[0]);
            assert(wanted.take(1) == wanted.take(0).push(wanted[0]));
        }
        let mut k: usize = 1;
        while k < tokens.len()
            invariant
                1 <= k <= tokens.len(),
                wanted == tokens.deep_view(),
                candidates@.to_set() == self@.hits(wanted.take(k as int)),
                self.wf() ==> forall|n: usize|
                    self@.hits(wanted).contains(n) <==> self@.holds_all(n, wanted),
            decreases tokens.len() - k,
        {
            match self.index.get(tokens[k].as_str()) {
                Some(list) => {
                    candidates = common_numbers(&candidates, list);
                },
                None => {
                    proof {
                        lemma_hits_within(self@, wanted, k as int);
                    }
                    return Vec::new();
                },
            }
            proof {
                lemma_hits_push(self@, wanted.take(k as int), wanted[k as int]);
                assert(wanted.take(k + 1) == wanted.take(k as int).push(wanted[k as int]));
            }
            k += 1;
        }
        assert(wanted.take(tokens.len() as int) == wanted);
        ascending_listing(candidates)
    }

    /// Finds the lines that hold every token of `query`. The result is in
    /// rising order and holds no number twice; it is empty where `query` has
    /// no token or one of its tokens is no key of the index.
    pub fn search(&self, query: &str) -> (found: Vec<usize>)
        ensures
            strictly_ascending(found@),
            found@.to_set() == self@.search(query@),
            self.wf() ==> forall|n: usize|
                found@.contains(n) <==> self@.holds_all(n, tokens_of(query@)),
    {
        let tokens = tokenize(query);
        self.search_tokens(&tokens)
    }

    /// Hands out a copy of the line with the number `line_number`, or `None`
    /// where the corpus has no such line.
    pub fn fetch(&self, line_number: usize) -> (line: Option<String>)
        ensures
            line is Some <==> line_number < self.lines.len(),
            line matches Some(text) ==> self@.fetch(line_number) == Some(text@),
            line is None ==> self@.fetch(line_number) is None,
    {
        if line_number < self.lines.len() {
            Some(self.lines[line_number].clone())
        } else {
            None
        }
    }
}

/// An inverted index of the token lists of a corpus stands for the index of
/// that corpus.
pub proof fn lemma_indexes_is_index_of(index: Map<Seq<char>, Vec<usize>>, lines: Seq<Seq<char>>)
    requires
        indexes(index, token_lists(lines)),
    ensures
        Map::new(|t: Seq<char>| index.contains_key(t), |t: Seq<char>| index[t]@.to_set())
            == index_of(lines).postings,
{
    let left = Map::new(|t: Seq<char>| index.contains_key(t), |t: Seq<char>| index[t]@.to_set());
    let right = index_of(lines).postings;
    assert forall|t: Seq<char>| left.contains_key(t) implies left[t] == right[t] by {
        assert(left[t] =~= right[t]);
    }
    assert(left =~= right);
}

/// A number that a search finds is listed under each of the tokens.
pub proof fn lemma_hits_within(index: IndexView, tokens: Seq<Seq<char>>, k: int)
    requires
        0 <= k < tokens.len(),
    ensures
        index.hits(tokens).subset_of(index.lines_with(tokens[k])),
{
}

/// One more token narrows a search to the lines listed under that token too;
/// the first token gives the lines listed under it.
pub proof fn lemma_hits_push(index: IndexView, tokens: Seq<Seq<char>>, token: Seq<char>)
    ensures
        tokens.len() == 0 ==> index.hits(tokens.push(token)) == index.lines_with(token),
        tokens.len() > 0 ==> index.hits(tokens.push(token)) == index.hits(tokens).intersect(
            index.lines_with(token),
        ),
{
    let more = tokens.push(token);
    assert forall|n: usize| index.hits(more).contains(n) <==> (index.lines_with(token).contains(n)
        && (tokens.len() == 0 || index.hits(tokens).contains(n))) by {
        if index.hits(more).contains(n) {
            assert(index.lines_with(more[tokens.len() as int]).contains(n));
            assert forall|k: int| 0 <= k < tokens.len() implies index.lines_with(
                #[trigger] tokens[k],
            ).contains(n) by {
                assert(more[k] == tokens[k]);
            }
        }
    }
}

/// Under a token, the index of a corpus lists the lines that hold it.
pub proof fn lemma_index_lists_occurrences(lines: Seq<Seq<char>>, token: Seq<char>)
    ensures
        index_of(lines).lines_with(token) == Set::new(
            |n: usize| n < lines.len() && tokens_of(lines[n as int]).contains(token),
        ),
{
    let holding = Set::new(
        |n: usize| n < lines.len() && tokens_of(lines[n as int]).contains(token),
    );
    assert forall|n: usize| holding.contains(n) implies index_of(lines).lines_with(token).contains(
        n,
    ) by {
        assert(occurs(token_lists(lines), token, n));
    }
    assert(index_of(lines).lines_with(token) =~= holding);
}

/// In the index of a corpus, a search for some tokens finds the lines that
/// hold all of them, and no others.
pub proof fn lemma_hits_are_lines_with_all(lines: Seq<Seq<char>>, tokens: Seq<Seq<char>>)
    ensures
        forall|n: usize|
            index_of(lines).hits(tokens).contains(n) <==> index_of(lines).holds_all(n, tokens),
{
    let index = index_of(lines);
    assert forall|n: usize| index.hits(tokens).contains(n) <==> index.holds_all(n, tokens) by {
        if index.hits(tokens).contains(n) {
            lemma_index_lists_occurrences(lines, tokens[0]);
            assert forall|k: int| 0 <= k < tokens.len() implies tokens_of(
                lines[n as int],
            ).contains(#[trigger] tokens[k]) by {
                lemma_index_lists_occurrences(lines, tokens[k]);
            }
        }
        if index.holds_all(n, tokens) {
            assert forall|k: int| 0 <= k < tokens.len() implies index.lines_with(
                #[trigger] tokens[k],
            ).contains(n) by {
                lemma_index_lists_occurrences(lines, tokens[k]);
            }
        }
    }
}

/// Every line number that the index of a corpus lists is the number of a
/// line of the corpus, and every key is a token of some line.
pub proof fn lemma_index_stays_in_corpus(lines: Seq<Seq<char>>, token: Seq<char>)
    ensures
        forall|n: usize| index_of(lines).lines_with(token).contains(n) ==> n < lines.len(),
        index_of(lines).postings.contains_key(token) <==> exists|n: usize|
            n < lines.len() && tokens_of(lines[n as int]).contains(token),
{
    lemma_index_lists_occurrences(lines, token);
    if index_of(lines).postings.contains_key(token) {
        let n = choose|n: usize| occurs(token_lists(lines), token, n);
        assert(n < lines.len() && tokens_of(lines[n as int]).contains(token));
    }
    if exists|n: usize| n < lines.len() && tokens_of(lines[n as int]).contains(token) {
        let n = choose|n: usize| n < lines.len() && tokens_of(lines[n as int]).contains(token);
        assert(occurs(token_lists(lines), token, n));
    }
}

/// A search for tokens that are all among the tokens of another search finds
/// every line that the other search finds, where it asks for a token at all.
pub proof fn lemma_hits_of_fewer_tokens(index: IndexView, a: Seq<Seq<char>>, b: Seq<Seq<char>>)
    requires
        b.len() > 0,
        b.to_set().subset_of(a.to_set()),
    ensures
        index.hits(a).subset_of(index.hits(b)),
{
    assert forall|n: usize| index.hits(a).contains(n) implies index.hits(b).contains(n) by {
        assert forall|k: int| 0 <= k < b.len() implies index.lines_with(#[trigger] b[k]).contains(
            n,
        ) by {
            assert(b.to_set().contains(b[k]));
            let j = choose|j: int| 0 <= j < a.len() && a[j] == b[k];
            assert(index.lines_with(a[j]).contains(n));
        }
    }
}

/// What a search finds depends on which tokens are asked for, not on their
/// order nor on how often one is repeated.
pub proof fn lemma_hits_depend_on_token_set(
    index: IndexView,
    a: Seq<Seq<char>>,
    b: Seq<Seq<char>>,
)
    requires
        a.to_set() == b.to_set(),
    ensures
        index.hits(a) == index.hits(b),
{
    if a.len() > 0 {
        assert(a.to_set().contains(a[0]));
        assert(b.contains(a[0]));
    }
    if b.len() > 0 {
        assert(b.to_set().contains(b[0]));
        assert(a.contains(b[0]));
    }
    if a.len() > 0 {
        lemma_hits_of_fewer_tokens(index, a, b);
        lemma_hits_of_fewer_tokens(index, b, a);
    }
    assert(index.hits(a) =~= index.hits(b));
}

/// A search for the tokens of two lists, neither of them empty, finds the
/// lines that a search for the first finds and a search for the second finds
/// too.
pub proof fn lemma_hits_concat(index: IndexView, a: Seq<Seq<char>>, b: Seq<Seq<char>>)
    requires
        a.len() > 0,
        b.len() > 0,
    ensures
        index.hits(a + b) == index.hits(a).intersect(index.hits(b)),
{
    let both = a + b;
    assert forall|n: usize| index.hits(both).contains(n) <==> (index.hits(a).contains(n)
        && index.hits(b).contains(n)) by {
        if index.hits(both).contains(n) {
            assert forall|k: int| 0 <= k < a.len() implies index.lines_with(
                #[trigger] a[k],
            ).contains(n) by {
                assert(both[k] == a[k]);
            }
            assert forall|k: int| 0 <= k < b.len() implies index.lines_with(
                #[trigger] b[k],
            ).contains(n) by {
                assert(both[a.len() + k] == b[k]);
            }
        }
    }
    assert(index.hits(both) =~= index.hits(a).intersect(index.hits(b)));
}

/// A search for two queries with a space between them finds the lines that
/// a search for the first finds and a search for the second finds too,
/// where each of the two queries has a token.
pub proof fn lemma_search_is_conjunctive(index: IndexView, a: Seq<char>, b: Seq<char>)
    requires
        tokens_of(a).len() > 0,
        tokens_of(b).len() > 0,
    ensures
        index.search(a + seq![' '] + b) == index.search(a).intersect(index.search(b)),
{
    lemma_tokens_joined(a, ' ', b);
    lemma_hits_concat(index, tokens_of(a), tokens_of(b));
}

/// A search finds nothing where one of the tokens asked for is no key of the
/// index, whatever the other tokens are.
pub proof fn lemma_unknown_token_finds_nothing(index: IndexView, tokens: Seq<Seq<char>>, k: int)
    requires
        0 <= k < tokens.len(),
        !index.postings.contains_key(tokens[k]),
    ensures
        index.hits(tokens) == Set::<usize>::empty(),
{
    lemma_hits_within(index, tokens, k);
    assert(index.hits(tokens) =~= Set::<usize>::empty());
}

/// A search in the index of a corpus finds nothing where one of the tokens
/// of the query occurs on no line of the corpus, whatever the other tokens
/// are.
pub proof fn lemma_absent_token_finds_nothing(lines: Seq<Seq<char>>, query: Seq<char>, k: int)
    requires
        0 <= k < tokens_of(query).len(),
        forall|n: usize|
            n < lines.len() ==> !(#[trigger] tokens_of(lines[n as int])).contains(
                tokens_of(query)[k],
            ),
    ensures
        index_of(lines).search(query) == Set::<usize>::empty(),
{
    lemma_index_stays_in_corpus(lines, tokens_of(query)[k]);
    lemma_unknown_token_finds_nothing(index_of(lines), tokens_of(query), k);
}

/// A search for a query of nothing but whitespace finds nothing; the empty
/// query is such a query.
pub proof fn lemma_blank_query_finds_nothing(index: IndexView, query: Seq<char>)
    requires
        is_blank(query),
    ensures
        index.search(query) == Set::<usize>::empty(),
{
    lemma_blank_has_no_tokens(query);
    assert(index.search(query) =~= Set::<usize>::empty());
}

/// Queries that differ at most in the case of their letters and in the
/// whitespace between their words find the same lines.
pub proof fn lemma_search_ignores_case(index: IndexView, a: Seq<char>, b: Seq<char>)
    requires
        same_ignoring_case(a, b),
    ensures
        index.search(a) == index.search(b),
{
    lemma_tokens_ignore_case(a, b);
}

/// Two single words with the same lower-case form find the same lines.
pub proof fn lemma_word_search_ignores_case(index: IndexView, a: Seq<char>, b: Seq<char>)
    requires
        a.len() > 0,
        b.len() > 0,
        is_unbroken(a),
        is_unbroken(b),
        lowercase(a) == lowercase(b),
    ensures
        index.search(a) == index.search(b),
{
    lemma_word_tokens_ignore_case(a, b);
}

/// Two single words with the same normal form find the same lines: what
/// normalizing takes away from a word, such as punctuation around it, makes
/// no difference to a search.
pub proof fn lemma_word_search_depends_on_normal_form(
    index: IndexView,
    a: Seq<char>,
    b: Seq<char>,
)
    requires
        a.len() > 0,
        b.len() > 0,
        is_unbroken(a),
        is_unbroken(b),
        normalize(a) == normalize(b),
    ensures
        index.search(a) == index.search(b),
{
    lemma_tokens_of_word(a);
    lemma_tokens_of_word(b);
}

/// In the index of a corpus, a search for a single word finds every line
/// that has a word with the same normal form, where that form is not empty:
/// neither the case of the letters nor what stands around them has to be
/// the same in the line and in the query.
pub proof fn lemma_word_search_finds_line(
    lines: Seq<Seq<char>>,
    query: Seq<char>,
    n: usize,
    j: int,
)
    requires
        query.len() > 0,
        is_unbroken(query),
        normalize(query).len() > 0,
        n < lines.len(),
        0 <= j < words(lines[n as int]).len(),
        normalize(words(lines[n as int])[j]) == normalize(query),
    ensures
        index_of(lines).search(query).contains(n),
{
    lemma_tokens_of_word(query);
    lemma_word_gives_token(lines[n as int], j);
    lemma_hits_are_lines_with_all(lines, tokens_of(query));
    assert(tokens_of(query)[0] == normalize(query));
    assert(index_of(lines).holds_all(n, tokens_of(query)));
}

} // verus!
