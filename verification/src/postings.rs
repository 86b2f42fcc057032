//! Building the inverted index line by line.

use crate::listing::strictly_ascending;
use vstd::hash_map::StringHashMap;
use vstd::prelude::*;

verus! {

/// Whether line `n` of `recorded` holds `token`, where `recorded` gives for
/// each line the tokens found on it.
pub open spec fn occurs(recorded: Seq<Seq<Seq<char>>>, token: Seq<char>, n: usize) -> bool {
    n < recorded.len() && recorded[n as int].contains(token)
}

/// Whether some line of `recorded` holds `token`.
pub open spec fn occurs_somewhere(recorded: Seq<Seq<Seq<char>>>, token: Seq<char>) -> bool {
    exists|n: usize| occurs(recorded, token, n)
}

/// Whether `index` is the inverted index of `recorded`: its keys are the
/// tokens that occur on some line, and the list of a key holds, in rising
/// order and each of them once, the numbers of the lines that hold the key.
pub open spec fn indexes(
    index: Map<Seq<char>, Vec<usize>>,
    recorded: Seq<Seq<Seq<char>>>,
) -> bool {
    &&& forall|t: Seq<char>| #[trigger] index.contains_key(t) <==> occurs_somewhere(recorded, t)
    &&& forall|t: Seq<char>| #[trigger]
        index.contains_key(t) ==> strictly_ascending(index[t]@)
    &&& forall|t: Seq<char>, n: usize|
        index.contains_key(t) ==> (#[trigger] index[t]@.contains(n) <==> occurs(recorded, t, n))
}

/// An inverted index under construction.
///
/// Lines are recorded in order, each with the tokens found on it; the first
/// line recorded has the number 0. `finish` hands out the index of the lines
/// recorded so far.
pub struct PostingsBuilder {
    /// For each token seen so far, its position in `keys` and `postings`.
    slots: StringHashMap<usize>,
    /// The tokens seen so far, each of them once.
    keys: Vec<String>,
    /// For each token of `keys`, the numbers of the lines that hold it.
    postings: Vec<Vec<usize>>,
    /// The number of lines recorded so far.
    lines: usize,
    /// The tokens of the lines recorded so far.
    recorded: Ghost<Seq<Seq<Seq<char>>>>,
}

impl View for PostingsBuilder {
    type V = Seq<Seq<Seq<char>>>;

    /// The tokens of the lines recorded so far, line by line.
    closed spec fn view(&self) -> Seq<Seq<Seq<char>>> {
        self.recorded@
    }
}

/// A token that is added to the last line occurs there, and nothing else
/// changes.
proof fn lemma_occurs_one_more(
    before: Seq<Seq<Seq<char>>>,
    partial: Seq<Seq<char>>,
    token: Seq<char>,
    t: Seq<char>,
    n: usize,
)
    ensures
        occurs(before.push(partial.push(token)), t, n) <==> (occurs(before.push(partial), t, n) || (
        t == token && n == before.len())),
{
    if n == before.len() {
        if partial.contains(t) {
            let i = choose|i: int| 0 <= i < partial.len() && partial[i] == t;
            assert(partial.push(token)[i] == t);
        }
        if t == token {
            assert(partial.push(token)[partial.len() as int] == t);
        }
    }
}

/// A line without tokens adds no occurrence.
proof fn lemma_occurs_empty_line(before: Seq<Seq<Seq<char>>>, t: Seq<char>, n: usize)
    ensures
        occurs(before.push(Seq::empty()), t, n) <==> occurs(before, t, n),
{
}

impl PostingsBuilder {
    /// Whether the tables of the builder describe the lines `recorded`.
    closed spec fn consistent(&self, recorded: Seq<Seq<Seq<char>>>) -> bool {
        &&& self.keys.len() == self.postings.len()
        &&& forall|j: int|
            0 <= j < self.keys.len() ==> self.slots@.contains_key(#[trigger] self.keys[j]@)
                && self.slots@[self.keys[j]@] == j
        &&& forall|t: Seq<char>| #[trigger]
            self.slots@.contains_key(t) ==> self.slots@[t] < self.keys.len()
                && self.keys[self.slots@[t] as int]@ == t
        &&& forall|j: int|
            0 <= j < self.postings.len() ==> strictly_ascending(#[trigger] self.postings[j]@)
                && self.postings[j]@.len() > 0
        &&& forall|j: int, n: usize|
            0 <= j < self.postings.len() ==> (#[trigger] self.postings[j]@.contains(n) <==> occurs(
                recorded,
                self.keys[j]@,
                n,
            ))
        &&& forall|t: Seq<char>, n: usize| #[trigger]
            occurs(recorded, t, n) ==> self.slots@.contains_key(t)
    }

    /// The invariant of the builder: its tables describe the lines recorded
    /// so far.
    pub closed spec fn wf(&self) -> bool {
        &&& self.lines == self.recorded@.len()
        &&& self.consistent(self.recorded@)
    }

    /// A builder that has recorded no line.
    pub fn new() -> (builder: PostingsBuilder)
        ensures
            builder.wf(),
            builder@ == Seq::<Seq<Seq<char>>>::empty(),
    {
        PostingsBuilder {
            slots: StringHashMap::new(),
            keys: Vec::new(),
            postings: Vec::new(),
            lines: 0,
            recorded: Ghost(Seq::empty()),
        }
    }

    /// The number of lines recorded so far.
    pub fn len(&self) -> (n: usize)
        requires
            self.wf(),
        ensures
            n == self@.len(),
    {
        self.lines
    }

    /// Notes that `token` occurs on line `line`, the line being recorded.
    fn record(
        &mut self,
        token: String,
        line: usize,
        Ghost(before): Ghost<Seq<Seq<Seq<char>>>>,
        Ghost(partial): Ghost<Seq<Seq<char>>>,
    )
        requires
            line == before.len(),
            old(self).consistent(before.push(partial)),
        ensures
            final(self).consistent(before.push(partial.push(token@))),
            final(self).lines == old(self).lines,
            final(self).recorded == old(self).recorded,
    {
        let ghost cur = before.push(partial);
        let ghost next = before.push(partial.push(token@));
        proof {
            assert forall|t: Seq<char>, n: usize| occurs(next, t, n) <==> (occurs(cur, t, n) || (t
                == token@ && n == line)) by {
                lemma_occurs_one_more(before, partial, token@, t, n);
            }
        }
        let found = match self.slots.get(token.as_str()) {
            Some(slot) => Some(*slot),
            None => None,
        };
        match found {
            Some(slot) => {
                let ghost list = self.postings[slot as int]@;
                let last = self.postings[slot][self.postings[slot].len() - 1];
                proof {
                    assert(list.contains(list.last()));
                }
                if last != line {
                    self.postings[slot].push(line);
                    proof {
                        let grown = self.postings[slot as int]@;
                        assert forall|a: int, b: int| 0 <= a < b < grown.len() implies grown[a]
                            < grown[b] by {
                            if b == grown.len() - 1 {
                                assert(list.contains(list[a]));
                            }
                        }
                        assert forall|n: usize| grown.contains(n) <==> (list.contains(n) || n
                            == line) by {
                            if list.contains(n) {
                                let i = choose|i: int| 0 <= i < list.len() && list[i] == n;
                                assert(grown[i] == n);
                            }
                            if n == line {
                                assert(grown[list.len() as int] == n);
                            }
                        }
                    }
                }
            },
            None => {
                let slot = self.keys.len();
                let mut list: Vec<usize> = Vec::new();
                list.push(line);
                self.slots.insert(token.clone(), slot);
                self.keys.push(token);
                self.postings.push(list);
                proof {
                    assert forall|n: usize| list@.contains(n) <==> n == line by {
                        if n == line {
                            assert(list@[0] == n);
                        }
                    }
                }
            },
        }
    }

    /// Records the next line, on which the tokens `tokens` were found.
    pub fn push_line(&mut self, tokens: Vec<String>)
        requires
            old(self).wf(),
            old(self)@.len() < usize::MAX,
        ensures
            final(self).wf(),
            final(self)@ == old(self)@.push(tokens.deep_view()),
    {
        let line = self.lines;
        let ghost before = self.recorded@;
        let ghost found = tokens.deep_view();
        let ghost items = tokens@;
        proof {
            let begun = before.push(found.take(0));
            assert forall|t: Seq<char>, n: usize| #[trigger]
                occurs(begun, t, n) <==> occurs(before, t, n) by {
                lemma_occurs_empty_line(before, t, n);
            }
        }
        for token in it: tokens
            invariant
                it.seq() == items,
                found.len() == items.len(),
                forall|k: int| 0 <= k < items.len() ==> found[k] == #[trigger] items[k]@,
                line == before.len(),
                self.lines == line,
                self.recorded@ == before,
                self.consistent(before.push(found.take(it.index()))),
        {
            proof {
                assert(found.take(it.index() + 1) == found.take(it.index()).push(token@));
            }
            self.record(token, line, Ghost(before), Ghost(found.take(it.index())));
        }
        proof {
            assert(found.take(found.len() as int) == found);
        }
        self.lines = line + 1;
        self.recorded = Ghost(before.push(found));
    }

    /// Hands out the inverted index of the lines recorded.
    pub fn finish(self) -> (index: StringHashMap<Vec<usize>>)
        requires
            self.wf(),
        ensures
            indexes(index@, self@),
    {
        let ghost recorded = self.recorded@;
        let ghost all_keys = self.keys@;
        let ghost all_postings = self.postings@;
        let ghost slots = self.slots@;
        let mut keys = self.keys;
        let mut postings = self.postings;
        let mut index: StringHashMap<Vec<usize>> = StringHashMap::new();
        while keys.len() > 0
            invariant
                all_keys.len() == all_postings.len(),
                keys@ == all_keys.take(keys.len() as int),
                postings@ == all_postings.take(keys.len() as int),
                keys.len() <= all_keys.len(),
                forall|i: int, j: int|
                    0 <= i < all_keys.len() && 0 <= j < all_keys.len() && all_keys[i]@
                        == all_keys[j]@ ==> i == j,
                forall|t: Seq<char>| #[trigger]
                    index@.contains_key(t) <==> exists|j: int|
                        keys.len() <= j < all_keys.len() && #[trigger] all_keys[j]@ == t,
                forall|j: int|
                    keys.len() <= j < all_keys.len() ==> index@[#[trigger] all_keys[j]@]
                        == all_postings[j],
            decreases keys.len(),
        {
            let ghost rest = keys.len() - 1;
            let key = keys.pop().unwrap();
            let list = postings.pop().unwrap();
            let ghost earlier = index@;
            index.insert(key, list);
            proof {
                assert forall|t: Seq<char>| #[trigger]
                    index@.contains_key(t) <==> exists|j: int|
                        keys.len() <= j < all_keys.len() && #[trigger] all_keys[j]@ == t by {
                    if earlier.contains_key(t) {
                        let j = choose|j: int|
                            rest + 1 <= j < all_keys.len() && #[trigger] all_keys[j]@ == t;
                        assert(keys.len() <= j < all_keys.len() && all_keys[j]@ == t);
                    }
                    if t == key@ {
                        assert(all_keys[rest]@ == t);
                    }
                }
            }
        }
        proof {
            assert forall|t: Seq<char>| #[trigger]
                index@.contains_key(t) <==> occurs_somewhere(recorded, t) by {
                if index@.contains_key(t) {
                    // The list of a key is not empty: its first number is
                    // a line that holds the key.
                    let j = choose|j: int| 0 <= j < all_keys.len() && #[trigger] all_keys[j]@ == t;
                    assert(all_postings[j]@.contains(all_postings[j][0]));
                }
                if occurs_somewhere(recorded, t) {
                    assert(all_keys[slots[t] as int]@ == t);
                }
            }
            assert forall|t: Seq<char>| #[trigger]
                index@.contains_key(t) implies strictly_ascending(index@[t]@) by {
                let j = choose|j: int| 0 <= j < all_keys.len() && #[trigger] all_keys[j]@ == t;
                assert(index@[t] == all_postings[j]);
            }
            assert forall|t: Seq<char>, n: usize| index@.contains_key(t) implies (
            #[trigger] index@[t]@.contains(n) <==> occurs(recorded, t, n)) by {
                let j = choose|j: int| 0 <= j < all_keys.len() && #[trigger] all_keys[j]@ == t;
                assert(index@[t] == all_postings[j]);
            }
        }
        index
    }
}

} // verus!
