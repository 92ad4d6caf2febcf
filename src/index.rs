use vstd::prelude::*;

use std::collections::HashMap;

use crate::board::view_all;
use crate::words::{strings_view, word_chars};
use vstd::utf8::char_u32_cast;

verus! {

broadcast use vstd::std_specs::hash::group_hash_axioms;

/// The positions, in increasing order, of those among the first `n` words
/// that start with `c`.
pub open spec fn starting_with_upto(words: Seq<Seq<char>>, c: char, n: nat) -> Seq<usize>
    decreases n,
{
    if n == 0 {
        Seq::empty()
    } else {
        let rest = starting_with_upto(words, c, (n - 1) as nat);
        if words[n - 1].len() > 0 && words[n - 1][0] == c {
            rest.push((n - 1) as usize)
        } else {
            rest
        }
    }
}

/// The positions, in increasing order, of the words that start with `c`.
pub open spec fn starting_with(words: Seq<Seq<char>>, c: char) -> Seq<usize> {
    starting_with_upto(words, c, words.len())
}

/// What a map keyed by code point holds for `c`; nothing when `c` is absent.
pub open spec fn group_of(m: Map<u32, Vec<usize>>, c: char) -> Seq<usize> {
    if m.contains_key(c as u32) {
        m[c as u32]@
    } else {
        Seq::empty()
    }
}

/// What the group of a letter holds among the first `n` words.
proof fn lemma_starting_with_upto(words: Seq<Seq<char>>, c: char, n: nat)
    requires
        n <= words.len(),
        words.len() <= usize::MAX,
    ensures
        forall|k: int|
            0 <= k < starting_with_upto(words, c, n).len() ==> {
                let i = #[trigger] starting_with_upto(words, c, n)[k];
                &&& i < n
                &&& words[i as int].len() > 0
                &&& words[i as int][0] == c
            },
        forall|a: int, b: int|
            0 <= a < b < starting_with_upto(words, c, n).len() ==> #[trigger] starting_with_upto(
                words,
                c,
                n,
            )[a] < #[trigger] starting_with_upto(words, c, n)[b],
        forall|i: int|
            0 <= i < n && (#[trigger] words[i]).len() > 0 && words[i][0] == c
                ==> starting_with_upto(words, c, n).contains(i as usize),
    decreases n,
{
    if n > 0 {
        lemma_starting_with_upto(words, c, (n - 1) as nat);
        let rest = starting_with_upto(words, c, (n - 1) as nat);
        let all = starting_with_upto(words, c, n);
        assert forall|i: int|
            0 <= i < n && (#[trigger] words[i]).len() > 0 && words[i][0] == c implies all.contains(
                i as usize,
            ) by {
            if i < n - 1 {
                let k = choose|k: int| 0 <= k < rest.len() && rest[k] == i as usize;
                assert(all[k] == i as usize);
            } else {
                assert(all[rest.len() as int] == i as usize);
            }
        }
    }
}

/// The groups partition the words by first letter: the group of `c` holds
/// only positions of words that start with `c`, each once and in increasing
/// order, so that no group reorders its words; and every word that starts
/// with `c` is in it, so that no word is lost.
pub proof fn lemma_groups_partition(words: Seq<Seq<char>>, c: char)
    requires
        words.len() <= usize::MAX,
    ensures
        forall|k: int|
            0 <= k < starting_with(words, c).len() ==> {
                let i = #[trigger] starting_with(words, c)[k];
                &&& i < words.len()
                &&& words[i as int].len() > 0
                &&& words[i as int][0] == c
            },
        forall|a: int, b: int|
            0 <= a < b < starting_with(words, c).len() ==> #[trigger] starting_with(words, c)[a]
                < #[trigger] starting_with(words, c)[b],
        forall|i: int|
            0 <= i < words.len() && (#[trigger] words[i]).len() > 0 && words[i][0] == c
                ==> starting_with(words, c).contains(i as usize),
{
    lemma_starting_with_upto(words, c, words.len());
}

/// The playable words of a board, grouped by their first letter: the group
/// of a letter lists the positions of the words that start with it, in the
/// order of the words.
pub struct WordIndex {
    words: Vec<String>,
    letters: Vec<Vec<char>>,
    by_first: HashMap<u32, Vec<usize>>,
}

impl WordIndex {
    /// The words, in the order they were given.
    pub closed spec fn words(&self) -> Seq<Seq<char>> {
        strings_view(self.words@)
    }

    /// The words are not empty, and each group lists the positions of the
    /// words with that first letter.
    pub closed spec fn wf(&self) -> bool {
        &&& self.words@.len() <= usize::MAX
        &&& view_all(self.letters@) == strings_view(self.words@)
        &&& forall|i: int| 0 <= i < self.words@.len() ==> (#[trigger] self.words@[i])@.len() > 0
        &&& forall|c: char| group_of(self.by_first@, c) == starting_with(self.words(), c)
    }

    /// Groups `words`, none of them empty, by first letter.
    pub fn new(words: Vec<String>) -> (r: Self)
        requires
            forall|i: int| 0 <= i < words@.len() ==> (#[trigger] words@[i])@.len() > 0,
        ensures
            r.wf(),
            r.words() == strings_view(words@),
    {
        let ghost wv = strings_view(words@);
        let mut letters: Vec<Vec<char>> = Vec::new();
        let mut by_first: HashMap<u32, Vec<usize>> = HashMap::new();
        let mut i: usize = 0;
        while i < words.len()
            invariant
                i <= words.len(),
                wv == strings_view(words@),
                forall|k: int| 0 <= k < words@.len() ==> (#[trigger] words@[k])@.len() > 0,
                view_all(letters@) == wv.subrange(0, i as int),
                forall|c: char| group_of(by_first@, c) == starting_with_upto(wv, c, i as nat),
            decreases words.len() - i,
        {
            let w = word_chars(words[i].as_str());
            assert(wv[i as int] == w@);
            let first = w[0];
            let key = first as u32;
            let ghost before = by_first@;
            match by_first.remove(&key) {
                Some(mut group) => {
                    group.push(i);
                    by_first.insert(key, group);
                },
                None => {
                    let mut group: Vec<usize> = Vec::new();
                    group.push(i);
                    by_first.insert(key, group);
                },
            }
            assert forall|c: char|
                group_of(by_first@, c) == starting_with_upto(wv, c, (i + 1) as nat) by {
                if c == first {
                    assert(group_of(by_first@, c) =~= group_of(before, c).push(i));
                } else {
                    if c as u32 == key {
                        char_u32_cast(c, key);
                        char_u32_cast(first, key);
                    }
                    assert(group_of(by_first@, c) == group_of(before, c));
                }
            }
            let ghost prev = letters@;
            letters.push(w);
            assert(letters@ == prev.push(w));
            assert(view_all(letters@) =~= view_all(prev).push(w@));
            assert(view_all(letters@) =~= wv.subrange(0, i + 1));
            i = i + 1;
        }
        assert(wv.subrange(0, words.len() as int) == wv);
        assert(words@.len() == words.len());
        WordIndex { words, letters, by_first }
    }

    /// No word is empty, and there are no more words than a `usize` counts.
    pub proof fn lemma_words(&self)
        requires
            self.wf(),
        ensures
            forall|i: int| 0 <= i < self.words().len() ==> (#[trigger] self.words()[i]).len() > 0,
            self.words().len() <= usize::MAX,
    {
        assert forall|i: int| 0 <= i < self.words().len() implies (#[trigger] self.words()[i]).len()
            > 0 by {
            assert(self.words()[i] == self.words@[i]@);
        }
    }

    /// The number of words.
    pub fn len(&self) -> (r: usize)
        requires
            self.wf(),
        ensures
            r == self.words().len(),
    {
        self.words.len()
    }

    /// The word at position `i`.
    pub fn word(&self, i: usize) -> (r: &String)
        requires
            self.wf(),
            i < self.words().len(),
        ensures
            r@ == self.words()[i as int],
    {
        &self.words[i]
    }

    /// The letters of the word at position `i`.
    pub fn letters(&self, i: usize) -> (r: &Vec<char>)
        requires
            self.wf(),
            i < self.words().len(),
        ensures
            r@ == self.words()[i as int],
    {
        assert(view_all(self.letters@)[i as int] == self.letters@[i as int]@);
        &self.letters[i]
    }

    /// The positions of the words that start with `c`, in order; none when
    /// no word does.
    pub fn words_starting_with(&self, c: char) -> (r: Vec<usize>)
        requires
            self.wf(),
        ensures
            r@ == starting_with(self.words(), c),
    {
        let key = c as u32;
        assert(group_of(self.by_first@, c) == starting_with(self.words(), c));
        match self.by_first.get(&key) {
            Some(group) => {
                let mut out: Vec<usize> = Vec::new();
                let mut j: usize = 0;
                while j < group.len()
                    invariant
                        j <= group.len(),
                        out@ == group@.subrange(0, j as int),
                    decreases group.len() - j,
                {
                    out.push(group[j]);
                    assert(out@ =~= group@.subrange(0, j + 1));
                    j = j + 1;
                }
                assert(group@.subrange(0, group.len() as int) == group@);
                out
            },
            None => Vec::new(),
        }
    }
}

} // verus!
