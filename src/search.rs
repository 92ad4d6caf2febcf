use vstd::prelude::*;

use rayon::iter::{IntoParallelRefIterator, ParallelIterator};

use crate::board::{board_letters, contains_char, on_board, sides_to_chars, view_all, Config};
use crate::index::{lemma_groups_partition, starting_with, WordIndex};

verus! {

/// The contents of each chain.
pub open spec fn chains_view(v: Seq<Vec<usize>>) -> Seq<Seq<usize>> {
    v.map_values(|c: Vec<usize>| c@)
}

/// Each step of the chain goes to a word that starts with the letter the
/// word before it ends with.
pub open spec fn linked(words: Seq<Seq<char>>, ch: Seq<usize>) -> bool {
    forall|j: int|
        0 <= j < ch.len() - 1 ==> (#[trigger] words[ch[j] as int]).last() == words[ch[j
            + 1] as int][0]
}

/// Each step of the chain names one of the words.
pub open spec fn in_range(words: Seq<Seq<char>>, ch: Seq<usize>) -> bool {
    forall|j: int| 0 <= j < ch.len() ==> #[trigger] ch[j] < words.len()
}

/// A chain of `len` words that can be followed through the word list.
pub open spec fn well_formed_chain(words: Seq<Seq<char>>, ch: Seq<usize>, len: nat) -> bool {
    &&& ch.len() == len
    &&& in_range(words, ch)
    &&& linked(words, ch)
}

/// A chain of at least one word, each step naming one of the words.
pub open spec fn valid_chain(words: Seq<Seq<char>>, ch: Seq<usize>) -> bool {
    ch.len() >= 1 && in_range(words, ch)
}

/// Some word of the chain holds the letter `c`.
pub open spec fn covered(words: Seq<Seq<char>>, ch: Seq<usize>, c: char) -> bool {
    exists|j: int| 0 <= j < ch.len() && (#[trigger] words[ch[j] as int]).contains(c)
}

/// The words of the chain hold every letter of `letters`.
pub open spec fn covers(letters: Seq<char>, words: Seq<Seq<char>>, ch: Seq<usize>) -> bool {
    forall|k: int| 0 <= k < letters.len() ==> covered(words, ch, #[trigger] letters[k])
}

/// The words of the chain hold every letter of the board.
pub open spec fn complete(sides: Seq<Seq<char>>, words: Seq<Seq<char>>, ch: Seq<usize>) -> bool {
    forall|c: char| #[trigger] on_board(sides, c) ==> covered(words, ch, c)
}

/// The chains one word longer than `ch`: one for each word that starts with
/// the last letter of `ch`, in the order of the words.
pub open spec fn extensions(words: Seq<Seq<char>>, ch: Seq<usize>) -> Seq<Seq<usize>> {
    starting_with(words, words[ch.last() as int].last()).map_values(|w: usize| ch.push(w))
}

/// The extensions of every chain of `chains`, chain after chain.
pub open spec fn expand(words: Seq<Seq<char>>, chains: Seq<Seq<usize>>) -> Seq<Seq<usize>>
    decreases chains.len(),
{
    if chains.len() == 0 {
        Seq::empty()
    } else {
        expand(words, chains.drop_last()) + extensions(words, chains.last())
    }
}

/// Every word on its own, in order.
pub open spec fn singles(words: Seq<Seq<char>>) -> Seq<Seq<usize>> {
    Seq::new(words.len(), |i: int| seq![i as usize])
}

/// The chains of `d` words (of one word when `d` is 0 or 1), in the order in
/// which breadth-first expansion reaches them.
pub open spec fn frontier(words: Seq<Seq<char>>, d: nat) -> Seq<Seq<usize>>
    decreases d,
{
    if d <= 1 {
        singles(words)
    } else {
        expand(words, frontier(words, (d - 1) as nat))
    }
}

/// The complete chains of at most `depth` words: those of one word first,
/// then those of two, and so on, each level in frontier order.
pub open spec fn solutions(sides: Seq<Seq<char>>, words: Seq<Seq<char>>, depth: nat) -> Seq<
    Seq<usize>,
>
    decreases depth,
{
    if depth == 0 {
        Seq::empty()
    } else {
        solutions(sides, words, (depth - 1) as nat) + frontier(words, depth).filter(
            |ch: Seq<usize>| complete(sides, words, ch),
        )
    }
}

/// Every chain that expansion yields extends a well-formed chain by a word
/// that starts with its last letter.
proof fn lemma_expand_well_formed(words: Seq<Seq<char>>, chains: Seq<Seq<usize>>, len: nat)
    requires
        len >= 1,
        words.len() <= usize::MAX,
        forall|k: int| 0 <= k < chains.len() ==> well_formed_chain(words, #[trigger] chains[k], len),
    ensures
        forall|k: int|
            0 <= k < expand(words, chains).len() ==> well_formed_chain(
                words,
                #[trigger] expand(words, chains)[k],
                len + 1,
            ),
    decreases chains.len(),
{
    if chains.len() > 0 {
        let front = chains.drop_last();
        let ch = chains.last();
        assert(well_formed_chain(words, chains[chains.len() - 1], len));
        lemma_expand_well_formed(words, front, len);
        let c = words[ch.last() as int].last();
        lemma_groups_partition(words, c);
        let ext = extensions(words, ch);
        assert forall|k: int| 0 <= k < ext.len() implies well_formed_chain(
            words,
            #[trigger] ext[k],
            len + 1,
        ) by {
            let w = starting_with(words, c)[k];
            assert(ext[k] == ch.push(w));
            assert forall|j: int| 0 <= j < ext[k].len() - 1 implies (#[trigger] words[ext[k][j] as int]).last()
                == words[ext[k][j + 1] as int][0] by {
                if j < ch.len() - 1 {
                    assert(ext[k][j] == ch[j] && ext[k][j + 1] == ch[j + 1]);
                }
            }
            assert forall|j: int| 0 <= j < ext[k].len() implies #[trigger] ext[k][j] < words.len() by {
                if j < ch.len() {
                    assert(ext[k][j] == ch[j]);
                }
            }
        }
        let all = expand(words, chains);
        assert(all == expand(words, front) + ext);
        assert forall|k: int| 0 <= k < all.len() implies well_formed_chain(
            words,
            #[trigger] all[k],
            len + 1,
        ) by {
            if k < expand(words, front).len() {
                assert(all[k] == expand(words, front)[k]);
            } else {
                assert(all[k] == ext[k - expand(words, front).len()]);
            }
        }
    }
}

/// Every chain of the frontier at `d` is well formed and has `d` words
/// (one, at depth 0).
pub proof fn lemma_frontier_well_formed(words: Seq<Seq<char>>, d: nat)
    requires
        words.len() <= usize::MAX,
    ensures
        forall|k: int|
            0 <= k < frontier(words, d).len() ==> well_formed_chain(
                words,
                #[trigger] frontier(words, d)[k],
                if d == 0 { 1 } else { d },
            ),
    decreases d,
{
    if d <= 1 {
        assert forall|k: int| 0 <= k < frontier(words, d).len() implies well_formed_chain(
            words,
            #[trigger] frontier(words, d)[k],
            1,
        ) by {
            assert(frontier(words, d)[k] == seq![k as usize]);
        }
    } else {
        lemma_frontier_well_formed(words, (d - 1) as nat);
        lemma_expand_well_formed(words, frontier(words, (d - 1) as nat), (d - 1) as nat);
    }
}

/// Checking a chain against a list of the board's letters, each once, is
/// checking it against the board.
proof fn lemma_covers_complete(
    letters: Seq<char>,
    sides: Seq<Seq<char>>,
    words: Seq<Seq<char>>,
    ch: Seq<usize>,
)
    requires
        letters.to_set() == board_letters(sides),
    ensures
        covers(letters, words, ch) == complete(sides, words, ch),
{
    if covers(letters, words, ch) {
        assert forall|c: char| #[trigger] on_board(sides, c) implies covered(words, ch, c) by {
            assert(board_letters(sides).contains(c));
            assert(letters.to_set().contains(c));
            let k = choose|k: int| 0 <= k < letters.len() && letters[k] == c;
        }
    }
    if complete(sides, words, ch) {
        assert forall|k: int| 0 <= k < letters.len() implies covered(
            words,
            ch,
            #[trigger] letters[k],
        ) by {
            assert(letters.to_set().contains(letters[k]));
            assert(on_board(sides, letters[k]));
        }
    }
}

/// Whether some word of `chain` holds `c`.
fn chain_has(index: &WordIndex, chain: &Vec<usize>, c: char) -> (r: bool)
    requires
        index.wf(),
        in_range(index.words(), chain@),
    ensures
        r == covered(index.words(), chain@, c),
{
    let mut j: usize = 0;
    while j < chain.len()
        invariant
            index.wf(),
            in_range(index.words(), chain@),
            j <= chain.len(),
            forall|t: int| 0 <= t < j ==> !(#[trigger] index.words()[chain@[t] as int]).contains(c),
        decreases chain.len() - j,
    {
        assert(chain@[j as int] < index.words().len());
        if contains_char(index.letters(chain[j]), c) {
            assert(index.words()[chain@[j as int] as int].contains(c));
            return true;
        }
        j = j + 1;
    }
    false
}

/// Whether the words of `chain` hold every letter of `letters`.
pub fn is_complete_chain(index: &WordIndex, letters: &Vec<char>, chain: &Vec<usize>) -> (r: bool)
    requires
        index.wf(),
        in_range(index.words(), chain@),
    ensures
        r == covers(letters@, index.words(), chain@),
{
    let mut k: usize = 0;
    while k < letters.len()
        invariant
            index.wf(),
            in_range(index.words(), chain@),
            k <= letters.len(),
            forall|t: int| 0 <= t < k ==> covered(index.words(), chain@, #[trigger] letters@[t]),
        decreases letters.len() - k,
    {
        if !chain_has(index, chain, letters[k]) {
            return false;
        }
        k = k + 1;
    }
    true
}

/// The chains one word longer than `chain`: one for each word that starts
/// with the last letter of `chain`, in the order of the words.
pub fn permute(index: &WordIndex, chain: &Vec<usize>) -> (r: Vec<Vec<usize>>)
    requires
        index.wf(),
        valid_chain(index.words(), chain@),
    ensures
        chains_view(r@) == extensions(index.words(), chain@),
{
    let ghost words = index.words();
    proof {
        index.lemma_words();
    }
    assert(chain@[chain.len() - 1] < words.len());
    let last_word = index.letters(chain[chain.len() - 1]);
    let c = last_word[last_word.len() - 1];
    let next = index.words_starting_with(c);
    let ghost goal = extensions(words, chain@);
    let mut out: Vec<Vec<usize>> = Vec::new();
    let mut j: usize = 0;
    while j < next.len()
        invariant
            j <= next.len(),
            next@ == starting_with(words, c),
            goal == next@.map_values(|w: usize| chain@.push(w)),
            chains_view(out@) == goal.subrange(0, j as int),
        decreases next.len() - j,
    {
        let mut longer = chain.clone();
        assert(longer@ == chain@);
        longer.push(next[j]);
        let ghost prev = out@;
        out.push(longer);
        assert(chains_view(out@) =~= chains_view(prev).push(longer@));
        assert(chains_view(out@) =~= goal.subrange(0, j + 1));
        j = j + 1;
    }
    assert(goal.subrange(0, next.len() as int) == goal);
    out
}

/// The extensions of every chain of `chains`, chain after chain.
pub fn expand_all(index: &WordIndex, chains: &Vec<Vec<usize>>) -> (r: Vec<Vec<usize>>)
    requires
        index.wf(),
        forall|k: int|
            0 <= k < chains@.len() ==> valid_chain(index.words(), #[trigger] chains@[k]@),
    ensures
        chains_view(r@) == expand(index.words(), chains_view(chains@)),
{
    let ghost cv = chains_view(chains@);
    let mut out: Vec<Vec<usize>> = Vec::new();
    let mut i: usize = 0;
    while i < chains.len()
        invariant
            index.wf(),
            i <= chains.len(),
            cv == chains_view(chains@),
            forall|k: int|
                0 <= k < chains@.len() ==> valid_chain(index.words(), #[trigger] chains@[k]@),
            chains_view(out@) == expand(index.words(), cv.subrange(0, i as int)),
        decreases chains.len() - i,
    {
        assert(valid_chain(index.words(), chains@[i as int]@));
        let mut next = permute(index, &chains[i]);
        let ghost prev = out@;
        let ghost added = next@;
        out.append(&mut next);
        assert(cv.subrange(0, i + 1).drop_last() == cv.subrange(0, i as int));
        assert(cv.subrange(0, i + 1).last() == chains@[i as int]@);
        assert(chains_view(out@) =~= chains_view(prev) + chains_view(added));
        i = i + 1;
    }
    assert(cv.subrange(0, chains.len() as int) == cv);
    out
}

/// Relies on rayon's `par_iter`, `filter`, `cloned` and `collect` into a
/// `Vec`: the chains that `is_complete_chain` accepts, cloned, in their
/// order (collecting into a `Vec` keeps the order of the input).
#[verifier::external_body]
fn keep_complete(index: &WordIndex, letters: &Vec<char>, chains: &Vec<Vec<usize>>) -> (r: Vec<
    Vec<usize>,
>)
    requires
        index.wf(),
        forall|k: int|
            0 <= k < chains@.len() ==> valid_chain(index.words(), #[trigger] chains@[k]@),
    ensures
        chains_view(r@) == chains_view(chains@).filter(
            |ch: Seq<usize>| covers(letters@, index.words(), ch),
        ),
{
    chains.par_iter().filter(|ch| is_complete_chain(index, letters, ch)).cloned().collect()
}

/// Every word on its own, in order.
fn single_chains(index: &WordIndex) -> (r: Vec<Vec<usize>>)
    requires
        index.wf(),
    ensures
        chains_view(r@) == singles(index.words()),
{
    let n = index.len();
    let mut out: Vec<Vec<usize>> = Vec::new();
    let mut i: usize = 0;
    while i < n
        invariant
            i <= n,
            n == index.words().len(),
            out@.len() == i,
            chains_view(out@) == singles(index.words()).subrange(0, i as int),
        decreases n - i,
    {
        let single = vec![i];
        assert(single@ == seq![i]);
        out.push(single);
        assert(out@[i as int]@ == seq![i]);
        assert(chains_view(out@) =~= singles(index.words()).subrange(0, i + 1));
        i = i + 1;
    }
    assert(singles(index.words()).subrange(0, n as int) =~= singles(index.words()));
    out
}

/// Finds the chains of at most `config.depth` words that use every letter of
/// the board, by breadth-first expansion: first every word on its own, then
/// each chain followed by every word that starts with its last letter, and so
/// on. The complete chains come out level by level, each level in the order
/// the expansion reached them.
pub fn solve(index: &WordIndex, config: &Config) -> (r: Vec<Vec<usize>>)
    requires
        index.wf(),
    ensures
        chains_view(r@) == solutions(view_all(config.sides@), index.words(), config.depth as nat),
{
    let ghost sides = view_all(config.sides@);
    let ghost words = index.words();
    let letters = sides_to_chars(&config.sides);
    proof {
        index.lemma_words();
    }
    let mut chains = single_chains(index);
    let mut found: Vec<Vec<usize>> = Vec::new();
    let mut level: usize = 0;
    while level < config.depth
        invariant
            index.wf(),
            words == index.words(),
            words.len() <= usize::MAX,
            sides == view_all(config.sides@),
            letters@.to_set() == board_letters(sides),
            level <= config.depth,
            chains_view(chains@) == frontier(words, level as nat),
            chains_view(found@) == solutions(sides, words, level as nat),
        decreases config.depth - level,
    {
        if level > 0 {
            proof {
                lemma_frontier_well_formed(words, level as nat);
                assert forall|k: int| 0 <= k < chains@.len() implies valid_chain(
                    words,
                    #[trigger] chains@[k]@,
                ) by {
                    assert(chains_view(chains@)[k] == chains@[k]@);
                }
            }
            chains = expand_all(index, &chains);
        }
        assert(chains_view(chains@) == frontier(words, (level + 1) as nat));
        proof {
            lemma_frontier_well_formed(words, (level + 1) as nat);
            assert forall|k: int| 0 <= k < chains@.len() implies valid_chain(
                words,
                #[trigger] chains@[k]@,
            ) by {
                assert(chains_view(chains@)[k] == chains@[k]@);
            }
        }
        let mut complete_here = keep_complete(index, &letters, &chains);
        proof {
            assert forall|ch: Seq<usize>|
                covers(letters@, words, ch) == complete(sides, words, ch) by {
                lemma_covers_complete(letters@, sides, words, ch);
            }
            assert((|ch: Seq<usize>| covers(letters@, words, ch)) =~= (|ch: Seq<usize>|
                complete(sides, words, ch)));
        }
        let ghost prev = found@;
        let ghost added = complete_here@;
        found.append(&mut complete_here);
        assert(chains_view(found@) =~= chains_view(prev) + chains_view(added));
        level = level + 1;
    }
    found
}

/// Every chain the search returns for a depth has between one and `depth`
/// words, each naming one of the words, each word starting with the letter
/// the one before it ends with, and together they use every letter of the
/// board.
pub proof fn lemma_solutions_sound(sides: Seq<Seq<char>>, words: Seq<Seq<char>>, depth: nat)
    requires
        words.len() <= usize::MAX,
    ensures
        forall|k: int|
            0 <= k < solutions(sides, words, depth).len() ==> {
                let ch = #[trigger] solutions(sides, words, depth)[k];
                &&& 1 <= ch.len() <= depth
                &&& in_range(words, ch)
                &&& linked(words, ch)
                &&& complete(sides, words, ch)
            },
    decreases depth,
{
    if depth > 0 {
        let d = (depth - 1) as nat;
        lemma_solutions_sound(sides, words, d);
        lemma_frontier_well_formed(words, depth);
        let pred = |ch: Seq<usize>| complete(sides, words, ch);
        let level = frontier(words, depth).filter(pred);
        let all = solutions(sides, words, depth);
        assert(all == solutions(sides, words, d) + level);
        assert forall|k: int| 0 <= k < all.len() implies {
            let ch = #[trigger] all[k];
            &&& 1 <= ch.len() <= depth
            &&& in_range(words, ch)
            &&& linked(words, ch)
            &&& complete(sides, words, ch)
        } by {
            if k < solutions(sides, words, d).len() {
                assert(all[k] == solutions(sides, words, d)[k]);
            } else {
                let t = k - solutions(sides, words, d).len();
                assert(all[k] == level[t]);
                frontier(words, depth).lemma_filter_pred(pred, t);
                let ch = level[t];
                assert(frontier(words, depth).filter(pred).contains(ch));
                frontier(words, depth).lemma_filter_contains_rev(pred, ch);
                let g = choose|g: int|
                    0 <= g < frontier(words, depth).len() && #[trigger] frontier(words, depth)[g] == ch;
                assert(well_formed_chain(words, frontier(words, depth)[g], depth));
            }
        }
    }
}

/// Raising the depth by one keeps every solution found before, in the same
/// order, and adds only chains of exactly one more word.
pub proof fn lemma_solutions_monotone(sides: Seq<Seq<char>>, words: Seq<Seq<char>>, d: nat)
    requires
        words.len() <= usize::MAX,
    ensures
        solutions(sides, words, d) == solutions(sides, words, d + 1).subrange(
            0,
            solutions(sides, words, d).len() as int,
        ),
        forall|k: int|
            solutions(sides, words, d).len() <= k < solutions(sides, words, d + 1).len()
                ==> (#[trigger] solutions(sides, words, d + 1)[k]).len() == d + 1,
{
    let pred = |ch: Seq<usize>| complete(sides, words, ch);
    let before = solutions(sides, words, d);
    let level = frontier(words, d + 1).filter(pred);
    let after = solutions(sides, words, d + 1);
    assert(after == before + level);
    assert(before =~= after.subrange(0, before.len() as int));
    lemma_frontier_well_formed(words, d + 1);
    assert forall|k: int| before.len() <= k < after.len() implies (#[trigger] after[k]).len() == d
        + 1 by {
        let t = k - before.len();
        assert(after[k] == level[t]);
        let ch = level[t];
        assert(level.contains(ch));
        frontier(words, d + 1).lemma_filter_contains_rev(pred, ch);
        let g = choose|g: int|
            0 <= g < frontier(words, d + 1).len() && #[trigger] frontier(words, d + 1)[g] == ch;
        assert(well_formed_chain(words, frontier(words, d + 1)[g], d + 1));
    }
}

} // verus!
