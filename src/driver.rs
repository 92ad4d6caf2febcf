use vstd::prelude::*;

use crate::board::{view_all, Config};
use crate::index::WordIndex;
use crate::search::{
    chains_view, in_range, lemma_solutions_monotone, lemma_solutions_sound, solutions, solve,
};
use crate::words::{filter_words, strings_view, valid_word, valid_words};
use vstd::string::StringExecFns;

verus! {

/// The words of a chain, separated by single spaces.
pub open spec fn line_of(words: Seq<Seq<char>>, ch: Seq<usize>) -> Seq<char>
    decreases ch.len(),
{
    if ch.len() == 0 {
        Seq::empty()
    } else if ch.len() == 1 {
        words[ch[0] as int]
    } else {
        line_of(words, ch.drop_last()) + seq![' '] + words[ch.last() as int]
    }
}

/// What the solver prints for a dictionary: one line for each complete chain
/// of at most `depth` playable words, in the order of the search.
pub open spec fn output(sides: Seq<Seq<char>>, lines: Seq<Seq<char>>, depth: nat) -> Seq<Seq<char>> {
    let words = valid_words(sides, lines);
    solutions(sides, words, depth).map_values(|ch: Seq<usize>| line_of(words, ch))
}

/// The words of `chain`, separated by single spaces.
pub fn chain_line(index: &WordIndex, chain: &Vec<usize>) -> (r: String)
    requires
        index.wf(),
        in_range(index.words(), chain@),
    ensures
        r@ == line_of(index.words(), chain@),
{
    let ghost words = index.words();
    let mut line = String::new();
    let mut j: usize = 0;
    while j < chain.len()
        invariant
            index.wf(),
            words == index.words(),
            in_range(words, chain@),
            j <= chain.len(),
            line@ == line_of(words, chain@.subrange(0, j as int)),
        decreases chain.len() - j,
    {
        assert(chain@.subrange(0, j + 1).drop_last() == chain@.subrange(0, j as int));
        assert(chain@[j as int] < words.len());
        if j > 0 {
            proof {
                reveal_strlit(" ");
            }
            line.append(" ");
        }
        line.append(index.word(chain[j]).as_str());
        assert(line@ =~= line_of(words, chain@.subrange(0, j + 1)));
        j = j + 1;
    }
    assert(chain@.subrange(0, chain.len() as int) == chain@);
    line
}

/// Solves the puzzle of `config` over the lines of a dictionary: keeps the
/// playable words, indexes them by first letter, searches for the complete
/// chains of at most `config.depth` words, and writes each as a line.
pub fn run(config: &Config, lines: &Vec<String>) -> (r: Vec<String>)
    ensures
        strings_view(r@) == output(view_all(config.sides@), strings_view(lines@), config.depth as nat),
{
    let ghost sides = view_all(config.sides@);
    let valid = filter_words(&config.sides, lines);
    let ghost words = strings_view(valid@);
    assert forall|i: int| 0 <= i < valid@.len() implies (#[trigger] valid@[i])@.len() > 0 by {
        assert(words[i] == valid@[i]@);
        let pred = |w: Seq<char>| valid_word(sides, w);
        strings_view(lines@).lemma_filter_pred(pred, i);
    }
    let index = WordIndex::new(valid);
    proof {
        index.lemma_words();
    }
    let chains = solve(&index, config);
    proof {
        lemma_solutions_sound(sides, words, config.depth as nat);
    }
    let ghost goal = output(sides, strings_view(lines@), config.depth as nat);
    let mut out: Vec<String> = Vec::new();
    let mut i: usize = 0;
    while i < chains.len()
        invariant
            index.wf(),
            index.words() == words,
            words == valid_words(sides, strings_view(lines@)),
            chains_view(chains@) == solutions(sides, words, config.depth as nat),
            forall|k: int|
                0 <= k < solutions(sides, words, config.depth as nat).len() ==> in_range(
                    words,
                    #[trigger] solutions(sides, words, config.depth as nat)[k],
                ),
            goal == output(sides, strings_view(lines@), config.depth as nat),
            i <= chains.len(),
            strings_view(out@) == goal.subrange(0, i as int),
        decreases chains.len() - i,
    {
        assert(chains_view(chains@)[i as int] == chains@[i as int]@);
        let line = chain_line(&index, &chains[i]);
        let ghost prev = out@;
        out.push(line);
        assert(strings_view(out@) =~= strings_view(prev).push(line@));
        assert(strings_view(out@) =~= goal.subrange(0, i + 1));
        i = i + 1;
    }
    assert(goal.subrange(0, chains.len() as int) == goal);
    out
}

/// Running the solver twice on the same board, dictionary and depth prints
/// the same lines in the same order: the output is a function of the inputs
/// alone.
pub proof fn lemma_output_deterministic(
    sides: Seq<Seq<char>>,
    lines: Seq<Seq<char>>,
    depth: nat,
    first: Seq<Seq<char>>,
    second: Seq<Seq<char>>,
)
    requires
        first == output(sides, lines, depth),
        second == output(sides, lines, depth),
    ensures
        first == second,
{
}

/// Raising the depth by one keeps every line printed before, in the same
/// order, ahead of the new ones.
pub proof fn lemma_output_monotone(sides: Seq<Seq<char>>, lines: Seq<Seq<char>>, d: nat)
    requires
        lines.len() <= usize::MAX,
    ensures
        output(sides, lines, d) == output(sides, lines, d + 1).subrange(
            0,
            output(sides, lines, d).len() as int,
        ),
{
    let words = valid_words(sides, lines);
    lines.lemma_filter_len(|w: Seq<char>| valid_word(sides, w));
    lemma_solutions_monotone(sides, words, d);
    assert(output(sides, lines, d) =~= output(sides, lines, d + 1).subrange(
        0,
        output(sides, lines, d).len() as int,
    ));
}

} // verus!
