use vstd::prelude::*;

use crate::board::{contains_char, on_board, same_side, view_all};

verus! {

/// A word can be played on the board: it is not empty, each of its letters
/// stands on some side, and no two consecutive letters stand on one side.
pub open spec fn valid_word(sides: Seq<Seq<char>>, w: Seq<char>) -> bool {
    &&& w.len() > 0
    &&& forall|i: int| 0 <= i < w.len() ==> on_board(sides, #[trigger] w[i])
    &&& forall|i: int| 0 <= i < w.len() - 1 ==> !same_side(sides, #[trigger] w[i], w[i + 1])
}

/// The contents of each string.
pub open spec fn strings_view(v: Seq<String>) -> Seq<Seq<char>> {
    v.map_values(|x: String| x@)
}

/// The playable words among `lines`, in their order.
pub open spec fn valid_words(sides: Seq<Seq<char>>, lines: Seq<Seq<char>>) -> Seq<Seq<char>> {
    lines.filter(|w: Seq<char>| valid_word(sides, w))
}

/// The characters of `s`.
pub fn word_chars(s: &str) -> (r: Vec<char>)
    ensures
        r@ == s@,
{
    let mut out: Vec<char> = Vec::new();
    for c in it: s.chars()
        invariant
            it.seq() == s@,
            out@ == s@.subrange(0, it.index() as int),
    {
        out.push(c);
        assert(out@ =~= s@.subrange(0, it.index() + 1));
    }
    assert(out@ =~= s@);
    out
}

/// Whether some side holds `c`.
fn on_board_exec(sides: &Vec<Vec<char>>, c: char) -> (r: bool)
    ensures
        r == on_board(view_all(sides@), c),
{
    let ghost sv = view_all(sides@);
    let mut i: usize = 0;
    while i < sides.len()
        invariant
            i <= sides.len(),
            sv == view_all(sides@),
            forall|k: int| 0 <= k < i ==> !(#[trigger] sv[k]).contains(c),
        decreases sides.len() - i,
    {
        if contains_char(&sides[i], c) {
            assert(sv[i as int].contains(c));
            return true;
        }
        i = i + 1;
    }
    false
}

/// Whether one side holds both `a` and `b`.
fn same_side_exec(sides: &Vec<Vec<char>>, a: char, b: char) -> (r: bool)
    ensures
        r == same_side(view_all(sides@), a, b),
{
    let ghost sv = view_all(sides@);
    let mut i: usize = 0;
    while i < sides.len()
        invariant
            i <= sides.len(),
            sv == view_all(sides@),
            forall|k: int| 0 <= k < i ==> !((#[trigger] sv[k]).contains(a) && sv[k].contains(b)),
        decreases sides.len() - i,
    {
        if contains_char(&sides[i], a) && contains_char(&sides[i], b) {
            assert(sv[i as int].contains(a) && sv[i as int].contains(b));
            return true;
        }
        i = i + 1;
    }
    false
}

/// Whether `word` can be played on the board of `sides`. Letters are compared
/// exactly, so a capital letter matches no side of a lower case board.
pub fn is_valid_word(sides: &Vec<Vec<char>>, word: &Vec<char>) -> (r: bool)
    ensures
        r == valid_word(view_all(sides@), word@),
{
    let ghost sv = view_all(sides@);
    if word.len() == 0 {
        return false;
    }
    let mut i: usize = 0;
    while i < word.len()
        invariant
            i <= word.len(),
            sv == view_all(sides@),
            forall|k: int| 0 <= k < i ==> on_board(sv, #[trigger] word@[k]),
            forall|k: int| 0 <= k < i && k < word.len() - 1 ==> !same_side(sv, #[trigger] word@[k], word@[k + 1]),
        decreases word.len() - i,
    {
        if !on_board_exec(sides, word[i]) {
            return false;
        }
        if i + 1 < word.len() && same_side_exec(sides, word[i], word[i + 1]) {
            return false;
        }
        i = i + 1;
    }
    true
}

/// Keeps the lines of a dictionary that are playable words on the board of
/// `sides`, in their order.
pub fn filter_words(sides: &Vec<Vec<char>>, lines: &Vec<String>) -> (r: Vec<String>)
    ensures
        strings_view(r@) == valid_words(view_all(sides@), strings_view(lines@)),
{
    let ghost sv = view_all(sides@);
    let ghost lv = strings_view(lines@);
    let mut out: Vec<String> = Vec::new();
    let mut i: usize = 0;
    while i < lines.len()
        invariant
            i <= lines.len(),
            sv == view_all(sides@),
            lv == strings_view(lines@),
            strings_view(out@) == valid_words(sv, lv.subrange(0, i as int)),
        decreases lines.len() - i,
    {
        let line = &lines[i];
        let w = word_chars(line.as_str());
        assert(lv.subrange(0, i + 1).drop_last() == lv.subrange(0, i as int));
        assert(lv.subrange(0, i + 1).last() == line@);
        proof {
            reveal(Seq::filter);
        }
        if is_valid_word(sides, &w) {
            out.push(line.clone());
            assert(strings_view(out@) =~= valid_words(sv, lv.subrange(0, i as int)).push(line@));
        }
        i = i + 1;
    }
    assert(lv.subrange(0, lines.len() as int) == lv);
    out
}

/// Every word the filter keeps has each letter on some side and no two
/// consecutive letters on one side; every non-empty line it drops has a
/// letter on no side (as a capital letter is, on a lower case board) or two
/// consecutive letters on one side.
pub proof fn lemma_filter_keeps_exactly_playable(sides: Seq<Seq<char>>, lines: Seq<Seq<char>>)
    ensures
        forall|w: Seq<char>|
            #[trigger] valid_words(sides, lines).contains(w) ==> {
                &&& forall|i: int| 0 <= i < w.len() ==> on_board(sides, #[trigger] w[i])
                &&& forall|i: int|
                    0 <= i < w.len() - 1 ==> !same_side(sides, #[trigger] w[i], w[i + 1])
            },
        forall|w: Seq<char>|
            #[trigger] lines.contains(w) && !valid_words(sides, lines).contains(w) && w.len() > 0
                ==> (exists|i: int| 0 <= i < w.len() && !on_board(sides, #[trigger] w[i])) || (
            exists|i: int| 0 <= i < w.len() - 1 && same_side(sides, #[trigger] w[i], w[i + 1])),
{
    let pred = |w: Seq<char>| valid_word(sides, w);
    assert forall|w: Seq<char>| #[trigger] valid_words(sides, lines).contains(w) implies {
        &&& forall|i: int| 0 <= i < w.len() ==> on_board(sides, #[trigger] w[i])
        &&& forall|i: int| 0 <= i < w.len() - 1 ==> !same_side(sides, #[trigger] w[i], w[i + 1])
    } by {
        let k = choose|k: int|
            0 <= k < lines.filter(pred).len() && #[trigger] lines.filter(pred)[k] == w;
        lines.lemma_filter_pred(pred, k);
    }
    assert forall|w: Seq<char>|
        #[trigger] lines.contains(w) && !valid_words(sides, lines).contains(w) && w.len()
            > 0 implies (exists|i: int| 0 <= i < w.len() && !on_board(sides, #[trigger] w[i])) || (
    exists|i: int| 0 <= i < w.len() - 1 && same_side(sides, #[trigger] w[i], w[i + 1])) by {
        let k = choose|k: int| 0 <= k < lines.len() && #[trigger] lines[k] == w;
        if valid_word(sides, w) {
            lines.lemma_filter_contains(pred, k);
        }
    }
}

} // verus!
