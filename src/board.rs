use vstd::prelude::*;

verus! {

/// Whether the letter `c` stands on some side of the board.
pub open spec fn on_board(sides: Seq<Seq<char>>, c: char) -> bool {
    exists|i: int| 0 <= i < sides.len() && (#[trigger] sides[i]).contains(c)
}

/// Whether one side of the board holds both `a` and `b`.
pub open spec fn same_side(sides: Seq<Seq<char>>, a: char, b: char) -> bool {
    exists|i: int| 0 <= i < sides.len() && (#[trigger] sides[i]).contains(a) && sides[i].contains(b)
}

/// Every letter of the board.
pub open spec fn board_letters(sides: Seq<Seq<char>>) -> Set<char> {
    Set::new(|c: char| on_board(sides, c))
}

/// The contents of each vector of characters.
pub open spec fn view_all(v: Seq<Vec<char>>) -> Seq<Seq<char>> {
    v.map_values(|x: Vec<char>| x@)
}

/// The groups of a comma separated list, read left to right: each comma
/// closes the current group and opens an empty one.
pub open spec fn split_commas(s: Seq<char>) -> Seq<Seq<char>>
    decreases s.len(),
{
    if s.len() == 0 {
        seq![Seq::empty()]
    } else {
        let groups = split_commas(s.drop_last());
        if s.last() == ',' {
            groups.push(Seq::empty())
        } else {
            groups.update(groups.len() - 1, groups.last().push(s.last()))
        }
    }
}

proof fn lemma_split_commas_nonempty(s: Seq<char>)
    ensures
        split_commas(s).len() >= 1,
    decreases s.len(),
{
    if s.len() > 0 {
        lemma_split_commas_nonempty(s.drop_last());
    }
}

/// What the solver is asked: the longest chain to try, and the board.
pub struct Config {
    pub depth: usize,
    pub sides: Vec<Vec<char>>,
}

/// Whether `c` is among `v`.
pub fn contains_char(v: &Vec<char>, c: char) -> (r: bool)
    ensures
        r == v@.contains(c),
{
    let mut i: usize = 0;
    while i < v.len()
        invariant
            i <= v.len(),
            forall|j: int| 0 <= j < i ==> v@[j] != c,
        decreases v.len() - i,
    {
        if v[i] == c {
            return true;
        }
        i = i + 1;
    }
    false
}

/// Reads a board written as its sides separated by commas (`abc,def,ghi,jkl`);
/// each character between two commas is a letter of that side.
pub fn parse_sides(s: &str) -> (r: Vec<Vec<char>>)
    ensures
        view_all(r@) == split_commas(s@),
{
    let mut sides: Vec<Vec<char>> = Vec::new();
    let mut current: Vec<char> = Vec::new();
    let ghost mut seen: Seq<char> = Seq::empty();
    for c in it: s.chars()
        invariant
            it.seq() == s@,
            seen == s@.subrange(0, it.index() as int),
            view_all(sides@).push(current@) == split_commas(seen),
    {
        proof {
            lemma_split_commas_nonempty(seen);
        }
        let ghost before = seen;
        proof {
            seen = seen.push(c);
            assert(seen.drop_last() == before);
        }
        if c == ',' {
            let done = current;
            current = Vec::new();
            sides.push(done);
            assert(view_all(sides@).push(current@) =~= split_commas(before).push(Seq::empty()));
        } else {
            current.push(c);
            assert(view_all(sides@).push(current@) =~= split_commas(before).update(
                split_commas(before).len() - 1,
                split_commas(before).last().push(c),
            ));
        }
    }
    assert(seen == s@);
    sides.push(current);
    assert(view_all(sides@) =~= split_commas(s@));
    sides
}

/// The letters of the board, each once, in the order in which they first
/// appear on the sides.
pub fn sides_to_chars(sides: &Vec<Vec<char>>) -> (r: Vec<char>)
    ensures
        r@.to_set() == board_letters(view_all(sides@)),
        r@.no_duplicates(),
{
    let ghost sv = view_all(sides@);
    let mut letters: Vec<char> = Vec::new();
    let mut i: usize = 0;
    while i < sides.len()
        invariant
            i <= sides.len(),
            sv == view_all(sides@),
            letters@.no_duplicates(),
            forall|c: char|
                letters@.contains(c) <==> exists|k: int|
                    0 <= k < i && (#[trigger] sv[k]).contains(c),
        decreases sides.len() - i,
    {
        let side = &sides[i];
        assert(sv[i as int] == side@);
        let mut j: usize = 0;
        while j < side.len()
            invariant
                i < sides.len(),
                j <= side.len(),
                sv == view_all(sides@),
                sv[i as int] == side@,
                letters@.no_duplicates(),
                forall|c: char|
                    letters@.contains(c) <==> (exists|k: int|
                        0 <= k < i && (#[trigger] sv[k]).contains(c)) || (exists|t: int|
                        0 <= t < j && side@[t] == c),
            decreases side.len() - j,
        {
            let c = side[j];
            let ghost prev = letters@;
            if !contains_char(&letters, c) {
                letters.push(c);
                assert forall|d: char| letters@.contains(d) <==> prev.contains(d) || d == c by {
                    if letters@.contains(d) && d != c {
                        let t = choose|t: int| 0 <= t < letters@.len() && letters@[t] == d;
                        assert(prev[t] == d);
                    }
                    if prev.contains(d) {
                        let t = choose|t: int| 0 <= t < prev.len() && prev[t] == d;
                        assert(letters@[t] == d);
                    }
                    assert(letters@[prev.len() as int] == c);
                }
            }
            assert(side@[j as int] == c);
            assert(forall|d: char| letters@.contains(d) <==> prev.contains(d) || d == c);
            assert forall|d: char|
                letters@.contains(d) <==> (exists|k: int|
                    0 <= k < i && (#[trigger] sv[k]).contains(d)) || (exists|t: int|
                    0 <= t < j + 1 && side@[t] == d) by {
                assert(prev.contains(d) <==> (exists|k: int|
                    0 <= k < i && (#[trigger] sv[k]).contains(d)) || (exists|t: int|
                    0 <= t < j && side@[t] == d));
                if d == c {
                    assert(side@[j as int] == d);
                }
                if exists|t: int| 0 <= t < j + 1 && side@[t] == d {
                    let t = choose|t: int| 0 <= t < j + 1 && side@[t] == d;
                    if t < j {
                        assert(exists|t: int| 0 <= t < j && side@[t] == d);
                    }
                }
            }
            j = j + 1;
        }
        assert forall|c: char|
            letters@.contains(c) <==> exists|k: int|
                0 <= k < i + 1 && (#[trigger] sv[k]).contains(c) by {
            if side@.contains(c) {
                assert(sv[i as int].contains(c));
            }
        }
        i = i + 1;
    }
    assert(letters@.to_set() =~= board_letters(sv));
    letters
}

} // verus!
