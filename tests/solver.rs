use letter_boxed::{
    chain_line, expand_all, filter_words, is_complete_chain, is_valid_word, parse_sides, permute,
    run, sides_to_chars, solve, word_chars, Config, WordIndex,
};

fn strings(v: &[&str]) -> Vec<String> {
    v.iter().map(|s| s.to_string()).collect()
}

fn board(s: &str) -> Vec<Vec<char>> {
    parse_sides(s)
}

fn config(sides: &str, depth: usize) -> Config {
    Config { depth, sides: parse_sides(sides) }
}

#[test]
fn parse_sides_splits_on_commas() {
    assert_eq!(
        parse_sides("abc,def,ghi,jkl"),
        vec![
            vec!['a', 'b', 'c'],
            vec!['d', 'e', 'f'],
            vec!['g', 'h', 'i'],
            vec!['j', 'k', 'l']
        ]
    );
    assert_eq!(parse_sides("ab,,c"), vec![vec!['a', 'b'], vec![], vec!['c']]);
    assert_eq!(parse_sides(""), vec![Vec::<char>::new()]);
}

#[test]
fn sides_to_chars_lists_each_letter_once() {
    assert_eq!(sides_to_chars(&board("aa,ba")), vec!['a', 'b']);
    assert_eq!(sides_to_chars(&board("ab,cd")), vec!['a', 'b', 'c', 'd']);
}

#[test]
fn word_chars_reads_every_character() {
    assert_eq!(word_chars("héllo"), vec!['h', 'é', 'l', 'l', 'o']);
    assert_eq!(word_chars(""), Vec::<char>::new());
}

#[test]
fn adjacency_rule_on_standard_board() {
    let sides = board("abc,def,ghi,jkl");
    // b and a share a side
    assert!(!is_valid_word(&sides, &word_chars("bad")));
    // i and g share a side
    assert!(!is_valid_word(&sides, &word_chars("fig")));
    assert!(!is_valid_word(&sides, &word_chars("dig")));
    assert!(is_valid_word(&sides, &word_chars("gal")));
    // a letter may come back once another side sits between
    assert!(is_valid_word(&sides, &word_chars("adage")));
    assert!(is_valid_word(&sides, &word_chars("aja")));
}

#[test]
fn letters_off_the_board_are_rejected() {
    let sides = board("abc,def,ghi,jkl");
    assert!(!is_valid_word(&sides, &word_chars("gaz")));
    assert!(!is_valid_word(&sides, &word_chars("Gal")));
    assert!(!is_valid_word(&sides, &word_chars("")));
}

#[test]
fn repeated_letter_within_a_side() {
    let sides = board("aa,b");
    assert!(is_valid_word(&sides, &word_chars("ab")));
    assert!(is_valid_word(&sides, &word_chars("aba")));
    assert!(!is_valid_word(&sides, &word_chars("aa")));
    assert!(!is_valid_word(&sides, &word_chars("abb")));
    assert_eq!(run(&config("aa,b", 1), &strings(&["aba", "aa", "ab"])), strings(&["aba", "ab"]));
}

#[test]
fn filter_keeps_playable_lines_in_order() {
    let sides = board("abc,def,ghi,jkl");
    let lines = strings(&["bad", "gal", "fig", "", "Gal", "aja", "hello"]);
    assert_eq!(filter_words(&sides, &lines), strings(&["gal", "aja"]));
}

#[test]
fn index_groups_by_first_letter() {
    let index = WordIndex::new(strings(&["gal", "aja", "gad", "ale"]));
    assert_eq!(index.len(), 4);
    assert_eq!(index.words_starting_with('g'), vec![0, 2]);
    assert_eq!(index.words_starting_with('a'), vec![1, 3]);
    assert_eq!(index.words_starting_with('z'), Vec::<usize>::new());
    assert_eq!(index.word(2), "gad");
    assert_eq!(index.letters(3), &vec!['a', 'l', 'e']);
}

#[test]
fn permute_appends_each_follower() {
    let index = WordIndex::new(strings(&["gal", "lag", "leg", "gel"]));
    assert_eq!(permute(&index, &vec![0]), vec![vec![0, 1], vec![0, 2]]);
    assert_eq!(permute(&index, &vec![3, 1]), vec![vec![3, 1, 0], vec![3, 1, 3]]);
    let index = WordIndex::new(strings(&["ab"]));
    assert_eq!(permute(&index, &vec![0]), Vec::<Vec<usize>>::new());
}

#[test]
fn expand_all_keeps_frontier_order() {
    let index = WordIndex::new(strings(&["gal", "lag", "leg", "gel"]));
    let chains = vec![vec![1], vec![0]];
    assert_eq!(
        expand_all(&index, &chains),
        vec![vec![1, 0], vec![1, 3], vec![0, 1], vec![0, 2]]
    );
}

#[test]
fn completion_check_needs_every_letter() {
    let index = WordIndex::new(strings(&["aceg", "gbdfh"]));
    let letters = sides_to_chars(&board("ab,cd,ef,gh"));
    assert!(!is_complete_chain(&index, &letters, &vec![0]));
    assert!(!is_complete_chain(&index, &letters, &vec![1]));
    assert!(is_complete_chain(&index, &letters, &vec![0, 1]));
    assert!(is_complete_chain(&index, &Vec::new(), &vec![0]));
}

#[test]
fn chain_line_joins_with_spaces() {
    let index = WordIndex::new(strings(&["aceg", "gbdfh"]));
    assert_eq!(chain_line(&index, &vec![0, 1]), "aceg gbdfh");
    assert_eq!(chain_line(&index, &vec![1]), "gbdfh");
    assert_eq!(chain_line(&index, &vec![]), "");
}

#[test]
fn solve_finds_complete_chains_level_by_level() {
    let index = WordIndex::new(strings(&["acegbdfh", "aceg", "gbdfh"]));
    assert_eq!(solve(&index, &config("ab,cd,ef,gh", 1)), vec![vec![0]]);
    assert_eq!(solve(&index, &config("ab,cd,ef,gh", 2)), vec![vec![0], vec![1, 2]]);
    assert_eq!(solve(&index, &config("ab,cd,ef,gh", 0)), Vec::<Vec<usize>>::new());
}

#[test]
fn standard_board_scenario_is_incomplete() {
    let out = run(&config("abc,def,ghi,jkl", 3), &strings(&["fig", "gal"]));
    assert_eq!(out, Vec::<String>::new());
    let out = run(&config("abc,def,ghi,jkl", 3), &strings(&["bad", "dig", "gal"]));
    assert_eq!(out, Vec::<String>::new());
}

#[test]
fn empty_dictionary_gives_no_output() {
    assert_eq!(run(&config("abc,def,ghi,jkl", 3), &Vec::new()), Vec::<String>::new());
}

#[test]
fn run_prints_two_word_solution() {
    let lines = strings(&["aceg", "gbdfh", "hello", "Aceg", ""]);
    assert_eq!(run(&config("ab,cd,ef,gh", 2), &lines), strings(&["aceg gbdfh"]));
    assert_eq!(run(&config("ab,cd,ef,gh", 3), &lines), strings(&["aceg gbdfh"]));
    assert_eq!(run(&config("ab,cd,ef,gh", 1), &lines), Vec::<String>::new());
}

#[test]
fn run_is_repeatable() {
    let lines = strings(&["acegbdfh", "aceg", "gbdfh", "hace", "hgb"]);
    let first = run(&config("ab,cd,ef,gh", 3), &lines);
    let second = run(&config("ab,cd,ef,gh", 3), &lines);
    assert_eq!(first, second);
    assert!(!first.is_empty());
}

#[test]
fn deeper_search_keeps_earlier_solutions() {
    let lines = strings(&["acegbdfh", "aceg", "gbdfh", "hace"]);
    let d1 = run(&config("ab,cd,ef,gh", 1), &lines);
    let d2 = run(&config("ab,cd,ef,gh", 2), &lines);
    let d3 = run(&config("ab,cd,ef,gh", 3), &lines);
    assert_eq!(d1, strings(&["acegbdfh"]));
    assert_eq!(
        d2,
        strings(&["acegbdfh", "acegbdfh hace", "aceg gbdfh", "gbdfh hace"])
    );
    assert_eq!(&d2[..d1.len()], &d1[..]);
    assert_eq!(&d3[..d2.len()], &d2[..]);
    assert_eq!(
        d3,
        strings(&[
            "acegbdfh",
            "acegbdfh hace",
            "aceg gbdfh",
            "gbdfh hace",
            "aceg gbdfh hace",
        ])
    );
}

#[test]
fn every_solution_links_and_covers() {
    let lines = strings(&["acegbdfh", "aceg", "gbdfh", "hace"]);
    let sides = board("ab,cd,ef,gh");
    let letters = sides_to_chars(&sides);
    for line in run(&config("ab,cd,ef,gh", 3), &lines) {
        let ws: Vec<&str> = line.split(' ').collect();
        assert!(!ws.is_empty() && ws.len() <= 3);
        for pair in ws.windows(2) {
            assert_eq!(pair[0].chars().last(), pair[1].chars().next());
        }
        for c in &letters {
            assert!(line.contains(*c));
        }
    }
}
