use xwords::crossword::{Crossword, Direction};
use xwords::fill::cache::{CachedIsViable, CachedWords};
use xwords::fill::{
    build_square_word_boundary_lookup, crossing_direction, fill_one_word, is_viable_reuse,
    words_orthogonal_to_word,
};
use xwords::crossword::WordIterator;
use xwords::parse::{parse_word_boundaries, WordBoundary};
use xwords::trie::Trie;

fn dictionary(words: &[&str]) -> Trie {
    Trie::build(words.iter().map(|w| w.to_string()).collect())
}

#[test]
fn lookup_finds_the_words_of_a_cell() {
    let grid = Crossword::parse(String::from("XX.\nX..\nXXX")).unwrap();
    let words = parse_word_boundaries(&grid);
    let lookup = build_square_word_boundary_lookup(&grid, &words);
    assert_eq!(Some(words[0]), lookup.word_at(Direction::Across, 0, 1));
    assert_eq!(Some(words[2]), lookup.word_at(Direction::Down, 0, 0));
    assert_eq!(None, lookup.word_at(Direction::Down, 0, 1));
    assert_eq!(None, lookup.word_at(Direction::Across, 1, 0));
    assert_eq!(Some(words[1]), lookup.word_at(Direction::Across, 2, 2));
    assert_eq!(None, lookup.word_at(Direction::Across, 1, 2));
}

#[test]
fn orthogonals_are_the_crossing_words() {
    let grid = Crossword::parse(String::from("XX.\nX..\nXXX")).unwrap();
    let words = parse_word_boundaries(&grid);
    let lookup = build_square_word_boundary_lookup(&grid, &words);
    assert_eq!(vec![words[2]], words_orthogonal_to_word(&words[0], &lookup));
    assert_eq!(vec![words[2]], words_orthogonal_to_word(&words[1], &lookup));
    assert_eq!(vec![words[0], words[1]], words_orthogonal_to_word(&words[2], &lookup));
    assert_eq!(Direction::Down, crossing_direction(Direction::Across));
    assert_eq!(Direction::Across, crossing_direction(Direction::Down));
}

#[test]
fn fill_one_word_writes_the_word() {
    let grid = Crossword::parse(String::from("XX.\nX..\nXXX")).unwrap();
    let down = WordBoundary::new(0, 0, 3, Direction::Down);
    let iter = WordIterator::new(&grid, &down);
    let filled = fill_one_word(&grid, &iter, &String::from("CAT"));
    assert_eq!("CX.\nA..\nTXX", filled.to_string());
    assert_eq!("XX.\nX..\nXXX", grid.to_string());
}

#[test]
fn viability_of_crossing_words() {
    let trie = dictionary(&["CAT", "CO", "TEA"]);
    let grid = Crossword::parse(String::from("CX.\nA..\nTXX")).unwrap();
    let words = parse_word_boundaries(&grid);
    let mut cache = CachedIsViable::default();
    assert!(is_viable_reuse(&grid, &words, &trie, &mut cache));
    assert!(is_viable_reuse(&grid, &words, &trie, &mut cache));
    let grid = Crossword::parse(String::from("CX.\nA..\nBXX")).unwrap();
    assert!(!is_viable_reuse(&grid, &words, &trie, &mut cache));
    assert!(is_viable_reuse(&grid, &Vec::new(), &trie, &mut cache));
}

#[test]
fn caches_answer_as_the_dictionary_does() {
    let trie = dictionary(&["CAT", "COT", "DOG"]);
    let grid = Crossword::parse(String::from("CXT\nXXX\nDOG\nXXQ")).unwrap();
    let first = WordBoundary::new(0, 0, 3, Direction::Across);
    let second = WordBoundary::new(1, 0, 3, Direction::Across);
    let third = WordBoundary::new(2, 0, 3, Direction::Across);
    let fourth = WordBoundary::new(3, 0, 3, Direction::Across);
    let mut words = CachedWords::default();
    let mut viable = CachedIsViable::default();
    for _ in 0..2 {
        let mut found = words.words(WordIterator::new(&grid, &first), &trie);
        found.sort();
        assert_eq!(vec!["CAT", "COT"], found);
        assert_eq!(2, words.count(WordIterator::new(&grid, &first), &trie));
        assert_eq!(3, words.count(WordIterator::new(&grid, &second), &trie));
        assert_eq!(vec!["DOG"], words.words(WordIterator::new(&grid, &third), &trie));
        assert_eq!(0, words.count(WordIterator::new(&grid, &fourth), &trie));
        assert!(viable.is_viable(WordIterator::new(&grid, &first), &trie));
        assert!(viable.is_viable(WordIterator::new(&grid, &third), &trie));
        assert!(!viable.is_viable(WordIterator::new(&grid, &fourth), &trie));
    }
}
