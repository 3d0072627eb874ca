use std::collections::HashSet;
use xwords::crossword::{Crossword, Direction, ParseError, WordIterator};
use xwords::parse::WordBoundary;

#[test]
fn parse_from_string_works() {
    let result = Crossword::parse(String::from(
        "
abc
def
ghi
",
    ));

    assert!(result.is_ok());

    let c = result.unwrap();
    assert_eq!(String::from("abcdefghi"), c.contents());
    assert_eq!(3, c.width());
    assert_eq!(3, c.height());
    println!("{}", c.to_string());
}

#[test]
fn crossword_iterator_works() {
    let input = Crossword::parse(String::from(
        "
ABC
DEF
GHI
",
    ))
    .unwrap();
    let word_boundary = WordBoundary {
        start_col: 0,
        start_row: 0,
        direction: Direction::Across,
        length: 3,
    };

    let t = WordIterator::new(&input, &word_boundary);

    let s: String = t.to_string();

    assert_eq!(String::from("ABC"), s);

    let word_boundary = WordBoundary {
        start_col: 0,
        start_row: 0,
        direction: Direction::Down,
        length: 3,
    };

    let t = WordIterator::new(&input, &word_boundary);

    let s: String = t.to_string();

    assert_eq!(String::from("ADG"), s);
}

#[test]
fn crossword_iterator_eq_works() {
    let input = Crossword::parse(String::from(
        "
ABC
BXX
CXX
",
    ))
    .unwrap();
    let a = WordBoundary {
        start_col: 0,
        start_row: 0,
        direction: Direction::Across,
        length: 3,
    };
    let b = WordBoundary {
        start_col: 0,
        start_row: 0,
        direction: Direction::Down,
        length: 3,
    };

    let a_iter = WordIterator::new(&input, &a);

    let b_iter = WordIterator::new(&input, &b);

    assert_eq!(a_iter, b_iter);
}

#[test]
fn crossword_iterator_hash_works() {
    let input = Crossword::parse(String::from(
        "
ABC
BXX
CXX
",
    ))
    .unwrap();
    let a = WordBoundary {
        start_col: 0,
        start_row: 0,
        direction: Direction::Across,
        length: 3,
    };
    let b = WordBoundary {
        start_col: 0,
        start_row: 0,
        direction: Direction::Down,
        length: 3,
    };

    let a_iter = WordIterator::new(&input, &a);

    let b_iter = WordIterator::new(&input, &b);

    let mut set = HashSet::new();

    set.insert(a_iter);

    assert!(set.contains(&b_iter));
}

#[test]
fn words_in_direction_works() {
    let input = Crossword::parse(String::from(
        "
SIAM
N.EM
RYAL
",
    ))
    .unwrap();

    let across_words = input.words(Direction::Across);
    let down_words = input.words(Direction::Down);

    assert_eq!(vec!["SIAM", "EM", "RYAL"], across_words);
    assert_eq!(vec!["SNR", "AEA", "MML"], down_words);
}

#[test]
fn letter_grid_words_in_both_directions() {
    let input = Crossword::parse(String::from("ABC\nDEF\nGHI")).unwrap();
    assert_eq!(vec!["ABC", "DEF", "GHI"], input.words(Direction::Across));
    assert_eq!(vec!["ADG", "BEH", "CFI"], input.words(Direction::Down));
}

#[test]
fn parse_rejects_ragged_rows() {
    assert_eq!(
        Crossword::parse(String::from("ABC\nDE\n")).err(),
        Some(ParseError::UnequalRows)
    );
    assert_eq!(
        Crossword::parse(String::from("ABC\n\nDEF\n")).err(),
        Some(ParseError::UnequalRows)
    );
}

#[test]
fn parse_rejects_empty_text() {
    assert_eq!(Crossword::parse(String::new()).err(), Some(ParseError::EmptyGrid));
    assert_eq!(Crossword::parse(String::from("\n\n\n")).err(), Some(ParseError::EmptyGrid));
}

#[test]
fn parse_reads_empty_cells_and_blocks() {
    let c = Crossword::parse(String::from("\n\nX.\n:A\n\n")).unwrap();
    assert_eq!(2, c.width());
    assert_eq!(2, c.height());
    assert_eq!(' ', c.cell(0, 0));
    assert_eq!('.', c.cell(0, 1));
    assert_eq!(':', c.cell(1, 0));
    assert_eq!('A', c.cell(1, 1));
    assert!(c.has_empty());
    assert_eq!(4, c.cell_count());
}

#[test]
fn display_writes_x_for_empty_cells() {
    let c = Crossword::parse(String::from("AX.\nX:B\n")).unwrap();
    assert_eq!("AX.\nX:B", c.to_string());
}

#[test]
fn parse_of_display_is_the_grid() {
    let g = Crossword::parse(String::from("\nAB.X\nX:CD\nEFXX\n")).unwrap();
    let again = Crossword::parse(g.to_string()).unwrap();
    assert_eq!(g, again);
}

#[test]
fn parse_of_display_of_a_single_cell() {
    let g = Crossword::parse(String::from("Q")).unwrap();
    assert_eq!("Q", g.to_string());
    assert_eq!(g, Crossword::parse(g.to_string()).unwrap());
}

#[test]
fn with_cell_changes_one_cell() {
    let g = Crossword::parse(String::from("XX\nXX")).unwrap();
    let h = g.with_cell(1, 0, 'Z');
    assert_eq!("XX\nZX", h.to_string());
    assert_eq!("XX\nXX", g.to_string());
}

#[test]
fn with_word_writes_along_the_word() {
    let g = Crossword::parse(String::from("XXX\nXXX\nXXX")).unwrap();
    let down = WordBoundary::new(0, 1, 3, Direction::Down);
    let word: Vec<char> = "CAT".chars().collect();
    let h = g.with_word(&down, &word);
    assert_eq!("XCX\nXAX\nXTX", h.to_string());
    let across = WordBoundary::new(2, 0, 3, Direction::Across);
    let word: Vec<char> = "ATE".chars().collect();
    let h = h.with_word(&across, &word);
    assert_eq!("XCX\nXAX\nATE", h.to_string());
}

#[test]
fn iterator_gives_cells_in_order() {
    let g = Crossword::parse(String::from("AB\nXD")).unwrap();
    let wb = WordBoundary::new(0, 0, 2, Direction::Down);
    let mut iter = WordIterator::new(&g, &wb);
    assert!(iter.has_empty());
    assert_eq!(vec!['A', ' '], iter.chars());
    assert_eq!(Some('A'), iter.next());
    assert_eq!(Some(' '), iter.next());
    assert_eq!(None, iter.next());
    assert_eq!(None, iter.next());
    assert_eq!(&wb, iter.word_boundary());
}

#[test]
fn iterators_of_different_length_differ() {
    let g = Crossword::parse(String::from("ABC\nABC")).unwrap();
    let long = WordBoundary::new(0, 0, 3, Direction::Across);
    let short = WordBoundary::new(1, 0, 2, Direction::Across);
    assert!(WordIterator::new(&g, &long) != WordIterator::new(&g, &short));
    let other = WordBoundary::new(1, 0, 3, Direction::Across);
    assert!(WordIterator::new(&g, &long) == WordIterator::new(&g, &other));
    let down = WordBoundary::new(0, 0, 2, Direction::Down);
    assert!(WordIterator::new(&g, &short) != WordIterator::new(&g, &down));
}
