use std::cmp::Ordering;
use xwords::crossword::{Crossword, Direction};
use xwords::fill::filler::{FillError, Filler};
use xwords::parse::parse_word_boundaries;
use xwords::trie::Trie;

fn dictionary(words: &[&str]) -> Trie {
    Trie::build(words.iter().map(|w| w.to_string()).collect())
}

#[test]
fn test() {
    assert_eq!((1, 2).cmp(&(3, 4)), Ordering::Less)
}

#[test]
fn fills_a_small_square() {
    let trie = dictionary(&["AB", "CD", "AC", "BD"]);
    let grid = Crossword::parse(String::from("XX\nXX")).unwrap();
    let mut filler = Filler::new(&trie, false, None);
    let filled = filler.fill(&grid).unwrap();
    assert!(!filled.has_empty());
    for direction in [Direction::Across, Direction::Down] {
        for word in filled.words(direction) {
            assert!(["AB", "CD", "AC", "BD"].contains(&word.as_str()));
        }
    }
    assert_eq!(parse_word_boundaries(&grid), parse_word_boundaries(&filled));
}

#[test]
fn keeps_the_letters_in_place() {
    let trie = dictionary(&["CAT", "COT", "CUT", "ARE", "ORE", "TEA", "TEN", "CAN", "URN"]);
    let grid = Crossword::parse(String::from("CXX\nX..\nXXX")).unwrap();
    let mut filler = Filler::new(&trie, false, Some(60));
    let filled = filler.fill(&grid).unwrap();
    assert_eq!('C', filled.cell(0, 0));
    assert_eq!('.', filled.cell(1, 1));
    assert_eq!('.', filled.cell(1, 2));
    assert!(!filled.has_empty());
    let words = ["CAT", "COT", "CUT", "ARE", "ORE", "TEA", "TEN", "CAN", "URN"];
    for direction in [Direction::Across, Direction::Down] {
        for word in filled.words(direction) {
            assert!(words.contains(&word.as_str()));
        }
    }
}

#[test]
fn fills_a_waffle_grid() {
    let words = [
        "APPLE", "ALLOW", "PLANE", "ELDER", "WORLD", "ANGLE", "EAGER", "RIDER", "EARTH", "HOUSE",
        "TIGER", "TABLE", "TRAIN", "NORTH", "STONE", "SHARE", "EVENT", "TOWER", "RIVER", "OTHER",
    ];
    let trie = dictionary(&words);
    let grid = Crossword::parse(String::from(
        "
XXXXX
X.X.X
XXXXX
X.X.X
XXXXX
",
    ))
    .unwrap();
    for random in [false, true] {
        let mut filler = Filler::new(&trie, random, None);
        match filler.fill(&grid) {
            Ok(filled) => {
                assert!(!filled.has_empty());
                let mut count = 0;
                for direction in [Direction::Across, Direction::Down] {
                    for word in filled.words(direction) {
                        assert_eq!(5, word.len());
                        assert!(words.contains(&word.as_str()));
                        count += 1;
                    }
                }
                assert_eq!(6, count);
            }
            Err(e) => assert_eq!(FillError::NoSolution, e),
        }
    }
}

#[test]
fn no_words_of_the_length_is_no_solution() {
    let trie = dictionary(&["ABCD", "EFGH"]);
    let grid = Crossword::parse(String::from("XXX\nXXX\nXXX")).unwrap();
    let mut filler = Filler::new(&trie, false, None);
    assert_eq!(Err(FillError::NoSolution), filler.fill(&grid));
}

#[test]
fn a_full_grid_of_known_words_is_returned() {
    let trie = dictionary(&["AB", "CD", "AC", "BD"]);
    let grid = Crossword::parse(String::from("AB\nCD")).unwrap();
    let mut filler = Filler::new(&trie, false, Some(0));
    assert_eq!(Ok(grid.clone()), filler.fill(&grid));
}

#[test]
fn a_full_grid_with_an_unknown_word_has_no_solution() {
    let trie = dictionary(&["AB", "CD", "AC"]);
    let grid = Crossword::parse(String::from("AB\nCD")).unwrap();
    let mut filler = Filler::new(&trie, false, None);
    assert_eq!(Err(FillError::NoSolution), filler.fill(&grid));
}

#[test]
fn a_single_letter_is_complete() {
    let trie = dictionary(&[]);
    let grid = Crossword::parse(String::from("A")).unwrap();
    assert!(parse_word_boundaries(&grid).is_empty());
    let mut filler = Filler::new(&trie, false, None);
    assert_eq!(Ok(grid.clone()), filler.fill(&grid));
}

#[test]
fn no_time_is_time_exceeded() {
    let trie = dictionary(&["AB", "CD", "AC", "BD"]);
    let grid = Crossword::parse(String::from("XX\nXX")).unwrap();
    let mut filler = Filler::new(&trie, false, Some(0));
    assert_eq!(
        Err(FillError::TimeExceeded {
            max_time_seconds: 0,
            candidates: 1
        }),
        filler.fill(&grid)
    );
}

#[test]
fn an_empty_cell_outside_every_word_cannot_be_filled() {
    let trie = dictionary(&["AB"]);
    let grid = Crossword::parse(String::from("X.XX")).unwrap();
    let mut filler = Filler::new(&trie, false, None);
    assert_eq!(Err(FillError::NoFillableSlot), filler.fill(&grid));
    let grid = Crossword::parse(String::from("X")).unwrap();
    assert_eq!(Err(FillError::NoFillableSlot), filler.fill(&grid));
}

#[test]
fn the_most_constrained_word_is_chosen_first() {
    let trie = dictionary(&["AB", "AC", "AD", "BOY", "COY"]);
    let grid = Crossword::parse(String::from("AX.\n...\nXXX")).unwrap();
    let words = parse_word_boundaries(&grid);
    let mut filler = Filler::new(&trie, false, None);
    assert_eq!(Some(1), filler.select_slot(&grid, &words));
    let grid = Crossword::parse(String::from("AB.\n...\nBOY")).unwrap();
    assert_eq!(None, filler.select_slot(&grid, &parse_word_boundaries(&grid)));
    let grid = Crossword::parse(String::from("XX\nXX")).unwrap();
    assert_eq!(Some(0), filler.select_slot(&grid, &parse_word_boundaries(&grid)));
}

#[test]
fn backtracks_over_a_dead_end() {
    let trie = dictionary(&["AB", "AC", "BE", "CF", "EF"]);
    let grid = Crossword::parse(String::from("XX\nXX")).unwrap();
    let mut filler = Filler::new(&trie, false, None);
    let filled = filler.fill(&grid).unwrap();
    let mut words = filled.words(Direction::Across);
    words.extend(filled.words(Direction::Down));
    for word in words {
        assert!(["AB", "AC", "BE", "CF", "EF"].contains(&word.as_str()));
    }
}

#[test]
fn try_fills_returns_the_first_full_grid() {
    let trie = dictionary(&["AB", "AC", "BD", "CD", "BE", "AX"]);
    let grid = Crossword::parse(String::from("AB\nXX")).unwrap();
    let words = parse_word_boundaries(&grid);
    let mut filler = Filler::new(&trie, false, None);
    let mut stack = Vec::new();
    let fills = vec![String::from("ZZ"), String::from("CD"), String::from("CE")];
    let found = filler.try_fills(&grid, &words[1], &vec![words[2], words[3]], &fills, &mut stack);
    assert_eq!("AB\nCD", found.unwrap().to_string());
    assert!(stack.is_empty());
}

#[test]
fn try_fills_keeps_the_grids_that_pass() {
    let trie = dictionary(&["AB", "AC", "BD", "CD", "BE", "CE"]);
    let grid = Crossword::parse(String::from("XX\nXX")).unwrap();
    let words = parse_word_boundaries(&grid);
    let mut filler = Filler::new(&trie, false, None);
    let mut stack = vec![grid.clone()];
    let fills = vec![String::from("AB"), String::from("DD"), String::from("CB")];
    let found = filler.try_fills(&grid, &words[0], &vec![words[2], words[3]], &fills, &mut stack);
    assert!(found.is_none());
    let kept: Vec<String> = stack.iter().map(|g| g.to_string()).collect();
    assert_eq!(vec!["XX\nXX", "AB\nXX", "CB\nXX"], kept);
}

fn dictionary_of_grid(solved: &str) -> Trie {
    let solved = Crossword::parse(String::from(solved)).unwrap();
    let mut words = solved.words(Direction::Across);
    words.extend(solved.words(Direction::Down));
    Trie::build(words)
}

fn assert_filled_with(filled: &Crossword, grid: &Crossword, trie: &Trie) {
    assert!(!filled.has_empty());
    assert_eq!(parse_word_boundaries(grid), parse_word_boundaries(filled));
    for direction in [Direction::Across, Direction::Down] {
        for word in filled.words(direction) {
            let pattern: Vec<char> = word.chars().collect();
            assert!(trie.is_viable(&pattern));
        }
    }
}

#[test]
fn medium_grid() {
    let grid = Crossword::parse(String::from(
        "
XXXX...
XXXX...
XXXX...
XXXXXXX
...XXXX
...XXXX
...XXXX
",
    ))
    .unwrap();

    let now = std::time::Instant::now();
    let trie =
        dictionary_of_grid("ABCD...\nEFGH...\nIJKL...\nMNOPQRS\n...TUVW\n...YZAB\n...CDEF");
    let mut filler = Filler::new(&trie, false, None);
    let filled_puz = filler.fill(&grid).unwrap();
    println!("Filled in {} seconds.", now.elapsed().as_secs());
    println!("{}", filled_puz.to_string());
    assert_filled_with(&filled_puz, &grid, &trie);
}

#[test]
fn medium_grid_ro() {
    let grid = Crossword::parse(String::from(
        "
XXXX...
XXXX...
XXXX...
XXXXXXX
...XXXX
...XXXX
...XXXX
",
    ))
    .unwrap();

    let now = std::time::Instant::now();
    let trie =
        dictionary_of_grid("AMOR...\nMARE...\nORAS...\nRESTUZI\n...UNIT\n...ZIDA\n...ITAR");
    let mut filler = Filler::new(&trie, true, None);
    let filled_puz = filler.fill(&grid).unwrap();
    println!("Filled in {} seconds.", now.elapsed().as_secs());
    println!("{}", filled_puz.to_string());
    assert_filled_with(&filled_puz, &grid, &trie);
}

#[test]
fn waffle_grid_ro_dex_000() {
    let grid = Crossword::parse(String::from(
        "
XXXXX
X.X.X
XXXXX
X.X.X
XXXXX
",
    ))
    .unwrap();

    let now = std::time::Instant::now();
    let trie = dictionary_of_grid("CARTE\nO.A.L\nPODUL\nI.I.A\nLUCRU");
    let mut filler = Filler::new(&trie, true, None);
    let filled_puz = filler.fill(&grid).unwrap();
    println!("Filled in {} seconds.", now.elapsed().as_secs());
    println!("{}", filled_puz.to_string());
    assert_filled_with(&filled_puz, &grid, &trie);
    assert_eq!(6, parse_word_boundaries(&filled_puz).len());
}

#[test]
fn a_row_longer_than_every_word_has_no_solution() {
    let trie = dictionary(&["AB"]);
    let grid = Crossword::parse(String::from("XXX")).unwrap();
    let mut filler = Filler::new(&trie, false, None);
    assert_eq!(Err(FillError::NoSolution), filler.fill(&grid));
}

#[test]
fn the_only_fill_is_found() {
    let trie = dictionary(&["AB", "AC"]);
    let grid = Crossword::parse(String::from("XB\nC.")).unwrap();
    let mut filler = Filler::new(&trie, false, None);
    assert_eq!(
        Ok(Crossword::parse(String::from("AB\nC.")).unwrap()),
        filler.fill(&grid)
    );
}

#[test]
fn a_step_leaves_the_grids_that_pass_on_the_stack() {
    let trie = dictionary(&["AB", "AC", "BD", "CD", "XY"]);
    let grid = Crossword::parse(String::from("AX\nXX")).unwrap();
    let words = parse_word_boundaries(&grid);
    let lookup = xwords::fill::build_square_word_boundary_lookup(&grid, &words);
    let mut filler = Filler::new(&trie, false, Some(5));
    let mut stack = Vec::new();
    let outcome = filler.explore(&grid, &grid, 0, 1, &words, &lookup, &mut stack);
    assert!(outcome.is_none());
    let mut kept: Vec<String> = stack.iter().map(|g| g.to_string()).collect();
    kept.sort();
    assert_eq!(vec!["AB\nXX", "AC\nXX"], kept);

    let mut stack = vec![grid.clone()];
    let outcome = filler.explore(&grid, &grid, 5, 7, &words, &lookup, &mut stack);
    assert_eq!(
        Some(Err(FillError::TimeExceeded {
            max_time_seconds: 5,
            candidates: 7
        })),
        outcome
    );
    assert_eq!(1, stack.len());

    let row = Crossword::parse(String::from("XXX")).unwrap();
    let words = parse_word_boundaries(&row);
    let lookup = xwords::fill::build_square_word_boundary_lookup(&row, &words);
    let mut stack = Vec::new();
    assert!(filler.explore(&row, &row, 0, 1, &words, &lookup, &mut stack).is_none());
    assert!(stack.is_empty());

    let stray = Crossword::parse(String::from("X.AB")).unwrap();
    let words = parse_word_boundaries(&stray);
    let lookup = xwords::fill::build_square_word_boundary_lookup(&stray, &words);
    assert_eq!(
        Some(Err(FillError::NoFillableSlot)),
        filler.explore(&stray, &stray, 0, 1, &words, &lookup, &mut stack)
    );
}
