use xwords::crossword::{Crossword, Direction};
use xwords::parse::{direction_word_boundaries, parse_word_boundaries, WordBoundary};

#[test]
fn parse_word_boundaries_works() {
    let c = Crossword::parse(String::from(
        "
abc
def
ghi
",
    ))
    .unwrap();
    let result = parse_word_boundaries(&c);

    assert_eq!(result.len(), 6);
    assert_eq!(
        result[0],
        WordBoundary {
            start_col: 0,
            start_row: 0,
            length: 3,
            direction: Direction::Across
        }
    );
    assert_eq!(
        result[1],
        WordBoundary {
            start_col: 0,
            start_row: 1,
            length: 3,
            direction: Direction::Across
        }
    );
    assert_eq!(
        result[2],
        WordBoundary {
            start_col: 0,
            start_row: 2,
            length: 3,
            direction: Direction::Across
        }
    );
    assert_eq!(
        result[3],
        WordBoundary {
            start_col: 0,
            start_row: 0,
            length: 3,
            direction: Direction::Down,
        }
    )
}

#[test]
fn parse_word_boundaries_small_grid_works() {
    let c = Crossword::parse(String::from(
        "
XX.
X..
XXX
",
    ))
    .unwrap();

    let result = parse_word_boundaries(&c);

    assert_eq!(result.len(), 3);
    assert_eq!(
        result[0],
        WordBoundary {
            start_row: 0,
            start_col: 0,
            length: 2,
            direction: Direction::Across
        }
    );
    assert_eq!(
        result[1],
        WordBoundary {
            start_row: 2,
            start_col: 0,
            length: 3,
            direction: Direction::Across
        }
    );
    assert_eq!(
        result[2],
        WordBoundary {
            start_row: 0,
            start_col: 0,
            length: 3,
            direction: Direction::Down
        }
    );
}

#[test]
fn parse_word_boundaries_with_diagramless_black_square_works() {
    let c = Crossword::parse(String::from(
        "
XX:
X::
XXX
",
    ))
    .unwrap();

    let result = parse_word_boundaries(&c);

    assert_eq!(result.len(), 3);
    assert_eq!(
        result[0],
        WordBoundary {
            start_row: 0,
            start_col: 0,
            length: 2,
            direction: Direction::Across
        }
    );
    assert_eq!(
        result[1],
        WordBoundary {
            start_row: 2,
            start_col: 0,
            length: 3,
            direction: Direction::Across
        }
    );
    assert_eq!(
        result[2],
        WordBoundary {
            start_row: 0,
            start_col: 0,
            length: 3,
            direction: Direction::Down
        }
    );
}

#[test]
fn parse_word_boundaries_big_grid_works() {
    let c = Crossword::parse(String::from(
        "
XXXX.XXXX.XXXXX
XXXX.XXXX.XXXXX
XXXXXXXXX.XXXXX
XXX.XXX.XXX.XXX
..XXXX.XXXXXXXX
XXXXXX.XXXXX...
XXXXX.XXXX.XXXX
XXX.XXXXXXX.XXX
XXXX.XXXX.XXXXX
...XXXXX.XXXXXX
XXXXXXXX.XXXX..
XXX.XXX.XXX.XXX
XXXXX.XXXXXXXXX
XXXXX.XXXX.XXXX
XXXXX.XXXX.XXXX
",
    ))
    .unwrap();

    let result = parse_word_boundaries(&c);

    assert_eq!(result.len(), 80);
    assert_eq!(
        result[0],
        WordBoundary {
            start_col: 0,
            start_row: 0,
            length: 4,
            direction: Direction::Across
        }
    );

    assert_eq!(
        result[1],
        WordBoundary {
            start_col: 5,
            start_row: 0,
            length: 4,
            direction: Direction::Across
        }
    );

    assert_eq!(
        result[41],
        WordBoundary {
            start_col: 0,
            start_row: 0,
            length: 4,
            direction: Direction::Down
        }
    );

    assert_eq!(
        result[79],
        WordBoundary {
            start_col: 14,
            start_row: 11,
            length: 4,
            direction: Direction::Down
        }
    );
}

#[test]
fn words_do_not_depend_on_letters() {
    let empty = Crossword::parse(String::from("XX.\nX..\nXXX")).unwrap();
    let filled = Crossword::parse(String::from("AB:\nC.:\nDEF")).unwrap();
    assert_eq!(parse_word_boundaries(&empty), parse_word_boundaries(&filled));
}

#[test]
fn single_cells_are_no_words() {
    let c = Crossword::parse(String::from("A")).unwrap();
    assert!(parse_word_boundaries(&c).is_empty());
    let c = Crossword::parse(String::from("X.X\n.X.\nX.X")).unwrap();
    assert!(parse_word_boundaries(&c).is_empty());
}

#[test]
fn words_of_one_direction() {
    let c = Crossword::parse(String::from("XX.\nX..\nXXX")).unwrap();
    assert_eq!(
        direction_word_boundaries(&c, Direction::Across),
        vec![
            WordBoundary::new(0, 0, 2, Direction::Across),
            WordBoundary::new(2, 0, 3, Direction::Across)
        ]
    );
    assert_eq!(
        direction_word_boundaries(&c, Direction::Down),
        vec![WordBoundary::new(0, 0, 3, Direction::Down)]
    );
}
