//! Core types to represent a crossword puzzle.

use vstd::prelude::*;
use vstd::std_specs::cmp::PartialEqSpecImpl;
use std::hash::{Hash, Hasher};
use crate::parse::{
    WordBoundary, slot_view, direction_slots, direction_word_boundaries,
    lemma_direction_slots_contains,
};
use crate::text::{
    chars_of, string_of, rows_of, strings_of, split, split_lines, join_lines, lemma_split_join,
};

verus! {

/// The direction of a word in a crossword.
#[derive(Debug, PartialEq, Eq, Clone, Copy, Hash, Structural)]
pub enum Direction {
    Across,
    Down,
}

/// The cell value that stands for a square still to be filled.
pub const EMPTY: char = ' ';

/// Whether a cell value is a black square.
pub open spec fn is_block(c: char) -> bool {
    c == '.' || c == ':'
}

/// The mathematical model of a crossword: its rows of cells, top to bottom, each row
/// left to right. The width is kept beside the rows so that it is known of a grid
/// without rows too.
pub struct Grid {
    pub rows: Seq<Seq<char>>,
    pub width: nat,
}

impl Grid {
    pub open spec fn height(self) -> nat {
        self.rows.len()
    }

    /// Every row has the grid's width.
    pub open spec fn wf(self) -> bool {
        forall|r: int| 0 <= r < self.rows.len() ==> (#[trigger] self.rows[r]).len() == self.width
    }

    pub open spec fn in_bounds(self, row: int, col: int) -> bool {
        0 <= row < self.height() && 0 <= col < self.width
    }

    pub open spec fn at(self, row: int, col: int) -> char {
        self.rows[row][col]
    }

    /// The grid with the cell at (`row`, `col`) replaced by `letter`.
    pub open spec fn with_cell(self, row: int, col: int, letter: char) -> Grid {
        Grid { rows: self.rows.update(row, self.rows[row].update(col, letter)), width: self.width }
    }

    /// The grid with the letters of `word` in the cells of the word `s`.
    pub open spec fn with_word(self, s: WordBoundary, word: Seq<char>) -> Grid {
        Grid {
            rows: Seq::new(
                self.height(),
                |r: int|
                    Seq::new(
                        self.width,
                        |c: int|
                            if s.covers(r, c) {
                                word[s.offset_of(r, c)]
                            } else {
                                self.rows[r][c]
                            },
                    ),
            ),
            width: self.width,
        }
    }

    /// Two grids have the same dimensions.
    pub open spec fn same_shape(self, other: Grid) -> bool {
        self.width == other.width && self.height() == other.height()
    }

    /// Two grids of the same dimensions have their black squares in the same places.
    pub open spec fn same_blocks(self, other: Grid) -> bool {
        &&& self.same_shape(other)
        &&& forall|r: int, c: int|
            self.in_bounds(r, c) ==> is_block(#[trigger] self.at(r, c)) == is_block(other.at(r, c))
    }

    /// Some cell of the grid is still to be filled.
    pub open spec fn has_empty(self) -> bool {
        exists|r: int, c: int| self.in_bounds(r, c) && #[trigger] self.at(r, c) == EMPTY
    }

    /// `self` agrees with `base` wherever `base` holds anything but an empty cell.
    pub open spec fn extends(self, base: Grid) -> bool {
        &&& self.same_shape(base)
        &&& forall|r: int, c: int|
            base.in_bounds(r, c) && #[trigger] base.at(r, c) != EMPTY ==> self.at(r, c) == base.at(
                r,
                c,
            )
    }
}

/// Why a text is not a crossword grid.
#[derive(Debug, PartialEq, Eq, Clone, Copy, Hash, Structural)]
pub enum ParseError {
    /// The text holds no row at all.
    EmptyGrid,
    /// Some row is not as wide as the first one.
    UnequalRows,
}

/// What a character of the grid text means as a cell: `X` is an empty cell, everything
/// else stands for itself.
pub open spec fn clean_cell(c: char) -> char {
    if c == 'X' {
        EMPTY
    } else {
        c
    }
}

/// How a cell is written in the grid text: the inverse of [`clean_cell`] on all cells
/// but the letter `X`.
pub open spec fn show_cell(c: char) -> char {
    if c == EMPTY {
        'X'
    } else {
        c
    }
}

pub open spec fn drop_leading_blank(lines: Seq<Seq<char>>) -> Seq<Seq<char>>
    decreases lines.len(),
{
    if lines.len() > 0 && lines[0].len() == 0 {
        drop_leading_blank(lines.drop_first())
    } else {
        lines
    }
}

pub open spec fn drop_trailing_blank(lines: Seq<Seq<char>>) -> Seq<Seq<char>>
    decreases lines.len(),
{
    if lines.len() > 0 && lines.last().len() == 0 {
        drop_trailing_blank(lines.drop_last())
    } else {
        lines
    }
}

/// The lines without the empty ones at either end.
pub open spec fn trim_blank(lines: Seq<Seq<char>>) -> Seq<Seq<char>> {
    drop_trailing_blank(drop_leading_blank(lines))
}

/// All lines are as long as the first.
pub open spec fn rectangular(lines: Seq<Seq<char>>) -> bool {
    forall|i: int| 0 <= i < lines.len() ==> (#[trigger] lines[i]).len() == lines[0].len()
}

/// The grid that a text describes: its lines, without the blank ones before and after,
/// are the rows. `.` and `:` are black squares, `X` is an empty cell, and any other
/// character is a letter already in place.
pub open spec fn parse_result(text: Seq<char>) -> Result<Grid, ParseError> {
    let lines = trim_blank(split_lines(text));
    if lines.len() == 0 {
        Err(ParseError::EmptyGrid)
    } else if !rectangular(lines) {
        Err(ParseError::UnequalRows)
    } else {
        Ok(
            Grid {
                rows: Seq::new(
                    lines.len(),
                    |r: int| Seq::new(lines[0].len(), |c: int| clean_cell(lines[r][c])),
                ),
                width: lines[0].len(),
            },
        )
    }
}

/// The rows of a grid as they are written in the grid text.
pub open spec fn shown_rows(g: Grid) -> Seq<Seq<char>> {
    Seq::new(g.height(), |r: int| Seq::new(g.width, |c: int| show_cell(g.rows[r][c])))
}

/// The text of a grid: its rows, separated by newlines, with `X` for each empty cell.
pub open spec fn grid_text(g: Grid) -> Seq<char> {
    join_lines(shown_rows(g))
}

/// The underlying representation of a crossword puzzle: a rectangle of cells, each a
/// black square (`.` or `:`), an empty cell (a space) or a letter.
#[derive(PartialEq, Eq, Debug, Hash)]
pub struct Crossword {
    contents: Vec<char>,
    width: usize,
    height: usize,
}

impl View for Crossword {
    type V = Grid;

    closed spec fn view(&self) -> Grid {
        Grid {
            rows: Seq::new(
                self.height as nat,
                |r: int| Seq::new(self.width as nat, |c: int| self.contents@[r * self.width + c]),
            ),
            width: self.width as nat,
        }
    }
}

/// The cells of a grid, row after row, are numbered from 0 up to the number of cells.
pub proof fn lemma_cell_index(width: int, height: int, row: int, col: int)
    requires
        0 <= row < height,
        0 <= col < width,
    ensures
        0 <= row * width + col < width * height,
        row * width >= 0,
{
    assert(row * width + col < width * height) by (nonlinear_arith)
        requires
            0 <= row < height,
            0 <= col < width,
    ;
    assert(row * width >= 0) by (nonlinear_arith)
        requires
            0 <= row,
            0 <= width,
    ;
}

/// No two cells of a grid have the same number.
pub proof fn lemma_cell_index_injective(width: int, r1: int, c1: int, r2: int, c2: int)
    requires
        0 <= c1 < width,
        0 <= c2 < width,
        0 <= r1,
        0 <= r2,
        r1 * width + c1 == r2 * width + c2,
    ensures
        r1 == r2,
        c1 == c2,
{
    assert(r1 == r2) by (nonlinear_arith)
        requires
            0 <= c1 < width,
            0 <= c2 < width,
            0 <= r1,
            0 <= r2,
            r1 * width + c1 == r2 * width + c2,
    ;
}

impl Clone for Crossword {
    fn clone(&self) -> (r: Self)
        ensures
            r@ == self@,
    {
        proof {
            use_type_invariant(self);
        }
        let r = Crossword {
            contents: self.contents.clone(),
            width: self.width,
            height: self.height,
        };
        assert(r.contents@ =~= self.contents@);
        r
    }
}

impl Crossword {
    #[verifier::type_invariant]
    spec fn inv(&self) -> bool {
        self.contents.len() == self.width * self.height
    }

    /// The model of every crossword is a well-formed grid whose dimensions fit in
    /// machine integers.
    pub proof fn lemma_view_wf(&self)
        ensures
            self@.wf(),
            self@.width <= usize::MAX,
            self@.height() <= usize::MAX,
    {
    }

    /// The number of columns.
    pub fn width(&self) -> (w: usize)
        ensures
            w == self@.width,
    {
        self.width
    }

    /// The number of rows.
    pub fn height(&self) -> (h: usize)
        ensures
            h == self@.height(),
    {
        self.height
    }

    /// The number of cells.
    pub fn cell_count(&self) -> (n: usize)
        ensures
            n == self@.width * self@.height(),
    {
        proof {
            use_type_invariant(self);
        }
        self.contents.len()
    }

    /// Whether some cell is still to be filled.
    pub fn has_empty(&self) -> (r: bool)
        ensures
            r == self@.has_empty(),
    {
        proof {
            use_type_invariant(self);
        }
        let mut row: usize = 0;
        while row < self.height
            invariant
                row <= self.height,
                self.height == self@.height(),
                self.width == self@.width,
                forall|r: int, c: int|
                    0 <= r < row && 0 <= c < self.width ==> #[trigger] self@.at(r, c) != EMPTY,
            decreases self.height - row,
        {
            let mut col: usize = 0;
            while col < self.width
                invariant
                    row < self.height,
                    col <= self.width,
                    self.height == self@.height(),
                    self.width == self@.width,
                    forall|r: int, c: int|
                        0 <= r < row && 0 <= c < self.width ==> #[trigger] self@.at(r, c) != EMPTY,
                    forall|c: int| 0 <= c < col ==> #[trigger] self@.at(row as int, c) != EMPTY,
                decreases self.width - col,
            {
                if self.cell(row, col) == EMPTY {
                    assert(self@.in_bounds(row as int, col as int) && self@.at(
                        row as int,
                        col as int,
                    ) == EMPTY);
                    return true;
                }
                col += 1;
            }
            row += 1;
        }
        false
    }

    /// The cell at (`row`, `col`).
    pub fn cell(&self, row: usize, col: usize) -> (c: char)
        requires
            self@.in_bounds(row as int, col as int),
        ensures
            c == self@.at(row as int, col as int),
    {
        proof {
            use_type_invariant(self);
            lemma_cell_index(self.width as int, self.height as int, row as int, col as int);
        }
        self.contents[row * self.width + col]
    }

    /// A copy of the crossword with `letter` in the cell at (`row`, `col`).
    pub fn with_cell(&self, row: usize, col: usize, letter: char) -> (updated: Crossword)
        requires
            self@.in_bounds(row as int, col as int),
        ensures
            updated@ == self@.with_cell(row as int, col as int, letter),
    {
        proof {
            use_type_invariant(self);
            lemma_cell_index(self.width as int, self.height as int, row as int, col as int);
        }
        let index = row * self.width + col;
        let mut contents = self.contents.clone();
        assert(contents@ =~= self.contents@);
        contents.set(index, letter);
        let updated = Crossword { contents, width: self.width, height: self.height };
        proof {
            let w = self.width as int;
            let goal = self@.with_cell(row as int, col as int, letter);
            assert forall|r: int, c: int|
                0 <= r < self.height && 0 <= c < w implies #[trigger] updated@.rows[r][c]
                == goal.rows[r][c] by {
                lemma_cell_index(w, self.height as int, r, c);
                if r * w + c == index {
                    lemma_cell_index_injective(w, r, c, row as int, col as int);
                }
            }
            assert(updated@.rows =~~= goal.rows);
        }
        updated
    }

    /// A copy of the crossword with the letters of `word` in the cells of
    /// `word_boundary`.
    pub fn with_word(&self, word_boundary: &WordBoundary, word: &Vec<char>) -> (updated: Crossword)
        requires
            word_boundary.fits(self@),
            word.len() == word_boundary.length,
        ensures
            updated@ == self@.with_word(*word_boundary, word@),
    {
        proof {
            use_type_invariant(self);
        }
        let ghost s = *word_boundary;
        let ghost w = self.width as int;
        let ghost h = self.height as int;
        let mut contents = self.contents.clone();
        assert(contents@ =~= self.contents@);
        let mut k: usize = 0;
        while k < word_boundary.length
            invariant
                s == *word_boundary,
                w == self.width,
                h == self.height,
                s.fits(self@),
                word.len() == s.length,
                k <= s.length,
                contents.len() == self.contents.len(),
                self.contents.len() == w * h,
                forall|r: int, c: int|
                    0 <= r < h && 0 <= c < w ==> #[trigger] contents@[r * w + c] == (if s.covers(
                        r,
                        c,
                    ) && s.offset_of(r, c) < k {
                        word@[s.offset_of(r, c)]
                    } else {
                        self.contents@[r * w + c]
                    }),
            decreases s.length - k,
        {
            let (row, col) = match word_boundary.direction {
                Direction::Across => (word_boundary.start_row, word_boundary.start_col + k),
                Direction::Down => (word_boundary.start_row + k, word_boundary.start_col),
            };
            proof {
                lemma_cell_index(w, h, row as int, col as int);
            }
            let index = row * self.width + col;
            let ghost before = contents@;
            contents.set(index, word[k]);
            proof {
                assert forall|r: int, c: int| 0 <= r < h && 0 <= c < w implies #[trigger] contents@[r
                    * w + c] == (if s.covers(r, c) && s.offset_of(r, c) < k + 1 {
                    word@[s.offset_of(r, c)]
                } else {
                    self.contents@[r * w + c]
                }) by {
                    lemma_cell_index(w, h, r, c);
                    if r * w + c == index {
                        lemma_cell_index_injective(w, r, c, row as int, col as int);
                    } else {
                        assert(contents@[r * w + c] == before[r * w + c]);
                    }
                }
            }
            k += 1;
        }
        let updated = Crossword { contents, width: self.width, height: self.height };
        proof {
            let goal = self@.with_word(s, word@);
            assert forall|r: int, c: int| 0 <= r < h && 0 <= c < w implies #[trigger] updated@.rows[r][c]
                == goal.rows[r][c] by {
                lemma_cell_index(w, h, r, c);
            }
            assert(updated@.rows =~~= goal.rows);
        }
        updated
    }

    /// A copy of the cells, row after row, as one string.
    pub fn contents(&self) -> (s: String)
        ensures
            s@.len() == self@.width * self@.height(),
            forall|r: int, c: int|
                self@.in_bounds(r, c) ==> s@[r * self@.width + c] == #[trigger] self@.at(r, c),
    {
        proof {
            use_type_invariant(self);
            assert forall|r: int, c: int| self@.in_bounds(r, c) implies self.contents@[r
                * self@.width + c] == #[trigger] self@.at(r, c) by {
                lemma_cell_index(self.width as int, self.height as int, r, c);
            }
        }
        string_of(&self.contents)
    }

    /// Parses a crossword from its text. Blank lines before and after the grid are
    /// skipped. The text is refused where it holds no row, or rows of unequal width.
    pub fn parse(contents: String) -> (r: Result<Crossword, ParseError>)
        ensures
            match r {
                Ok(c) => parse_result(contents@) == Ok::<Grid, ParseError>(c@),
                Err(e) => parse_result(contents@) == Err::<Grid, ParseError>(e),
            },
    {
        let text = chars_of(contents.as_str());
        let lines = split(&text);
        let mut lo: usize = 0;
        assert(rows_of(lines@).skip(0) =~= rows_of(lines@));
        while lo < lines.len() && lines[lo].len() == 0
            invariant
                lo <= lines.len(),
                drop_leading_blank(rows_of(lines@)) == drop_leading_blank(
                    rows_of(lines@).skip(lo as int),
                ),
            decreases lines.len() - lo,
        {
            assert(rows_of(lines@).skip(lo as int).drop_first() =~= rows_of(lines@).skip(
                lo as int + 1,
            ));
            lo += 1;
        }
        let mut hi: usize = lines.len();
        while hi > lo && lines[hi - 1].len() == 0
            invariant
                lo <= hi <= lines.len(),
                drop_trailing_blank(rows_of(lines@).skip(lo as int)) == drop_trailing_blank(
                    rows_of(lines@).subrange(lo as int, hi as int),
                ),
            decreases hi,
        {
            assert(rows_of(lines@).subrange(lo as int, hi as int).drop_last() =~= rows_of(
                lines@,
            ).subrange(lo as int, hi as int - 1));
            hi -= 1;
        }
        let ghost rows = rows_of(lines@).subrange(lo as int, hi as int);
        assert(rows_of(lines@).skip(lo as int) =~= rows_of(lines@).subrange(
            lo as int,
            lines.len() as int,
        ));
        assert(trim_blank(split_lines(contents@)) == rows);
        if lo == hi {
            return Err(ParseError::EmptyGrid);
        }
        let width = lines[lo].len();
        let height = hi - lo;
        let mut cells: Vec<char> = Vec::new();
        let mut r: usize = lo;
        while r < hi
            invariant
                lo <= r <= hi <= lines.len(),
                width == lines[lo as int].len(),
                rows == rows_of(lines@).subrange(lo as int, hi as int),
                trim_blank(split_lines(contents@)) == rows,
                cells.len() == (r - lo) * width,
                forall|i: int| lo <= i < r ==> (#[trigger] lines[i]).len() == width,
                forall|i: int, c: int|
                    lo <= i < r && 0 <= c < width ==> cells@[(i - lo) * width + c] == clean_cell(
                        #[trigger] lines[i]@[c],
                    ),
            decreases hi - r,
        {
            if lines[r].len() != width {
                assert(rows[r - lo] == lines[r as int]@);
                assert(rows[0] == lines[lo as int]@);
                assert(!rectangular(rows));
                return Err(ParseError::UnequalRows);
            }
            let mut c: usize = 0;
            while c < width
                invariant
                    lo <= r < hi <= lines.len(),
                    c <= width,
                    lines[r as int].len() == width,
                    cells.len() == (r - lo) * width + c,
                    forall|i: int, k: int|
                        lo <= i < r && 0 <= k < width ==> cells@[(i - lo) * width + k]
                            == clean_cell(#[trigger] lines[i]@[k]),
                    forall|k: int|
                        0 <= k < c ==> cells@[(r - lo) * width + k] == clean_cell(
                            #[trigger] lines[r as int]@[k],
                        ),
                decreases width - c,
            {
                let ch = lines[r][c];
                let ghost before = cells@;
                cells.push(if ch == 'X' {
                    EMPTY
                } else {
                    ch
                });
                proof {
                    assert forall|i: int, k: int| lo <= i < r && 0 <= k < width implies cells@[(i
                        - lo) * width + k] == clean_cell(#[trigger] lines[i]@[k]) by {
                        lemma_cell_index(width as int, r - lo, i - lo, k);
                        assert((i - lo) * width + k < before.len()) by (nonlinear_arith)
                            requires
                                0 <= i - lo < r - lo,
                                0 <= k < width,
                                before.len() >= (r - lo) * width,
                        ;
                    }
                }
                c += 1;
            }
            assert((r - lo) * width + width == (r + 1 - lo) * width) by (nonlinear_arith);
            r += 1;
        }
        assert(rectangular(rows));
        assert(width * height == height * width) by (nonlinear_arith);
        let result = Crossword { contents: cells, width, height };
        proof {
            let goal = parse_result(contents@)->Ok_0;
            assert forall|i: int, k: int|
                0 <= i < height && 0 <= k < width implies #[trigger] result@.rows[i][k]
                == goal.rows[i][k] by {
                assert(lines[lo + i]@[k] == rows[i][k]);
            }
            assert(result@.rows =~~= goal.rows);
        }
        Ok(result)
    }

    /// Renders the grid as text: one line for each row, `X` for each empty cell, and no
    /// newline after the last row.
    pub fn to_string(&self) -> (s: String)
        ensures
            s@ == grid_text(self@),
    {
        let ghost shown = shown_rows(self@);
        let mut out: Vec<char> = Vec::new();
        let mut row: usize = 0;
        while row < self.height
            invariant
                row <= self.height,
                self.height == self@.height(),
                shown == shown_rows(self@),
                out@ == join_lines(shown.take(row as int)),
            decreases self.height - row,
        {
            if row > 0 {
                out.push('\n');
            }
            let ghost prefix = out@;
            let mut col: usize = 0;
            while col < self.width
                invariant
                    row < self.height,
                    col <= self.width,
                    self.height == self@.height(),
                    self.width == self@.width,
                    shown == shown_rows(self@),
                    out@ == prefix + shown[row as int].take(col as int),
                decreases self.width - col,
            {
                let ch = self.cell(row, col);
                out.push(if ch == EMPTY {
                    'X'
                } else {
                    ch
                });
                assert(shown[row as int].take(col + 1) =~= shown[row as int].take(col as int).push(
                    shown[row as int][col as int],
                ));
                col += 1;
            }
            proof {
                let next = shown.take(row + 1);
                assert(shown[row as int].take(self.width as int) =~= shown[row as int]);
                assert(next.drop_last() =~= shown.take(row as int));
                assert(next.last() == shown[row as int]);
                if row == 0 {
                    assert(prefix + shown[0] =~= shown[0]);
                }
            }
            row += 1;
        }
        assert(shown.take(self.height as int) =~= shown);
        string_of(&out)
    }
}

/// What the grid holds along each of the given words.
pub open spec fn word_texts(g: Grid, words: Seq<WordBoundary>) -> Seq<Seq<char>> {
    Seq::new(words.len(), |i: int| slot_view(g, words[i]))
}

impl Crossword {
    /// All words of at least two letters in the crossword for a given direction, as
    /// strings: row after row for across, column after column for down.
    pub fn words(&self, direction: Direction) -> (result: Vec<String>)
        ensures
            strings_of(result@) == word_texts(self@, direction_slots(self@, direction)),
    {
        let ghost g = self@;
        let word_boundaries = direction_word_boundaries(self, direction);
        let mut result: Vec<String> = Vec::new();
        let mut i: usize = 0;
        while i < word_boundaries.len()
            invariant
                g == self@,
                i <= word_boundaries.len(),
                word_boundaries@ == direction_slots(g, direction),
                strings_of(result@) == word_texts(g, word_boundaries@).take(i as int),
            decreases word_boundaries.len() - i,
        {
            proof {
                assert(word_boundaries@.contains(word_boundaries@[i as int]));
                lemma_direction_slots_contains(g, direction, word_boundaries@[i as int]);
            }
            let iter = WordIterator::new(self, &word_boundaries[i]);
            let word = iter.to_string();
            let ghost before = strings_of(result@);
            result.push(word);
            assert(strings_of(result@) =~= before.push(word@));
            assert(before.push(word@) =~= word_texts(g, word_boundaries@).take(i + 1));
            i += 1;
        }
        assert(word_texts(g, word_boundaries@).take(word_boundaries.len() as int) =~= word_texts(
            g,
            word_boundaries@,
        ));
        result
    }
}

/// A walk over the cells of one word of a crossword, which gives the cell values in
/// order and can be compared and hashed by what it still has to give.
#[derive(Debug)]
pub struct WordIterator<'s> {
    crossword: &'s Crossword,
    word_boundary: &'s WordBoundary,
    index: usize,
}

impl<'s> View for WordIterator<'s> {
    type V = Seq<char>;

    /// The cell values that the walk still has to give.
    open spec fn view(&self) -> Seq<char> {
        slot_view(self.grid(), self.slot()).skip(self.position() as int)
    }
}

impl<'s> WordIterator<'s> {
    #[verifier::type_invariant]
    spec fn inv(&self) -> bool {
        self.word_boundary.fits(self.crossword@) && self.index <= self.word_boundary.length
    }

    /// The grid that is walked over.
    pub closed spec fn grid(&self) -> Grid {
        self.crossword@
    }

    /// The word that is walked along.
    pub closed spec fn slot(&self) -> WordBoundary {
        *self.word_boundary
    }

    /// The number of cells already given.
    pub closed spec fn position(&self) -> nat {
        self.index as nat
    }

    /// A walk along `word_boundary` in `crossword`, from the word's first cell.
    pub fn new(crossword: &'s Crossword, word_boundary: &'s WordBoundary) -> (iter: WordIterator<
        's,
    >)
        requires
            word_boundary.fits(crossword@),
        ensures
            iter.grid() == crossword@,
            iter.slot() == *word_boundary,
            iter.position() == 0,
            iter@ == slot_view(crossword@, *word_boundary),
    {
        let iter = WordIterator { crossword, word_boundary, index: 0 };
        assert(slot_view(crossword@, *word_boundary).skip(0) =~= slot_view(
            crossword@,
            *word_boundary,
        ));
        iter
    }

    /// The word that is walked along.
    pub fn word_boundary(&self) -> (wb: &'s WordBoundary)
        ensures
            *wb == self.slot(),
    {
        self.word_boundary
    }

    /// The value of the word's `i`-th cell.
    fn cell_at(&self, i: usize) -> (c: char)
        requires
            i < self.slot().length,
        ensures
            c == slot_view(self.grid(), self.slot())[i as int],
    {
        proof {
            use_type_invariant(self);
        }
        match self.word_boundary.direction {
            Direction::Across => self.crossword.cell(
                self.word_boundary.start_row,
                self.word_boundary.start_col + i,
            ),
            Direction::Down => self.crossword.cell(
                self.word_boundary.start_row + i,
                self.word_boundary.start_col,
            ),
        }
    }

    /// Gives the next cell value, or `None` after the word's last cell.
    pub fn next(&mut self) -> (r: Option<char>)
        ensures
            final(self).grid() == old(self).grid(),
            final(self).slot() == old(self).slot(),
            match r {
                Some(c) => old(self)@.len() > 0 && c == old(self)@[0] && final(self)@ == old(
                    self,
                )@.drop_first() && final(self).position() == old(self).position() + 1,
                None => old(self)@.len() == 0 && final(self).position() == old(self).position(),
            },
    {
        proof {
            use_type_invariant(&*self);
        }
        if self.index >= self.word_boundary.length {
            return None;
        }
        let c = self.cell_at(self.index);
        let ghost before = self@;
        self.index += 1;
        assert(self@ =~= before.drop_first());
        Some(c)
    }

    /// The cell values that the walk still has to give.
    pub fn chars(&self) -> (v: Vec<char>)
        ensures
            v@ == self@,
    {
        proof {
            use_type_invariant(self);
        }
        let mut v: Vec<char> = Vec::new();
        let mut i: usize = self.index;
        while i < self.word_boundary.length
            invariant
                self.index <= i <= self.word_boundary.length,
                self.slot() == *self.word_boundary,
                v@ == self@.take(i - self.index),
            decreases self.word_boundary.length - i,
        {
            let c = self.cell_at(i);
            v.push(c);
            assert(v@ =~= self@.take(i + 1 - self.index));
            i += 1;
        }
        assert(self@.take(self@.len() as int) =~= self@);
        v
    }

    /// The cell values that the walk still has to give, as a string.
    pub fn to_string(&self) -> (s: String)
        ensures
            s@ == self@,
    {
        let v = self.chars();
        string_of(&v)
    }

    /// Whether a cell that the walk still has to give is empty.
    pub fn has_empty(&self) -> (r: bool)
        ensures
            r == self@.contains(EMPTY),
    {
        proof {
            use_type_invariant(self);
        }
        let mut i: usize = self.index;
        while i < self.word_boundary.length
            invariant
                self.index <= i <= self.word_boundary.length,
                self.slot() == *self.word_boundary,
                forall|k: int| 0 <= k < i - self.index ==> self@[k] != EMPTY,
            decreases self.word_boundary.length - i,
        {
            if self.cell_at(i) == EMPTY {
                assert(self@[i - self.index] == EMPTY);
                return true;
            }
            i += 1;
        }
        false
    }
}

impl<'s> Clone for WordIterator<'s> {
    fn clone(&self) -> (r: Self)
        ensures
            r.grid() == self.grid(),
            r.slot() == self.slot(),
            r.position() == self.position(),
    {
        proof {
            use_type_invariant(self);
        }
        WordIterator {
            crossword: self.crossword,
            word_boundary: self.word_boundary,
            index: self.index,
        }
    }
}

/// `Hash::hash` of a character: feeds `c` to the hasher.
#[verifier::external_body]
fn feed_char<H: Hasher>(c: char, state: &mut H) {
    c.hash(state);
}

impl<'s> Hash for WordIterator<'s> {
    /// Feeds the hasher the cell values that the walk still has to give, and nothing
    /// else: walks that are equal hash alike.
    fn hash<H: Hasher>(&self, state: &mut H) {
        proof {
            use_type_invariant(self);
        }
        let mut i: usize = self.index;
        while i < self.word_boundary.length
            invariant
                self.index <= i <= self.word_boundary.length,
                self.slot() == *self.word_boundary,
            decreases self.word_boundary.length - i,
        {
            feed_char(self.cell_at(i), state);
            i += 1;
        }
    }
}

impl<'s> PartialEq for WordIterator<'s> {
    fn eq(&self, other: &Self) -> (r: bool) {
        proof {
            use_type_invariant(self);
            use_type_invariant(other);
        }
        let length = self.word_boundary.length;
        if length != other.word_boundary.length {
            return false;
        }
        let mut i: usize = 0;
        while i < length - self.index && i < length - other.index
            invariant
                length == self.slot().length,
                length == other.slot().length,
                self.position() == self.index,
                other.position() == other.index,
                self.index <= length,
                other.index <= length,
                forall|k: int| 0 <= k < i ==> self@[k] == other@[k],
            decreases length - i,
        {
            if self.cell_at(self.index + i) != other.cell_at(other.index + i) {
                assert(self@[i as int] != other@[i as int]);
                return false;
            }
            i += 1;
        }
        true
    }
}

impl<'s> PartialEqSpecImpl for WordIterator<'s> {
    open spec fn obeys_eq_spec() -> bool {
        true
    }

    /// Two walks are equal if their words are equally long and what they still have to
    /// give agrees, cell by cell.
    open spec fn eq_spec(&self, other: &Self) -> bool {
        &&& self.slot().length == other.slot().length
        &&& forall|k: int| 0 <= k < self@.len() && k < other@.len() ==> self@[k] == other@[k]
    }
}

impl<'s> Eq for WordIterator<'s> {

}

/// Parsing the text of a grid gives the grid back, for every grid with at least one
/// cell in which no cell holds the letter `X` or a newline.
pub proof fn lemma_parse_of_display(g: Grid)
    requires
        g.wf(),
        g.width > 0,
        g.height() > 0,
        forall|r: int, c: int|
            g.in_bounds(r, c) ==> #[trigger] g.at(r, c) != 'X' && g.at(r, c) != '\n',
    ensures
        parse_result(grid_text(g)) == Ok::<Grid, ParseError>(g),
{
    let shown = shown_rows(g);
    assert forall|i: int| 0 <= i < shown.len() implies !(#[trigger] shown[i]).contains('\n') by {
        if shown[i].contains('\n') {
            let k = choose|k: int| 0 <= k < shown[i].len() && shown[i][k] == '\n';
            assert(g.at(i, k) != '\n');
        }
    }
    lemma_split_join(shown);
    assert(drop_leading_blank(shown) == shown);
    assert(drop_trailing_blank(shown) == shown);
    assert(rectangular(shown));
    let parsed = parse_result(grid_text(g))->Ok_0;
    assert forall|r: int, c: int| g.in_bounds(r, c) implies #[trigger] parsed.rows[r][c]
        == g.rows[r][c] by {
        assert(g.at(r, c) != 'X');
    }
    assert(parsed.rows =~~= g.rows);
}

} // verus!
