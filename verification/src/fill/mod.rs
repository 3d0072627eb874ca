//! Filling a crossword: the index of the words that cross each cell, the writing of a
//! word into a grid and the test of the words that cross it.

pub mod cache;
pub mod solution;
pub mod filler;

use vstd::prelude::*;
use crate::crossword::{Crossword, Direction, Grid, WordIterator, EMPTY, lemma_cell_index};
use crate::parse::{WordBoundary, slot_view};
use crate::text::chars_of;
use crate::trie::{Trie, fits_pattern, viable};
use crate::fill::cache::CachedIsViable;

verus! {

/// A pattern without empty cells.
pub open spec fn complete(pattern: Seq<char>) -> bool {
    forall|i: int| 0 <= i < pattern.len() ==> #[trigger] pattern[i] != EMPTY
}

/// The word `a` covers the `k`-th cell of the word `b`.
pub open spec fn covers_cell_of(a: WordBoundary, b: WordBoundary, k: int) -> bool {
    a.covers(b.row_at(k), b.col_at(k))
}

/// Two words have a cell in common.
pub open spec fn shares_cell(a: WordBoundary, b: WordBoundary) -> bool {
    exists|k: int| 0 <= k < b.length && #[trigger] covers_cell_of(a, b, k)
}

/// The other direction.
pub open spec fn other_direction(direction: Direction) -> Direction {
    match direction {
        Direction::Across => Direction::Down,
        Direction::Down => Direction::Across,
    }
}

/// Some word of the dictionary fits what the grid holds along each of the given words.
pub open spec fn all_viable(dict: Set<Seq<char>>, g: Grid, words: Seq<WordBoundary>) -> bool {
    forall|j: int| 0 <= j < words.len() ==> viable(dict, slot_view(g, #[trigger] words[j]))
}

/// Only the word itself fits a pattern without empty cells.
pub proof fn lemma_complete_match(pattern: Seq<char>, word: Seq<char>)
    requires
        complete(pattern),
        fits_pattern(pattern, word),
    ensures
        word == pattern,
{
    assert forall|i: int| 0 <= i < pattern.len() implies word[i] == pattern[i] by {
        assert(pattern[i] != EMPTY);
    }
    assert(word =~= pattern);
}

/// A word written into a grid is what the grid then holds along it.
pub proof fn lemma_view_of_written(g: Grid, t: WordBoundary, word: Seq<char>)
    requires
        g.wf(),
        t.fits(g),
        word.len() == t.length,
    ensures
        slot_view(g.with_word(t, word), t) == word,
        g.with_word(t, word).wf(),
        g.with_word(t, word).same_shape(g),
{
    let after = g.with_word(t, word);
    assert forall|k: int| 0 <= k < t.length implies slot_view(after, t)[k] == word[k] by {
        assert(t.covers(t.row_at(k), t.col_at(k)));
        assert(t.offset_of(t.row_at(k), t.col_at(k)) == k);
    }
    assert(slot_view(after, t) =~= word);
}

/// Writing a word leaves what the grid holds along a word apart from it as it was.
pub proof fn lemma_view_apart(g: Grid, t: WordBoundary, word: Seq<char>, s: WordBoundary)
    requires
        g.wf(),
        s.fits(g),
        !shares_cell(t, s),
    ensures
        slot_view(g.with_word(t, word), s) == slot_view(g, s),
{
    let after = g.with_word(t, word);
    assert forall|k: int| 0 <= k < s.length implies slot_view(after, s)[k] == slot_view(g, s)[k] by {
        assert(!covers_cell_of(t, s, k));
        assert(g.in_bounds(s.row_at(k), s.col_at(k)));
    }
    assert(slot_view(after, s) =~= slot_view(g, s));
}

/// Writing a word that fits what the grid holds along it changes empty cells only.
pub proof fn lemma_written_extends(g: Grid, t: WordBoundary, word: Seq<char>)
    requires
        g.wf(),
        t.fits(g),
        fits_pattern(slot_view(g, t), word),
    ensures
        g.with_word(t, word).extends(g),
{
    let after = g.with_word(t, word);
    let pattern = slot_view(g, t);
    assert forall|r: int, c: int| g.in_bounds(r, c) && #[trigger] g.at(r, c) != EMPTY implies after.at(
        r,
        c,
    ) == g.at(r, c) by {
        if t.covers(r, c) {
            let k = t.offset_of(r, c);
            assert(t.row_at(k) == r && t.col_at(k) == c);
            assert(pattern[k] == g.at(r, c));
            assert(pattern[k] == EMPTY || pattern[k] == word[k]);
        }
    }
}

/// A grid that agrees with another one agrees with every grid that the other one
/// agrees with.
pub proof fn lemma_extends_transitive(a: Grid, b: Grid, c: Grid)
    requires
        a.extends(b),
        b.extends(c),
    ensures
        a.extends(c),
{
    assert forall|r: int, col: int| c.in_bounds(r, col) && #[trigger] c.at(r, col) != EMPTY implies a.at(
        r,
        col,
    ) == c.at(r, col) by {
        assert(b.at(r, col) == c.at(r, col));
        assert(b.in_bounds(r, col) && b.at(r, col) != EMPTY);
    }
}

/// What a grid holds along a word fits what a grid that it agrees with holds there.
pub proof fn lemma_view_of_extension(g: Grid, base: Grid, s: WordBoundary)
    requires
        g.extends(base),
        s.fits(base),
    ensures
        fits_pattern(slot_view(base, s), slot_view(g, s)),
{
    let pattern = slot_view(base, s);
    let word = slot_view(g, s);
    assert forall|i: int| 0 <= i < pattern.len() implies #[trigger] pattern[i] == EMPTY
        || pattern[i] == word[i] by {
        assert(base.in_bounds(s.row_at(i), s.col_at(i)));
        if base.at(s.row_at(i), s.col_at(i)) != EMPTY {
            assert(g.at(s.row_at(i), s.col_at(i)) == base.at(s.row_at(i), s.col_at(i)));
        }
    }
}

/// The number of the cell at (`row`, `col`), counting row after row.
pub open spec fn cell_number(width: int, row: int, col: int) -> int {
    row * width + col
}

/// For each cell of a grid, the across word and the down word that cover it.
pub struct SquareLookup {
    across: Vec<Option<WordBoundary>>,
    down: Vec<Option<WordBoundary>>,
    width: usize,
    height: usize,
}

impl SquareLookup {
    #[verifier::type_invariant]
    spec fn inv(&self) -> bool {
        &&& self.across.len() == self.width * self.height
        &&& self.down.len() == self.width * self.height
    }

    /// The number of columns of the grid that the index was made for.
    pub closed spec fn width(&self) -> nat {
        self.width as nat
    }

    /// The number of rows of the grid that the index was made for.
    pub closed spec fn height(&self) -> nat {
        self.height as nat
    }

    /// The word of a direction that the index holds for the cell at (`row`, `col`).
    pub closed spec fn at(&self, direction: Direction, row: int, col: int) -> Option<WordBoundary> {
        match direction {
            Direction::Across => self.across@[row * self.width + col],
            Direction::Down => self.down@[row * self.width + col],
        }
    }

    /// The index is that of the given words in a grid of the shape of `g`: what it
    /// holds for a cell is one of the words, of the direction asked for, that covers
    /// the cell; and it holds a word for every cell that one of the words covers.
    pub open spec fn describes(&self, words: Seq<WordBoundary>, g: Grid) -> bool {
        &&& self.width() == g.width
        &&& self.height() == g.height()
        &&& forall|direction: Direction, row: int, col: int|
            g.in_bounds(row, col) ==> (#[trigger] self.at(direction, row, col) matches Some(s)
                ==> words.contains(s) && s.direction == direction && s.covers(row, col))
        &&& forall|i: int, k: int|
            0 <= i < words.len() && 0 <= k < words[i].length ==> self.at(
                words[i].direction,
                #[trigger] words[i].row_at(k),
                words[i].col_at(k),
            ) is Some
    }

    /// The word of a direction that covers the cell at (`row`, `col`), if there is one.
    pub fn word_at(&self, direction: Direction, row: usize, col: usize) -> (r: Option<WordBoundary>)
        requires
            row < self.height(),
            col < self.width(),
        ensures
            r == self.at(direction, row as int, col as int),
    {
        proof {
            use_type_invariant(self);
            lemma_cell_index(self.width as int, self.height as int, row as int, col as int);
        }
        match direction {
            Direction::Across => self.across[row * self.width + col],
            Direction::Down => self.down[row * self.width + col],
        }
    }
}

/// A list of `count` entries that hold no word.
fn no_words_at(count: usize) -> (cells: Vec<Option<WordBoundary>>)
    ensures
        cells.len() == count,
        forall|i: int| 0 <= i < count ==> cells@[i] is None,
{
    let mut cells: Vec<Option<WordBoundary>> = Vec::new();
    let mut i: usize = 0;
    while i < count
        invariant
            i <= count,
            cells.len() == i,
            forall|j: int| 0 <= j < i ==> cells@[j] is None,
        decreases count - i,
    {
        cells.push(None);
        i += 1;
    }
    cells
}

/// The index of the words that cover each cell of `crossword`.
pub fn build_square_word_boundary_lookup(
    crossword: &Crossword,
    word_boundaries: &Vec<WordBoundary>,
) -> (lookup: SquareLookup)
    requires
        forall|i: int| 0 <= i < word_boundaries.len() ==> (#[trigger] word_boundaries[i]).fits(
            crossword@,
        ),
    ensures
        lookup.describes(word_boundaries@, crossword@),
{
    let ghost g = crossword@;
    let ghost words = word_boundaries@;
    let width = crossword.width();
    let height = crossword.height();
    let count = crossword.cell_count();
    let ghost w = width as int;
    let ghost h = height as int;
    let mut across = no_words_at(count);
    let mut down = no_words_at(count);
    let mut i: usize = 0;
    proof {
        assert forall|row: int, col: int| 0 <= row < h && 0 <= col < w implies (
        #[trigger] across@[cell_number(w, row, col)]) is None by {
            lemma_cell_index(w, h, row, col);
        }
        assert forall|row: int, col: int| 0 <= row < h && 0 <= col < w implies (
        #[trigger] down@[cell_number(w, row, col)]) is None by {
            lemma_cell_index(w, h, row, col);
        }
    }
    while i < word_boundaries.len()
        invariant
            g == crossword@,
            words == word_boundaries@,
            w == width,
            h == height,
            w == g.width,
            h == g.height(),
            count == w * h,
            across.len() == count,
            down.len() == count,
            i <= word_boundaries.len(),
            forall|j: int| 0 <= j < words.len() ==> (#[trigger] words[j]).fits(g),
            forall|row: int, col: int|
                0 <= row < h && 0 <= col < w ==> (#[trigger] across@[cell_number(w, row, col)] matches Some(s)
                    ==> words.contains(s) && s.direction == Direction::Across && s.covers(row, col)),
            forall|row: int, col: int|
                0 <= row < h && 0 <= col < w ==> (#[trigger] down@[cell_number(w, row, col)] matches Some(s)
                    ==> words.contains(s) && s.direction == Direction::Down && s.covers(row, col)),
            forall|j: int, k: int|
                0 <= j < i && 0 <= k < words[j].length ==> (match words[j].direction {
                    Direction::Across => across@[#[trigger] words[j].row_at(k) * w + words[j].col_at(
                        k,
                    )],
                    Direction::Down => down@[words[j].row_at(k) * w + words[j].col_at(k)],
                }) is Some,
        decreases word_boundaries.len() - i,
    {
        let word = word_boundaries[i];
        assert(words[i as int].fits(g));
        assert(words.contains(word));
        let mut k: usize = 0;
        while k < word.length
            invariant
                g == crossword@,
                words == word_boundaries@,
                w == width,
                h == height,
                w == g.width,
                h == g.height(),
                count == w * h,
                across.len() == count,
                down.len() == count,
                i < word_boundaries.len(),
                word == words[i as int],
                word.fits(g),
                words.contains(word),
                k <= word.length,
                forall|j: int| 0 <= j < words.len() ==> (#[trigger] words[j]).fits(g),
                forall|row: int, col: int|
                    0 <= row < h && 0 <= col < w ==> (#[trigger] across@[cell_number(w, row, col)] matches Some(
                        s,
                    ) ==> words.contains(s) && s.direction == Direction::Across && s.covers(
                        row,
                        col,
                    )),
                forall|row: int, col: int|
                    0 <= row < h && 0 <= col < w ==> (#[trigger] down@[cell_number(w, row, col)] matches Some(s)
                        ==> words.contains(s) && s.direction == Direction::Down && s.covers(
                        row,
                        col,
                    )),
                forall|j: int, n: int|
                    0 <= j < i && 0 <= n < words[j].length ==> (match words[j].direction {
                        Direction::Across => across@[#[trigger] words[j].row_at(n) * w
                            + words[j].col_at(n)],
                        Direction::Down => down@[words[j].row_at(n) * w + words[j].col_at(n)],
                    }) is Some,
                forall|n: int|
                    0 <= n < k ==> (match word.direction {
                        Direction::Across => across@[#[trigger] word.row_at(n) * w + word.col_at(n)],
                        Direction::Down => down@[word.row_at(n) * w + word.col_at(n)],
                    }) is Some,
            decreases word.length - k,
        {
            let (row, col) = match word.direction {
                Direction::Across => (word.start_row, word.start_col + k),
                Direction::Down => (word.start_row + k, word.start_col),
            };
            proof {
                lemma_cell_index(w, h, row as int, col as int);
            }
            let index = row * width + col;
            let ghost across_before = across@;
            let ghost down_before = down@;
            match word.direction {
                Direction::Across => {
                    across.set(index, Some(word));
                },
                Direction::Down => {
                    down.set(index, Some(word));
                },
            }
            proof {
                assert(word.covers(row as int, col as int));
                assert forall|r: int, c: int| 0 <= r < h && 0 <= c < w implies (#[trigger] across@[cell_number(w, r, c)] matches Some(s) ==> words.contains(s) && s.direction
                    == Direction::Across && s.covers(r, c)) by {
                    lemma_cell_index(w, h, r, c);
                    if r * w + c == index {
                        crate::crossword::lemma_cell_index_injective(w, r, c, row as int, col as int);
                    } else {
                        assert(across@[r * w + c] == across_before[r * w + c]);
                    }
                }
                assert forall|r: int, c: int| 0 <= r < h && 0 <= c < w implies (#[trigger] down@[cell_number(w, r, c)] matches Some(s) ==> words.contains(s) && s.direction
                    == Direction::Down && s.covers(r, c)) by {
                    lemma_cell_index(w, h, r, c);
                    if r * w + c == index {
                        crate::crossword::lemma_cell_index_injective(w, r, c, row as int, col as int);
                    } else {
                        assert(down@[r * w + c] == down_before[r * w + c]);
                    }
                }
                assert forall|j: int, n: int| 0 <= j < i && 0 <= n < words[j].length implies (
                match words[j].direction {
                    Direction::Across => across@[#[trigger] words[j].row_at(n) * w
                        + words[j].col_at(n)],
                    Direction::Down => down@[words[j].row_at(n) * w + words[j].col_at(n)],
                }) is Some by {
                    assert(words[j].fits(g));
                    lemma_cell_index(w, h, words[j].row_at(n), words[j].col_at(n));
                }
                assert forall|n: int| 0 <= n < k + 1 implies (match word.direction {
                    Direction::Across => across@[#[trigger] word.row_at(n) * w + word.col_at(n)],
                    Direction::Down => down@[word.row_at(n) * w + word.col_at(n)],
                }) is Some by {
                    lemma_cell_index(w, h, word.row_at(n), word.col_at(n));
                }
            }
            k += 1;
        }
        i += 1;
    }
    assert(w * h == h * w) by (nonlinear_arith);
    let ghost across_cells = across@;
    let ghost down_cells = down@;
    let lookup = SquareLookup { across, down, width, height };
    proof {
        assert forall|direction: Direction, row: int, col: int|
            g.in_bounds(row, col) implies (#[trigger] lookup.at(direction, row, col) matches Some(s)
            ==> words.contains(s) && s.direction == direction && s.covers(row, col)) by {
            lemma_cell_index(w, h, row, col);
            let n = cell_number(w, row, col);
            assert(lookup.at(direction, row, col) == match direction {
                Direction::Across => across_cells[n],
                Direction::Down => down_cells[n],
            });
        }
    }
    lookup
}

/// The direction across which a word of the given direction is crossed.
pub fn crossing_direction(direction: Direction) -> (other: Direction)
    ensures
        other == other_direction(direction),
{
    match direction {
        Direction::Across => Direction::Down,
        Direction::Down => Direction::Across,
    }
}

/// The word that the index holds, across `to_fill`, for the `k`-th cell of `to_fill`.
pub open spec fn crossed_at(lookup: SquareLookup, to_fill: WordBoundary, k: int) -> Option<
    WordBoundary,
> {
    lookup.at(other_direction(to_fill.direction), to_fill.row_at(k), to_fill.col_at(k))
}

/// The index holds `s`, across `to_fill`, for one of the first `n` cells of `to_fill`.
pub open spec fn crosses_within(
    lookup: SquareLookup,
    to_fill: WordBoundary,
    s: WordBoundary,
    n: int,
) -> bool {
    exists|k: int| 0 <= k < n && #[trigger] crossed_at(lookup, to_fill, k) == Some(s)
}

/// The words that cross `to_fill`: for each of its cells, in order, the word of the
/// other direction that the index holds for the cell.
pub fn words_orthogonal_to_word(to_fill: &WordBoundary, lookup: &SquareLookup) -> (result: Vec<
    WordBoundary,
>)
    requires
        to_fill.line() < (match to_fill.direction {
            Direction::Across => lookup.height(),
            Direction::Down => lookup.width(),
        }),
        to_fill.start() + to_fill.length <= (match to_fill.direction {
            Direction::Across => lookup.width(),
            Direction::Down => lookup.height(),
        }),
    ensures
        forall|j: int|
            0 <= j < result.len() ==> crosses_within(
                *lookup,
                *to_fill,
                #[trigger] result[j],
                to_fill.length as int,
            ),
        forall|k: int|
            0 <= k < to_fill.length ==> (#[trigger] crossed_at(*lookup, *to_fill, k) matches Some(
                s,
            ) ==> result@.contains(s)),
{
    let other = crossing_direction(to_fill.direction);
    let mut result: Vec<WordBoundary> = Vec::new();
    let mut k: usize = 0;
    while k < to_fill.length
        invariant
            k <= to_fill.length,
            other == other_direction(to_fill.direction),
            to_fill.line() < (match to_fill.direction {
                Direction::Across => lookup.height(),
                Direction::Down => lookup.width(),
            }),
            to_fill.start() + to_fill.length <= (match to_fill.direction {
                Direction::Across => lookup.width(),
                Direction::Down => lookup.height(),
            }),
            forall|j: int|
                0 <= j < result.len() ==> crosses_within(
                    *lookup,
                    *to_fill,
                    #[trigger] result[j],
                    k as int,
                ),
            forall|n: int|
                0 <= n < k ==> (#[trigger] crossed_at(*lookup, *to_fill, n) matches Some(s)
                    ==> result@.contains(s)),
        decreases to_fill.length - k,
    {
        let (row, col) = match to_fill.direction {
            Direction::Across => (to_fill.start_row, to_fill.start_col + k),
            Direction::Down => (to_fill.start_row + k, to_fill.start_col),
        };
        let ghost before = result@;
        let held = lookup.word_at(other, row, col);
        assert(held == crossed_at(*lookup, *to_fill, k as int));
        if let Some(word) = held {
            result.push(word);
        }
        proof {
            assert forall|j: int| 0 <= j < result.len() implies crosses_within(
                *lookup,
                *to_fill,
                #[trigger] result[j],
                k + 1,
            ) by {
                if j < before.len() {
                    assert(result[j] == before[j]);
                    assert(crosses_within(*lookup, *to_fill, before[j], k as int));
                    let n = choose|n: int|
                        0 <= n < k && #[trigger] crossed_at(*lookup, *to_fill, n) == Some(
                            before[j],
                        );
                    assert(0 <= n < k + 1 && crossed_at(*lookup, *to_fill, n) == Some(result[j]));
                } else {
                    assert(0 <= k < k + 1 && crossed_at(*lookup, *to_fill, k as int) == Some(
                        result[j],
                    ));
                }
            }
            assert forall|n: int| 0 <= n < k + 1 implies (#[trigger] crossed_at(
                *lookup,
                *to_fill,
                n,
            ) matches Some(s) ==> result@.contains(s)) by {
                let at_n = crossed_at(*lookup, *to_fill, n);
                if at_n is Some {
                    let s = at_n->0;
                    if n < k {
                        assert(before.contains(s));
                        let j = choose|j: int| 0 <= j < before.len() && before[j] == s;
                        assert(result@[j] == s);
                    } else {
                        assert(result@[before.len() as int] == s);
                    }
                }
            }
        }
        k += 1;
    }
    result
}

/// A copy of `candidate` with the letters of `word` in the cells of the word that
/// `iter` walks along.
pub fn fill_one_word(candidate: &Crossword, iter: &WordIterator, word: &String) -> (filled:
    Crossword)
    requires
        iter.slot().fits(candidate@),
        word@.len() == iter.slot().length,
    ensures
        filled@ == candidate@.with_word(iter.slot(), word@),
{
    let letters = chars_of(word.as_str());
    candidate.with_word(iter.word_boundary(), &letters)
}

/// Whether, in `candidate`, some word of the dictionary fits along each of the given
/// words.
pub fn is_viable_reuse(
    candidate: &Crossword,
    orthogonals: &Vec<WordBoundary>,
    trie: &Trie,
    cache: &mut CachedIsViable,
) -> (r: bool)
    requires
        old(cache).wf(trie@),
        forall|j: int| 0 <= j < orthogonals.len() ==> (#[trigger] orthogonals[j]).fits(candidate@),
    ensures
        final(cache).wf(trie@),
        r == all_viable(trie@, candidate@, orthogonals@),
{
    let mut j: usize = 0;
    while j < orthogonals.len()
        invariant
            j <= orthogonals.len(),
            cache.wf(trie@),
            forall|i: int|
                0 <= i < orthogonals.len() ==> (#[trigger] orthogonals[i]).fits(candidate@),
            forall|i: int|
                0 <= i < j ==> viable(trie@, slot_view(candidate@, #[trigger] orthogonals[i])),
        decreases orthogonals.len() - j,
    {
        let iter = WordIterator::new(candidate, &orthogonals[j]);
        if !cache.is_viable(iter, trie) {
            return false;
        }
        j += 1;
    }
    true
}

} // verus!
