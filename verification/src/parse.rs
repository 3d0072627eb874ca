//! Splits a crossword into its words: the maximal runs of letter cells, at least two
//! cells long, along the rows and the columns.

use vstd::prelude::*;
use crate::crossword::{Crossword, Direction, Grid, is_block};

verus! {

/// The place of a word in a crossword: where it starts, how long it is and which way
/// it runs. A `WordBoundary` is not attached to a specific crossword.
#[derive(Debug, PartialEq, Eq, Clone, Copy, Hash, Structural)]
pub struct WordBoundary {
    pub start_row: usize,
    pub start_col: usize,
    pub length: usize,
    pub direction: Direction,
}

impl WordBoundary {
    pub fn new(start_row: usize, start_col: usize, length: usize, direction: Direction) -> (wb:
        WordBoundary)
        ensures
            wb == (WordBoundary { start_row, start_col, length, direction }),
    {
        WordBoundary { start_row, start_col, length, direction }
    }

    /// The row or column that the word lies in.
    pub open spec fn line(self) -> int {
        match self.direction {
            Direction::Across => self.start_row as int,
            Direction::Down => self.start_col as int,
        }
    }

    /// Where in its row or column the word starts.
    pub open spec fn start(self) -> int {
        match self.direction {
            Direction::Across => self.start_col as int,
            Direction::Down => self.start_row as int,
        }
    }

    /// The row of the word's `i`-th cell.
    pub open spec fn row_at(self, i: int) -> int {
        match self.direction {
            Direction::Across => self.start_row as int,
            Direction::Down => self.start_row + i,
        }
    }

    /// The column of the word's `i`-th cell.
    pub open spec fn col_at(self, i: int) -> int {
        match self.direction {
            Direction::Across => self.start_col + i,
            Direction::Down => self.start_col as int,
        }
    }

    /// Whether the word covers the cell at (`row`, `col`).
    pub open spec fn covers(self, row: int, col: int) -> bool {
        match self.direction {
            Direction::Across => row == self.start_row && self.start_col <= col < self.start_col
                + self.length,
            Direction::Down => col == self.start_col && self.start_row <= row < self.start_row
                + self.length,
        }
    }

    /// Which of the word's cells the cell at (`row`, `col`) is, where the word covers it.
    pub open spec fn offset_of(self, row: int, col: int) -> int {
        match self.direction {
            Direction::Across => col - self.start_col,
            Direction::Down => row - self.start_row,
        }
    }

    /// All cells of the word lie inside the grid.
    pub open spec fn fits(self, g: Grid) -> bool {
        &&& self.line() < line_count(g, self.direction)
        &&& self.start() + self.length <= line_len(g, self.direction)
    }
}

/// What the grid holds along a word: one cell value for each cell of the word, in
/// order. An empty cell in it stands for any letter when it is used as a pattern.
pub open spec fn slot_view(g: Grid, s: WordBoundary) -> Seq<char> {
    Seq::new(s.length as nat, |i: int| g.at(s.row_at(i), s.col_at(i)))
}

/// Every word of a crossword lies inside it.
pub proof fn lemma_slots_fit(g: Grid, i: int)
    requires
        addressable(g),
        0 <= i < slots(g).len(),
    ensures
        is_slot(g, slots(g)[i]),
        slots(g)[i].fits(g),
{
    assert(slots(g).contains(slots(g)[i]));
    lemma_slots_are_the_runs(g, slots(g)[i]);
}

/// The number of cells in each line of a direction: a row's for across, a column's for
/// down.
pub open spec fn line_len(g: Grid, direction: Direction) -> nat {
    match direction {
        Direction::Across => g.width,
        Direction::Down => g.height(),
    }
}

/// The number of lines of a direction: rows for across, columns for down.
pub open spec fn line_count(g: Grid, direction: Direction) -> nat {
    match direction {
        Direction::Across => g.height(),
        Direction::Down => g.width,
    }
}

/// The `i`-th cell of a line.
pub open spec fn line_cell(g: Grid, direction: Direction, line: int, i: int) -> char {
    match direction {
        Direction::Across => g.rows[line][i],
        Direction::Down => g.rows[i][line],
    }
}

/// The `i`-th cell of a line exists and is a letter cell, filled or not.
pub open spec fn open_cell(g: Grid, direction: Direction, line: int, i: int) -> bool {
    0 <= i < line_len(g, direction) && !is_block(line_cell(g, direction, line, i))
}

/// The number of letter cells in a row from position `i` of a line on.
pub open spec fn run_from(g: Grid, direction: Direction, line: int, i: int) -> nat
    decreases line_len(g, direction) - i,
{
    if open_cell(g, direction, line, i) {
        1 + run_from(g, direction, line, i + 1)
    } else {
        0
    }
}

/// A word starts at position `i` of a line: the cell is a letter cell, the one before
/// it is not, and at least one more letter cell follows.
pub open spec fn starts_slot(g: Grid, direction: Direction, line: int, i: int) -> bool {
    &&& open_cell(g, direction, line, i)
    &&& !open_cell(g, direction, line, i - 1)
    &&& run_from(g, direction, line, i) >= 2
}

/// The word that starts at position `start` of a line.
pub open spec fn slot_at(direction: Direction, line: int, start: int, length: nat) -> WordBoundary {
    match direction {
        Direction::Across => WordBoundary {
            start_row: line as usize,
            start_col: start as usize,
            length: length as usize,
            direction,
        },
        Direction::Down => WordBoundary {
            start_row: start as usize,
            start_col: line as usize,
            length: length as usize,
            direction,
        },
    }
}

/// The words of a line that start before position `n`, in the order of their starts.
pub open spec fn line_slots_upto(g: Grid, direction: Direction, line: int, n: nat) -> Seq<
    WordBoundary,
>
    decreases n,
{
    if n == 0 {
        Seq::empty()
    } else {
        let before = line_slots_upto(g, direction, line, (n - 1) as nat);
        if starts_slot(g, direction, line, n - 1) {
            before.push(slot_at(direction, line, n - 1, run_from(g, direction, line, n - 1)))
        } else {
            before
        }
    }
}

/// The words of a line, in the order of their starts.
pub open spec fn line_slots(g: Grid, direction: Direction, line: int) -> Seq<WordBoundary> {
    line_slots_upto(g, direction, line, line_len(g, direction))
}

/// The words of the first `lines` lines of a direction, line after line.
pub open spec fn direction_slots_upto(g: Grid, direction: Direction, lines: nat) -> Seq<
    WordBoundary,
>
    decreases lines,
{
    if lines == 0 {
        Seq::empty()
    } else {
        direction_slots_upto(g, direction, (lines - 1) as nat) + line_slots(
            g,
            direction,
            lines - 1,
        )
    }
}

/// The words of a direction: row after row for across, column after column for down.
pub open spec fn direction_slots(g: Grid, direction: Direction) -> Seq<WordBoundary> {
    direction_slots_upto(g, direction, line_count(g, direction))
}

/// All words of a grid: the across words, then the down words.
pub open spec fn slots(g: Grid) -> Seq<WordBoundary> {
    direction_slots(g, Direction::Across) + direction_slots(g, Direction::Down)
}

/// The dimensions of the grid can be held in machine integers.
pub open spec fn addressable(g: Grid) -> bool {
    g.width <= usize::MAX && g.height() <= usize::MAX
}

/// `s` is a word of `g`: a run of letter cells in one line, at least two cells long,
/// with no letter cell right before it or right after it.
pub open spec fn is_slot(g: Grid, s: WordBoundary) -> bool {
    &&& s.fits(g)
    &&& s.length >= 2
    &&& forall|i: int|
        s.start() <= i < s.start() + s.length ==> #[trigger] open_cell(g, s.direction, s.line(), i)
    &&& !open_cell(g, s.direction, s.line(), s.start() - 1)
    &&& !open_cell(g, s.direction, s.line(), s.start() + s.length)
}

/// A run of letter cells from `start` up to `end`, with no letter cell at `end`, is
/// what `run_from` counts.
pub proof fn lemma_run_exact(g: Grid, direction: Direction, line: int, start: int, end: int)
    requires
        start <= end,
        forall|k: int| start <= k < end ==> #[trigger] open_cell(g, direction, line, k),
        !open_cell(g, direction, line, end),
    ensures
        run_from(g, direction, line, start) == end - start,
    decreases end - start,
{
    if start < end {
        assert(open_cell(g, direction, line, start));
        lemma_run_exact(g, direction, line, start + 1, end);
    }
}

/// The cells that `run_from` counts are letter cells, and the next one is not.
pub proof fn lemma_run_cells(g: Grid, direction: Direction, line: int, start: int)
    ensures
        forall|k: int|
            start <= k < start + run_from(g, direction, line, start) ==> #[trigger] open_cell(
                g,
                direction,
                line,
                k,
            ),
        !open_cell(g, direction, line, start + run_from(g, direction, line, start)),
        run_from(g, direction, line, start) > 0 ==> 0 <= start && start + run_from(
            g,
            direction,
            line,
            start,
        ) <= line_len(g, direction),
    decreases line_len(g, direction) - start,
{
    if open_cell(g, direction, line, start) {
        lemma_run_cells(g, direction, line, start + 1);
    }
}

/// Where no word starts between two positions, the words up to both are the same.
pub proof fn lemma_no_starts(g: Grid, direction: Direction, line: int, from: nat, to: nat)
    requires
        from <= to,
        forall|k: int| from <= k < to ==> !#[trigger] starts_slot(g, direction, line, k),
    ensures
        line_slots_upto(g, direction, line, to) == line_slots_upto(g, direction, line, from),
    decreases to - from,
{
    if from < to {
        assert(!starts_slot(g, direction, line, to - 1));
        lemma_no_starts(g, direction, line, from, (to - 1) as nat);
    }
}

/// `s` is the word that starts at position `start` of a line.
pub open spec fn is_slot_at(
    g: Grid,
    direction: Direction,
    line: int,
    start: int,
    s: WordBoundary,
) -> bool {
    starts_slot(g, direction, line, start) && s == slot_at(
        direction,
        line,
        start,
        run_from(g, direction, line, start),
    )
}

/// A word is among those of a line up to `n` exactly if it is the word at a start
/// before `n`.
pub proof fn lemma_line_slots_upto_contains(
    g: Grid,
    direction: Direction,
    line: int,
    n: nat,
    s: WordBoundary,
)
    ensures
        line_slots_upto(g, direction, line, n).contains(s) <==> exists|start: int|
            0 <= start < n && #[trigger] is_slot_at(g, direction, line, start, s),
    decreases n,
{
    if n > 0 {
        let before = line_slots_upto(g, direction, line, (n - 1) as nat);
        lemma_line_slots_upto_contains(g, direction, line, (n - 1) as nat, s);
        let all = line_slots_upto(g, direction, line, n);
        if all.contains(s) {
            let i = choose|i: int| 0 <= i < all.len() && all[i] == s;
            if i < before.len() {
                assert(before[i] == s);
                assert(before.contains(s));
                let start = choose|start: int|
                    0 <= start < n - 1 && #[trigger] is_slot_at(g, direction, line, start, s);
                assert(0 <= start < n && is_slot_at(g, direction, line, start, s));
            } else {
                assert(0 <= n - 1 < n && is_slot_at(g, direction, line, n - 1, s));
            }
        }
        if exists|start: int| 0 <= start < n && #[trigger] is_slot_at(g, direction, line, start, s) {
            let start = choose|start: int|
                0 <= start < n && #[trigger] is_slot_at(g, direction, line, start, s);
            if start < n - 1 {
                assert(0 <= start < n - 1 && is_slot_at(g, direction, line, start, s));
                let i = choose|i: int| 0 <= i < before.len() && before[i] == s;
                assert(all[i] == s);
            } else {
                assert(all[all.len() - 1] == s);
            }
        }
    }
}

/// A word is among those of the first lines of a direction exactly if it is among the
/// words of one of them.
pub proof fn lemma_direction_slots_upto_contains(
    g: Grid,
    direction: Direction,
    lines: nat,
    s: WordBoundary,
)
    ensures
        direction_slots_upto(g, direction, lines).contains(s) <==> exists|line: int|
            0 <= line < lines && (#[trigger] line_slots(g, direction, line)).contains(s),
    decreases lines,
{
    if lines > 0 {
        let before = direction_slots_upto(g, direction, (lines - 1) as nat);
        let last = line_slots(g, direction, lines - 1);
        lemma_direction_slots_upto_contains(g, direction, (lines - 1) as nat, s);
        let all = before + last;
        if all.contains(s) {
            let i = choose|i: int| 0 <= i < all.len() && all[i] == s;
            if i < before.len() {
                assert(before[i] == s);
                assert(before.contains(s));
                let line = choose|line: int|
                    0 <= line < lines - 1 && (#[trigger] line_slots(g, direction, line)).contains(
                        s,
                    );
                assert(0 <= line < lines && line_slots(g, direction, line).contains(s));
            } else {
                assert(last[i - before.len()] == s);
                assert(line_slots(g, direction, lines - 1).contains(s));
            }
        }
        if exists|line: int|
            0 <= line < lines && (#[trigger] line_slots(g, direction, line)).contains(s) {
            let line = choose|line: int|
                0 <= line < lines && (#[trigger] line_slots(g, direction, line)).contains(s);
            if line < lines - 1 {
                let i = choose|i: int| 0 <= i < before.len() && before[i] == s;
                assert(all[i] == s);
            } else {
                let i = choose|i: int| 0 <= i < last.len() && last[i] == s;
                assert(all[before.len() + i] == s);
            }
        }
    }
}

/// The words of a grid are exactly its maximal runs of two or more letter cells.
pub proof fn lemma_slots_are_the_runs(g: Grid, s: WordBoundary)
    requires
        addressable(g),
    ensures
        slots(g).contains(s) <==> is_slot(g, s),
{
    let across = direction_slots(g, Direction::Across);
    let down = direction_slots(g, Direction::Down);
    let all = across + down;
    lemma_direction_slots_contains(g, Direction::Across, s);
    lemma_direction_slots_contains(g, Direction::Down, s);
    if all.contains(s) {
        let i = choose|i: int| 0 <= i < all.len() && all[i] == s;
        if i < across.len() {
            assert(across[i] == s);
        } else {
            assert(down[i - across.len()] == s);
        }
    }
    if is_slot(g, s) {
        if s.direction == Direction::Across {
            let i = choose|i: int| 0 <= i < across.len() && across[i] == s;
            assert(all[i] == s);
        } else {
            let i = choose|i: int| 0 <= i < down.len() && down[i] == s;
            assert(all[across.len() + i] == s);
        }
    }
}

/// The words of one direction are exactly the maximal runs of that direction.
pub proof fn lemma_direction_slots_contains(g: Grid, direction: Direction, s: WordBoundary)
    requires
        addressable(g),
    ensures
        direction_slots(g, direction).contains(s) <==> (s.direction == direction && is_slot(g, s)),
{
    let count = line_count(g, direction);
    let len = line_len(g, direction);
    lemma_direction_slots_upto_contains(g, direction, count, s);
    if direction_slots(g, direction).contains(s) {
        let line = choose|line: int|
            0 <= line < count && (#[trigger] line_slots(g, direction, line)).contains(s);
        lemma_line_slots_upto_contains(g, direction, line, len, s);
        let start = choose|start: int|
            0 <= start < len && #[trigger] is_slot_at(g, direction, line, start, s);
        lemma_run_cells(g, direction, line, start);
        assert(s.line() == line && s.start() == start);
        assert(s.length == run_from(g, direction, line, start));
    }
    if s.direction == direction && is_slot(g, s) {
        let line = s.line();
        let start = s.start();
        lemma_run_exact(g, direction, line, start, start + s.length);
        assert(open_cell(g, direction, line, start));
        assert(starts_slot(g, direction, line, start));
        assert(is_slot_at(g, direction, line, start, s));
        lemma_line_slots_upto_contains(g, direction, line, len, s);
        assert(line_slots(g, direction, line).contains(s));
    }
}

/// A grid of at most one row and at most one column has no words.
pub proof fn lemma_small_grid_has_no_words(g: Grid)
    requires
        g.width <= 1,
        g.height() <= 1,
    ensures
        slots(g) == Seq::<WordBoundary>::empty(),
{
    if slots(g).len() > 0 {
        let s = slots(g)[0];
        assert(slots(g).contains(s));
        lemma_slots_are_the_runs(g, s);
        assert(s.start() + s.length <= 1);
    }
    assert(slots(g) =~= Seq::<WordBoundary>::empty());
}

/// Two words of the same direction that share a cell are the same word.
pub proof fn lemma_slots_sharing_cell(g: Grid, a: WordBoundary, b: WordBoundary, i: int, j: int)
    requires
        is_slot(g, a),
        is_slot(g, b),
        a.direction == b.direction,
        0 <= i < a.length,
        0 <= j < b.length,
        a.row_at(i) == b.row_at(j),
        a.col_at(i) == b.col_at(j),
    ensures
        a == b,
{
    let d = a.direction;
    let line = a.line();
    assert(b.line() == line);
    let x = a.start() + i;
    assert(x == b.start() + j);
    if a.start() < b.start() {
        assert(open_cell(g, d, line, b.start() - 1));
    }
    if b.start() < a.start() {
        assert(open_cell(g, d, line, a.start() - 1));
    }
    if a.start() + a.length < b.start() + b.length {
        assert(open_cell(g, d, line, a.start() + a.length));
    }
    if b.start() + b.length < a.start() + a.length {
        assert(open_cell(g, d, line, b.start() + b.length));
    }
}

/// The places of the letter cells alone decide where a line's runs are.
proof fn lemma_run_from_same_blocks(g1: Grid, g2: Grid, direction: Direction, line: int, i: int)
    requires
        g1.same_blocks(g2),
        0 <= line < line_count(g1, direction),
    ensures
        run_from(g1, direction, line, i) == run_from(g2, direction, line, i),
    decreases line_len(g1, direction) - i,
{
    lemma_open_cell_same_blocks(g1, g2, direction, line, i);
    if open_cell(g1, direction, line, i) {
        lemma_run_from_same_blocks(g1, g2, direction, line, i + 1);
    }
}

proof fn lemma_open_cell_same_blocks(g1: Grid, g2: Grid, direction: Direction, line: int, i: int)
    requires
        g1.same_blocks(g2),
        0 <= line < line_count(g1, direction),
    ensures
        open_cell(g1, direction, line, i) == open_cell(g2, direction, line, i),
{
    if 0 <= i < line_len(g1, direction) {
        match direction {
            Direction::Across => {
                assert(is_block(g1.at(line, i)) == is_block(g2.at(line, i)));
            },
            Direction::Down => {
                assert(is_block(g1.at(i, line)) == is_block(g2.at(i, line)));
            },
        }
    }
}

proof fn lemma_line_slots_same_blocks(g1: Grid, g2: Grid, direction: Direction, line: int, n: nat)
    requires
        g1.same_blocks(g2),
        0 <= line < line_count(g1, direction),
    ensures
        line_slots_upto(g1, direction, line, n) == line_slots_upto(g2, direction, line, n),
    decreases n,
{
    if n > 0 {
        lemma_line_slots_same_blocks(g1, g2, direction, line, (n - 1) as nat);
        lemma_open_cell_same_blocks(g1, g2, direction, line, n - 1);
        lemma_open_cell_same_blocks(g1, g2, direction, line, n - 2);
        lemma_run_from_same_blocks(g1, g2, direction, line, n - 1);
    }
}

proof fn lemma_direction_slots_same_blocks(g1: Grid, g2: Grid, direction: Direction, lines: nat)
    requires
        g1.same_blocks(g2),
        lines <= line_count(g1, direction),
    ensures
        direction_slots_upto(g1, direction, lines) == direction_slots_upto(g2, direction, lines),
    decreases lines,
{
    if lines > 0 {
        lemma_direction_slots_same_blocks(g1, g2, direction, (lines - 1) as nat);
        lemma_line_slots_same_blocks(g1, g2, direction, lines - 1, line_len(g1, direction));
    }
}

/// The words of a grid depend on nothing but its dimensions and the places of its
/// black squares: what the letter cells hold makes no difference.
pub proof fn lemma_slots_depend_on_blocks_only(g1: Grid, g2: Grid)
    requires
        g1.same_blocks(g2),
    ensures
        slots(g1) == slots(g2),
{
    lemma_direction_slots_same_blocks(g1, g2, Direction::Across, g1.height());
    lemma_direction_slots_same_blocks(g1, g2, Direction::Down, g1.width);
}

/// Whether a cell value is a black square.
pub fn is_black_square(c: char) -> (b: bool)
    ensures
        b == is_block(c),
{
    c == '.' || c == ':'
}

/// The `i`-th cell of a row (across) or of a column (down).
fn cell_in_line(crossword: &Crossword, direction: Direction, line: usize, i: usize) -> (c: char)
    requires
        line < line_count(crossword@, direction),
        i < line_len(crossword@, direction),
    ensures
        c == line_cell(crossword@, direction, line as int, i as int),
{
    match direction {
        Direction::Across => crossword.cell(line, i),
        Direction::Down => crossword.cell(i, line),
    }
}

/// Appends the words of one line to `result`.
fn push_line_slots(
    crossword: &Crossword,
    direction: Direction,
    line: usize,
    result: &mut Vec<WordBoundary>,
)
    requires
        line < line_count(crossword@, direction),
    ensures
        final(result)@ == old(result)@ + line_slots(crossword@, direction, line as int),
{
    let ghost g = crossword@;
    let ghost before = result@;
    let len = match direction {
        Direction::Across => crossword.width(),
        Direction::Down => crossword.height(),
    };
    let mut i: usize = 0;
    assert(before + line_slots_upto(g, direction, line as int, 0) =~= before);
    while i < len
        invariant
            g == crossword@,
            line < line_count(g, direction),
            len == line_len(g, direction),
            i <= len,
            i < len ==> !open_cell(g, direction, line as int, i - 1),
            result@ == before + line_slots_upto(g, direction, line as int, i as nat),
        decreases len - i,
    {
        if is_black_square(cell_in_line(crossword, direction, line, i)) {
            i += 1;
        } else {
            let start = i;
            let mut end = i + 1;
            while end < len && !is_black_square(cell_in_line(crossword, direction, line, end))
                invariant
                    g == crossword@,
                    line < line_count(g, direction),
                    len == line_len(g, direction),
                    start < end <= len,
                    forall|k: int| start <= k < end ==> #[trigger] open_cell(g, direction, line as int, k),
                decreases len - end,
            {
                end += 1;
            }
            let length = end - start;
            proof {
                lemma_run_exact(g, direction, line as int, start as int, end as int);
            }
            if length >= 2 {
                let slot = match direction {
                    Direction::Across => WordBoundary::new(line, start, length, direction),
                    Direction::Down => WordBoundary::new(start, line, length, direction),
                };
                assert(slot == slot_at(direction, line as int, start as int, length as nat));
                result.push(slot);
            }
            let next = if end < len {
                end + 1
            } else {
                end
            };
            proof {
                let d = direction;
                let l = line as int;
                assert(result@ =~= before + line_slots_upto(g, d, l, (start + 1) as nat));
                assert forall|k: int| start + 1 <= k < next implies !#[trigger] starts_slot(
                    g,
                    d,
                    l,
                    k,
                ) by {
                    if k < end {
                        assert(open_cell(g, d, l, k - 1));
                    }
                }
                lemma_no_starts(g, d, l, (start + 1) as nat, next as nat);
            }
            i = next;
        }
    }
}

/// Appends the words of one direction to `result`, line after line.
fn push_direction_slots(crossword: &Crossword, direction: Direction, result: &mut Vec<WordBoundary>)
    ensures
        final(result)@ == old(result)@ + direction_slots(crossword@, direction),
{
    let ghost g = crossword@;
    let ghost before = result@;
    let lines = match direction {
        Direction::Across => crossword.height(),
        Direction::Down => crossword.width(),
    };
    let mut line: usize = 0;
    assert(before + direction_slots_upto(g, direction, 0) =~= before);
    while line < lines
        invariant
            g == crossword@,
            lines == line_count(g, direction),
            line <= lines,
            result@ == before + direction_slots_upto(g, direction, line as nat),
        decreases lines - line,
    {
        push_line_slots(crossword, direction, line, result);
        assert(result@ =~= before + direction_slots_upto(g, direction, (line + 1) as nat));
        line += 1;
    }
}

/// The words of one direction: row after row for across, column after column for
/// down.
pub fn direction_word_boundaries(crossword: &Crossword, direction: Direction) -> (result: Vec<
    WordBoundary,
>)
    ensures
        result@ == direction_slots(crossword@, direction),
{
    let mut result: Vec<WordBoundary> = Vec::new();
    push_direction_slots(crossword, direction, &mut result);
    assert(Seq::<WordBoundary>::empty() + direction_slots(crossword@, direction)
        =~= direction_slots(crossword@, direction));
    result
}

/// Parses a crossword into its words: first the across words, row after row, then the
/// down words, column after column. One-letter "words" are not included.
///
/// As a crossword is being filled, its words do not change.
pub fn parse_word_boundaries(crossword: &Crossword) -> (result: Vec<WordBoundary>)
    ensures
        result@ == slots(crossword@),
{
    let mut result: Vec<WordBoundary> = Vec::new();
    push_direction_slots(crossword, Direction::Across, &mut result);
    push_direction_slots(crossword, Direction::Down, &mut result);
    assert(result@ =~= slots(crossword@));
    result
}

} // verus!
