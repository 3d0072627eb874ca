//! The search that fills a crossword: a stack of partly filled grids, of which the one
//! on top is taken, the word with the fewest fitting dictionary words in it is chosen,
//! and every grid that comes of writing one of those words is put back on the stack.

use vstd::prelude::*;
use std::time::Instant;
use rand::seq::SliceRandom;
use crate::crossword::{Crossword, Grid, WordIterator, EMPTY};
use crate::parse::{WordBoundary, addressable, parse_word_boundaries, slot_view, slots, lemma_slots_fit};
use crate::text::strings_of;
use crate::trie::{Trie, fits_pattern, is_match_list, match_set, viable};
use crate::fill::solution::{
    covered_from, crossing_words, has_stray_empty, is_solution, sound, filled_from,
    lemma_child_covers, lemma_child_sound, lemma_crossing_words, lemma_permuted_match_list,
    lemma_sound_and_full, lemma_stray_empty,
};
use crate::fill::cache::{CachedIsViable, CachedWords};
use crate::fill::{
    SquareLookup, all_viable, complete, build_square_word_boundary_lookup, fill_one_word,
    is_viable_reuse, words_orthogonal_to_word,
};

verus! {

/// A point in time, carried through as an opaque value.
#[verifier::external_type_specification]
#[verifier::external_body]
pub struct ExInstant(Instant);

/// `Instant::now`: the time at which it is called.
#[verifier::external_body]
fn now() -> Instant {
    Instant::now()
}

/// `Instant::elapsed`: the whole seconds that have passed since `start`. Nothing is
/// claimed of the number.
#[verifier::external_body]
fn seconds_since(start: &Instant) -> u64 {
    start.elapsed().as_secs()
}

/// `SliceRandom::shuffle` with the thread's random number generator: puts the words
/// in a random order. The words are the same as before, each as often as before.
#[verifier::external_body]
fn shuffle(words: &mut Vec<String>)
    ensures
        strings_of(final(words)@).to_multiset() == strings_of(old(words)@).to_multiset(),
{
    words.shuffle(&mut rand::rng());
}

/// Why a fill ended without a filled grid.
#[derive(Debug, PartialEq, Eq, Clone, Copy, Hash, Structural)]
pub enum FillError {
    /// A grid with an empty cell was reached in which no word has an empty cell.
    NoFillableSlot,
    /// The time was up, after `candidates` grids had been taken from the stack.
    TimeExceeded { max_time_seconds: u64, candidates: u64 },
    /// The stack ran empty.
    NoSolution,
}

/// The key by which the next word to fill is chosen: the number of dictionary words
/// that fit along it, then its row, then its column.
pub open spec fn mrv_key(dict: Set<Seq<char>>, g: Grid, s: WordBoundary) -> (nat, int, int) {
    (match_set(dict, slot_view(g, s)).len(), s.start_row as int, s.start_col as int)
}

/// The first key comes before the second: they are ordered by their first parts, then
/// by their second parts, then by their third parts.
pub open spec fn key_before(a: (nat, int, int), b: (nat, int, int)) -> bool {
    a.0 < b.0 || (a.0 == b.0 && (a.1 < b.1 || (a.1 == b.1 && a.2 < b.2)))
}

/// The `i`-th word is the one to fill next in `g`: among the words with an empty
/// cell, none has a key before its key, and none of those listed before it has the
/// same key.
pub open spec fn is_next_to_fill(
    dict: Set<Seq<char>>,
    g: Grid,
    words: Seq<WordBoundary>,
    i: int,
) -> bool {
    &&& 0 <= i < words.len()
    &&& !complete(slot_view(g, words[i]))
    &&& forall|j: int|
        0 <= j < words.len() && !complete(slot_view(g, #[trigger] words[j])) ==> !key_before(
            mrv_key(dict, g, words[j]),
            mrv_key(dict, g, words[i]),
        ) && (j < i ==> key_before(mrv_key(dict, g, words[i]), mrv_key(dict, g, words[j])))
}

/// The grids that the crosswords of a stack stand for.
pub open spec fn grids_of(stack: Seq<Crossword>) -> Seq<Grid> {
    Seq::new(stack.len(), |i: int| stack[i]@)
}

/// The grid that comes of writing the `j`-th of the words to try along `t`.
pub open spec fn child(g: Grid, t: WordBoundary, fills: Seq<Seq<char>>, j: int) -> Grid {
    g.with_word(t, fills[j])
}

/// With the `j`-th of the words to try written along `t`, some word of the dictionary
/// still fits along each of the crossing words.
pub open spec fn passes(
    dict: Set<Seq<char>>,
    g: Grid,
    t: WordBoundary,
    crossing: Seq<WordBoundary>,
    fills: Seq<Seq<char>>,
    j: int,
) -> bool {
    all_viable(dict, child(g, t, fills, j), crossing)
}

/// The grids that come of the first `n` words to try and pass the test of the
/// crossing words, in the order of the words.
pub open spec fn kept(
    dict: Set<Seq<char>>,
    g: Grid,
    t: WordBoundary,
    crossing: Seq<WordBoundary>,
    fills: Seq<Seq<char>>,
    n: nat,
) -> Seq<Grid>
    decreases n,
{
    if n == 0 {
        Seq::empty()
    } else {
        let before = kept(dict, g, t, crossing, fills, (n - 1) as nat);
        if passes(dict, g, t, crossing, fills, n - 1) {
            before.push(child(g, t, fills, n - 1))
        } else {
            before
        }
    }
}

/// The `j`-th of the words to try is the first that passes the test of the crossing
/// words and leaves no cell empty.
pub open spec fn first_full(
    dict: Set<Seq<char>>,
    g: Grid,
    t: WordBoundary,
    crossing: Seq<WordBoundary>,
    fills: Seq<Seq<char>>,
    j: int,
) -> bool {
    &&& 0 <= j < fills.len()
    &&& passes(dict, g, t, crossing, fills, j)
    &&& !child(g, t, fills, j).has_empty()
    &&& forall|i: int|
        0 <= i < j && #[trigger] passes(dict, g, t, crossing, fills, i) ==> child(
            g,
            t,
            fills,
            i,
        ).has_empty()
}

/// Trying the words in order ended at the `j`-th: it is the first to pass the test of
/// the crossing words and to leave no cell empty, `full` is the grid that comes of it,
/// and the stack has grown by the grids that came of the words before it and passed
/// the test.
pub open spec fn found_at(
    dict: Set<Seq<char>>,
    g: Grid,
    t: WordBoundary,
    crossing: Seq<WordBoundary>,
    fills: Seq<Seq<char>>,
    j: int,
    full: Grid,
    stack_before: Seq<Grid>,
    stack_after: Seq<Grid>,
) -> bool {
    &&& first_full(dict, g, t, crossing, fills, j)
    &&& full == child(g, t, fills, j)
    &&& stack_after == stack_before + kept(dict, g, t, crossing, fills, j as nat)
}

/// `x` is the grid that comes of one of the first `n` words to try that passes the
/// test of the crossing words.
pub open spec fn is_kept_child(
    dict: Set<Seq<char>>,
    g: Grid,
    t: WordBoundary,
    crossing: Seq<WordBoundary>,
    fills: Seq<Seq<char>>,
    n: int,
    x: Grid,
) -> bool {
    exists|j: int|
        0 <= j < n && #[trigger] passes(dict, g, t, crossing, fills, j) && x == child(
            g,
            t,
            fills,
            j,
        )
}

/// The grids kept of the words to try are steps of the search; they are the grids
/// that come of the words that pass the test of the crossing words, all of them.
pub proof fn lemma_kept(
    dict: Set<Seq<char>>,
    g: Grid,
    initial: Grid,
    ti: int,
    crossing: Seq<WordBoundary>,
    fills: Seq<Seq<char>>,
    n: nat,
)
    requires
        initial.wf(),
        addressable(initial),
        sound(g, initial, dict),
        0 <= ti < slots(initial).len(),
        crossing_words(initial, ti, crossing),
        n <= fills.len(),
        forall|j: int|
            0 <= j < fills.len() ==> dict.contains(#[trigger] fills[j]) && fits_pattern(
                slot_view(g, slots(initial)[ti]),
                fills[j],
            ),
    ensures
        forall|k: int|
            0 <= k < kept(dict, g, slots(initial)[ti], crossing, fills, n).len() ==> sound(
                #[trigger] kept(dict, g, slots(initial)[ti], crossing, fills, n)[k],
                initial,
                dict,
            ) && is_kept_child(
                dict,
                g,
                slots(initial)[ti],
                crossing,
                fills,
                n as int,
                kept(dict, g, slots(initial)[ti], crossing, fills, n)[k],
            ),
        forall|j: int|
            0 <= j < n && #[trigger] passes(dict, g, slots(initial)[ti], crossing, fills, j)
                ==> kept(dict, g, slots(initial)[ti], crossing, fills, n).contains(
                child(g, slots(initial)[ti], fills, j),
            ),
    decreases n,
{
    let t = slots(initial)[ti];
    if n > 0 {
        let m = (n - 1) as nat;
        lemma_kept(dict, g, initial, ti, crossing, fills, m);
        let before = kept(dict, g, t, crossing, fills, m);
        let all = kept(dict, g, t, crossing, fills, n);
        let last = child(g, t, fills, n - 1);
        if passes(dict, g, t, crossing, fills, n - 1) {
            lemma_child_sound(g, initial, dict, ti, fills[n - 1], crossing);
        }
        assert forall|k: int| 0 <= k < all.len() implies sound(#[trigger] all[k], initial, dict)
            && is_kept_child(dict, g, t, crossing, fills, n as int, all[k]) by {
            if k < before.len() {
                assert(all[k] == before[k]);
                assert(is_kept_child(dict, g, t, crossing, fills, m as int, before[k]));
                let j = choose|j: int|
                    0 <= j < m && #[trigger] passes(dict, g, t, crossing, fills, j) && before[k]
                        == child(g, t, fills, j);
                assert(0 <= j < n && passes(dict, g, t, crossing, fills, j));
            } else {
                assert(passes(dict, g, t, crossing, fills, n - 1));
            }
        }
        assert forall|j: int|
            0 <= j < n && #[trigger] passes(dict, g, t, crossing, fills, j) implies all.contains(
            child(g, t, fills, j),
        ) by {
            if j < n - 1 {
                assert(before.contains(child(g, t, fills, j)));
                let k = choose|k: int| 0 <= k < before.len() && before[k] == child(g, t, fills, j);
                assert(all[k] == child(g, t, fills, j));
            } else {
                assert(all[all.len() - 1] == child(g, t, fills, j));
            }
        }
    }
}

/// Along every word of the grid, the grid holds a word of the dictionary.
pub open spec fn words_known(g: Grid, dict: Set<Seq<char>>) -> bool {
    forall|i: int| 0 <= i < slots(g).len() ==> dict.contains(slot_view(g, #[trigger] slots(g)[i]))
}

/// What holds of the outcome of a fill of `initial` with the dictionary `dict` and
/// `budget` seconds of time.
pub open spec fn fill_outcome(
    result: Result<Crossword, FillError>,
    initial: Grid,
    dict: Set<Seq<char>>,
    budget: u64,
) -> bool {
    match result {
        Ok(filled) => sound(filled@, initial, dict) && !filled@.has_empty() && filled_from(
            filled@,
            initial,
            dict,
        ),
        Err(FillError::NoSolution) => forall|g: Grid| !is_solution(g, initial, dict),
        Err(FillError::NoFillableSlot) => initial.has_empty() && has_stray_empty(initial),
        Err(FillError::TimeExceeded { max_time_seconds, candidates }) => max_time_seconds == budget
            && candidates >= 1 && initial.has_empty(),
    }
}

/// A grid without empty cells is its own and only solution, where it holds a word of
/// the dictionary along each of its words, and has no solution where it does not.
pub proof fn lemma_full_grid(g: Grid, dict: Set<Seq<char>>)
    requires
        g.wf(),
        addressable(g),
        !g.has_empty(),
    ensures
        all_viable(dict, g, slots(g)) <==> words_known(g, dict),
        words_known(g, dict) ==> sound(g, g, dict) && filled_from(g, g, dict),
        !words_known(g, dict) ==> forall|sol: Grid| !is_solution(sol, g, dict),
{
    let all = slots(g);
    assert forall|i: int| 0 <= i < all.len() implies (viable(dict, slot_view(g, #[trigger] all[i]))
        <==> dict.contains(slot_view(g, all[i]))) by {
        let p = slot_view(g, all[i]);
        lemma_slots_fit(g, i);
        crate::fill::solution::lemma_full_views(g, all[i]);
        if viable(dict, p) {
            let w = choose|w: Seq<char>| #[trigger] dict.contains(w) && fits_pattern(p, w);
            crate::fill::lemma_complete_match(p, w);
        }
        if dict.contains(p) {
            assert(fits_pattern(p, p));
        }
    }
    if !words_known(g, dict) {
        let i = choose|i: int| 0 <= i < all.len() && !dict.contains(slot_view(g, #[trigger] all[i]));
        assert forall|sol: Grid| !is_solution(sol, g, dict) by {
            if is_solution(sol, g, dict) {
                lemma_slots_fit(g, i);
                crate::fill::solution::lemma_full_views(g, all[i]);
                crate::fill::lemma_view_of_extension(sol, g, all[i]);
                crate::fill::lemma_complete_match(slot_view(g, all[i]), slot_view(sol, all[i]));
                assert(dict.contains(slot_view(sol, all[i])));
            }
        }
    }
}

/// No word of `initial` has an empty cell in `g`.
pub open spec fn nothing_to_fill(g: Grid, initial: Grid) -> bool {
    forall|i: int|
        0 <= i < slots(initial).len() ==> complete(slot_view(g, #[trigger] slots(initial)[i]))
}

/// The grid that a step ended the search with, if it did.
pub open spec fn full_of(outcome: Option<Result<Crossword, FillError>>) -> Option<Grid> {
    match outcome {
        Some(Ok(full)) => Some(full@),
        _ => None,
    }
}

/// A step of the search with time left, for the grid `g`: the `ti`-th word of `initial`
/// is the one to fill next, `fills` are the dictionary words that fit along it, in the
/// order in which they were tried, and `crossing` are the words that cross it. The
/// step ended the search with `full`, the grid of the `j`-th word, the first that
/// passed the test of the crossing words and left no cell empty, or went through all
/// words; and the stack has grown by the grids that passed the test before that.
pub open spec fn is_step(
    dict: Set<Seq<char>>,
    initial: Grid,
    g: Grid,
    ti: int,
    fills: Seq<Seq<char>>,
    crossing: Seq<WordBoundary>,
    j: int,
    full: Option<Grid>,
    stack_before: Seq<Grid>,
    stack_after: Seq<Grid>,
) -> bool {
    &&& is_next_to_fill(dict, g, slots(initial), ti)
    &&& is_match_list(dict, slot_view(g, slots(initial)[ti]), fills)
    &&& crossing_words(initial, ti, crossing)
    &&& match full {
        Some(grid) => found_at(
            dict,
            g,
            slots(initial)[ti],
            crossing,
            fills,
            j,
            grid,
            stack_before,
            stack_after,
        ),
        None => {
            &&& forall|i: int|
                0 <= i < fills.len() && #[trigger] passes(
                    dict,
                    g,
                    slots(initial)[ti],
                    crossing,
                    fills,
                    i,
                ) ==> child(g, slots(initial)[ti], fills, i).has_empty()
            &&& stack_after == stack_before + kept(
                dict,
                g,
                slots(initial)[ti],
                crossing,
                fills,
                fills.len(),
            )
        },
    }
}

/// Where a step went through all words to try, the grids that it left on the stack are
/// steps of the search with an empty cell, and every solution that agreed with the
/// grid of the step agrees with one of them.
pub proof fn lemma_step_goes_on(
    dict: Set<Seq<char>>,
    g: Grid,
    initial: Grid,
    ti: int,
    crossing: Seq<WordBoundary>,
    fills: Seq<Seq<char>>,
    before: Seq<Grid>,
    after: Seq<Grid>,
)
    requires
        initial.wf(),
        addressable(initial),
        sound(g, initial, dict),
        0 <= ti < slots(initial).len(),
        crossing_words(initial, ti, crossing),
        is_match_list(dict, slot_view(g, slots(initial)[ti]), fills),
        forall|j: int|
            0 <= j < fills.len() && #[trigger] passes(
                dict,
                g,
                slots(initial)[ti],
                crossing,
                fills,
                j,
            ) ==> child(g, slots(initial)[ti], fills, j).has_empty(),
        after == before + kept(dict, g, slots(initial)[ti], crossing, fills, fills.len()),
    ensures
        after.take(before.len() as int) == before,
        forall|k: int|
            before.len() <= k < after.len() ==> sound(#[trigger] after[k], initial, dict)
                && after[k].has_empty(),
        forall|sol: Grid|
            #![trigger sol.extends(g)]
            is_solution(sol, initial, dict) && sol.extends(g) ==> covered_from(
                sol,
                after,
                before.len() as int,
            ),
{
    let t = slots(initial)[ti];
    let n = fills.len();
    let added = kept(dict, g, t, crossing, fills, n);
    assert forall|j: int| 0 <= j < fills.len() implies dict.contains(#[trigger] fills[j])
        && fits_pattern(slot_view(g, t), fills[j]) by {
        assert(fills.contains(fills[j]));
    }
    lemma_kept(dict, g, initial, ti, crossing, fills, n);
    assert(after.take(before.len() as int) =~= before);
    assert forall|k: int| before.len() <= k < after.len() implies sound(
        #[trigger] after[k],
        initial,
        dict,
    ) && after[k].has_empty() by {
        let x = added[k - before.len()];
        assert(after[k] == x);
        assert(is_kept_child(dict, g, t, crossing, fills, n as int, x));
    }
    assert forall|sol: Grid|
        #![trigger sol.extends(g)]
        is_solution(sol, initial, dict) && sol.extends(g) implies covered_from(
        sol,
        after,
        before.len() as int,
    ) by {
        lemma_child_covers(sol, g, initial, dict, ti, crossing);
        let w = slot_view(sol, t);
        assert(fills.contains(w));
        let j = choose|j: int| 0 <= j < fills.len() && fills[j] == w;
        assert(passes(dict, g, t, crossing, fills, j));
        assert(added.contains(child(g, t, fills, j)));
        let k = choose|k: int| 0 <= k < added.len() && added[k] == child(g, t, fills, j);
        assert(after[before.len() + k] == added[k]);
    }
}

/// A pattern has an empty cell exactly if it is not complete.
pub proof fn lemma_complete_or_empty(pattern: Seq<char>)
    ensures
        complete(pattern) <==> !pattern.contains(EMPTY),
{
    if !complete(pattern) {
        let i = choose|i: int| 0 <= i < pattern.len() && pattern[i] == EMPTY;
        assert(pattern.contains(EMPTY));
    }
}

/// Fills crosswords with the words of a dictionary.
pub struct Filler<'s> {
    word_cache: CachedWords,
    is_viable_cache: CachedIsViable,
    trie: &'s Trie,
    random: bool,
    max_time_seconds: u64,
}

impl<'s> Filler<'s> {
    /// The words of the dictionary.
    pub closed spec fn dict(&self) -> Set<Seq<char>> {
        self.trie@
    }

    /// Whether the words to try are put in a random order.
    pub closed spec fn random(&self) -> bool {
        self.random
    }

    /// The seconds after which a fill gives up.
    pub closed spec fn budget(&self) -> u64 {
        self.max_time_seconds
    }

    /// What the caches hold is right for the dictionary.
    pub closed spec fn wf(&self) -> bool {
        self.word_cache.wf(self.trie@) && self.is_viable_cache.wf(self.trie@)
    }

    /// The dictionary and the settings are those of `other`.
    pub open spec fn same_settings(&self, other: &Self) -> bool {
        self.dict() == other.dict() && self.random() == other.random() && self.budget()
            == other.budget()
    }

    /// A filler for the dictionary `trie`, which gives up after `max_time_seconds`,
    /// or after 120 seconds where none is given.
    pub fn new(trie: &'s Trie, random: bool, max_time_seconds: Option<u64>) -> (filler: Filler<'s>)
        ensures
            filler.wf(),
            filler.dict() == trie@,
            filler.random() == random,
            filler.budget() == (match max_time_seconds {
                Some(seconds) => seconds,
                None => 120,
            }),
    {
        Filler {
            word_cache: CachedWords::default(),
            is_viable_cache: CachedIsViable::default(),
            trie,
            random,
            max_time_seconds: match max_time_seconds {
                Some(seconds) => seconds,
                None => 120,
            },
        }
    }

    /// The word to fill next in `candidate`: the one with the fewest fitting dictionary
    /// words among those with an empty cell, the topmost of these, of these the
    /// leftmost, and of these the one listed first. `None` where no word has an empty
    /// cell.
    pub fn select_slot(&mut self, candidate: &Crossword, word_boundaries: &Vec<WordBoundary>) -> (chosen:
        Option<usize>)
        requires
            old(self).wf(),
            forall|i: int|
                0 <= i < word_boundaries.len() ==> (#[trigger] word_boundaries[i]).fits(
                    candidate@,
                ),
        ensures
            final(self).wf(),
            final(self).same_settings(old(self)),
            match chosen {
                Some(i) => is_next_to_fill(old(self).dict(), candidate@, word_boundaries@, i as int),
                None => forall|i: int|
                    0 <= i < word_boundaries.len() ==> complete(
                        slot_view(candidate@, #[trigger] word_boundaries[i]),
                    ),
            },
    {
        let ghost dict = self.dict();
        let ghost g = candidate@;
        let ghost words = word_boundaries@;
        let mut best: Option<(usize, usize)> = None;
        let mut i: usize = 0;
        while i < word_boundaries.len()
            invariant
                i <= word_boundaries.len(),
                self.wf(),
                self.same_settings(old(self)),
                dict == self.dict(),
                g == candidate@,
                words == word_boundaries@,
                forall|j: int| 0 <= j < words.len() ==> (#[trigger] words[j]).fits(g),
                match best {
                    Some((b, count)) => {
                        &&& b < i
                        &&& count == mrv_key(dict, g, words[b as int]).0
                        &&& !complete(slot_view(g, words[b as int]))
                        &&& forall|j: int|
                            0 <= j < i && !complete(slot_view(g, #[trigger] words[j]))
                                ==> !key_before(
                                mrv_key(dict, g, words[j]),
                                mrv_key(dict, g, words[b as int]),
                            ) && (j < b ==> key_before(
                                mrv_key(dict, g, words[b as int]),
                                mrv_key(dict, g, words[j]),
                            ))
                    },
                    None => forall|j: int|
                        0 <= j < i ==> complete(slot_view(g, #[trigger] words[j])),
                },
            decreases word_boundaries.len() - i,
        {
            let word = &word_boundaries[i];
            let iter = WordIterator::new(candidate, word);
            proof {
                lemma_complete_or_empty(slot_view(g, words[i as int]));
            }
            if iter.has_empty() {
                let count = self.word_cache.count(iter, self.trie);
                match best {
                    None => {
                        best = Some((i, count));
                    },
                    Some((b, least)) => {
                        let chosen = &word_boundaries[b];
                        if count < least || (count == least && (word.start_row < chosen.start_row
                            || (word.start_row == chosen.start_row && word.start_col
                            < chosen.start_col))) {
                            best = Some((i, count));
                        }
                    },
                }
            }
            i += 1;
        }
        match best {
            Some((b, _)) => Some(b),
            None => None,
        }
    }

    /// Tries the words of `fills` along `to_fill`, in order. Each is written into a copy
    /// of `candidate`; a copy in which some crossing word has no fitting dictionary word
    /// left is dropped; the first other copy without empty cells is returned, and every
    /// other copy before it is put on the stack `candidates`.
    pub fn try_fills(
        &mut self,
        candidate: &Crossword,
        to_fill: &WordBoundary,
        orthogonals: &Vec<WordBoundary>,
        fills: &Vec<String>,
        candidates: &mut Vec<Crossword>,
    ) -> (found: Option<Crossword>)
        requires
            old(self).wf(),
            to_fill.fits(candidate@),
            forall|j: int|
                0 <= j < orthogonals.len() ==> (#[trigger] orthogonals[j]).fits(candidate@),
            forall|j: int| 0 <= j < fills.len() ==> (#[trigger] fills[j])@.len() == to_fill.length,
        ensures
            final(self).wf(),
            final(self).same_settings(old(self)),
            match found {
                Some(full) => exists|j: int| #[trigger]
                    found_at(
                        old(self).dict(),
                        candidate@,
                        *to_fill,
                        orthogonals@,
                        strings_of(fills@),
                        j,
                        full@,
                        grids_of(old(candidates)@),
                        grids_of(final(candidates)@),
                    ),
                None => {
                    &&& forall|j: int|
                        0 <= j < fills.len() && #[trigger] passes(
                            old(self).dict(),
                            candidate@,
                            *to_fill,
                            orthogonals@,
                            strings_of(fills@),
                            j,
                        ) ==> child(candidate@, *to_fill, strings_of(fills@), j).has_empty()
                    &&& grids_of(final(candidates)@) == grids_of(old(candidates)@) + kept(
                        old(self).dict(),
                        candidate@,
                        *to_fill,
                        orthogonals@,
                        strings_of(fills@),
                        fills.len() as nat,
                    )
                },
            },
    {
        let ghost dict = self.dict();
        let ghost g = candidate@;
        let ghost t = *to_fill;
        let ghost crossing = orthogonals@;
        let ghost words = strings_of(fills@);
        let ghost before = grids_of(candidates@);
        let iter = WordIterator::new(candidate, to_fill);
        let mut j: usize = 0;
        let mut found: Option<Crossword> = None;
        assert(grids_of(candidates@) =~= before + kept(dict, g, t, crossing, words, 0));
        while j < fills.len() && found.is_none()
            invariant
                j <= fills.len(),
                self.wf(),
                self.same_settings(old(self)),
                dict == self.dict(),
                g == candidate@,
                t == *to_fill,
                crossing == orthogonals@,
                words == strings_of(fills@),
                iter.slot() == t,
                t.fits(g),
                forall|i: int| 0 <= i < crossing.len() ==> (#[trigger] crossing[i]).fits(g),
                forall|i: int| 0 <= i < fills.len() ==> (#[trigger] fills[i])@.len() == t.length,
                match found {
                    Some(full) => found_at(
                        dict,
                        g,
                        t,
                        crossing,
                        words,
                        j as int,
                        full@,
                        before,
                        grids_of(candidates@),
                    ),
                    None => {
                        &&& grids_of(candidates@) == before + kept(
                            dict,
                            g,
                            t,
                            crossing,
                            words,
                            j as nat,
                        )
                        &&& forall|i: int|
                            0 <= i < j && #[trigger] passes(dict, g, t, crossing, words, i)
                                ==> child(g, t, words, i).has_empty()
                    },
                },
            decreases fills.len() - j + (if found is None { 1int } else { 0int }),
        {
            let new_candidate = fill_one_word(candidate, &iter, &fills[j]);
            assert(new_candidate@ == child(g, t, words, j as int));
            assert forall|i: int| 0 <= i < crossing.len() implies (#[trigger] crossing[i]).fits(
                new_candidate@,
            ) by {
                assert(crossing[i].fits(g));
            }
            let viable = is_viable_reuse(
                &new_candidate,
                orthogonals,
                self.trie,
                &mut self.is_viable_cache,
            );
            if viable && !new_candidate.has_empty() {
                assert(first_full(dict, g, t, crossing, words, j as int));
                found = Some(new_candidate);
            } else {
                if viable {
                    let ghost stack = grids_of(candidates@);
                    candidates.push(new_candidate);
                    assert(grids_of(candidates@) =~= stack.push(child(g, t, words, j as int)));
                }
                assert(grids_of(candidates@) =~= before + kept(
                    dict,
                    g,
                    t,
                    crossing,
                    words,
                    (j + 1) as nat,
                ));
                j += 1;
            }
        }
        found
    }

    /// One step of the search, for the grid `candidate` just taken from the stack, the
    /// `candidate_count`-th, with `elapsed_secs` seconds gone since the fill began.
    ///
    /// With the time up, the step ends the fill with `TimeExceeded`. Else it chooses
    /// the word to fill next, and ends the fill with `NoFillableSlot` where there is
    /// none. Else it tries the dictionary words that fit along that word, in the order
    /// of the cache or, for a random filler, in a random order: it ends the fill with
    /// the first grid that comes out without empty cells, and else leaves on the stack
    /// the grids that came out, and lets the search go on.
    #[verifier::rlimit(60)]
    pub fn explore(
        &mut self,
        initial: &Crossword,
        candidate: &Crossword,
        elapsed_secs: u64,
        candidate_count: u64,
        word_boundaries: &Vec<WordBoundary>,
        lookup: &SquareLookup,
        candidates: &mut Vec<Crossword>,
    ) -> (outcome: Option<Result<Crossword, FillError>>)
        requires
            old(self).wf(),
            word_boundaries@ == slots(initial@),
            lookup.describes(slots(initial@), initial@),
            sound(candidate@, initial@, old(self).dict()),
            candidate@.has_empty(),
        ensures
            final(self).wf(),
            final(self).same_settings(old(self)),
            final(candidates)@.len() >= old(candidates)@.len(),
            grids_of(final(candidates)@).take(old(candidates)@.len() as int) == grids_of(
                old(candidates)@,
            ),
            elapsed_secs >= old(self).budget() <==> outcome == Some(
                Err::<Crossword, FillError>(
                    FillError::TimeExceeded {
                        max_time_seconds: old(self).budget(),
                        candidates: candidate_count,
                    },
                ),
            ),
            elapsed_secs < old(self).budget() ==> (nothing_to_fill(candidate@, initial@) <==> (
            outcome matches Some(Err(e)) && e == FillError::NoFillableSlot)),
            elapsed_secs < old(self).budget() && !nothing_to_fill(candidate@, initial@) ==> (
            outcome matches Some(r) ==> r is Ok) && exists|
                ti: int,
                fills: Seq<Seq<char>>,
                crossing: Seq<WordBoundary>,
                j: int,
            | #[trigger]
                is_step(
                    old(self).dict(),
                    initial@,
                    candidate@,
                    ti,
                    fills,
                    crossing,
                    j,
                    full_of(outcome),
                    grids_of(old(candidates)@),
                    grids_of(final(candidates)@),
                ),
            match outcome {
                Some(Ok(full)) => sound(full@, initial@, old(self).dict()) && !full@.has_empty(),
                Some(Err(FillError::NoFillableSlot)) => has_stray_empty(initial@) && grids_of(
                    final(candidates)@,
                ) == grids_of(old(candidates)@),
                Some(Err(FillError::NoSolution)) => false,
                Some(Err(FillError::TimeExceeded { .. })) => elapsed_secs >= old(self).budget()
                    && grids_of(final(candidates)@) == grids_of(old(candidates)@),
                None => {
                    &&& forall|k: int|
                        old(candidates)@.len() <= k < final(candidates)@.len() ==> sound(
                            #[trigger] grids_of(final(candidates)@)[k],
                            initial@,
                            old(self).dict(),
                        ) && grids_of(final(candidates)@)[k].has_empty()
                    &&& forall|g: Grid|
                        #![trigger g.extends(candidate@)]
                        is_solution(g, initial@, old(self).dict()) && g.extends(candidate@)
                            ==> covered_from(
                            g,
                            grids_of(final(candidates)@),
                            old(candidates)@.len() as int,
                        )
                },
            },
    {
        let ghost dict = self.dict();
        let ghost g0 = initial@;
        let ghost g = candidate@;
        let ghost before = grids_of(candidates@);
        proof {
            initial.lemma_view_wf();
            assert(before.take(before.len() as int) =~= before);
        }
        if elapsed_secs >= self.max_time_seconds {
            return Some(
                Err(
                    FillError::TimeExceeded {
                        max_time_seconds: self.max_time_seconds,
                        candidates: candidate_count,
                    },
                ),
            );
        }
        proof {
            assert forall|i: int| 0 <= i < word_boundaries.len() implies (
            #[trigger] word_boundaries[i]).fits(g) by {
                lemma_slots_fit(g0, i);
            }
        }
        let chosen = self.select_slot(candidate, word_boundaries);
        let index = match chosen {
            Some(index) => index,
            None => {
                proof {
                    lemma_stray_empty(g, g0);
                }
                return Some(Err(FillError::NoFillableSlot));
            },
        };
        let to_fill = &word_boundaries[index];
        let ghost ti = index as int;
        let ghost t = slots(g0)[ti];
        proof {
            lemma_slots_fit(g0, ti);
        }
        let orthogonals = words_orthogonal_to_word(to_fill, lookup);
        proof {
            lemma_crossing_words(g0, *lookup, ti, orthogonals@);
            assert forall|j: int| 0 <= j < orthogonals.len() implies (#[trigger] orthogonals[j]).fits(
                g,
            ) by {
                assert(slots(g0).contains(orthogonals[j]));
                let i = choose|i: int| 0 <= i < slots(g0).len() && slots(g0)[i] == orthogonals[j];
                lemma_slots_fit(g0, i);
            }
        }
        let iter = WordIterator::new(candidate, to_fill);
        let mut potential_fills = self.word_cache.words(iter, self.trie);
        if self.random {
            let ghost cached = strings_of(potential_fills@);
            shuffle(&mut potential_fills);
            proof {
                lemma_permuted_match_list(
                    dict,
                    slot_view(g, t),
                    cached,
                    strings_of(potential_fills@),
                );
            }
        }
        let ghost fills = strings_of(potential_fills@);
        proof {
            assert forall|j: int| 0 <= j < fills.len() implies dict.contains(#[trigger] fills[j])
                && fits_pattern(slot_view(g, t), fills[j]) by {
                assert(fills.contains(fills[j]));
            }
            assert forall|j: int| 0 <= j < potential_fills.len() implies (
            #[trigger] potential_fills[j])@.len() == to_fill.length by {
                assert(fills[j] == potential_fills[j]@);
            }
        }
        assert(is_next_to_fill(dict, g, slots(g0), ti));
        assert(is_match_list(dict, slot_view(g, t), fills));
        assert(crossing_words(g0, ti, orthogonals@));
        assert(!nothing_to_fill(g, g0));
        let found = self.try_fills(candidate, to_fill, &orthogonals, &potential_fills, candidates);
        let ghost after = grids_of(candidates@);
        proof {
            assert(after.len() == candidates@.len());
            assert(before.len() == old(candidates)@.len());
            if found is Some {
                let j = choose|j: int| #[trigger]
                    found_at(dict, g, t, orthogonals@, fills, j, (found->0)@, before, after);
                assert(after.len() >= before.len());
            }
        }
        match found {
            Some(full) => {
                proof {
                    let j = choose|j: int| #[trigger]
                        found_at(dict, g, t, orthogonals@, fills, j, full@, before, after);
                    lemma_child_sound(g, g0, dict, ti, fills[j], orthogonals@);
                    assert(after.take(before.len() as int) =~= before);
                    assert(is_step(
                        dict,
                        g0,
                        g,
                        ti,
                        fills,
                        orthogonals@,
                        j,
                        Some(full@),
                        before,
                        after,
                    ));
                }
                Some(Ok(full))
            },
            None => {
                proof {
                    lemma_step_goes_on(dict, g, g0, ti, orthogonals@, fills, before, after);
                    assert(is_step(dict, g0, g, ti, fills, orthogonals@, 0, None, before, after));
                }
                None
            },
        }
    }

    /// Fills the empty cells of `initial_crossword` so that every word of it is a word
    /// of the dictionary.
    ///
    /// A crossword without empty cells is returned as it is where all its words are
    /// in the dictionary, and has no solution where they are not. Else the search
    /// runs until it finds a filled grid, until the stack runs empty (`NoSolution`),
    /// until a grid is reached in which no word can be chosen (`NoFillableSlot`), or
    /// until the time is up (`TimeExceeded`), whichever comes first; with no time at
    /// all, it is up at once.
    pub fn fill(&mut self, initial_crossword: &Crossword) -> (result: Result<Crossword, FillError>)
        requires
            old(self).wf(),
        ensures
            final(self).wf(),
            final(self).same_settings(old(self)),
            fill_outcome(result, initial_crossword@, old(self).dict(), old(self).budget()),
            !initial_crossword@.has_empty() ==> (match result {
                Ok(filled) => filled@ == initial_crossword@ && words_known(
                    initial_crossword@,
                    old(self).dict(),
                ),
                Err(e) => e == FillError::NoSolution && !words_known(
                    initial_crossword@,
                    old(self).dict(),
                ),
            }),
            initial_crossword@.has_empty() && old(self).budget() == 0 ==> (result matches Err(e)
                && e == (FillError::TimeExceeded { max_time_seconds: 0, candidates: 1 })),
    {
        let ghost dict = self.dict();
        let ghost g0 = initial_crossword@;
        let ghost budget = self.budget();
        proof {
            initial_crossword.lemma_view_wf();
        }
        let word_boundaries = parse_word_boundaries(initial_crossword);
        proof {
            assert forall|i: int| 0 <= i < word_boundaries.len() implies (
            #[trigger] word_boundaries[i]).fits(g0) by {
                lemma_slots_fit(g0, i);
            }
        }
        if !initial_crossword.has_empty() {
            let known = is_viable_reuse(
                initial_crossword,
                &word_boundaries,
                self.trie,
                &mut self.is_viable_cache,
            );
            proof {
                lemma_full_grid(g0, dict);
            }
            if known {
                return Ok(initial_crossword.clone());
            } else {
                return Err(FillError::NoSolution);
            }
        }
        let lookup = build_square_word_boundary_lookup(initial_crossword, &word_boundaries);
        let start = now();
        let mut candidate_count: u64 = 0;
        let mut candidates: Vec<Crossword> = Vec::new();
        candidates.push(initial_crossword.clone());
        let mut outcome: Option<Result<Crossword, FillError>> = None;
        proof {
            assert(sound(g0, g0, dict));
            assert forall|sol: Grid| is_solution(sol, g0, dict) implies covered_from(
                sol,
                grids_of(candidates@),
                0,
            ) by {
                assert(sol.extends(grids_of(candidates@)[0]));
            }
        }
        while outcome.is_none()
            invariant
                self.wf(),
                self.same_settings(old(self)),
                dict == self.dict(),
                budget == self.budget(),
                g0 == initial_crossword@,
                g0.wf(),
                addressable(g0),
                g0.has_empty(),
                word_boundaries@ == slots(g0),
                lookup.describes(slots(g0), g0),
                match outcome {
                    Some(r) => fill_outcome(r, g0, dict, budget) && (budget == 0 ==> (r matches Err(
                        e,
                    ) && e == (FillError::TimeExceeded { max_time_seconds: 0, candidates: 1 }))),
                    None => {
                        &&& forall|k: int|
                            0 <= k < candidates@.len() ==> sound(
                                #[trigger] grids_of(candidates@)[k],
                                g0,
                                dict,
                            ) && grids_of(candidates@)[k].has_empty()
                        &&& forall|sol: Grid|
                            is_solution(sol, g0, dict) ==> #[trigger] covered_from(
                                sol,
                                grids_of(candidates@),
                                0,
                            )
                        &&& budget == 0 ==> candidate_count == 0 && candidates@.len() == 1
                    },
                },
            decreases u64::MAX - candidate_count + (if outcome is None { 1int } else { 0int }),
        {
            let ghost stack = grids_of(candidates@);
            match candidates.pop() {
                None => {
                    proof {
                        assert forall|sol: Grid| !is_solution(sol, g0, dict) by {
                            if is_solution(sol, g0, dict) {
                                assert(covered_from(sol, stack, 0));
                            }
                        }
                    }
                    outcome = Some(Err(FillError::NoSolution));
                },
                Some(candidate) => {
                    let ghost rest = grids_of(candidates@);
                    proof {
                        assert(candidate@ == stack[stack.len() - 1]);
                        assert(rest =~= stack.drop_last());
                    }
                    if candidate_count == u64::MAX {
                        outcome = Some(
                            Err(
                                FillError::TimeExceeded {
                                    max_time_seconds: self.max_time_seconds,
                                    candidates: candidate_count,
                                },
                            ),
                        );
                    } else {
                        candidate_count += 1;
                        let elapsed_secs = seconds_since(&start);
                        outcome = self.explore(
                            initial_crossword,
                            &candidate,
                            elapsed_secs,
                            candidate_count,
                            &word_boundaries,
                            &lookup,
                            &mut candidates,
                        );
                        proof {
                            let after = grids_of(candidates@);
                            if outcome is Some {
                                if outcome->0 is Ok {
                                    lemma_sound_and_full((outcome->0->Ok_0)@, g0, dict);
                                }
                            } else {
                                {
                                    assert forall|k: int| 0 <= k < after.len() implies sound(
                                        #[trigger] after[k],
                                        g0,
                                        dict,
                                    ) && after[k].has_empty() by {
                                        if k < rest.len() {
                                            assert(after.take(rest.len() as int)[k] == rest[k]);
                                            assert(rest[k] == stack[k]);
                                        }
                                    }
                                    assert forall|sol: Grid|
                                        is_solution(sol, g0, dict) implies #[trigger] covered_from(
                                        sol,
                                        after,
                                        0,
                                    ) by {
                                        assert(covered_from(sol, stack, 0));
                                        let k = choose|k: int|
                                            0 <= k < stack.len() && sol.extends(#[trigger] stack[k]);
                                        if k < rest.len() {
                                            assert(after.take(rest.len() as int)[k] == rest[k]);
                                            assert(sol.extends(after[k]));
                                        } else {
                                            assert(sol.extends(candidate@));
                                            assert(covered_from(sol, after, rest.len() as int));
                                            let n = choose|n: int|
                                                rest.len() <= n < after.len() && sol.extends(
                                                    #[trigger] after[n],
                                                );
                                            assert(sol.extends(after[n]));
                                        }
                                    }
                                }
                            }
                        }
                    }
                },
            }
        }
        match outcome {
            Some(result) => result,
            None => Err(FillError::NoSolution),
        }
    }
}

} // verus!
