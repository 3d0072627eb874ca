//! What a fill is after: the grids that solve a crossword, and why the search keeps
//! to them.

use vstd::prelude::*;
use crate::crossword::{Grid, EMPTY, is_block};
use crate::parse::{
    WordBoundary, addressable, open_cell, slot_view, slots, lemma_slots_fit,
    lemma_slots_sharing_cell, lemma_slots_depend_on_blocks_only,
};
use crate::trie::{fits_pattern, is_match_list, viable};
use crate::fill::{
    SquareLookup, all_viable, complete, covers_cell_of, crossed_at, crosses_within,
    other_direction, shares_cell, lemma_complete_match, lemma_extends_transitive,
    lemma_view_apart, lemma_view_of_extension, lemma_view_of_written, lemma_written_extends,
};

verus! {

/// `g` solves `initial`: it keeps what `initial` holds, has no empty cell left, and
/// along every word of `initial` it holds a word of the dictionary.
pub open spec fn is_solution(g: Grid, initial: Grid, dict: Set<Seq<char>>) -> bool {
    &&& g.wf()
    &&& g.extends(initial)
    &&& !g.has_empty()
    &&& forall|i: int|
        0 <= i < slots(initial).len() ==> dict.contains(slot_view(g, #[trigger] slots(initial)[i]))
}

/// No word of the dictionary holds the sign of a black square.
pub open spec fn no_black_squares(dict: Set<Seq<char>>) -> bool {
    forall|w: Seq<char>, i: int|
        dict.contains(w) && 0 <= i < w.len() ==> !is_block(#[trigger] w[i])
}

/// `g` is a step of the search from `initial`: it keeps what `initial` holds, and
/// along every word of `initial` that it holds no empty cell along, it holds a word
/// of the dictionary, unless `initial` had no empty cell there either. Where no word
/// of the dictionary holds the sign of a black square, its black squares are those of
/// `initial`.
pub open spec fn sound(g: Grid, initial: Grid, dict: Set<Seq<char>>) -> bool {
    &&& g.wf()
    &&& g.extends(initial)
    &&& no_black_squares(dict) ==> g.same_blocks(initial)
    &&& forall|i: int|
        0 <= i < slots(initial).len() ==> {
            let s = #[trigger] slots(initial)[i];
            complete(slot_view(g, s)) ==> dict.contains(slot_view(g, s)) || complete(
                slot_view(initial, s),
            )
        }
}

/// Along every word of `initial`, `g` holds a word of the dictionary, unless
/// `initial` had no empty cell there.
pub open spec fn filled_from(g: Grid, initial: Grid, dict: Set<Seq<char>>) -> bool {
    forall|i: int|
        0 <= i < slots(initial).len() ==> {
            let s = #[trigger] slots(initial)[i];
            dict.contains(slot_view(g, s)) || complete(slot_view(initial, s))
        }
}

/// Some empty cell of the grid lies in none of its words.
pub open spec fn has_stray_empty(g: Grid) -> bool {
    exists|r: int, c: int|
        g.in_bounds(r, c) && #[trigger] g.at(r, c) == EMPTY && forall|i: int|
            0 <= i < slots(g).len() ==> !(#[trigger] slots(g)[i]).covers(r, c)
}

/// The list holds every word of `initial` that crosses its `ti`-th word, and words of
/// `initial` only.
pub open spec fn crossing_words(initial: Grid, ti: int, list: Seq<WordBoundary>) -> bool {
    &&& forall|j: int| 0 <= j < list.len() ==> slots(initial).contains(#[trigger] list[j])
    &&& forall|i: int|
        0 <= i < slots(initial).len() && (#[trigger] slots(initial)[i]).direction != slots(
            initial,
        )[ti].direction && shares_cell(slots(initial)[i], slots(initial)[ti]) ==> list.contains(
            slots(initial)[i],
        )
}

/// Two words share a cell whichever of them is asked.
pub proof fn lemma_shares_cell_symmetric(a: WordBoundary, b: WordBoundary)
    requires
        shares_cell(a, b),
    ensures
        shares_cell(b, a),
{
    let k = choose|k: int| 0 <= k < b.length && #[trigger] covers_cell_of(a, b, k);
    let j = a.offset_of(b.row_at(k), b.col_at(k));
    assert(a.row_at(j) == b.row_at(k) && a.col_at(j) == b.col_at(k));
    assert(covers_cell_of(b, a, j));
}

/// What the index gives across a word of the grid are the words that cross it.
pub proof fn lemma_crossing_words(
    initial: Grid,
    lookup: SquareLookup,
    ti: int,
    list: Seq<WordBoundary>,
)
    requires
        initial.wf(),
        addressable(initial),
        lookup.describes(slots(initial), initial),
        0 <= ti < slots(initial).len(),
        forall|j: int|
            0 <= j < list.len() ==> crosses_within(
                lookup,
                slots(initial)[ti],
                #[trigger] list[j],
                slots(initial)[ti].length as int,
            ),
        forall|k: int|
            0 <= k < slots(initial)[ti].length ==> (#[trigger] crossed_at(
                lookup,
                slots(initial)[ti],
                k,
            ) matches Some(s) ==> list.contains(s)),
    ensures
        crossing_words(initial, ti, list),
{
    let all = slots(initial);
    let t = all[ti];
    lemma_slots_fit(initial, ti);
    assert forall|j: int| 0 <= j < list.len() implies all.contains(#[trigger] list[j]) by {
        assert(crosses_within(lookup, t, list[j], t.length as int));
        let k = choose|k: int|
            0 <= k < t.length && #[trigger] crossed_at(lookup, t, k) == Some(list[j]);
        assert(initial.in_bounds(t.row_at(k), t.col_at(k)));
        assert(lookup.at(other_direction(t.direction), t.row_at(k), t.col_at(k)) == Some(list[j]));
    }
    assert forall|i: int|
        0 <= i < all.len() && (#[trigger] all[i]).direction != t.direction && shares_cell(
            all[i],
            t,
        ) implies list.contains(all[i]) by {
        let s = all[i];
        lemma_slots_fit(initial, i);
        let k = choose|k: int| 0 <= k < t.length && #[trigger] covers_cell_of(s, t, k);
        let r = t.row_at(k);
        let c = t.col_at(k);
        let n = s.offset_of(r, c);
        assert(s.row_at(n) == r && s.col_at(n) == c);
        assert(lookup.at(s.direction, s.row_at(n), s.col_at(n)) is Some);
        let held = crossed_at(lookup, t, k);
        assert(held == lookup.at(s.direction, r, c));
        let found = held->0;
        assert(initial.in_bounds(r, c));
        assert(all.contains(found) && found.direction == s.direction && found.covers(r, c));
        let fi = choose|fi: int| 0 <= fi < all.len() && all[fi] == found;
        lemma_slots_fit(initial, fi);
        let m = found.offset_of(r, c);
        assert(found.row_at(m) == r && found.col_at(m) == c);
        lemma_slots_sharing_cell(initial, found, s, m, n);
        assert(list.contains(found));
    }
}

/// Writing a word of the dictionary that fits along a word of the crossword, with the
/// words that cross it still viable, is again a step of the search.
pub proof fn lemma_child_sound(
    g: Grid,
    initial: Grid,
    dict: Set<Seq<char>>,
    ti: int,
    word: Seq<char>,
    crossing: Seq<WordBoundary>,
)
    requires
        initial.wf(),
        addressable(initial),
        sound(g, initial, dict),
        0 <= ti < slots(initial).len(),
        dict.contains(word),
        fits_pattern(slot_view(g, slots(initial)[ti]), word),
        crossing_words(initial, ti, crossing),
        all_viable(dict, g.with_word(slots(initial)[ti], word), crossing),
    ensures
        sound(g.with_word(slots(initial)[ti], word), initial, dict),
        g.with_word(slots(initial)[ti], word).extends(g),
{
    let all = slots(initial);
    let t = all[ti];
    let after = g.with_word(t, word);
    lemma_slots_fit(initial, ti);
    assert(t.fits(g));
    lemma_view_of_written(g, t, word);
    lemma_written_extends(g, t, word);
    lemma_extends_transitive(after, g, initial);
    if no_black_squares(dict) {
        assert forall|r: int, c: int| after.in_bounds(r, c) implies is_block(
            #[trigger] after.at(r, c),
        ) == is_block(initial.at(r, c)) by {
            assert(is_block(g.at(r, c)) == is_block(initial.at(r, c)));
            if t.covers(r, c) {
                let k = t.offset_of(r, c);
                assert(!is_block(word[k]));
                assert(open_cell(initial, t.direction, t.line(), t.start() + k));
            }
        }
    }
    assert forall|i: int| 0 <= i < all.len() implies {
        let s = #[trigger] all[i];
        complete(slot_view(after, s)) ==> dict.contains(slot_view(after, s)) || complete(
            slot_view(initial, s),
        )
    } by {
        let s = all[i];
        lemma_slots_fit(initial, i);
        assert(s.fits(g));
        if complete(slot_view(after, s)) {
            if shares_cell(t, s) {
                if s.direction == t.direction {
                    let k = choose|k: int| 0 <= k < s.length && #[trigger] covers_cell_of(t, s, k);
                    let j = t.offset_of(s.row_at(k), s.col_at(k));
                    assert(t.row_at(j) == s.row_at(k) && t.col_at(j) == s.col_at(k));
                    lemma_slots_sharing_cell(initial, t, s, j, k);
                } else {
                    lemma_shares_cell_symmetric(t, s);
                    assert(crossing.contains(s));
                    let j = choose|j: int| 0 <= j < crossing.len() && crossing[j] == s;
                    assert(viable(dict, slot_view(after, crossing[j])));
                    let w = choose|w: Seq<char>| #[trigger]
                        dict.contains(w) && fits_pattern(slot_view(after, s), w);
                    lemma_complete_match(slot_view(after, s), w);
                }
            } else {
                lemma_view_apart(g, t, word, s);
            }
        }
    }
}

/// A solution that agrees with a step of the search agrees with the step that writes,
/// along any word of the crossword, what the solution holds there; and that step passes
/// the test of the words that cross it.
pub proof fn lemma_child_covers(
    solution: Grid,
    g: Grid,
    initial: Grid,
    dict: Set<Seq<char>>,
    ti: int,
    crossing: Seq<WordBoundary>,
)
    requires
        initial.wf(),
        addressable(initial),
        is_solution(solution, initial, dict),
        g.wf(),
        g.extends(initial),
        solution.extends(g),
        0 <= ti < slots(initial).len(),
        forall|j: int| 0 <= j < crossing.len() ==> slots(initial).contains(#[trigger] crossing[j]),
    ensures
        dict.contains(slot_view(solution, slots(initial)[ti])),
        fits_pattern(slot_view(g, slots(initial)[ti]), slot_view(solution, slots(initial)[ti])),
        solution.extends(
            g.with_word(slots(initial)[ti], slot_view(solution, slots(initial)[ti])),
        ),
        all_viable(
            dict,
            g.with_word(slots(initial)[ti], slot_view(solution, slots(initial)[ti])),
            crossing,
        ),
{
    let all = slots(initial);
    let t = all[ti];
    let word = slot_view(solution, t);
    let after = g.with_word(t, word);
    lemma_slots_fit(initial, ti);
    assert(t.fits(g));
    lemma_view_of_extension(solution, g, t);
    lemma_view_of_written(g, t, word);
    assert forall|r: int, c: int| after.in_bounds(r, c) && #[trigger] after.at(r, c)
        != EMPTY implies solution.at(r, c) == after.at(r, c) by {
        if t.covers(r, c) {
            let k = t.offset_of(r, c);
            assert(t.row_at(k) == r && t.col_at(k) == c);
            assert(word[k] == solution.at(r, c));
        } else {
            assert(g.at(r, c) == after.at(r, c));
        }
    }
    assert forall|j: int| 0 <= j < crossing.len() implies viable(
        dict,
        slot_view(after, #[trigger] crossing[j]),
    ) by {
        let s = crossing[j];
        let i = choose|i: int| 0 <= i < all.len() && all[i] == s;
        lemma_slots_fit(initial, i);
        assert(s.fits(after));
        lemma_view_of_extension(solution, after, s);
        assert(dict.contains(slot_view(solution, all[i])));
    }
}

/// A step of the search without empty cells holds a word of the dictionary along
/// every word that had an empty cell at the start.
pub proof fn lemma_sound_and_full(g: Grid, initial: Grid, dict: Set<Seq<char>>)
    requires
        initial.wf(),
        addressable(initial),
        sound(g, initial, dict),
        !g.has_empty(),
    ensures
        filled_from(g, initial, dict),
{
    let all = slots(initial);
    assert forall|i: int| 0 <= i < all.len() implies {
        let s = #[trigger] all[i];
        dict.contains(slot_view(g, s)) || complete(slot_view(initial, s))
    } by {
        let s = all[i];
        lemma_slots_fit(initial, i);
        lemma_full_views(g, s);
    }
}

/// A grid without empty cells has none along any word.
pub proof fn lemma_full_views(g: Grid, s: WordBoundary)
    requires
        s.fits(g),
        !g.has_empty(),
    ensures
        complete(slot_view(g, s)),
{
    assert forall|k: int| 0 <= k < s.length implies #[trigger] slot_view(g, s)[k] != EMPTY by {
        assert(g.in_bounds(s.row_at(k), s.col_at(k)));
        if g.at(s.row_at(k), s.col_at(k)) == EMPTY {
            assert(g.has_empty());
        }
    }
}

/// A grid that comes out of the search without empty cells has the dimensions, the
/// black squares and the words of the grid that the search started from, keeps every
/// letter of it, and holds a word of the dictionary along every word; for a
/// dictionary without signs of black squares in its words, and a start in which every
/// word without an empty cell was a word of the dictionary.
pub proof fn lemma_filled_grid(g: Grid, initial: Grid, dict: Set<Seq<char>>)
    requires
        initial.wf(),
        addressable(initial),
        sound(g, initial, dict),
        !g.has_empty(),
        no_black_squares(dict),
        forall|i: int|
            0 <= i < slots(initial).len() && complete(
                slot_view(initial, #[trigger] slots(initial)[i]),
            ) ==> dict.contains(slot_view(initial, slots(initial)[i])),
    ensures
        g.same_blocks(initial),
        g.extends(initial),
        slots(g) == slots(initial),
        forall|i: int| 0 <= i < slots(g).len() ==> dict.contains(slot_view(g, #[trigger] slots(g)[i])),
{
    lemma_slots_depend_on_blocks_only(g, initial);
    lemma_sound_and_full(g, initial, dict);
    let all = slots(initial);
    assert forall|i: int| 0 <= i < all.len() implies dict.contains(
        slot_view(g, #[trigger] all[i]),
    ) by {
        let s = all[i];
        lemma_slots_fit(initial, i);
        if complete(slot_view(initial, s)) {
            lemma_view_of_extension(g, initial, s);
            lemma_complete_match(slot_view(initial, s), slot_view(g, s));
        }
    }
}

/// `g` agrees with one of the grids of `stack` from index `from` on.
pub open spec fn covered_from(g: Grid, stack: Seq<Grid>, from: int) -> bool {
    exists|k: int| from <= k < stack.len() && g.extends(#[trigger] stack[k])
}

/// A grid with an empty cell, in which no word of the crossword has one, has an empty
/// cell that lies in no word; and so has the grid that the search started from.
pub proof fn lemma_stray_empty(g: Grid, initial: Grid)
    requires
        initial.wf(),
        addressable(initial),
        g.wf(),
        g.extends(initial),
        g.has_empty(),
        forall|i: int|
            0 <= i < slots(initial).len() ==> complete(slot_view(g, #[trigger] slots(initial)[i])),
    ensures
        has_stray_empty(initial),
{
    let (r, c) = choose|r: int, c: int| g.in_bounds(r, c) && #[trigger] g.at(r, c) == EMPTY;
    assert(initial.in_bounds(r, c));
    if initial.at(r, c) != EMPTY {
        assert(g.at(r, c) == initial.at(r, c));
    }
    assert forall|i: int| 0 <= i < slots(initial).len() implies !(#[trigger] slots(initial)[i]).covers(
        r,
        c,
    ) by {
        let s = slots(initial)[i];
        if s.covers(r, c) {
            let k = s.offset_of(r, c);
            assert(s.row_at(k) == r && s.col_at(k) == c);
            assert(slot_view(g, s)[k] == EMPTY);
        }
    }
}

/// A list with the entries of a list of matches, each as often, is a list of matches.
pub proof fn lemma_permuted_match_list(
    dict: Set<Seq<char>>,
    pattern: Seq<char>,
    list: Seq<Seq<char>>,
    permuted: Seq<Seq<char>>,
)
    requires
        is_match_list(dict, pattern, list),
        list.to_multiset() == permuted.to_multiset(),
    ensures
        is_match_list(dict, pattern, permuted),
{
    list.to_multiset_ensures();
    permuted.to_multiset_ensures();
    list.lemma_multiset_has_no_duplicates();
    permuted.lemma_multiset_has_no_duplicates_conv();
    assert forall|w: Seq<char>| #[trigger]
        permuted.contains(w) <==> dict.contains(w) && fits_pattern(pattern, w) by {
        assert(list.contains(w) <==> list.to_multiset().count(w) > 0);
        assert(permuted.contains(w) <==> permuted.to_multiset().count(w) > 0);
    }
}

} // verus!
