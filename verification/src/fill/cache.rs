//! The two caches of a fill: from a pattern to the words that fit it, and from a
//! pattern to whether any word fits it.

use vstd::prelude::*;
use rustc_hash::FxHashMap;
use crate::crossword::WordIterator;
use crate::text::strings_of;
use crate::trie::{Trie, is_match_list, match_set, viable, lemma_match_list_len};

verus! {

/// What a map from patterns to word lists holds: for each pattern in it, by its
/// characters, the words stored under it.
pub uninterp spec fn cached_words(map: FxHashMap<Vec<char>, Vec<String>>) -> Map<
    Seq<char>,
    Seq<Seq<char>>,
>;

/// What a map from patterns to answers holds: for each pattern in it, by its
/// characters, the answer stored under it.
pub uninterp spec fn cached_viability(map: FxHashMap<Vec<char>, bool>) -> Map<Seq<char>, bool>;

/// `FxHashMap::default`: a map that holds nothing.
#[verifier::external_body]
fn no_words() -> (fresh: FxHashMap<Vec<char>, Vec<String>>)
    ensures
        forall|key: Seq<char>| !cached_words(fresh).contains_key(key),
{
    FxHashMap::default()
}

/// `HashMap::get`: the words stored under a pattern with the characters of `key`, if
/// there is one.
#[verifier::external_body]
fn words_under<'a>(map: &'a FxHashMap<Vec<char>, Vec<String>>, key: &Vec<char>) -> (r: Option<
    &'a Vec<String>,
>)
    ensures
        match r {
            Some(words) => cached_words(*map).contains_key(key@) && cached_words(*map)[key@]
                == strings_of(words@),
            None => !cached_words(*map).contains_key(key@),
        },
{
    map.get(key)
}

/// `HashMap::insert`: stores `words` under `key`, in place of what was stored under a
/// pattern with the same characters, and leaves the other entries as they are.
#[verifier::external_body]
fn keep_words(map: &mut FxHashMap<Vec<char>, Vec<String>>, key: Vec<char>, words: Vec<String>)
    ensures
        cached_words(*final(map)) == cached_words(*old(map)).insert(key@, strings_of(words@)),
{
    map.insert(key, words);
}

/// `FxHashMap::default`: a map that holds nothing.
#[verifier::external_body]
fn no_answers() -> (fresh: FxHashMap<Vec<char>, bool>)
    ensures
        forall|key: Seq<char>| !cached_viability(fresh).contains_key(key),
{
    FxHashMap::default()
}

/// `HashMap::get`: the answer stored under a pattern with the characters of `key`, if
/// there is one.
#[verifier::external_body]
fn answer_under(map: &FxHashMap<Vec<char>, bool>, key: &Vec<char>) -> (r: Option<bool>)
    ensures
        match r {
            Some(answer) => cached_viability(*map).contains_key(key@) && cached_viability(
                *map,
            )[key@] == answer,
            None => !cached_viability(*map).contains_key(key@),
        },
{
    map.get(key).copied()
}

/// `HashMap::insert`: stores `answer` under `key`, in place of what was stored under a
/// pattern with the same characters, and leaves the other entries as they are.
#[verifier::external_body]
fn keep_answer(map: &mut FxHashMap<Vec<char>, bool>, key: Vec<char>, answer: bool)
    ensures
        cached_viability(*final(map)) == cached_viability(*old(map)).insert(key@, answer),
{
    map.insert(key, answer);
}

/// A copy of a list of strings.
fn copy_of(words: &Vec<String>) -> (copy: Vec<String>)
    ensures
        strings_of(copy@) == strings_of(words@),
{
    let mut copy: Vec<String> = Vec::new();
    let mut i: usize = 0;
    while i < words.len()
        invariant
            i <= words.len(),
            strings_of(copy@) == strings_of(words@).take(i as int),
        decreases words.len() - i,
    {
        let ghost before = strings_of(copy@);
        copy.push(words[i].clone());
        assert(strings_of(copy@) =~= before.push(words@[i as int]@));
        assert(before.push(words@[i as int]@) =~= strings_of(words@).take(i + 1));
        i += 1;
    }
    assert(strings_of(words@).take(words.len() as int) =~= strings_of(words@));
    copy
}

/// Remembers, for each pattern asked about, the dictionary's words that fit it.
pub struct CachedWords {
    words_cache: FxHashMap<Vec<char>, Vec<String>>,
}

impl CachedWords {
    /// The patterns asked about so far, each with the list of words found for it.
    pub closed spec fn entries(&self) -> Map<Seq<char>, Seq<Seq<char>>> {
        cached_words(self.words_cache)
    }

    /// Every list in the cache is the list of matches of its pattern in `dict`.
    pub open spec fn wf(&self, dict: Set<Seq<char>>) -> bool {
        forall|pattern: Seq<char>| #[trigger]
            self.entries().contains_key(pattern) ==> is_match_list(
                dict,
                pattern,
                self.entries()[pattern],
            )
    }

    /// The words of `trie` that fit the pattern of `iter`, from the cache where the
    /// pattern was asked about before, and else from the dictionary and then kept.
    pub fn words(&mut self, iter: WordIterator, trie: &Trie) -> (words: Vec<String>)
        requires
            old(self).wf(trie@),
        ensures
            final(self).wf(trie@),
            is_match_list(trie@, iter@, strings_of(words@)),
            final(self).entries() == old(self).entries().insert(iter@, strings_of(words@)),
            old(self).entries().contains_key(iter@) ==> final(self).entries() == old(
                self,
            ).entries(),
    {
        let key = iter.chars();
        match words_under(&self.words_cache, &key) {
            Some(words) => {
                let copy = copy_of(words);
                assert(self.entries().contains_key(iter@));
                assert(self.entries() =~= self.entries().insert(iter@, strings_of(copy@)));
                return copy;
            },
            None => {},
        }
        let words = trie.words(&key);
        let copy = copy_of(&words);
        let ghost before = self.entries();
        keep_words(&mut self.words_cache, key, words);
        proof {
            assert(!before.contains_key(iter@));
            assert forall|pattern: Seq<char>| #[trigger]
                self.entries().contains_key(pattern) implies is_match_list(
                trie@,
                pattern,
                self.entries()[pattern],
            ) by {
                if pattern != iter@ {
                    assert(before.contains_key(pattern));
                }
            }
        }
        copy
    }

    /// The number of words of `trie` that fit the pattern of `iter`.
    pub fn count(&mut self, iter: WordIterator, trie: &Trie) -> (count: usize)
        requires
            old(self).wf(trie@),
        ensures
            final(self).wf(trie@),
            count == match_set(trie@, iter@).len(),
            final(self).entries().contains_key(iter@),
            final(self).entries() == old(self).entries().insert(
                iter@,
                final(self).entries()[iter@],
            ),
    {
        let key = iter.chars();
        match words_under(&self.words_cache, &key) {
            Some(words) => {
                proof {
                    assert(self.entries().contains_key(iter@));
                    lemma_match_list_len(trie@, iter@, strings_of(words@));
                    assert(self.entries() =~= self.entries().insert(iter@, strings_of(words@)));
                }
                return words.len();
            },
            None => {},
        }
        let words = trie.words(&key);
        let count = words.len();
        let ghost before = self.entries();
        proof {
            lemma_match_list_len(trie@, iter@, strings_of(words@));
        }
        keep_words(&mut self.words_cache, key, words);
        proof {
            assert forall|pattern: Seq<char>| #[trigger]
                self.entries().contains_key(pattern) implies is_match_list(
                trie@,
                pattern,
                self.entries()[pattern],
            ) by {
                if pattern != iter@ {
                    assert(before.contains_key(pattern));
                }
            }
        }
        count
    }
}

impl Default for CachedWords {
    fn default() -> (cache: Self)
        ensures
            cache.entries() == Map::<Seq<char>, Seq<Seq<char>>>::empty(),
    {
        let cache = CachedWords { words_cache: no_words() };
        assert(cache.entries() =~= Map::<Seq<char>, Seq<Seq<char>>>::empty());
        cache
    }
}

/// Remembers, for each pattern asked about, whether any word of the dictionary fits it.
pub struct CachedIsViable {
    is_viable_cache: FxHashMap<Vec<char>, bool>,
}

impl CachedIsViable {
    /// The patterns asked about so far, each with the answer found for it.
    pub closed spec fn entries(&self) -> Map<Seq<char>, bool> {
        cached_viability(self.is_viable_cache)
    }

    /// Every answer in the cache is right for `dict`.
    pub open spec fn wf(&self, dict: Set<Seq<char>>) -> bool {
        forall|pattern: Seq<char>| #[trigger]
            self.entries().contains_key(pattern) ==> self.entries()[pattern] == viable(
                dict,
                pattern,
            )
    }

    /// Whether any word of `trie` fits the pattern of `iter`, from the cache where the
    /// pattern was asked about before, and else from the dictionary and then kept.
    pub fn is_viable(&mut self, iter: WordIterator, trie: &Trie) -> (answer: bool)
        requires
            old(self).wf(trie@),
        ensures
            final(self).wf(trie@),
            answer == viable(trie@, iter@),
            final(self).entries() == old(self).entries().insert(iter@, answer),
    {
        let key = iter.chars();
        match answer_under(&self.is_viable_cache, &key) {
            Some(answer) => {
                assert(self.entries().contains_key(iter@));
                assert(self.entries() =~= self.entries().insert(iter@, answer));
                return answer;
            },
            None => {},
        }
        let answer = trie.is_viable(&key);
        let ghost before = self.entries();
        keep_answer(&mut self.is_viable_cache, key, answer);
        proof {
            assert forall|pattern: Seq<char>| #[trigger]
                self.entries().contains_key(pattern) implies self.entries()[pattern] == viable(
                trie@,
                pattern,
            ) by {
                if pattern != iter@ {
                    assert(before.contains_key(pattern));
                }
            }
        }
        answer
    }
}

impl Default for CachedIsViable {
    fn default() -> (cache: Self)
        ensures
            cache.entries() == Map::<Seq<char>, bool>::empty(),
    {
        let cache = CachedIsViable { is_viable_cache: no_answers() };
        assert(cache.entries() =~= Map::<Seq<char>, bool>::empty());
        cache
    }
}

} // verus!
