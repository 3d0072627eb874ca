//! Word lists as they are written down: a text with one word on each line, or a JSON
//! array of strings; and the dictionary that is built of one.

use vstd::prelude::*;
use crate::text::{chars_of, string_of, lines, lines_of, rows_of, strings_of};
use crate::trie::Trie;

verus! {

/// The error of `serde_json`, carried through as an opaque value.
#[verifier::external_type_specification]
#[verifier::external_body]
pub struct ExJsonError(serde_json::Error);

/// What `serde_json` reads a text as, where it reads it as an array of strings.
pub uninterp spec fn json_string_array(text: Seq<char>) -> Option<Seq<Seq<char>>>;

/// `serde_json::from_str` for a list of strings: the strings of the JSON array that
/// the text holds, or the error where it holds none.
#[verifier::external_body]
fn json_strings(text: &str) -> (r: Result<Vec<String>, serde_json::Error>)
    ensures
        match r {
            Ok(words) => json_string_array(text@) == Some(strings_of(words@)),
            Err(_) => json_string_array(text@) is None,
        },
{
    serde_json::from_str(text)
}

/// What `str::to_uppercase` makes of a text.
pub uninterp spec fn uppercase_of(s: Seq<char>) -> Seq<char>;

/// `str::to_uppercase`: the text in upper case.
#[verifier::external_body]
fn uppercase(s: &str) -> (r: String)
    ensures
        r@ == uppercase_of(s@),
{
    s.to_uppercase()
}

/// The ways in which a word list is written down.
#[derive(Debug, PartialEq, Eq, Clone, Copy, Hash, Structural)]
pub enum WordListFormat {
    /// A JSON array of strings.
    Json,
    /// One word on each line; empty lines and lines that start with `#` are skipped.
    Text,
}

/// Why no dictionary was built of a word list.
#[derive(Debug, PartialEq, Eq, Clone, Copy, Hash, Structural)]
pub enum DictionaryError {
    /// The file's extension names no known format.
    UnsupportedFormat,
    /// The text is no JSON array of strings.
    InvalidJson,
}

/// A line of a word list that holds a word: it is not empty and does not start with
/// `#`.
pub open spec fn is_word_line(line: Seq<char>) -> bool {
    line.len() > 0 && line[0] != '#'
}

/// The lines that hold a word, in order.
pub open spec fn word_lines(all: Seq<Seq<char>>) -> Seq<Seq<char>>
    decreases all.len(),
{
    if all.len() == 0 {
        Seq::empty()
    } else {
        let before = word_lines(all.drop_last());
        if is_word_line(all.last()) {
            before.push(all.last())
        } else {
            before
        }
    }
}

/// Each word in upper case.
pub open spec fn uppercased(words: Seq<Seq<char>>) -> Seq<Seq<char>> {
    Seq::new(words.len(), |i: int| uppercase_of(words[i]))
}

/// The words that a word list in the given format holds, as they are written.
pub open spec fn listed_words(format: WordListFormat, text: Seq<char>) -> Option<Seq<Seq<char>>> {
    match format {
        WordListFormat::Json => json_string_array(text),
        WordListFormat::Text => Some(word_lines(lines_of(text))),
    }
}

/// The format that a file extension names.
pub open spec fn format_of(extension: Seq<char>) -> Option<WordListFormat> {
    if extension == "json"@ {
        Some(WordListFormat::Json)
    } else if extension == "txt"@ {
        Some(WordListFormat::Text)
    } else {
        None
    }
}

/// Whether two texts are the same.
pub fn same_text(a: &str, b: &str) -> (r: bool)
    ensures
        r == (a@ == b@),
{
    let x = chars_of(a);
    let y = chars_of(b);
    if x.len() != y.len() {
        return false;
    }
    let mut i: usize = 0;
    while i < x.len()
        invariant
            i <= x.len(),
            x.len() == y.len(),
            x@ == a@,
            y@ == b@,
            forall|k: int| 0 <= k < i ==> x@[k] == y@[k],
        decreases x.len() - i,
    {
        if x[i] != y[i] {
            assert(a@[i as int] != b@[i as int]);
            return false;
        }
        i += 1;
    }
    assert(x@ =~= y@);
    true
}

impl WordListFormat {
    /// The format that a file extension names: `json` or `txt`.
    pub fn from_extension(extension: &str) -> (format: Option<WordListFormat>)
        ensures
            format == format_of(extension@),
    {
        if same_text(extension, "json") {
            Some(WordListFormat::Json)
        } else if same_text(extension, "txt") {
            Some(WordListFormat::Text)
        } else {
            None
        }
    }
}

impl Trie {
    /// The words of a text with one word on each line: its lines, but for the empty
    /// ones and those that start with `#`.
    pub fn load_words_from_text(text: &str) -> (words: Vec<String>)
        ensures
            strings_of(words@) == word_lines(lines_of(text@)),
    {
        let all = lines(&chars_of(text));
        let ghost rows = rows_of(all@);
        let mut words: Vec<String> = Vec::new();
        let mut i: usize = 0;
        while i < all.len()
            invariant
                i <= all.len(),
                rows == rows_of(all@),
                strings_of(words@) == word_lines(rows.take(i as int)),
            decreases all.len() - i,
        {
            let line = &all[i];
            assert(rows.take(i + 1).drop_last() =~= rows.take(i as int));
            assert(rows.take(i + 1).last() == line@);
            if line.len() > 0 && line[0] != '#' {
                let ghost before = strings_of(words@);
                words.push(string_of(line));
                assert(strings_of(words@) =~= before.push(line@));
            }
            i += 1;
        }
        assert(rows.take(all.len() as int) =~= rows);
        words
    }

    /// The words of a JSON array of strings.
    pub fn load_words_from_json(text: &str) -> (r: Result<Vec<String>, DictionaryError>)
        ensures
            match r {
                Ok(words) => json_string_array(text@) == Some(strings_of(words@)),
                Err(e) => e == DictionaryError::InvalidJson && json_string_array(text@) is None,
            },
    {
        match json_strings(text) {
            Ok(words) => Ok(words),
            Err(_) => Err(DictionaryError::InvalidJson),
        }
    }

    /// The words, each in upper case.
    pub fn make_words_uppercase(words: Vec<String>) -> (upper: Vec<String>)
        ensures
            strings_of(upper@) == uppercased(strings_of(words@)),
    {
        let mut upper: Vec<String> = Vec::new();
        let mut i: usize = 0;
        while i < words.len()
            invariant
                i <= words.len(),
                strings_of(upper@) == uppercased(strings_of(words@)).take(i as int),
            decreases words.len() - i,
        {
            let ghost before = strings_of(upper@);
            upper.push(uppercase(words[i].as_str()));
            assert(strings_of(upper@) =~= before.push(uppercase_of(words@[i as int]@)));
            assert(before.push(uppercase_of(words@[i as int]@)) =~= uppercased(
                strings_of(words@),
            ).take(i + 1));
            i += 1;
        }
        assert(uppercased(strings_of(words@)).take(words.len() as int) =~= uppercased(
            strings_of(words@),
        ));
        upper
    }

    /// The dictionary of a word list as it is written in a file with the given
    /// extension: the dictionary of the words of the list.
    pub fn build_from_source(text: &str, extension: &str) -> (r: Result<Trie, DictionaryError>)
        ensures
            match r {
                Ok(trie) => format_of(extension@) matches Some(format) && listed_words(
                    format,
                    text@,
                ) matches Some(words) && forall|w: Seq<char>|
                    trie@.contains(w) <==> uppercased(words).contains(w),
                Err(DictionaryError::UnsupportedFormat) => format_of(extension@) is None,
                Err(DictionaryError::InvalidJson) => format_of(extension@) == Some(
                    WordListFormat::Json,
                ) && json_string_array(text@) is None,
            },
    {
        let words = match WordListFormat::from_extension(extension) {
            None => {
                return Err(DictionaryError::UnsupportedFormat);
            },
            Some(WordListFormat::Text) => Trie::load_words_from_text(text),
            Some(WordListFormat::Json) => match Trie::load_words_from_json(text) {
                Ok(words) => words,
                Err(e) => {
                    return Err(e);
                },
            },
        };
        Ok(Trie::build(words))
    }
}

} // verus!
