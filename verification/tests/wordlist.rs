use xwords::across::Format;
use xwords::trie::Trie;
use xwords::wordlist::{same_text, DictionaryError, WordListFormat};

#[test]
fn text_lists_skip_comments_and_empty_lines() {
    let words = Trie::load_words_from_text("# a list\napple\r\n\nbanana\n#cherry\ndate");
    assert_eq!(vec!["apple", "banana", "date"], words);
    assert!(Trie::load_words_from_text("").is_empty());
    assert_eq!(vec!["x\r"], Trie::load_words_from_text("x\r"));
}

#[test]
fn json_lists_are_arrays_of_strings() {
    assert_eq!(
        Ok(vec![String::from("apple"), String::from("b c")]),
        Trie::load_words_from_json("[\"apple\", \"b c\"]")
    );
    assert_eq!(Err(DictionaryError::InvalidJson), Trie::load_words_from_json("{\"a\": 1}"));
    assert_eq!(Err(DictionaryError::InvalidJson), Trie::load_words_from_json("[1, 2]"));
}

#[test]
fn words_are_made_uppercase() {
    let upper = Trie::make_words_uppercase(vec![String::from("bass"), String::from("Bé")]);
    assert_eq!(vec!["BASS", "BÉ"], upper);
}

#[test]
fn extensions_name_formats() {
    assert_eq!(Some(WordListFormat::Json), WordListFormat::from_extension("json"));
    assert_eq!(Some(WordListFormat::Text), WordListFormat::from_extension("txt"));
    assert_eq!(None, WordListFormat::from_extension("csv"));
    assert_eq!(None, WordListFormat::from_extension("jso"));
    assert!(same_text("abc", "abc"));
    assert!(!same_text("abc", "abd"));
    assert!(!same_text("abc", "ab"));
}

#[test]
fn dictionaries_are_built_in_uppercase() {
    let trie = Trie::build_from_source("bass\nbats\n# no\nbess\nbe\n", "txt").ok().unwrap();
    let mut found = trie.words(&"B SS".chars().collect());
    found.sort();
    assert_eq!(vec!["BASS", "BESS"], found);
    assert!(!trie.is_viable(&"bass".chars().collect()));

    let trie = Trie::build_from_source("[\"bass\", \"bats\"]", "json").ok().unwrap();
    assert!(trie.is_viable(&"BATS".chars().collect()));

    assert_eq!(
        Some(DictionaryError::UnsupportedFormat),
        Trie::build_from_source("bass", "bincode").err()
    );
    assert_eq!(
        Some(DictionaryError::InvalidJson),
        Trie::build_from_source("bass", "json").err()
    );
}

#[test]
fn a_rebuilt_dictionary_answers_alike() {
    let words = vec![String::from("CAT"), String::from("COT"), String::from("DOG")];
    let first = Trie::build(words.clone());
    let mut listed = Vec::new();
    let mut stack = vec![(String::new(), &first.root)];
    while let Some((prefix, node)) = stack.pop() {
        if node.is_terminal() {
            listed.push(prefix.clone());
        }
        for (letter, child) in node.children() {
            let mut longer = prefix.clone();
            longer.push(letter);
            stack.push((longer, child));
        }
    }
    listed.sort();
    assert_eq!(words, listed);
    let second = Trie::build(listed);
    for text in ["   ", "C T", " O ", "D  ", "  X", "  "] {
        let pattern: Vec<char> = text.chars().collect();
        let mut a = first.words(&pattern);
        let mut b = second.words(&pattern);
        a.sort();
        b.sort();
        assert_eq!(a, b);
        assert_eq!(first.is_viable(&pattern), second.is_viable(&pattern));
    }
}

#[test]
fn output_formats_have_names() {
    assert_eq!(Some(Format::Across), Format::from_name(Some("across")));
    assert_eq!(Some(Format::Grid), Format::from_name(Some("grid")));
    assert_eq!(Some(Format::Grid), Format::from_name(None));
    assert_eq!(None, Format::from_name(Some("puz")));
}
