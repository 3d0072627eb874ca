use std::collections::HashSet;
use xwords::trie::{Trie, TrieNode};

#[test]
fn add_sequence_works() {
    let root = TrieNode::new(Some('a'));

    let new_root = root.add_sequence("itsyaboi");

    println!("{}", new_root.to_string());
    assert_eq!("\ta\ti\tt\ts\ty\ta\tb\to\ti'\n", new_root.to_string());
    assert!(new_root.is_viable(&"itsyaboi".chars().collect()));

    let another_root = new_root.add_sequence("wereallyouthere");

    println!("{}", another_root.to_string());

    assert!(another_root.is_viable(&"itsyaboi".chars().collect()));
    assert!(another_root.is_viable(&"wereallyouthere".chars().collect()));
    assert_eq!(Some('a'), another_root.contents());
}

#[test]
fn build_works() {
    let trie = Trie::build(vec![
        String::from("asdf"),
        String::from("asset"),
        String::from("bass"),
        String::from("baseball"),
        String::from("bassooon"),
        String::from("basset"),
    ]);
    println!("{}", trie.to_string());
    assert!(trie.is_viable(&"BASEBALL".chars().collect()));
    assert!(!trie.is_viable(&"BASE".chars().collect()));
    assert!(!trie.is_viable(&"baseball".chars().collect()));
    assert_eq!(5, trie.to_string().lines().count());
}

#[test]
fn words_works() {
    let trie = Trie::build(vec![
        String::from("bass"),
        String::from("bats"),
        String::from("bess"),
        String::from("be"),
    ]);

    let expected: HashSet<String> = vec![String::from("BASS"), String::from("BESS")]
        .iter()
        .cloned()
        .collect();

    let iter = String::from("B SS");
    let pattern: Vec<char> = iter.chars().collect();
    let actual: HashSet<String> = trie.words(&pattern).iter().cloned().collect();
    assert_eq!(expected, actual,)
}

#[test]
fn uppercase_words_match_and_are_viable() {
    let trie = Trie::build(vec![
        String::from("BASS"),
        String::from("BATS"),
        String::from("BESS"),
        String::from("BE"),
    ]);
    let pattern: Vec<char> = "B SS".chars().collect();
    let mut found = trie.words(&pattern);
    found.sort();
    assert_eq!(vec!["BASS", "BESS"], found);
    assert!(trie.is_viable(&pattern));
}

#[test]
fn viable_exactly_where_words_are_found() {
    let trie = Trie::build(vec![
        String::from("CAT"),
        String::from("COT"),
        String::from("DOG"),
        String::from("CATS"),
    ]);
    for text in ["   ", "C T", "D  ", "  G", "X  ", "    ", "  ", "", "CAT", "CAB", " O "] {
        let pattern: Vec<char> = text.chars().collect();
        let found = trie.words(&pattern);
        assert_eq!(trie.is_viable(&pattern), !found.is_empty());
        for word in found.iter() {
            assert_eq!(word.chars().count(), pattern.len());
            assert!(["CAT", "COT", "DOG", "CATS"].contains(&word.as_str()));
            for (p, w) in pattern.iter().zip(word.chars()) {
                assert!(*p == ' ' || *p == w);
            }
        }
        let unique: HashSet<&String> = found.iter().collect();
        assert_eq!(unique.len(), found.len());
    }
    let mut all = trie.words(&"   ".chars().collect());
    all.sort();
    assert_eq!(vec!["CAT", "COT", "DOG"], all);
}

#[test]
fn a_word_given_twice_is_found_once() {
    let trie = Trie::build(vec![String::from("AB"), String::from("AB")]);
    assert_eq!(vec!["AB"], trie.words(&"  ".chars().collect()));
}

#[test]
fn the_empty_dictionary_matches_nothing() {
    let trie = Trie::build(vec![]);
    assert!(trie.words(&"  ".chars().collect()).is_empty());
    assert!(!trie.is_viable(&Vec::new()));
    assert!(!trie.root.is_viable(&"A".chars().collect()));
}

#[test]
fn children_are_stored_under_their_letters() {
    let trie = Trie::build(vec![String::from("AB"), String::from("AC"), String::from("B")]);
    assert_eq!(None, trie.root.contents());
    assert!(!trie.root.is_terminal());
    let mut letters = Vec::new();
    for (letter, child) in trie.root.children() {
        assert_eq!(Some(letter), child.contents());
        letters.push(letter);
        if letter == 'B' {
            assert!(child.is_terminal());
            assert!(child.children().is_empty());
        } else {
            assert!(!child.is_terminal());
            assert_eq!(2, child.children().len());
        }
    }
    letters.sort();
    assert_eq!(vec!['A', 'B'], letters);
}

#[test]
fn display_works() {
    let mut root = TrieNode::new(None);

    root = root.insert_child(TrieNode::new(Some('b')));

    let mut c = TrieNode::new(Some('c'));

    c = c.insert_child(TrieNode::new(Some('d')));

    root = root.insert_child(c);

    println!("{}", root.to_string());
    let text = root.to_string();
    assert!(text == "\t*\tb\n\t\tc\td\n" || text == "\t*\tc\td\n\t\tb\n");
}

#[test]
fn build_makes_words_uppercase() {
    let trie = Trie::build(vec![String::from("bass")]);
    assert_eq!(vec!["BASS"], trie.words(&"BASS".chars().collect()));
    assert!(!trie.is_viable(&"bass".chars().collect()));
    assert_eq!(None, trie.root.contents());
    assert_eq!("\t*\tB\tA\tS\tS'\n", trie.to_string());
}

#[test]
fn insert_child_replaces_the_child_of_the_letter() {
    let root = TrieNode::new(None).add_sequence("ab").add_sequence("cd");
    let other = TrieNode::new(Some('a')).add_sequence("x").add_sequence("");
    let root = root.insert_child(other);
    assert!(root.is_viable(&"ax".chars().collect()));
    assert!(root.is_viable(&"a".chars().collect()));
    assert!(!root.is_viable(&"ab".chars().collect()));
    assert!(root.is_viable(&"cd".chars().collect()));
    assert_eq!(2, root.children().len());
}
