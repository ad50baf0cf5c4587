use spellcast_solver::word_tree::{LetterState, NodeState, WordTree};

const SMALL_DICTIONARY: &str = "apple\nobfuscate\ncreature\nobfuscated\nbanana\n";

const BIG_DICTIONARY: &str = "finch\nfinches\ngold\ngolden\noxidize\noxide\nxylophone\nhomer\nhome\nyugo\nhuia\nyote\nzebra\n";

#[test]
fn test_words_in_tree_simple() {
    let tree = WordTree::build_from_str(SMALL_DICTIONARY);

    assert!(tree.is_word_in_tree("obfuscate"));
    assert!(tree.is_word_in_tree("apple"));
    assert!(!tree.is_word_in_tree("creaturue"));
    assert!(!tree.is_word_in_tree("obf"));
}

#[test]
fn test_words_big() {
    let tree = WordTree::build_from_str(BIG_DICTIONARY);

    assert!(tree.is_word_in_tree("finch"));
    assert!(tree.is_word_in_tree("gold"));
    assert!(tree.is_word_in_tree("oxidize"));
    assert!(tree.is_word_in_tree("xylophone"));
    assert!(!tree.is_word_in_tree("yotemyscrote"));
    assert!(!tree.is_word_in_tree("huiafafj"));
    assert!(!tree.is_word_in_tree("yugoslavia"));
    assert!(tree.is_word_in_tree("homer"));
    assert!(!tree.is_word_in_tree("o"));
}

#[test]
fn lines_are_lowercased_on_ingest() {
    let tree = WordTree::build_from_str("APPLE\nBaNaNa\r\npear");
    assert!(tree.is_word_in_tree("apple"));
    assert!(tree.is_word_in_tree("banana"));
    assert!(tree.is_word_in_tree("pear"));
    assert!(!tree.is_word_in_tree("APPLE"));
}

#[test]
fn non_letter_words_and_blank_lines_are_rejected() {
    let tree = WordTree::build_from_str("don't\n\nab1\nok\n  \n");
    assert!(!tree.is_word_in_tree("don't"));
    assert!(!tree.is_word_in_tree("ab1"));
    assert!(!tree.is_word_in_tree(""));
    assert!(!tree.is_word_in_tree("  "));
    assert!(tree.is_word_in_tree("ok"));
}

#[test]
fn shorter_word_inserted_after_longer_becomes_a_word() {
    let mut tree = WordTree::build_from_str("apple");
    assert!(!tree.is_word_in_tree("app"));
    tree.add_word_to_tree("app");
    assert!(tree.is_word_in_tree("app"));
    assert!(tree.is_word_in_tree("apple"));
    assert!(!tree.is_word_in_tree("appl"));
}

#[test]
fn duplicate_insertion_is_idempotent() {
    let mut tree = WordTree::new();
    tree.add_word_to_tree("cat");
    tree.add_word_to_tree("cat");
    assert!(tree.is_word_in_tree("cat"));
    let root = tree.get_root_node();
    assert_eq!(root.children().len(), 1);
    assert_eq!(root.children()[0].children().len(), 1);
}

#[test]
fn add_word_rejects_inadmissible_words() {
    let mut tree = WordTree::new();
    tree.add_word_to_tree("");
    tree.add_word_to_tree("Cat");
    tree.add_word_to_tree("c-t");
    assert!(!tree.is_word_in_tree(""));
    assert!(!tree.is_word_in_tree("Cat"));
    assert!(!tree.is_word_in_tree("c-t"));
    assert_eq!(tree.get_root_node().children().len(), 0);
}

#[test]
fn empty_dictionary_has_no_words() {
    let tree = WordTree::build_from_str("");
    assert!(!tree.is_word_in_tree("a"));
    assert!(!tree.is_word_in_tree(""));
}

#[test]
fn node_queries() {
    let tree = WordTree::build_from_str("ab\na");
    let root = tree.get_root_node();
    assert!(matches!(root.letter(), LetterState::Root));
    assert!(matches!(root.state(), NodeState::WordMiddle));
    assert_eq!(root.level(), 0);
    let a = root.get_child_from_letter('a').unwrap();
    assert!(matches!(a.letter(), LetterState::Present('a')));
    assert!(matches!(a.state(), NodeState::WordEnd));
    assert_eq!(a.level(), 1);
    let b = a.get_child_from_letter('b').unwrap();
    assert_eq!(b.level(), 2);
    assert!(matches!(b.state(), NodeState::WordEnd));
    assert!(a.get_child_from_letter('c').is_none());
    assert!(root.get_child_from_letter('b').is_none());
}
