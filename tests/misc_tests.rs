use spellcast_solver::double_stack::DoubleStack;
use spellcast_solver::letter::{get_letter_value_map, Letter, Modifier};
use spellcast_solver::text::{lines, tokens};
use spellcast_solver::word_result::{Space, Swap, WordResult};

#[test]
fn double_stack_frames() {
    let mut s: DoubleStack<u32> = DoubleStack::new();
    assert_eq!(s.len(), 1);
    assert!(!s.is_empty());
    s.push_new_layer(1);
    assert_eq!(s.len(), 1);
    s.push_simple(2);
    s.push_new_layer(3);
    s.push_simple(4);
    assert_eq!(s.len(), 2);
    assert_eq!(s.pop(), 4);
    assert_eq!(s.pop(), 3);
    assert_eq!(s.len(), 1);
    assert_eq!(s.pop(), 2);
    assert_eq!(s.pop(), 1);
    assert!(s.is_empty());
}

#[test]
fn letter_tokens() {
    let l = Letter::build_letter_from_input_word("c|dl|tl|zz").unwrap();
    assert_eq!(l.character, 'c');
    assert!(l.has(Modifier::DoubleLetter));
    assert!(l.has(Modifier::TripleLetter));
    assert!(!l.has(Modifier::DoubleWord));
    let plain = Letter::build_letter_from_input_word("q").unwrap();
    assert!(plain.modifiers().is_empty());
    let odd = Letter::build_letter_from_input_word("ab").unwrap();
    assert_eq!(odd.character, 'a');
    assert!(odd.modifiers().is_empty());
    assert_eq!(Letter::build_letter_from_input_word("").err().map(|_| ()), Some(()));
    match Letter::build_letter_from_input_word("") {
        Err(e) => assert_eq!(e, "Unexpected empty space in board."),
        Ok(_) => panic!("an empty token is no letter"),
    }
    let ordered = Letter::build_letter_from_input_word("a|dw|tl|xx").unwrap();
    assert_eq!(ordered.modifiers(), &vec![Modifier::DoubleWord, Modifier::TripleLetter]);
    let once = Letter::build_letter_from_input_word("c|dl").unwrap();
    assert_eq!(once.modifiers(), &vec![Modifier::DoubleLetter]);
    let made = Letter::new('e', &vec![Modifier::DoubleWord]);
    assert!(made.has(Modifier::DoubleWord));
    assert_eq!(made.character(), 'e');
}

#[test]
fn letter_value_table() {
    let m = get_letter_value_map();
    assert_eq!(m.len(), 26);
    assert_eq!(m[0], ('a', 1));
    assert_eq!(m[16], ('q', 8));
    assert_eq!(m[25], ('z', 8));
    let total: usize = m.iter().map(|p| p.1).sum();
    assert_eq!(total, 1 + 4 + 5 + 3 + 1 + 5 + 3 + 4 + 1 + 7 + 6 + 3 + 4 + 2 + 1 + 4 + 8 + 2 + 2 + 2 + 4 + 5 + 5 + 7 + 4 + 8);
}

#[test]
fn text_splitting() {
    let ls = lines("ab\r\ncd\n\nef\n");
    let as_strings: Vec<String> = ls.iter().map(|l| l.iter().collect()).collect();
    assert_eq!(as_strings, vec!["ab", "cd", "", "ef"]);
    let ts = tokens(&" a|dl\tb  c ".chars().collect());
    let as_strings: Vec<String> = ts.iter().map(|t| t.iter().collect()).collect();
    assert_eq!(as_strings, vec!["a|dl", "b", "c"]);
}

#[test]
fn word_result_accessors() {
    let r = WordResult::new(String::from("hi"), 5, vec![Swap::new('a', 'b', 1, 2)], vec![Space::new('h', 1, 1)]);
    assert_eq!(r.word(), "hi");
    assert_eq!(r.points(), 5);
    assert_eq!(r.swaps()[0].new_char, 'b');
    assert_eq!(r.spaces()[0].row(), 1);
    assert_eq!(r.spaces()[0].col(), 1);
}
