use spellcast_solver::board::{get_point_total_str, get_word_from_letter_spaces, Board, LetterSpace};
use spellcast_solver::word_tree::WordTree;

fn spell(path: &Vec<LetterSpace>) -> String {
    path.iter().map(|s| s.character()).collect()
}

fn scenario_a() -> (Board, WordTree) {
    let board = Board::build_board_from_str("a p\np l").unwrap();
    let tree = WordTree::build_from_str("ap\napp\napple\npal");
    (board, tree)
}

#[test]
fn scenario_a_longest_and_best() {
    let (board, tree) = scenario_a();
    let longest = board.get_longest_word(&tree);
    assert_eq!(longest.word(), "app");
    assert_eq!(longest.points(), 9);
    let best = board.get_best_word(&tree);
    assert_eq!(best.word(), "app");
    assert_eq!(best.points(), 9);
    assert_eq!(board.get_best_word_string(&tree), (String::from("app"), 9));
}

#[test]
fn scenario_a_emits_exactly_the_word_paths() {
    let (board, tree) = scenario_a();
    let words = board.get_all_possible_words(&tree);
    let mut spelled: Vec<String> = words.iter().map(spell).collect();
    spelled.sort();
    // "ap": a then either p; "app": a, p, other p; "pal": each p, a, l.
    assert_eq!(spelled, vec!["ap", "ap", "app", "app", "pal", "pal"]);
}

#[test]
fn scenario_b_double_letter() {
    let board = Board::build_board_from_str("c|dl a t\nb b b\nb b b").unwrap();
    let tree = WordTree::build_from_str("cat");
    let best = board.get_best_word(&tree);
    assert_eq!(best.word(), "cat");
    assert_eq!(best.points(), 13);
}

#[test]
fn scenario_c_long_word_bonus() {
    let board = Board::build_board_from_str("a e i\ne a o\ni o a").unwrap();
    let tree = WordTree::build_from_str("aeioae");
    let best = board.get_best_word(&tree);
    assert_eq!(best.word(), "aeioae");
    assert_eq!(best.points(), 16);
}

#[test]
fn long_word_bonus_is_not_doubled() {
    let board = Board::build_board_from_str("a|dw e i\ne a o\ni o a").unwrap();
    let tree = WordTree::build_from_str("aeioae");
    let best = board.get_best_word(&tree);
    assert_eq!(best.word(), "aeioae");
    assert_eq!(best.points(), 6 * 2 + 10);
}

#[test]
fn triple_letter_and_double_word() {
    let board = Board::build_board_from_str("z|tl o\no o|dw").unwrap();
    let tree = WordTree::build_from_str("zoo");
    let best = board.get_best_word(&tree);
    assert_eq!(best.word(), "zoo");
    // z on the triple letter: 24; o, o: 2; a double word on the way doubles.
    assert_eq!(best.points(), 52);
}

#[test]
fn scenario_d_swap_budget() {
    let mut board = Board::build_board_from_str("a b c\nd e f\ng h i").unwrap();
    let tree = WordTree::build_from_str("axe");
    assert!(board.get_all_possible_words(&tree).is_empty());
    board.set_swaps(1);
    let words = board.get_all_possible_words(&tree);
    assert!(!words.is_empty());
    for path in &words {
        assert_eq!(spell(path), "axe");
        let swapped = path.iter().filter(|s| {
            let cell = board.letter(s.row(), s.col());
            cell.character() != s.character()
        }).count();
        assert_eq!(swapped, 1);
    }
    let best = board.get_best_word(&tree);
    assert_eq!(best.word(), "axe");
    assert_eq!(best.swaps().len(), 1);
    assert_eq!(best.swaps()[0].new_char, 'x');
}

#[test]
fn scenario_e_no_cell_twice() {
    let board = Board::build_board_from_str("a a\nb b").unwrap();
    let tree = WordTree::build_from_str("aa");
    let words = board.get_all_possible_words(&tree);
    assert_eq!(words.len(), 2);
    for path in &words {
        assert_eq!(spell(path), "aa");
        assert!(path[0].row() != path[1].row() || path[0].col() != path[1].col());
    }
}

#[test]
fn scenario_f_top_k_stability() {
    let board = Board::build_board_from_str("c|dl q z\nx d a\na a a").unwrap();
    let words = vec![
        vec![LetterSpace::new('c', 0, 0, 0)],
        vec![LetterSpace::new('q', 0, 1, 0)],
        vec![LetterSpace::new('z', 0, 2, 0)],
        vec![LetterSpace::new('x', 1, 0, 0)],
        vec![LetterSpace::new('d', 1, 1, 0)],
    ];
    let best = board.select_best(words, 3);
    let scores: Vec<usize> = best.iter().map(|e| e.1).collect();
    assert_eq!(scores, vec![10, 8, 8]);
    assert_eq!(best[1].0[0].character(), 'q');
    assert_eq!(best[2].0[0].character(), 'z');
}

#[test]
fn top_k_replaces_the_lowest_entry() {
    let board = Board::build_board_from_str("c|dl q z\nx d a\na a a").unwrap();
    let words = vec![
        vec![LetterSpace::new('d', 1, 1, 0)],
        vec![LetterSpace::new('a', 1, 2, 0)],
        vec![LetterSpace::new('x', 1, 0, 0)],
        vec![LetterSpace::new('c', 0, 0, 0)],
    ];
    let best = board.select_best(words, 2);
    let scores: Vec<usize> = best.iter().map(|e| e.1).collect();
    assert_eq!(scores, vec![10, 7]);
}

#[test]
fn top_k_with_zero_or_more_than_available() {
    let (board, tree) = scenario_a();
    assert!(board.get_best_words(&tree, 0).is_empty());
    let all = board.get_best_words(&tree, 100);
    assert_eq!(all.len(), 6);
    for pair in all.windows(2) {
        assert!(pair[0].points() >= pair[1].points());
    }
    assert_eq!(all[0].points(), 9);
}

#[test]
fn top_k_entries_beat_everything_left_out() {
    let (board, tree) = scenario_a();
    let emitted = board.get_all_possible_words(&tree);
    let mut all_scores: Vec<usize> = emitted.iter().map(|p| board.get_point_total(p)).collect();
    all_scores.sort_by(|a, b| b.cmp(a));
    let top = board.get_best_words_spaces(&tree, 3);
    let top_scores: Vec<usize> = top.iter().map(|e| e.1).collect();
    assert_eq!(top_scores, all_scores[..3].to_vec());
}

#[test]
fn emitted_paths_are_sound() {
    let mut board = Board::build_board_from_str("c a t\no d s\nr e x").unwrap();
    let tree = WordTree::build_from_str("cat\ncats\ncod\ncore\ndoe\nsad\nact\nta\ntax\nred");
    for swaps in 0..3 {
        board.set_swaps(swaps);
        for path in board.get_all_possible_words(&tree) {
            assert!(tree.is_word_in_tree(&spell(&path)));
            for i in 0..path.len() {
                for j in (i + 1)..path.len() {
                    assert!(path[i].row() != path[j].row() || path[i].col() != path[j].col());
                }
            }
            for w in path.windows(2) {
                assert!(w[0].row().abs_diff(w[1].row()) <= 1);
                assert!(w[0].col().abs_diff(w[1].col()) <= 1);
            }
            let used = path.iter().filter(|s| board.letter(s.row(), s.col()).character() != s.character()).count();
            assert!(used <= swaps);
        }
    }
}

#[test]
fn without_swaps_every_reachable_word_is_found() {
    let board = Board::build_board_from_str("c a t\no d s\nr e x").unwrap();
    let tree = WordTree::build_from_str("cat\ncats\ncod\ncore\ndoe\nsad\nact\nta\ntax\nred\nzebra");
    let mut found: Vec<String> = board.get_all_possible_words(&tree).iter().map(spell).collect();
    found.sort();
    found.dedup();
    // "act" and "tax" would need cells that do not touch; "zebra" letters absent.
    assert_eq!(found, vec!["cat", "cats", "cod", "core", "doe", "red", "sad", "ta"]);
}

#[test]
fn more_swaps_keep_every_word() {
    let mut board = Board::build_board_from_str("c a t\no d s\nr e x").unwrap();
    let tree = WordTree::build_from_str("cat\ncats\ncod\ncore\ndoe\nsad\nact\nzebra\nbat\ncab\nmix");
    let mut previous: Vec<String> = Vec::new();
    for swaps in 0..3 {
        board.set_swaps(swaps);
        let words: Vec<String> = board.get_all_possible_words(&tree).iter().map(spell).collect();
        for w in &previous {
            assert!(words.contains(w));
        }
        previous = words;
    }
    // A swap never replaces the first letter, so "bat" stays out.
    assert!(previous.contains(&"cab".to_string()));
    assert!(!previous.contains(&"bat".to_string()));
}

#[test]
fn no_words_gives_empty_results() {
    let board = Board::build_board_from_str("b b\nb b").unwrap();
    let tree = WordTree::build_from_str("cat");
    let best = board.get_best_word(&tree);
    assert_eq!(best.word(), "");
    assert_eq!(best.points(), 0);
    let longest = board.get_longest_word(&tree);
    assert_eq!(longest.word(), "");
    assert_eq!(board.get_best_word_string(&tree), (String::new(), 0));
}

#[test]
fn board_parsing_errors() {
    assert!(Board::build_board_from_str("a 1\nb c").is_err());
    assert!(Board::build_board_from_str("a b\nc").is_err());
    assert!(Board::build_board_from_str("a b c\nd e f").is_err());
    assert!(Board::build_board_from_str("A b\nc d").is_err());
    assert!(Board::build_board_from_str("|dl b\nc d").is_err());
    assert!(Board::build_board_from_str("").is_ok());
}

#[test]
fn board_parsing_modifiers() {
    let board = Board::build_board_from_str("a|dl|xx b|tl\r\nc|dw d|dl|dl").unwrap();
    assert_eq!(board.size(), 2);
    let m = board.letter(0, 0).modifiers();
    assert_eq!(m.len(), 1);
    assert!(board.letter(1, 0).has(spellcast_solver::letter::Modifier::DoubleWord));
    assert!(board.letter(0, 1).has(spellcast_solver::letter::Modifier::TripleLetter));
    assert_eq!(board.letter(1, 1).character(), 'd');
    // Duplicate modifiers count once.
    let path = vec![LetterSpace::new('d', 1, 1, 0)];
    assert_eq!(board.get_point_total(&path), 6);
}

#[test]
fn settings() {
    let mut board = Board::build_board_from_str("a").unwrap();
    assert_eq!(board.swaps(), 0);
    assert!(!board.multithreading());
    board.set_swaps(2);
    board.set_multithreading(true);
    assert_eq!(board.swaps(), 2);
    assert!(board.multithreading());
}

#[test]
fn single_letter_words_are_emitted() {
    let board = Board::build_board_from_str("a").unwrap();
    let tree = WordTree::build_from_str("a");
    let words = board.get_all_possible_words(&tree);
    assert_eq!(words.len(), 1);
    assert_eq!(words[0].len(), 1);
}

#[test]
fn result_records_count_from_one() {
    let board = Board::build_board_from_str("a b c\nd e f\ng h i").unwrap();
    let path = vec![LetterSpace::new('a', 0, 0, 1), LetterSpace::new('x', 0, 1, 0), LetterSpace::new('e', 1, 1, 0)];
    let res = board.get_result_from_letters(path.clone(), 42);
    assert_eq!(res.word(), "axe");
    assert_eq!(res.points(), 42);
    assert_eq!(res.spaces().len(), 3);
    assert_eq!(res.spaces()[1].row(), 1);
    assert_eq!(res.spaces()[1].col(), 2);
    assert_eq!(res.swaps().len(), 1);
    let s = &res.swaps()[0];
    assert_eq!((s.original_char, s.new_char, s.row, s.col), ('b', 'x', 1, 2));
    assert_eq!(get_word_from_letter_spaces(&path), "axe");
}

#[test]
fn word_values() {
    assert_eq!(get_point_total_str("quiz"), 8 + 4 + 1 + 8);
    assert_eq!(get_point_total_str(""), 0);
}

#[test]
fn single_start_cell_search() {
    let (board, tree) = scenario_a();
    let from_l = board.get_all_words_from_pos(&tree, 1, 1, 0);
    assert!(from_l.is_empty());
    let from_a = board.get_all_words_from_pos(&tree, 0, 0, 0);
    assert_eq!(from_a.len(), 4);
    for p in &from_a {
        assert_eq!((p[0].row(), p[0].col()), (0, 0));
    }
}

#[test]
fn board_error_messages() {
    assert_eq!(
        Board::build_board_from_str("a 1\nb c").err(),
        Some(String::from("Only English characters are allowed in board input."))
    );
    assert_eq!(
        Board::build_board_from_str("a b\nc").err(),
        Some(String::from("Each board row needs as many cells as the board has rows."))
    );
    // The first bad row decides: a bad letter in row 0 before a short row 1.
    assert_eq!(
        Board::build_board_from_str("1 b\nc").err(),
        Some(String::from("Only English characters are allowed in board input."))
    );
}

#[test]
fn board_cells_keep_modifier_order() {
    let board = Board::build_board_from_str("a|dw|tl|xx b\nc d").unwrap();
    assert_eq!(
        board.letter(0, 0).modifiers(),
        &vec![spellcast_solver::letter::Modifier::DoubleWord, spellcast_solver::letter::Modifier::TripleLetter]
    );
    assert!(board.letter(0, 1).modifiers().is_empty());
}

#[test]
fn emitted_paths_are_distinct_and_prefixes_come_first() {
    let board = Board::build_board_from_str("a p\np l").unwrap();
    let tree = WordTree::build_from_str("ap\napp\napple\npal\na");
    let words = board.get_all_possible_words(&tree);
    for i in 0..words.len() {
        for j in (i + 1)..words.len() {
            let same = words[i].len() == words[j].len()
                && words[i].iter().zip(words[j].iter()).all(|(x, y)| {
                    (x.character(), x.row(), x.col(), x.swaps()) == (y.character(), y.row(), y.col(), y.swaps())
                });
            assert!(!same);
        }
        let start = (words[i][0].row(), words[i][0].col());
        if i > 0 {
            assert!((words[i - 1][0].row(), words[i - 1][0].col()) <= start);
        }
        if words[i].len() > 1 {
            // "a" is a word, so every path from an "a" cell follows the one-step path.
            if words[i][0].character() == 'a' {
                let first = words.iter().position(|p| p.len() == 1 && p[0].row() == words[i][0].row() && p[0].col() == words[i][0].col());
                assert!(first.unwrap() < i);
            }
        }
    }
}

#[test]
fn top_k_ties_follow_emission_order_after_replacement() {
    let board = Board::build_board_from_str("a b b\nf c a\na a a").unwrap();
    let words = vec![
        vec![LetterSpace::new('a', 0, 0, 0)],
        vec![LetterSpace::new('f', 1, 0, 0)],
        vec![LetterSpace::new('c', 1, 1, 0)],
        vec![LetterSpace::new('b', 0, 1, 0)],
        vec![LetterSpace::new('b', 0, 2, 0)],
    ];
    let best = board.select_best(words, 2);
    let picked: Vec<(usize, usize, usize)> = best.iter().map(|e| (e.1, e.0[0].row(), e.0[0].col())).collect();
    assert_eq!(picked, vec![(5, 1, 0), (5, 1, 1)]);
}
