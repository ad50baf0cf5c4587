pub mod board;
pub mod double_stack;
pub mod laws;
pub mod letter;
pub mod path;
pub mod text;
pub mod word_result;
pub mod word_tree;
