pub mod hints;
pub mod letter_boxed;
pub mod lex;
pub mod trie;
pub mod word;
pub mod spelling_bee;
pub mod words_dict;
pub mod words_shortcuts;
