pub mod trie;
pub mod word_break;
pub mod anagram;
