pub mod analysis;
pub mod automata;
pub mod automaton;
pub mod grammar;
pub mod hash_map;
pub mod hasher;
pub mod key;
pub mod output;
pub mod parser;
pub mod scanner;
pub mod table;
pub mod text;
pub mod token;
pub mod writer;
