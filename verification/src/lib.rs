pub mod code;
pub mod freq;
pub mod json;
pub mod puzzles;
pub mod text;
pub mod tree;
pub mod wc;
