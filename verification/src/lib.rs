pub mod check;
pub mod checker;
pub mod dict;
pub mod output;
pub mod tree;
