pub mod cell;
pub mod decimal;
pub mod expression;
pub mod node;
pub mod optimize;
pub mod parse;
pub mod refs;
pub mod sheet;
pub mod solve;
pub mod token;
pub mod tokenize;
