//! Dice-expression arithmetic: a lexer, a shift-reduce parser and a
//! provenance-keeping evaluator for expressions such as `(3d4)d8k2 + 1`.

pub mod error;
pub mod eval;
pub mod parse;
pub mod replay;
pub mod rng;
pub mod tokenize;

pub use error::ParseError;
pub use eval::Exp;
pub use eval::Keep;
pub use eval::Op;
pub use eval::Operation;
pub use eval::Roll;
pub use eval::Value;
pub use parse::parse;
pub use rng::FixedRolls;
pub use rng::RandomRolls;
pub use rng::RollSource;
