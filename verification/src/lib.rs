//! Bracket abstraction and reduction for combinators.
//!
//! A definition `name x1 ... xn = body` is turned into point-free form over the
//! primitives `S`, `K`, `I`, `B` and `C`; point-free definitions are registered in a
//! context under their names; and terms are reduced to normal form under the rewrite
//! rules of the primitives.

pub mod error;
pub mod term;
pub mod canonical;
pub mod measure;
pub mod bracket;
pub mod reduction;
pub mod combinator;
pub mod context;
pub mod elimination;
pub mod render;
pub mod parse;
pub mod standard;
pub mod theory;

pub use combinator::Combinator;
pub use context::CombinatorContext;
pub use elimination::AbstractionElimination;
pub use error::CombinatorError;
pub use term::{Element, Expression};
