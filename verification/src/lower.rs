//! Lowering surface syntax to the intermediate representation.

pub mod calling;
pub mod context;
pub mod error;
pub mod expr;
pub mod folding;
pub mod laws;
pub mod meaning;
pub mod pattern;
pub mod program;

pub use context::LoweringContext;
pub use error::LowerError;
pub use expr::lower_expr;
pub use program::lower_program;
