//! An interpreter for the intermediate representation.

pub mod agreement;
pub mod arrays;
pub mod context;
pub mod counting;
pub mod erasure;
pub mod direct;
pub mod error;
pub mod flow;
pub mod heap;
pub mod hosting;
pub mod laws;
pub mod lifting;
pub mod machine;
pub mod memory;
pub mod moving;
pub mod naming;
pub mod operators;
pub mod optimised;
pub mod ownership;
pub mod portable;
pub mod program;
pub mod rounds;
pub mod safety;
pub mod semantics;
pub mod state;
pub mod step;
pub mod text;
pub mod tidy;
pub mod value;

pub use error::EvalError;
pub use heap::{CellView, Heap, HeapError};
pub use value::{PortableValue, ReceiverHandle, RefHandle, SenderHandle, TaskHandle, Value};
pub use program::Outcome;
pub use state::{FloatOp, Interpreter, Reply, Request, TaskSeed};
