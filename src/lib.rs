//! A Bit Machine: an iterative evaluator for combinator programs over
//! bit-encoded algebraic values, with its frame-based memory model.
pub mod types;
pub mod frame;
pub mod machine;
pub mod program;
pub mod exec;

pub use crate::exec::Continuation;
pub use crate::frame::Frame;
pub use crate::machine::{BitMachine, ExecError};
pub use crate::program::{Jet, Node, NoJets, Program, Term};
pub use crate::types::{FinalType, TypeShape, Value};
