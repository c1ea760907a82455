//! Assembler back end for a stack-based virtual machine: operand parsers,
//! a cell-tree writer and the debug information that shadows it.

pub mod bitstring;
pub mod cell;
pub mod debug;
pub mod errors;
pub mod hash;
pub mod numeral;
pub mod parse;
pub mod text;
pub mod writer;

pub use crate::cell::{BuilderData, Cell};
pub use crate::debug::{DbgInfo, DbgNode, DbgPos, Line, Lines};
pub use crate::hash::UInt256;
pub use crate::errors::{
    CompileError, OperationError, OperationName, ParameterError, ParameterName, Position,
    ToOperationParameterError,
};
pub use crate::writer::{CodePage0, Writer};
