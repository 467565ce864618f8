//! Reading the FlatZinc constraint-model format into a linked model, in
//! which every reference to a variable or array shares its one declaration.
mod error;
mod lex;
mod text;
pub mod names;
pub mod intermediate;
pub mod fzn;
pub mod model;
pub mod link;
pub mod helpers;
pub mod print;
pub mod json;
pub mod json_read;
pub mod json_write;
pub mod round_trip;
pub mod unknown_keys;
mod cloning;
pub mod intern;

pub use rangelist::RangeList;

pub use crate::error::{FznParseError, LinkError};
pub use crate::model::{
    Annotation, AnnotationCall, AnnotationLiteral, Argument, Array, Constraint, FlatZinc, Literal,
    Method, NamedRef, SolveObjective, Type, VarRef, Variable,
};
