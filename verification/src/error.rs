use crate::value::{Aid, Var};
use vstd::prelude::*;

verus! {

/// Why a plan could not be compiled.
#[derive(Debug, PartialEq, Eq)]
pub enum CompileError {
    /// The input relation does not bind the variable that holds the
    /// entities.
    UnboundVariable(Var),
    /// The domain has no attribute of this name.
    MissingAttribute(Aid),
    /// No relation of this name is bound.
    UnknownRelation(String),
    /// A pull of whole attributes names no attribute.
    NothingToPull,
    /// A row of the input is too short to hold the entity, or does not fit
    /// the labels of its path.
    MalformedPath,
    /// The multiplicity of a result does not fit the machine's integers.
    DiffOverflow,
}

pub enum Failure {
    UnboundVariable(Var),
    MissingAttribute(Seq<char>),
    UnknownRelation(Seq<char>),
    NothingToPull,
    MalformedPath,
    DiffOverflow,
}

impl DeepView for CompileError {
    type V = Failure;

    open spec fn deep_view(&self) -> Failure {
        match self {
            CompileError::UnboundVariable(var) => Failure::UnboundVariable(*var),
            CompileError::MissingAttribute(name) => Failure::MissingAttribute(name@),
            CompileError::UnknownRelation(name) => Failure::UnknownRelation(name@),
            CompileError::NothingToPull => Failure::NothingToPull,
            CompileError::MalformedPath => Failure::MalformedPath,
            CompileError::DiffOverflow => Failure::DiffOverflow,
        }
    }
}

} // verus!
