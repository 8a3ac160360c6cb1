//! Errors of the virtual machine and of host operations.
use vstd::prelude::*;
use crate::ast::{self, Link, NodeType};
use crate::value::{Reference, Value};

verus! {

#[derive(Debug)]
pub enum VmError {
    /// (program version, virtual machine version)
    ProgramCompiledForDifferentVersion(usize, usize),
    Message(String),
    FoundCycleInFlowGraph,
    /// (expected, provided)
    WrongNumberOfInputs(usize, usize),
    /// (expected, provided)
    WrongNumberOfOutputs(usize, usize),
    CouldNotRunEvent(String),
    CouldNotCallFunction(ast::Reference),
    CouldNotCallMethod(ast::Reference, ast::Reference),
    EventDoesNotExists(ast::Reference),
    NodeDoesNotExists(ast::Reference),
    TypeDoesNotExists(ast::Reference),
    TraitDoesNotExists(ast::Reference),
    MethodDoesNotExists(ast::Reference),
    FunctionDoesNotExists(ast::Reference),
    /// (type guid, method guid)
    TypeDoesNotImplementMethod(ast::Reference, ast::Reference),
    InstanceDoesNotExists,
    GlobalVariableDoesNotExists(ast::Reference),
    LocalVariableDoesNotExists(ast::Reference),
    InputDoesNotExists(usize),
    OutputDoesNotExists(usize),
    StackUnderflow,
    OperationDoesNotExists(ast::Reference),
    OperationIsNotRegistered(String),
    /// (expected, provided, list)
    IndexOutOfBounds(usize, usize, Reference),
    ObjectKeyDoesNotExists(String, Reference),
    ValueIsNotAList(Reference),
    ValueIsNotAnObject(Reference),
    ValueIsNotABool(Reference),
    TryingToPerformInvalidNodeType(NodeType),
    /// (source value, destination value)
    TryingToWriteBorrowedReference(Reference, Reference),
    TryingToReadBorrowedReference(Reference),
    NodeNotFoundInExecutionPipeline(ast::Reference),
    NodeIsNotALoop(ast::Reference),
    NodeIsNotAnIfElse(ast::Reference),
    TryingToBreakIfElse,
    TryingToContinueIfElse,
    ThereAreNoCachedNodeOutputs(ast::Reference),
    ThereIsNoCachedNodeIndexedOutput(Link),
    FoundMultipleEntryNodes(Vec<ast::Reference>),
    EntryNodeNotFound,
    FoundNodeWithInvalidIdentifier,
    NodeCannotFlowIn(ast::Reference),
    NodeCannotFlowOut(ast::Reference),
    NodeCannotTakeInput(ast::Reference),
    NodeCannotGiveOutput(ast::Reference),
}

#[derive(Debug)]
pub enum VmOperationError {
    CouldNotPerformOperation { message: String, name: String, inputs: Vec<Value> },
}

} // verus!
