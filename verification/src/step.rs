//! One step of a running event: what the current node does, and where the
//! event goes next.
use vstd::prelude::*;
use crate::ast::{self, find_named, named, IfElse, Link, Method, Node, NodeType, RefKey};
use crate::error::{VmError, VmOperationError};
use crate::event::{
    context_new, context_start, made_null, spec_get_node_output, spec_go_to_next_node, spec_input_value, spec_instance_value,
    spec_jump_stack_empty, spec_local_variable_value, spec_pop_jump, spec_push_jump, spec_set_node_outputs,
    spec_set_output_value, top, variable_names_of, with_pushed, with_top, without_top, ContextView, EventView, VmContextOwner, VmEvent, VmJump,
};
use crate::flow::{find_first, find_node};
use crate::keyed::{name_find, name_lookup};
use crate::value::{cell_created_with, converted, entry_lookup, value_from_prefab, Reference, Value};
use crate::vm::{call_operation, names_of, names_of_variables, position_of, OperationBox, VmCode};

verus! {

/// How a step ends.
#[derive(Debug, Clone, Copy, PartialEq, Eq, Structural)]
pub enum VmStepStatus {
    Continue,
    Halt,
    Stop,
}

/// What a step learns from outside the machine's own state: the value read
/// from a cell, whether a cell could be locked for writing, a host operation
/// run (its position among the registered operations, the inputs it was
/// handed, and what it returned or the message made of its failure), or the
/// fresh cells made.
pub enum StepInput {
    Nothing,
    Read(Option<Value>),
    Writable(bool),
    Operation(usize, Seq<Reference>, Result<Vec<Reference>, String>),
    Fresh(Reference),
    Frame(Reference, Seq<Reference>),
}

/// The first method named `name` among the methods that a type implements,
/// group by group.
pub open spec fn impl_method(impls: Seq<(String, Vec<Method>)>, name: Seq<char>, i: int) -> Option<Method>
    decreases impls.len() - i,
{
    if i < 0 || i >= impls.len() {
        None
    } else {
        match named(impls[i].1@, name) {
            Some(m) => Some(m),
            None => impl_method(impls, name, i + 1),
        }
    }
}

/// The first node with an identifier.
pub open spec fn node_in(nodes: Seq<Node>, reference: ast::Reference) -> Result<Node, VmError> {
    match find_node(nodes, reference@) {
        Some(i) => Ok(nodes[i]),
        None => Err(VmError::NodeDoesNotExists(reference)),
    }
}

/// The node that a reference names in the flow graph of the running context.
pub open spec fn spec_get_node(code: VmCode, ev: EventView, reference: ast::Reference) -> Result<Node, VmError> {
    match top(ev) {
        None => Err(VmError::NodeDoesNotExists(reference)),
        Some(c) => match c.owner {
            VmContextOwner::Event(en) => match named(code.ast.events@, en@) {
                Some(e) => node_in(e.nodes@, reference),
                None => Err(VmError::EventDoesNotExists(ast::Reference::Named(en))),
            },
            VmContextOwner::Method(tn, mn) => match name_lookup(code.type_methods@, tn@) {
                None => Err(VmError::NodeDoesNotExists(ast::Reference::Named(tn))),
                Some(methods) => match name_lookup(methods@, mn@) {
                    None => Err(VmError::TypeDoesNotImplementMethod(ast::Reference::Named(tn), ast::Reference::Named(mn))),
                    Some(entry) => match named(code.ast.types@, tn@) {
                        None => Err(VmError::TypeDoesNotExists(ast::Reference::Named(tn))),
                        Some(t) => if entry.1 {
                            match impl_method(t.traits_implementation@, mn@, 0) {
                                Some(m) => node_in(m.nodes@, reference),
                                None => Err(VmError::MethodDoesNotExists(ast::Reference::Named(mn))),
                            }
                        } else {
                            match named(code.ast.traits@, entry.0@) {
                                Some(tr) => match named(tr.methods@, mn@) {
                                    Some(m) => node_in(m.nodes@, reference),
                                    None => Err(VmError::MethodDoesNotExists(ast::Reference::Named(mn))),
                                },
                                None => Err(VmError::TraitDoesNotExists(ast::Reference::Named(entry.0))),
                            }
                        },
                    },
                },
            },
            VmContextOwner::Function(fname) => match named(code.ast.functions@, fname@) {
                Some(f) => node_in(f.nodes@, reference),
                None => Err(VmError::FunctionDoesNotExists(ast::Reference::Named(fname))),
            },
        },
    }
}

/// The first position of a node in an execution order.
pub open spec fn exec_pos(s: Seq<ast::Reference>, id: RefKey, i: int) -> Option<int>
    decreases s.len() - i,
{
    if i < 0 || i >= s.len() {
        None
    } else if s[i]@ == id {
        Some(i)
    } else {
        exec_pos(s, id, i + 1)
    }
}

/// The node the running context is at.
pub open spec fn spec_current_node(code: VmCode, ev: EventView) -> Option<Node> {
    match top(ev) {
        Some(c) => match c.current {
            Some(cur) => if cur < c.execution.len() {
                match spec_get_node(code, ev, c.execution[cur as int]) {
                    Ok(n) => Some(n),
                    Err(_) => None,
                }
            } else {
                None
            },
            None => None,
        },
        None => None,
    }
}

/// Moves the running context to a node of its flow graph.
pub open spec fn spec_go_to_node(code: VmCode, ev: EventView, reference: ast::Reference) -> (Result<(), VmError>, EventView) {
    match spec_get_node(code, ev, reference) {
        Err(e) => (Err(e), ev),
        Ok(n) => match top(ev) {
            Some(c) => match exec_pos(c.execution, n.id@, 0) {
                Some(i) => (Ok(()), with_top(ev, ContextView { current: Some(i as usize), ..c })),
                None => (Err(VmError::NodeNotFoundInExecutionPipeline(reference)), ev),
            },
            None => (Err(VmError::NodeNotFoundInExecutionPipeline(reference)), ev),
        },
    }
}

pub open spec fn went(r: (Result<(), VmError>, EventView)) -> Result<EventView, (VmError, EventView)> {
    match r.0 {
        Ok(_) => Ok(r.1),
        Err(e) => Err((e, r.1)),
    }
}

/// The outputs that the links name, in order; the first failure.
pub open spec fn collect_inputs(ev: EventView, links: Seq<Link>, k: int) -> Result<Seq<Reference>, VmError>
    decreases k,
{
    if k <= 0 {
        Ok(Seq::empty())
    } else {
        match collect_inputs(ev, links, k - 1) {
            Err(e) => Err(e),
            Ok(v) => match spec_get_node_output(ev, links[k - 1]) {
                Ok(r) => Ok(v.push(r)),
                Err(e) => Err(e),
            },
        }
    }
}

/// The method that a call of `type_name`'s `method_name` runs: per trait the
/// type implements, the type's own method or else the trait's.
pub open spec fn called_method(code: VmCode, impls: Seq<(String, Vec<Method>)>, mn: Seq<char>, i: int) -> Option<Method>
    decreases impls.len() - i,
{
    if i < 0 || i >= impls.len() {
        None
    } else {
        match named(impls[i].1@, mn) {
            Some(m) => Some(m),
            None => match named(code.ast.traits@, impls[i].0@) {
                Some(tr) => match named(tr.methods@, mn) {
                    Some(m) => Some(m),
                    None => called_method(code, impls, mn, i + 1),
                },
                None => called_method(code, impls, mn, i + 1),
            },
        }
    }
}

/// The execution order of a method, found by the method's name alone.
pub open spec fn method_order_pos(s: Seq<((String, String), Vec<ast::Reference>)>, mn: Seq<char>, i: int) -> Option<int>
    decreases s.len() - i,
{
    if i < 0 || i >= s.len() {
        None
    } else if s[i].0.1@ == mn {
        Some(i)
    } else {
        method_order_pos(s, mn, i + 1)
    }
}

/// Whether a node is one of the end nodes.
pub open spec fn is_end_node(code: VmCode, id: ast::Reference) -> bool {
    exists|i: int| 0 <= i < code.end_nodes@.len() && (#[trigger] code.end_nodes@[i])@ == id@
}

/// A read of a cell's value where the read is the step's only outside input.
pub open spec fn with_read(obs: StepInput, f: spec_fn(Option<Value>) -> Result<EventView, (VmError, EventView)>) -> Option<Result<EventView, (VmError, EventView)>> {
    match obs {
        StepInput::Read(r) => Some(f(r)),
        _ => None,
    }
}

/// The step's outcome where it takes nothing from outside.
pub open spec fn plain(obs: StepInput, r: Result<EventView, (VmError, EventView)>) -> Option<Result<EventView, (VmError, EventView)>> {
    if obs is Nothing {
        Some(r)
    } else {
        None
    }
}

/// A loop node: its body runs, with the loop on the jump stack.
pub open spec fn main_loop(code: VmCode, ev: EventView, id: ast::Reference, body: ast::Reference) -> Result<EventView, (VmError, EventView)> {
    went(spec_go_to_node(code, spec_push_jump(ev, VmJump::Loop(id)), body))
}

/// An if-else node: the branch that the boolean read from its first input
/// names runs, with the node on the jump stack.
pub open spec fn main_if_else(code: VmCode, ev: EventView, node: Node, if_else: IfElse, obs: StepInput) -> Option<Result<EventView, (VmError, EventView)>> {
    match spec_get_node_output(ev, node.input_links@[0]) {
        Err(e) => plain(obs, Err((e, ev))),
        Ok(value) => with_read(
            obs,
            |r: Option<Value>|
                match r {
                    Some(Value::Bool(b)) => went(
                        spec_go_to_node(
                            code,
                            spec_push_jump(ev, VmJump::IfElse(node.id)),
                            if b {
                                if_else.next_node_true
                            } else {
                                if_else.next_node_false
                            },
                        ),
                    ),
                    Some(_) => Err((VmError::ValueIsNotABool(value), ev)),
                    None => Err((VmError::TryingToReadBorrowedReference(value), ev)),
                },
        ),
    }
}

/// A break node: the innermost loop is left for the loop's successor.
pub open spec fn main_break(code: VmCode, ev: EventView) -> Result<EventView, (VmError, EventView)> {
    let (j, ev1) = spec_pop_jump(ev);
    match j {
        Err(e) => Err((e, ev1)),
        Ok(VmJump::Loop(id)) => match spec_get_node(code, ev1, id) {
            Err(e) => Err((e, ev1)),
            Ok(n) => if n.node_type is Loop {
                went(spec_go_to_node(code, ev1, n.next_node))
            } else {
                Err((VmError::NodeIsNotALoop(id), ev1))
            },
        },
        Ok(VmJump::IfElse(_)) => Err((VmError::TryingToBreakIfElse, ev1)),
        Ok(VmJump::Unset(_)) => Ok(ev1),
    }
}

/// A continue node: the innermost loop's body starts again.
pub open spec fn main_continue(code: VmCode, ev: EventView) -> Result<EventView, (VmError, EventView)> {
    let (j, ev1) = spec_pop_jump(ev);
    match j {
        Err(e) => Err((e, ev1)),
        Ok(VmJump::Loop(id)) => match spec_get_node(code, ev1, id) {
            Err(e) => Err((e, ev1)),
            Ok(n) => match n.node_type {
                NodeType::Loop(body) => went(spec_go_to_node(code, ev1, body)),
                _ => Err((VmError::NodeIsNotALoop(id), ev1)),
            },
        },
        Ok(VmJump::IfElse(_)) => Err((VmError::TryingToContinueIfElse, ev1)),
        Ok(VmJump::Unset(_)) => Ok(ev1),
    }
}

/// A node that gives one reference as its output.
pub open spec fn main_give(ev: EventView, id: ast::Reference, r: Result<Reference, VmError>) -> Result<EventView, (VmError, EventView)> {
    match r {
        Ok(v) => Ok(spec_set_node_outputs(ev, id, seq![v])),
        Err(e) => Err((e, ev)),
    }
}

/// A set-output node: the context's output at `index` becomes the first input.
pub open spec fn main_set_output(ev: EventView, node: Node, index: usize) -> Result<EventView, (VmError, EventView)> {
    match spec_get_node_output(ev, node.input_links@[0]) {
        Ok(v) => match spec_set_output_value(ev, index, v) {
            (Ok(_), ev1) => Ok(ev1),
            (Err(e), ev1) => Err((e, ev1)),
        },
        Err(e) => Err((e, ev)),
    }
}

/// A list-item node: the item at `index` of the list read from the first input.
pub open spec fn main_list_item(ev: EventView, node: Node, index: usize, obs: StepInput) -> Option<Result<EventView, (VmError, EventView)>> {
    match spec_get_node_output(ev, node.input_links@[0]) {
        Err(e) => plain(obs, Err((e, ev))),
        Ok(value) => with_read(
            obs,
            |r: Option<Value>|
                match r {
                    Some(Value::List(list)) => if index < list@.len() {
                        Ok(spec_set_node_outputs(ev, node.id, seq![list@[index as int]]))
                    } else {
                        Err((VmError::IndexOutOfBounds(list.len(), index, value), ev))
                    },
                    Some(_) => Err((VmError::ValueIsNotAList(value), ev)),
                    None => Err((VmError::TryingToReadBorrowedReference(value), ev)),
                },
        ),
    }
}

/// An object-item node: the entry under `key` of the object read from the
/// first input.
pub open spec fn main_object_item(ev: EventView, node: Node, key: String, obs: StepInput) -> Option<Result<EventView, (VmError, EventView)>> {
    match spec_get_node_output(ev, node.input_links@[0]) {
        Err(e) => plain(obs, Err((e, ev))),
        Ok(value) => with_read(
            obs,
            |r: Option<Value>|
                match r {
                    Some(Value::Object(object)) => match entry_lookup(object.entries(), key@) {
                        Some(item) => Ok(spec_set_node_outputs(ev, node.id, seq![item])),
                        None => Err((VmError::ObjectKeyDoesNotExists(key, value), ev)),
                    },
                    Some(_) => Err((VmError::ValueIsNotAnObject(value), ev)),
                    None => Err((VmError::TryingToReadBorrowedReference(value), ev)),
                },
        ),
    }
}

/// A mutate node: both its target and its source are its first input, so
/// it fails either way. Where the cell can be locked for writing, reading it
/// while that lock is held fails; otherwise the write lock is refused.
pub open spec fn main_mutate(ev: EventView, node: Node, obs: StepInput) -> Option<Result<EventView, (VmError, EventView)>> {
    match spec_get_node_output(ev, node.input_links@[0]) {
        Err(e) => plain(obs, Err((e, ev))),
        Ok(value) => match obs {
            StepInput::Writable(true) => Some(Err((VmError::TryingToReadBorrowedReference(value), ev))),
            StepInput::Writable(false) => Some(Err((VmError::TryingToWriteBorrowedReference(value, value), ev))),
            _ => None,
        },
    }
}

/// An operation node: the operation registered under the name runs on the
/// outputs that the node's links name, in order, and what it returns becomes
/// the node's outputs.
pub open spec fn main_operation(code: VmCode, names: Seq<Seq<char>>, ev: EventView, node: Node, name: String, obs: StepInput) -> Option<Result<EventView, (VmError, EventView)>> {
    match named(code.ast.operations@, name@) {
        None => plain(obs, Err((VmError::OperationDoesNotExists(ast::Reference::Named(name)), ev))),
        Some(op) => if !names.contains(op.name@) {
            plain(obs, Err((VmError::OperationIsNotRegistered(op.name), ev)))
        } else {
            match collect_inputs(ev, node.input_links@, node.input_links@.len() as int) {
                Err(e) => plain(obs, Err((e, ev))),
                Ok(inputs) => if op.input_constrains@.len() != inputs.len() {
                    plain(obs, Err((VmError::WrongNumberOfInputs(op.input_constrains@.len() as usize, inputs.len() as usize), ev)))
                } else {
                    match obs {
                        StepInput::Operation(i, handed, res) => if 0 <= i < names.len() && names[i as int] == op.name@
                            && handed == inputs {
                            match res {
                                Err(message) => Some(Err((VmError::Message(message), ev))),
                                Ok(outputs) => if op.output_constrains@.len() != outputs@.len() {
                                    Some(Err((VmError::WrongNumberOfOutputs(op.output_constrains@.len() as usize, outputs@.len() as usize), ev)))
                                } else {
                                    Some(Ok(spec_set_node_outputs(ev, node.id, outputs@)))
                                },
                            }
                        } else {
                            None
                        },
                        _ => None,
                    }
                },
            }
        },
    }
}

/// A function-call node: a new context runs the function's flow graph on
/// the node's inputs.
pub open spec fn main_function(code: VmCode, ev: EventView, node: Node, name: String, obs: StepInput) -> Option<Result<EventView, (VmError, EventView)>> {
    match named(code.ast.functions@, name@) {
        None => plain(obs, Err((VmError::FunctionDoesNotExists(ast::Reference::Named(name)), ev))),
        Some(f) => match name_lookup(code.function_execution_order@, f.name@) {
            None => plain(obs, Err((VmError::CouldNotCallFunction(ast::Reference::Named(name)), ev))),
            Some(execution) => match collect_inputs(ev, node.input_links@, node.input_links@.len() as int) {
                Err(e) => plain(obs, Err((e, ev))),
                Ok(inputs) => if f.input_constrains@.len() != inputs.len() {
                    plain(obs, Err((VmError::WrongNumberOfInputs(f.input_constrains@.len() as usize, inputs.len() as usize), ev)))
                } else {
                    match obs {
                        StepInput::Frame(o, cells) => if cells.len() == f.variables@.len() && made_null(seq![o] + cells) {
                            Some(Ok(with_pushed(ev, context_start(
                                VmContextOwner::Function(f.name),
                                Some(node.id),
                                execution@,
                                None,
                                inputs,
                                f.output_constrains@.len() as nat,
                                o,
                                variable_names_of(f.variables@),
                                cells,
                            ))))
                        } else {
                            None
                        },
                        _ => None,
                    }
                },
            },
        },
    }
}

/// A method-call node: a new context runs the method's flow graph on the
/// node's inputs, with the first input as the instance.
pub open spec fn main_method(code: VmCode, ev: EventView, node: Node, tn: String, mn: String, obs: StepInput) -> Option<Result<EventView, (VmError, EventView)>> {
    match named(code.ast.types@, tn@) {
        None => plain(obs, Err((VmError::TypeDoesNotExists(ast::Reference::Named(tn)), ev))),
        Some(t) => match called_method(code, t.traits_implementation@, mn@, 0) {
            None => plain(obs, Err((VmError::MethodDoesNotExists(ast::Reference::Named(mn)), ev))),
            Some(m) => match method_order_pos(code.method_execution_order@, m.name@, 0) {
                None => plain(obs, Err((VmError::CouldNotCallMethod(ast::Reference::Named(tn), ast::Reference::Named(mn)), ev))),
                Some(oi) => match collect_inputs(ev, node.input_links@, node.input_links@.len() as int) {
                    Err(e) => plain(obs, Err((e, ev))),
                    Ok(inputs) => if m.input_constrains@.len() != inputs.len() {
                        plain(obs, Err((VmError::WrongNumberOfInputs(m.input_constrains@.len() as usize, inputs.len() as usize), ev)))
                    } else {
                        match spec_get_node_output(ev, node.input_links@[0]) {
                            Err(e) => plain(obs, Err((e, ev))),
                            Ok(instance) => match obs {
                                StepInput::Frame(o, cells) => if cells.len() == m.variables@.len() && made_null(seq![o] + cells) {
                                    Some(Ok(with_pushed(ev, context_start(
                                        VmContextOwner::Method(t.name, m.name),
                                        Some(node.id),
                                        code.method_execution_order@[oi].1@,
                                        Some(instance),
                                        inputs,
                                        m.output_constrains@.len() as nat,
                                        o,
                                        variable_names_of(m.variables@),
                                        cells,
                                    ))))
                                } else {
                                    None
                                },
                                _ => None,
                            },
                        }
                    },
                },
            },
        },
    }
}

/// What the current node does, before the move to the next node.
pub open spec fn step_main(code: VmCode, names: Seq<Seq<char>>, ev: EventView, node: Node, obs: StepInput) -> Option<Result<EventView, (VmError, EventView)>> {
    match node.node_type {
        NodeType::Loop(body) => plain(obs, main_loop(code, ev, node.id, body)),
        NodeType::IfElse(if_else) => main_if_else(code, ev, node, if_else, obs),
        NodeType::Break => plain(obs, main_break(code, ev)),
        NodeType::Continue => plain(obs, main_continue(code, ev)),
        NodeType::GetInstance => plain(obs, main_give(ev, node.id, spec_instance_value(ev))),
        NodeType::GetGlobalVariable(name) => plain(obs, main_give(ev, node.id, match name_lookup(code.variables@, name@) {
            Some(v) => Ok(v),
            None => Err(VmError::GlobalVariableDoesNotExists(ast::Reference::Named(name))),
        })),
        NodeType::GetLocalVariable(name) => plain(obs, main_give(ev, node.id, spec_local_variable_value(ev, name))),
        NodeType::GetInput(index) => plain(obs, main_give(ev, node.id, spec_input_value(ev, index))),
        NodeType::SetOutput(index) => plain(obs, main_set_output(ev, node, index)),
        NodeType::GetValue(data) => match obs {
            StepInput::Fresh(r) => if converted(data, cell_created_with(r.0)) {
                Some(Ok(spec_set_node_outputs(ev, node.id, seq![r])))
            } else {
                None
            },
            _ => None,
        },
        NodeType::GetListItem(index) => main_list_item(ev, node, index, obs),
        NodeType::GetObjectItem(key) => main_object_item(ev, node, key, obs),
        NodeType::MutateValue => main_mutate(ev, node, obs),
        NodeType::CallOperation(name) => main_operation(code, names, ev, node, name, obs),
        NodeType::CallFunction(name) => main_function(code, ev, node, name, obs),
        NodeType::CallMethod(tn, mn) => main_method(code, ev, node, tn, mn, obs),
        NodeType::Entry => plain(obs, Ok(ev)),
        NodeType::Halt => plain(obs, Ok(ev)),
        NodeType::Unset => plain(obs, Err((VmError::TryingToPerformInvalidNodeType(NodeType::Unset), ev))),
        NodeType::Knot => plain(obs, Err((VmError::TryingToPerformInvalidNodeType(NodeType::Knot), ev))),
    }
}

/// After the node's own work: an end node leaves its loop or branch, and the
/// context moves to its next node.
pub open spec fn step_end(code: VmCode, ev: EventView, node: Node) -> Result<(VmStepStatus, EventView), (VmError, EventView)> {
    if is_end_node(code, node.id) {
        let (j, ev1) = spec_pop_jump(ev);
        let after: Result<EventView, (VmError, EventView)> = match j {
            Err(e) => Err((e, ev1)),
            Ok(VmJump::Loop(id)) => match spec_get_node(code, ev1, id) {
                Err(e) => Err((e, ev1)),
                Ok(n) => if n.node_type is Loop {
                    went(spec_go_to_node(code, ev1, id))
                } else {
                    Err((VmError::NodeIsNotALoop(id), ev1))
                },
            },
            Ok(VmJump::IfElse(id)) => match spec_get_node(code, ev1, id) {
                Err(e) => Err((e, ev1)),
                Ok(n) => if n.node_type is IfElse {
                    went(spec_go_to_node(code, ev1, n.next_node))
                } else {
                    Err((VmError::NodeIsNotAnIfElse(id), ev1))
                },
            },
            Ok(VmJump::Unset(_)) => Ok(ev1),
        };
        match after {
            Err(e) => Err(e),
            Ok(ev2) => if spec_jump_stack_empty(ev2) {
                Ok((VmStepStatus::Stop, spec_go_to_next_node(ev2)))
            } else {
                Ok((VmStepStatus::Continue, spec_go_to_next_node(ev2)))
            },
        }
    } else {
        Ok((VmStepStatus::Continue, spec_go_to_next_node(ev)))
    }
}

/// One step of an event, given what it learns from outside; `None` where the
/// outside input does not fit the node.
#[verifier::opaque]
pub open spec fn step_spec(code: VmCode, names: Seq<Seq<char>>, ev: EventView, obs: StepInput) -> Option<Result<(VmStepStatus, EventView), (VmError, EventView)>> {
    match spec_current_node(code, ev) {
        None => plain_status(obs, Ok((VmStepStatus::Stop, ev))),
        Some(node) => if node.node_type is Halt {
            plain_status(obs, Ok((VmStepStatus::Halt, spec_go_to_next_node(ev))))
        } else {
            match step_main(code, names, ev, node, obs) {
                None => None,
                Some(Err(e)) => Some(Err(e)),
                Some(Ok(ev1)) => Some(step_end(code, ev1, node)),
            }
        },
    }
}

pub open spec fn plain_status(obs: StepInput, r: Result<(VmStepStatus, EventView), (VmError, EventView)>) -> Option<Result<(VmStepStatus, EventView), (VmError, EventView)>> {
    if obs is Nothing {
        Some(r)
    } else {
        None
    }
}

/// A call of `tn`'s `mn` that would take the instance from a first input:
/// the type, the method and its execution order are found, and the method
/// takes no inputs.
pub open spec fn method_call_takes_instance(code: VmCode, tn: String, mn: String) -> bool {
    match named(code.ast.types@, tn@) {
        Some(t) => match called_method(code, t.traits_implementation@, mn@, 0) {
            Some(m) => method_order_pos(code.method_execution_order@, m.name@, 0) is Some && m.input_constrains@.len() == 0,
            None => false,
        },
        None => false,
    }
}

/// A node on which a step does not panic: a node that reads its first input
/// has one, constant data has string keys.
pub open spec fn node_steppable(code: VmCode, node: Node) -> bool {
    &&& (node.node_type is IfElse || node.node_type is SetOutput || node.node_type is GetListItem
        || node.node_type is GetObjectItem || node.node_type is MutateValue) ==> node.input_links@.len() > 0
    &&& (node.node_type matches NodeType::GetValue(d) ==> crate::value::keys_are_strings(d))
    &&& (node.node_type matches NodeType::CallMethod(tn, mn) ==> (node.input_links@.len() > 0
        || !method_call_takes_instance(code, tn, mn)))
}

/// The first node with an identifier among `nodes`.
fn node_in_exec<'a>(nodes: &'a Vec<Node>, reference: &ast::Reference) -> (r: Result<&'a Node, VmError>)
    ensures
        match r {
            Ok(n) => node_in(nodes@, *reference) == Ok::<Node, VmError>(*n),
            Err(e) => node_in(nodes@, *reference) == Err::<Node, VmError>(e),
        },
{
    match find_first(nodes, reference) {
        Some(i) => Ok(&nodes[i]),
        None => Err(VmError::NodeDoesNotExists(reference.duplicate())),
    }
}

/// The first method named `name` among a type's implementations, group by group.
fn find_impl_method<'a>(impls: &'a Vec<(String, Vec<Method>)>, name: &String) -> (r: Option<&'a Method>)
    ensures
        match r {
            Some(m) => impl_method(impls@, name@, 0) == Some(*m),
            None => impl_method(impls@, name@, 0) is None,
        },
{
    let mut i: usize = 0;
    while i < impls.len()
        invariant
            i <= impls@.len(),
            impl_method(impls@, name@, 0) == impl_method(impls@, name@, i as int),
        decreases impls@.len() - i,
    {
        match find_named(&impls[i].1, name) {
            Some(j) => {
                return Some(&impls[i].1[j]);
            },
            None => {},
        }
        i = i + 1;
    }
    None
}

/// The first position of a node in an execution order.
fn exec_find(s: &Vec<ast::Reference>, id: &ast::Reference) -> (r: Option<usize>)
    ensures
        match r {
            Some(i) => exec_pos(s@, id@, 0) == Some(i as int) && i < s@.len(),
            None => exec_pos(s@, id@, 0) is None,
        },
{
    let mut i: usize = 0;
    while i < s.len()
        invariant
            i <= s@.len(),
            exec_pos(s@, id@, 0) == exec_pos(s@, id@, i as int),
        decreases s@.len() - i,
    {
        if s[i].same_as(id) {
            return Some(i);
        }
        i = i + 1;
    }
    None
}

impl VmEvent {
    /// The node that a reference names in the running context's flow graph
    /// (see `spec_get_node`).
    pub fn get_node<'a>(&self, reference: &ast::Reference, code: &'a VmCode) -> (r: Result<&'a Node, VmError>)
        ensures
            match r {
                Ok(n) => spec_get_node(*code, self@, *reference) == Ok::<Node, VmError>(*n),
                Err(e) => spec_get_node(*code, self@, *reference) == Err::<Node, VmError>(e),
            },
    {
        if self.contexts.len() == 0 {
            return Err(VmError::NodeDoesNotExists(reference.duplicate()));
        }
        let c = &self.contexts[self.contexts.len() - 1];
        assert(top(self@) == Some(c@));
        match &c.owner {
            VmContextOwner::Event(en) => match find_named(&code.ast.events, en) {
                Some(i) => node_in_exec(&code.ast.events[i].nodes, reference),
                None => Err(VmError::EventDoesNotExists(ast::Reference::Named(en.clone()))),
            },
            VmContextOwner::Method(tn, mn) => {
                let ti = match name_find(&code.type_methods, tn) {
                    Some(ti) => ti,
                    None => {
                        return Err(VmError::NodeDoesNotExists(ast::Reference::Named(tn.clone())));
                    },
                };
                let methods = &code.type_methods[ti].1;
                let mi = match name_find(methods, mn) {
                    Some(mi) => mi,
                    None => {
                        return Err(
                            VmError::TypeDoesNotImplementMethod(
                                ast::Reference::Named(tn.clone()),
                                ast::Reference::Named(mn.clone()),
                            ),
                        );
                    },
                };
                let entry = &methods[mi].1;
                let t = match find_named(&code.ast.types, tn) {
                    Some(k) => &code.ast.types[k],
                    None => {
                        return Err(VmError::TypeDoesNotExists(ast::Reference::Named(tn.clone())));
                    },
                };
                if entry.1 {
                    match find_impl_method(&t.traits_implementation, mn) {
                        Some(m) => node_in_exec(&m.nodes, reference),
                        None => Err(VmError::MethodDoesNotExists(ast::Reference::Named(mn.clone()))),
                    }
                } else {
                    match find_named(&code.ast.traits, &entry.0) {
                        Some(k) => {
                            let tr = &code.ast.traits[k];
                            match find_named(&tr.methods, mn) {
                                Some(j) => node_in_exec(&tr.methods[j].nodes, reference),
                                None => Err(VmError::MethodDoesNotExists(ast::Reference::Named(mn.clone()))),
                            }
                        },
                        None => Err(VmError::TraitDoesNotExists(ast::Reference::Named(entry.0.clone()))),
                    }
                }
            },
            VmContextOwner::Function(fname) => match find_named(&code.ast.functions, fname) {
                Some(i) => node_in_exec(&code.ast.functions[i].nodes, reference),
                None => Err(VmError::FunctionDoesNotExists(ast::Reference::Named(fname.clone()))),
            },
        }
    }

    /// The node the running context is at, if any.
    pub fn get_current_node<'a>(&self, code: &'a VmCode) -> (r: Option<&'a Node>)
        ensures
            match r {
                Some(n) => spec_current_node(*code, self@) == Some(*n),
                None => spec_current_node(*code, self@) is None,
            },
    {
        if self.contexts.len() == 0 {
            return None;
        }
        let c = &self.contexts[self.contexts.len() - 1];
        assert(top(self@) == Some(c@));
        match c.current {
            Some(cur) => {
                if cur < c.execution.len() {
                    match self.get_node(&c.execution[cur], code) {
                        Ok(n) => Some(n),
                        Err(_) => None,
                    }
                } else {
                    None
                }
            },
            None => None,
        }
    }

    /// Moves the running context to a node of its flow graph (see
    /// `spec_go_to_node`); on failure the event is left as it was.
    pub fn go_to_node(&mut self, reference: &ast::Reference, code: &VmCode) -> (r: Result<(), VmError>)
        ensures
            (r, final(self)@) == spec_go_to_node(*code, old(self)@, *reference),
    {
        let node = match self.get_node(reference, code) {
            Ok(n) => n,
            Err(e) => {
                return Err(e);
            },
        };
        if self.contexts.len() > 0 {
            let last = self.contexts.len() - 1;
            assert(top(self@) == Some(self.contexts@[last as int]@));
            match exec_find(&self.contexts[last].execution, &node.id) {
                Some(i) => {
                    let mut c = self.take_top().unwrap();
                    c.current = Some(i);
                    self.put_top(c);
                    return Ok(());
                },
                None => {},
            }
        }
        Err(VmError::NodeNotFoundInExecutionPipeline(reference.duplicate()))
    }
}

/// How the registered operations are left by a step: only the one that ran,
/// if any, can have changed; none moves.
pub open spec fn operations_after(before: Seq<OperationBox>, after: Seq<OperationBox>, obs: StepInput) -> bool {
    match obs {
        StepInput::Operation(i, _, _) => {
            &&& after.len() == before.len()
            &&& forall|j: int| 0 <= j < before.len() && j != i ==> after[j] == before[j]
        },
        _ => after == before,
    }
}

/// How a node's own work ended, with the event it left.
pub open spec fn outcome(r: Result<(), VmError>, ev: EventView) -> Result<EventView, (VmError, EventView)> {
    match r {
        Ok(_) => Ok(ev),
        Err(e) => Err((e, ev)),
    }
}

/// Once collecting inputs has failed, later links change nothing; a success
/// has one input per link.
proof fn lemma_collect_inputs(ev: EventView, links: Seq<Link>, k: int, m: int)
    requires
        0 <= k <= m,
    ensures
        collect_inputs(ev, links, k) is Err ==> collect_inputs(ev, links, m) == collect_inputs(ev, links, k),
        collect_inputs(ev, links, m) matches Ok(v) ==> v.len() == m,
    decreases m,
{
    if m > 0 {
        if m > k {
            lemma_collect_inputs(ev, links, k, m - 1);
        } else {
            lemma_collect_inputs(ev, links, 0, m - 1);
        }
    }
}

/// The outputs that the links name, in order (see `collect_inputs`).
fn collect_inputs_exec(event: &VmEvent, links: &Vec<Link>) -> (r: Result<Vec<Reference>, VmError>)
    ensures
        match r {
            Ok(v) => collect_inputs(event@, links@, links@.len() as int) == Ok::<Seq<Reference>, VmError>(v@),
            Err(e) => collect_inputs(event@, links@, links@.len() as int) == Err::<Seq<Reference>, VmError>(e),
        },
{
    let mut v: Vec<Reference> = Vec::new();
    let mut i: usize = 0;
    while i < links.len()
        invariant
            i <= links@.len(),
            collect_inputs(event@, links@, i as int) == Ok::<Seq<Reference>, VmError>(v@),
        decreases links@.len() - i,
    {
        match event.get_node_output(&links[i]) {
            Ok(r) => {
                v.push(r.clone());
            },
            Err(e) => {
                proof {
                    lemma_collect_inputs(event@, links@, i + 1, links@.len() as int);
                }
                return Err(e);
            },
        }
        i = i + 1;
    }
    Ok(v)
}

/// The message of a failed host operation: `format!` of the operation's name
/// and the error, both in their `Debug` form. The text is not stated.
#[verifier::external_body]
fn operation_failure_message(name: &String, error: &VmOperationError) -> String {
    format!("Error during call to {:?} operation: {:?}", name, error)
}

/// Whether an identifier is one of the end nodes.
fn is_end_node_exec(ends: &Vec<ast::Reference>, id: &ast::Reference) -> (r: bool)
    ensures
        r == exists|i: int| 0 <= i < ends@.len() && (#[trigger] ends@[i])@ == id@,
{
    let mut i: usize = 0;
    while i < ends.len()
        invariant
            i <= ends@.len(),
            forall|j: int| 0 <= j < i ==> (#[trigger] ends@[j])@ != id@,
        decreases ends@.len() - i,
    {
        if ends[i].same_as(id) {
            return true;
        }
        i = i + 1;
    }
    false
}

/// The method a call runs (see `called_method`).
fn find_called_method<'a>(code: &'a VmCode, impls: &'a Vec<(String, Vec<Method>)>, mn: &String) -> (r: Option<&'a Method>)
    ensures
        match r {
            Some(m) => called_method(*code, impls@, mn@, 0) == Some(*m),
            None => called_method(*code, impls@, mn@, 0) is None,
        },
{
    let mut i: usize = 0;
    while i < impls.len()
        invariant
            i <= impls@.len(),
            called_method(*code, impls@, mn@, 0) == called_method(*code, impls@, mn@, i as int),
        decreases impls@.len() - i,
    {
        match find_named(&impls[i].1, mn) {
            Some(j) => {
                return Some(&impls[i].1[j]);
            },
            None => {},
        }
        match find_named(&code.ast.traits, &impls[i].0) {
            Some(k) => {
                let tr = &code.ast.traits[k];
                match find_named(&tr.methods, mn) {
                    Some(j) => {
                        return Some(&tr.methods[j]);
                    },
                    None => {},
                }
            },
            None => {},
        }
        i = i + 1;
    }
    None
}

/// The position of a method's execution order, by the method's name alone.
fn find_method_order(s: &Vec<((String, String), Vec<ast::Reference>)>, mn: &String) -> (r: Option<usize>)
    ensures
        match r {
            Some(i) => method_order_pos(s@, mn@, 0) == Some(i as int) && i < s@.len(),
            None => method_order_pos(s@, mn@, 0) is None,
        },
{
    let mut i: usize = 0;
    while i < s.len()
        invariant
            i <= s@.len(),
            method_order_pos(s@, mn@, 0) == method_order_pos(s@, mn@, i as int),
        decreases s@.len() - i,
    {
        if s[i].0.1 == *mn {
            return Some(i);
        }
        i = i + 1;
    }
    None
}

/// A loop node (see `main_loop`).
fn do_loop(code: &VmCode, event: &mut VmEvent, id: &ast::Reference, body: &ast::Reference) -> (r: Result<(), VmError>)
    ensures
        outcome(r, final(event)@) == main_loop(*code, old(event)@, *id, *body),
{
    event.push_jump_on_stack(VmJump::Loop(id.duplicate()));
    event.go_to_node(body, code)
}

/// An if-else node (see `main_if_else`).
fn do_if_else(code: &VmCode, event: &mut VmEvent, node: &Node, if_else: &IfElse) -> (r: (Result<(), VmError>, Ghost<StepInput>))
    requires
        node.input_links@.len() > 0,
    ensures
        main_if_else(*code, old(event)@, *node, *if_else, r.1@) == Some(outcome(r.0, final(event)@)),
{
    let value = match event.get_node_output(&node.input_links[0]) {
        Ok(v) => v.clone(),
        Err(e) => {
            return (Err(e), Ghost(StepInput::Nothing));
        },
    };
    let read = value.0.try_read_clone();
    let ghost obs = StepInput::Read(read);
    match read {
        Some(Value::Bool(b)) => {
            event.push_jump_on_stack(VmJump::IfElse(node.id.duplicate()));
            let target = if b {
                &if_else.next_node_true
            } else {
                &if_else.next_node_false
            };
            (event.go_to_node(target, code), Ghost(obs))
        },
        Some(_) => (Err(VmError::ValueIsNotABool(value)), Ghost(obs)),
        None => (Err(VmError::TryingToReadBorrowedReference(value)), Ghost(obs)),
    }
}

/// A break node (see `main_break`).
fn do_break(code: &VmCode, event: &mut VmEvent) -> (r: Result<(), VmError>)
    ensures
        outcome(r, final(event)@) == main_break(*code, old(event)@),
{
    match event.pop_jump_from_stack() {
        Err(e) => Err(e),
        Ok(VmJump::Loop(id)) => {
            let n = match event.get_node(&id, code) {
                Ok(n) => n,
                Err(e) => {
                    return Err(e);
                },
            };
            match &n.node_type {
                NodeType::Loop(_) => event.go_to_node(&n.next_node, code),
                _ => Err(VmError::NodeIsNotALoop(id)),
            }
        },
        Ok(VmJump::IfElse(_)) => Err(VmError::TryingToBreakIfElse),
        Ok(VmJump::Unset(_)) => Ok(()),
    }
}

/// A continue node (see `main_continue`).
fn do_continue(code: &VmCode, event: &mut VmEvent) -> (r: Result<(), VmError>)
    ensures
        outcome(r, final(event)@) == main_continue(*code, old(event)@),
{
    match event.pop_jump_from_stack() {
        Err(e) => Err(e),
        Ok(VmJump::Loop(id)) => {
            let n = match event.get_node(&id, code) {
                Ok(n) => n,
                Err(e) => {
                    return Err(e);
                },
            };
            match &n.node_type {
                NodeType::Loop(body) => event.go_to_node(body, code),
                _ => Err(VmError::NodeIsNotALoop(id)),
            }
        },
        Ok(VmJump::IfElse(_)) => Err(VmError::TryingToContinueIfElse),
        Ok(VmJump::Unset(_)) => Ok(()),
    }
}

/// A node that gives one reference as its output (see `main_give`).
fn do_give(event: &mut VmEvent, id: &ast::Reference, value: Result<Reference, VmError>) -> (r: Result<(), VmError>)
    ensures
        outcome(r, final(event)@) == main_give(old(event)@, *id, value),
{
    match value {
        Ok(v) => {
            event.set_node_output(id.duplicate(), v);
            Ok(())
        },
        Err(e) => Err(e),
    }
}

/// A set-output node (see `main_set_output`).
fn do_set_output(event: &mut VmEvent, node: &Node, index: usize) -> (r: Result<(), VmError>)
    requires
        node.input_links@.len() > 0,
    ensures
        outcome(r, final(event)@) == main_set_output(old(event)@, *node, index),
{
    let value = match event.get_node_output(&node.input_links[0]) {
        Ok(v) => v.clone(),
        Err(e) => {
            return Err(e);
        },
    };
    match event.set_output_value(index, value) {
        Ok(_) => Ok(()),
        Err(e) => Err(e),
    }
}

/// A list-item node (see `main_list_item`).
fn do_list_item(event: &mut VmEvent, node: &Node, index: usize) -> (r: (Result<(), VmError>, Ghost<StepInput>))
    requires
        node.input_links@.len() > 0,
    ensures
        main_list_item(old(event)@, *node, index, r.1@) == Some(outcome(r.0, final(event)@)),
{
    let value = match event.get_node_output(&node.input_links[0]) {
        Ok(v) => v.clone(),
        Err(e) => {
            return (Err(e), Ghost(StepInput::Nothing));
        },
    };
    let read = value.0.try_read_clone();
    let ghost obs = StepInput::Read(read);
    match read {
        Some(Value::List(list)) => {
            if index < list.len() {
                event.set_node_output(node.id.duplicate(), list[index].clone());
                (Ok(()), Ghost(obs))
            } else {
                (Err(VmError::IndexOutOfBounds(list.len(), index, value)), Ghost(obs))
            }
        },
        Some(_) => (Err(VmError::ValueIsNotAList(value)), Ghost(obs)),
        None => (Err(VmError::TryingToReadBorrowedReference(value)), Ghost(obs)),
    }
}

/// An object-item node (see `main_object_item`).
fn do_object_item(event: &mut VmEvent, node: &Node, key: &String) -> (r: (Result<(), VmError>, Ghost<StepInput>))
    requires
        node.input_links@.len() > 0,
    ensures
        main_object_item(old(event)@, *node, *key, r.1@) == Some(outcome(r.0, final(event)@)),
{
    let value = match event.get_node_output(&node.input_links[0]) {
        Ok(v) => v.clone(),
        Err(e) => {
            return (Err(e), Ghost(StepInput::Nothing));
        },
    };
    let read = value.0.try_read_clone();
    let ghost obs = StepInput::Read(read);
    match read {
        Some(Value::Object(object)) => match object.get(key) {
            Some(item) => {
                event.set_node_output(node.id.duplicate(), item.clone());
                (Ok(()), Ghost(obs))
            },
            None => (Err(VmError::ObjectKeyDoesNotExists(key.clone(), value)), Ghost(obs)),
        },
        Some(_) => (Err(VmError::ValueIsNotAnObject(value)), Ghost(obs)),
        None => (Err(VmError::TryingToReadBorrowedReference(value)), Ghost(obs)),
    }
}

/// A mutate node (see `main_mutate`).
fn do_mutate(event: &mut VmEvent, node: &Node) -> (r: (Result<(), VmError>, Ghost<StepInput>))
    requires
        node.input_links@.len() > 0,
    ensures
        main_mutate(old(event)@, *node, r.1@) == Some(outcome(r.0, final(event)@)),
{
    let value = match event.get_node_output(&node.input_links[0]) {
        Ok(v) => v.clone(),
        Err(e) => {
            return (Err(e), Ghost(StepInput::Nothing));
        },
    };
    let writable = value.0.try_lock_write();
    let ghost obs = StepInput::Writable(writable);
    if writable {
        (Err(VmError::TryingToReadBorrowedReference(value)), Ghost(obs))
    } else {
        (Err(VmError::TryingToWriteBorrowedReference(value.clone(), value)), Ghost(obs))
    }
}

/// An operation node (see `main_operation`).
fn do_operation(
    code: &VmCode,
    names: &Vec<String>,
    operations: &mut Vec<OperationBox>,
    event: &mut VmEvent,
    node: &Node,
    name: &String,
) -> (r: (Result<(), VmError>, Ghost<StepInput>))
    requires
        names@.len() == old(operations)@.len(),
    ensures
        operations_after(old(operations)@, final(operations)@, r.1@),
        main_operation(*code, names_of(names@), old(event)@, *node, *name, r.1@) == Some(outcome(r.0, final(event)@)),
{
    let op = match find_named(&code.ast.operations, name) {
        Some(i) => &code.ast.operations[i],
        None => {
            return (Err(VmError::OperationDoesNotExists(ast::Reference::Named(name.clone()))), Ghost(StepInput::Nothing));
        },
    };
    let oi = match position_of(names, &op.name) {
        Some(i) => i,
        None => {
            return (Err(VmError::OperationIsNotRegistered(op.name.clone())), Ghost(StepInput::Nothing));
        },
    };
    assert(names_of(names@)[oi as int] == op.name@);
    let inputs = match collect_inputs_exec(event, &node.input_links) {
        Ok(v) => v,
        Err(e) => {
            return (Err(e), Ghost(StepInput::Nothing));
        },
    };
    if op.input_constrains.len() != inputs.len() {
        return (Err(VmError::WrongNumberOfInputs(op.input_constrains.len(), inputs.len())), Ghost(StepInput::Nothing));
    }
    let (result, Ghost(handed)) = call_operation(operations, oi, &inputs);
    match result {
        Err(error) => {
            let message = operation_failure_message(&op.name, &error);
            let ghost obs = StepInput::Operation(oi, handed, Err(message));
            (Err(VmError::Message(message)), Ghost(obs))
        },
        Ok(outputs) => {
            let ghost obs = StepInput::Operation(oi, handed, Ok(outputs));
            if op.output_constrains.len() != outputs.len() {
                return (Err(VmError::WrongNumberOfOutputs(op.output_constrains.len(), outputs.len())), Ghost(obs));
            }
            event.set_node_outputs(node.id.duplicate(), outputs);
            (Ok(()), Ghost(obs))
        },
    }
}

/// A function-call node (see `main_function`).
fn do_function(code: &VmCode, event: &mut VmEvent, node: &Node, name: &String) -> (r: (Result<(), VmError>, Ghost<StepInput>))
    ensures
        main_function(*code, old(event)@, *node, *name, r.1@) == Some(outcome(r.0, final(event)@)),
{
    let f = match find_named(&code.ast.functions, name) {
        Some(i) => &code.ast.functions[i],
        None => {
            return (Err(VmError::FunctionDoesNotExists(ast::Reference::Named(name.clone()))), Ghost(StepInput::Nothing));
        },
    };
    let oi = match name_find(&code.function_execution_order, &f.name) {
        Some(i) => i,
        None => {
            return (Err(VmError::CouldNotCallFunction(ast::Reference::Named(name.clone()))), Ghost(StepInput::Nothing));
        },
    };
    let inputs = match collect_inputs_exec(event, &node.input_links) {
        Ok(v) => v,
        Err(e) => {
            return (Err(e), Ghost(StepInput::Nothing));
        },
    };
    if f.input_constrains.len() != inputs.len() {
        return (Err(VmError::WrongNumberOfInputs(f.input_constrains.len(), inputs.len())), Ghost(StepInput::Nothing));
    }
    let execution = code.function_execution_order[oi].1.clone();
    assert(execution@ =~= code.function_execution_order@[oi as int].1@);
    let vars = names_of_variables(&f.variables);
    let (ctx, Ghost(o), Ghost(cells)) = context_new(
        VmContextOwner::Function(f.name.clone()),
        Some(node.id.duplicate()),
        execution,
        None,
        inputs,
        f.output_constrains.len(),
        &vars,
    );
    event.put_top(ctx);
    (Ok(()), Ghost(StepInput::Frame(o, cells)))
}

/// A method-call node (see `main_method`).
fn do_method(code: &VmCode, event: &mut VmEvent, node: &Node, tn: &String, mn: &String) -> (r: (Result<(), VmError>, Ghost<StepInput>))
    requires
        node.input_links@.len() > 0 || !method_call_takes_instance(*code, *tn, *mn),
    ensures
        main_method(*code, old(event)@, *node, *tn, *mn, r.1@) == Some(outcome(r.0, final(event)@)),
{
    let t = match find_named(&code.ast.types, tn) {
        Some(i) => &code.ast.types[i],
        None => {
            return (Err(VmError::TypeDoesNotExists(ast::Reference::Named(tn.clone()))), Ghost(StepInput::Nothing));
        },
    };
    let m = match find_called_method(code, &t.traits_implementation, mn) {
        Some(m) => m,
        None => {
            return (Err(VmError::MethodDoesNotExists(ast::Reference::Named(mn.clone()))), Ghost(StepInput::Nothing));
        },
    };
    let oi = match find_method_order(&code.method_execution_order, &m.name) {
        Some(i) => i,
        None => {
            return (
                Err(VmError::CouldNotCallMethod(ast::Reference::Named(tn.clone()), ast::Reference::Named(mn.clone()))),
                Ghost(StepInput::Nothing),
            );
        },
    };
    let inputs = match collect_inputs_exec(event, &node.input_links) {
        Ok(v) => v,
        Err(e) => {
            return (Err(e), Ghost(StepInput::Nothing));
        },
    };
    if m.input_constrains.len() != inputs.len() {
        return (Err(VmError::WrongNumberOfInputs(m.input_constrains.len(), inputs.len())), Ghost(StepInput::Nothing));
    }
    proof {
        lemma_collect_inputs(event@, node.input_links@, 0, node.input_links@.len() as int);
    }
    let instance = match event.get_node_output(&node.input_links[0]) {
        Ok(v) => v.clone(),
        Err(e) => {
            return (Err(e), Ghost(StepInput::Nothing));
        },
    };
    let execution = code.method_execution_order[oi].1.clone();
    assert(execution@ =~= code.method_execution_order@[oi as int].1@);
    let vars = names_of_variables(&m.variables);
    let (ctx, Ghost(o), Ghost(cells)) = context_new(
        VmContextOwner::Method(t.name.clone(), m.name.clone()),
        Some(node.id.duplicate()),
        execution,
        Some(instance),
        inputs,
        m.output_constrains.len(),
        &vars,
    );
    event.put_top(ctx);
    (Ok(()), Ghost(StepInput::Frame(o, cells)))
}

/// What the current node does (see `step_main`).
fn do_main(
    code: &VmCode,
    names: &Vec<String>,
    operations: &mut Vec<OperationBox>,
    event: &mut VmEvent,
    node: &Node,
) -> (r: (Result<(), VmError>, Ghost<StepInput>))
    requires
        names@.len() == old(operations)@.len(),
        node_steppable(*code, *node),
    ensures
        operations_after(old(operations)@, final(operations)@, r.1@),
        step_main(*code, names_of(names@), old(event)@, *node, r.1@) == Some(outcome(r.0, final(event)@)),
{
    match &node.node_type {
        NodeType::Loop(body) => (do_loop(code, event, &node.id, body), Ghost(StepInput::Nothing)),
        NodeType::IfElse(if_else) => do_if_else(code, event, node, if_else),
        NodeType::Break => (do_break(code, event), Ghost(StepInput::Nothing)),
        NodeType::Continue => (do_continue(code, event), Ghost(StepInput::Nothing)),
        NodeType::GetInstance => {
            let value = event.instance_value();
            (do_give(event, &node.id, value), Ghost(StepInput::Nothing))
        },
        NodeType::GetGlobalVariable(name) => {
            let value = match name_find(&code.variables, name) {
                Some(i) => Ok(code.variables[i].1.clone()),
                None => Err(VmError::GlobalVariableDoesNotExists(ast::Reference::Named(name.clone()))),
            };
            (do_give(event, &node.id, value), Ghost(StepInput::Nothing))
        },
        NodeType::GetLocalVariable(name) => {
            let value = event.local_variable_value(name);
            (do_give(event, &node.id, value), Ghost(StepInput::Nothing))
        },
        NodeType::GetInput(index) => {
            let value = event.input_value(*index);
            (do_give(event, &node.id, value), Ghost(StepInput::Nothing))
        },
        NodeType::SetOutput(index) => (do_set_output(event, node, *index), Ghost(StepInput::Nothing)),
        NodeType::GetValue(data) => {
            let fresh = Reference::value(value_from_prefab(data));
            let ghost obs = StepInput::Fresh(fresh);
            event.set_node_output(node.id.duplicate(), fresh);
            (Ok(()), Ghost(obs))
        },
        NodeType::GetListItem(index) => do_list_item(event, node, *index),
        NodeType::GetObjectItem(key) => do_object_item(event, node, key),
        NodeType::MutateValue => do_mutate(event, node),
        NodeType::CallOperation(name) => do_operation(code, names, operations, event, node, name),
        NodeType::CallFunction(name) => do_function(code, event, node, name),
        NodeType::CallMethod(tn, mn) => do_method(code, event, node, tn, mn),
        NodeType::Entry => (Ok(()), Ghost(StepInput::Nothing)),
        NodeType::Halt => (Ok(()), Ghost(StepInput::Nothing)),
        NodeType::Unset => (Err(VmError::TryingToPerformInvalidNodeType(NodeType::Unset)), Ghost(StepInput::Nothing)),
        NodeType::Knot => (Err(VmError::TryingToPerformInvalidNodeType(NodeType::Knot)), Ghost(StepInput::Nothing)),
    }
}

/// How a step ended, with the event it left.
pub open spec fn status_outcome(r: Result<VmStepStatus, VmError>, ev: EventView) -> Result<(VmStepStatus, EventView), (VmError, EventView)> {
    match r {
        Ok(s) => Ok((s, ev)),
        Err(e) => Err((e, ev)),
    }
}

/// After the node's own work (see `step_end`).
fn do_end(code: &VmCode, event: &mut VmEvent, node: &Node) -> (r: Result<VmStepStatus, VmError>)
    ensures
        step_end(*code, old(event)@, *node) == status_outcome(r, final(event)@),
{
    if is_end_node_exec(&code.end_nodes, &node.id) {
        match event.pop_jump_from_stack() {
            Err(e) => {
                return Err(e);
            },
            Ok(VmJump::Loop(id)) => {
                let n = match event.get_node(&id, code) {
                    Ok(n) => n,
                    Err(e) => {
                        return Err(e);
                    },
                };
                match &n.node_type {
                    NodeType::Loop(_) => match event.go_to_node(&id, code) {
                        Ok(()) => {},
                        Err(e) => {
                            return Err(e);
                        },
                    },
                    _ => {
                        return Err(VmError::NodeIsNotALoop(id));
                    },
                }
            },
            Ok(VmJump::IfElse(id)) => {
                let n = match event.get_node(&id, code) {
                    Ok(n) => n,
                    Err(e) => {
                        return Err(e);
                    },
                };
                match &n.node_type {
                    NodeType::IfElse(_) => match event.go_to_node(&n.next_node, code) {
                        Ok(()) => {},
                        Err(e) => {
                            return Err(e);
                        },
                    },
                    _ => {
                        return Err(VmError::NodeIsNotAnIfElse(id));
                    },
                }
            },
            Ok(VmJump::Unset(_)) => {},
        }
        if event.is_jump_stack_empty() {
            event.go_to_next_node();
            return Ok(VmStepStatus::Stop);
        }
    }
    event.go_to_next_node();
    Ok(VmStepStatus::Continue)
}

/// One step of an event (see `step_spec`); what it learned from outside comes
/// back beside the result.
pub(crate) fn step_with(
    code: &VmCode,
    names: &Vec<String>,
    operations: &mut Vec<OperationBox>,
    event: &mut VmEvent,
) -> (r: (Result<VmStepStatus, VmError>, Ghost<StepInput>))
    requires
        names@.len() == old(operations)@.len(),
        spec_current_node(*code, old(event)@) matches Some(n) ==> node_steppable(*code, n),
    ensures
        operations_after(old(operations)@, final(operations)@, r.1@),
        step_spec(*code, names_of(names@), old(event)@, r.1@) == Some(status_outcome(r.0, final(event)@)),
{
    reveal(step_spec);
    let node = match event.get_current_node(code) {
        Some(n) => n,
        None => {
            return (Ok(VmStepStatus::Stop), Ghost(StepInput::Nothing));
        },
    };
    if let NodeType::Halt = node.node_type {
        event.go_to_next_node();
        return (Ok(VmStepStatus::Halt), Ghost(StepInput::Nothing));
    }
    let (r, obs) = do_main(code, names, operations, event, node);
    match r {
        Err(e) => (Err(e), obs),
        Ok(()) => (do_end(code, event, node), obs),
    }
}

/// Whether every node of a flow graph is steppable.
pub open spec fn nodes_steppable(code: VmCode, nodes: Seq<Node>) -> bool {
    forall|i: int| 0 <= i < nodes.len() ==> node_steppable(code, #[trigger] nodes[i])
}

/// Whether every node of every flow graph of the program is steppable: no
/// step of any event can then panic.
pub open spec fn program_steppable(code: VmCode) -> bool {
    &&& forall|i: int| 0 <= i < code.ast.events@.len() ==> nodes_steppable(code, (#[trigger] code.ast.events@[i]).nodes@)
    &&& forall|i: int| 0 <= i < code.ast.functions@.len() ==> nodes_steppable(code, (#[trigger] code.ast.functions@[i]).nodes@)
    &&& forall|i: int, j: int|
        0 <= i < code.ast.traits@.len() && 0 <= j < code.ast.traits@[i].methods@.len() ==> nodes_steppable(
            code,
            (#[trigger] code.ast.traits@[i].methods@[j]).nodes@,
        )
    &&& forall|i: int, j: int, k: int|
        0 <= i < code.ast.types@.len() && 0 <= j < code.ast.types@[i].traits_implementation@.len() && 0 <= k
            < code.ast.types@[i].traits_implementation@[j].1@.len() ==> nodes_steppable(
            code,
            (#[trigger] code.ast.types@[i].traits_implementation@[j].1@[k]).nodes@,
        )
}

/// Whether every node of every function and method flow graph is steppable.
pub open spec fn callables_steppable(code: VmCode) -> bool {
    &&& forall|i: int| 0 <= i < code.ast.functions@.len() ==> nodes_steppable(code, (#[trigger] code.ast.functions@[i]).nodes@)
    &&& forall|i: int, j: int|
        0 <= i < code.ast.traits@.len() && 0 <= j < code.ast.traits@[i].methods@.len() ==> nodes_steppable(
            code,
            (#[trigger] code.ast.traits@[i].methods@[j]).nodes@,
        )
    &&& forall|i: int, j: int, k: int|
        0 <= i < code.ast.types@.len() && 0 <= j < code.ast.types@[i].traits_implementation@.len() && 0 <= k
            < code.ast.types@[i].traits_implementation@[j].1@.len() ==> nodes_steppable(
            code,
            (#[trigger] code.ast.types@[i].traits_implementation@[j].1@[k]).nodes@,
        )
}

/// Whether a context owned by an event runs a steppable flow graph; contexts
/// of functions and methods are left to `callables_steppable`.
pub open spec fn owner_steppable(code: VmCode, owner: VmContextOwner) -> bool {
    owner matches VmContextOwner::Event(en) ==> (named(code.ast.events@, en@) matches Some(e) ==> nodes_steppable(
        code,
        e.nodes@,
    ))
}

/// Whether the flow graph of every event that owns a context of `ev` is
/// steppable. A step never makes an event the owner of a new context, so
/// this holds all along a run.
pub open spec fn event_owners_steppable(code: VmCode, ev: EventView) -> bool {
    forall|i: int| 0 <= i < ev.contexts.len() ==> owner_steppable(code, (#[trigger] ev.contexts[i]).owner)
}

/// Replacing the running context by one of the same owner keeps the owners.
broadcast proof fn lemma_with_top_owners(code: VmCode, ev: EventView, c: ContextView)
    requires
        event_owners_steppable(code, ev),
        ev.contexts.len() > 0,
        c.owner == ev.contexts.last().owner,
    ensures
        #[trigger] event_owners_steppable(code, with_top(ev, c)),
{
    let e1 = with_top(ev, c);
    assert forall|i: int| 0 <= i < e1.contexts.len() implies owner_steppable(code, (#[trigger] e1.contexts[i]).owner) by {
        if i < ev.contexts.len() - 1 {
            assert(e1.contexts[i] == ev.contexts[i]);
        } else {
            assert(owner_steppable(code, ev.contexts[ev.contexts.len() - 1].owner));
        }
    }
}

/// Adding a context whose owner is steppable keeps the owners steppable.
broadcast proof fn lemma_with_pushed_owners(code: VmCode, ev: EventView, c: ContextView)
    requires
        event_owners_steppable(code, ev),
        owner_steppable(code, c.owner),
    ensures
        #[trigger] event_owners_steppable(code, with_pushed(ev, c)),
{
    let e1 = with_pushed(ev, c);
    assert forall|i: int| 0 <= i < e1.contexts.len() implies owner_steppable(code, (#[trigger] e1.contexts[i]).owner) by {
        if i < ev.contexts.len() {
            assert(e1.contexts[i] == ev.contexts[i]);
        }
    }
}

/// Dropping the running context keeps the owners steppable.
broadcast proof fn lemma_without_top_owners(code: VmCode, ev: EventView)
    requires
        event_owners_steppable(code, ev),
        ev.contexts.len() > 0,
    ensures
        #[trigger] event_owners_steppable(code, without_top(ev)),
{
    let e1 = without_top(ev);
    assert forall|i: int| 0 <= i < e1.contexts.len() implies owner_steppable(code, (#[trigger] e1.contexts[i]).owner) by {
        assert(e1.contexts[i] == ev.contexts[i]);
    }
}

/// Moving to the next node keeps the owners steppable.
broadcast proof fn lemma_next_node_owners(code: VmCode, ev: EventView)
    requires
        event_owners_steppable(code, ev),
    ensures
        #[trigger] event_owners_steppable(code, spec_go_to_next_node(ev)),
    decreases ev.contexts.len(),
{
    broadcast use lemma_with_top_owners, lemma_without_top_owners;
    if ev.contexts.len() > 0 {
        lemma_next_node_owners(code, without_top(ev));
    }
}

/// A step keeps the owners of events' contexts among those there were.
proof fn lemma_step_keeps_owners(code: VmCode, names: Seq<Seq<char>>, ev: EventView, obs: StepInput)
    requires
        event_owners_steppable(code, ev),
    ensures
        step_spec(code, names, ev, obs) matches Some(Ok((_, ev1))) ==> event_owners_steppable(code, ev1),
{
    reveal(step_spec);
    match spec_current_node(code, ev) {
        None => {},
        Some(node) => {
            if node.node_type is Halt {
                lemma_next_node_owners(code, ev);
            } else {
                lemma_main_keeps_owners(code, names, ev, node, obs);
                if let Some(Ok(ev1)) = step_main(code, names, ev, node, obs) {
                    lemma_end_keeps_owners(code, ev1, node);
                }
            }
        },
    }
}

/// What a node does keeps the owners of events' contexts steppable.
proof fn lemma_main_keeps_owners(code: VmCode, names: Seq<Seq<char>>, ev: EventView, node: Node, obs: StepInput)
    requires
        event_owners_steppable(code, ev),
    ensures
        step_main(code, names, ev, node, obs) matches Some(Ok(ev1)) ==> event_owners_steppable(code, ev1),
{
    match node.node_type {
        NodeType::IfElse(if_else) => lemma_owners_if_else(code, ev, node, if_else, obs),
        NodeType::GetListItem(index) => lemma_owners_list_item(code, ev, node, index, obs),
        NodeType::GetObjectItem(key) => lemma_owners_object_item(code, ev, node, key, obs),
        NodeType::MutateValue => lemma_owners_mutate(code, ev, node, obs),
        NodeType::CallOperation(name) => lemma_owners_operation(code, names, ev, node, name, obs),
        NodeType::CallFunction(name) => lemma_owners_function(code, ev, node, name, obs),
        NodeType::CallMethod(tn, mn) => lemma_owners_method(code, ev, node, tn, mn, obs),
        _ => lemma_owners_plain(code, names, ev, node, obs),
    }
}

/// Nodes that only edit the running context, or move in it, keep the owners.
proof fn lemma_owners_plain(code: VmCode, names: Seq<Seq<char>>, ev: EventView, node: Node, obs: StepInput)
    requires
        event_owners_steppable(code, ev),
        !(node.node_type is IfElse || node.node_type is GetListItem || node.node_type is GetObjectItem
            || node.node_type is MutateValue || node.node_type is CallOperation || node.node_type is CallFunction
            || node.node_type is CallMethod),
    ensures
        step_main(code, names, ev, node, obs) matches Some(Ok(ev1)) ==> event_owners_steppable(code, ev1),
{
    broadcast use lemma_with_top_owners, lemma_with_pushed_owners, lemma_without_top_owners, lemma_next_node_owners;
}

/// An if-else node keeps the owners.
proof fn lemma_owners_if_else(code: VmCode, ev: EventView, node: Node, if_else: IfElse, obs: StepInput)
    requires
        event_owners_steppable(code, ev),
    ensures
        main_if_else(code, ev, node, if_else, obs) matches Some(Ok(ev1)) ==> event_owners_steppable(code, ev1),
{
    broadcast use lemma_with_top_owners, lemma_with_pushed_owners, lemma_without_top_owners, lemma_next_node_owners;
}

/// A list-item node keeps the owners.
proof fn lemma_owners_list_item(code: VmCode, ev: EventView, node: Node, index: usize, obs: StepInput)
    requires
        event_owners_steppable(code, ev),
    ensures
        main_list_item(ev, node, index, obs) matches Some(Ok(ev1)) ==> event_owners_steppable(code, ev1),
{
    broadcast use lemma_with_top_owners, lemma_with_pushed_owners, lemma_without_top_owners, lemma_next_node_owners;
}

/// An object-item node keeps the owners.
proof fn lemma_owners_object_item(code: VmCode, ev: EventView, node: Node, key: String, obs: StepInput)
    requires
        event_owners_steppable(code, ev),
    ensures
        main_object_item(ev, node, key, obs) matches Some(Ok(ev1)) ==> event_owners_steppable(code, ev1),
{
    broadcast use lemma_with_top_owners, lemma_with_pushed_owners, lemma_without_top_owners, lemma_next_node_owners;
}

/// A mutation node keeps the owners.
proof fn lemma_owners_mutate(code: VmCode, ev: EventView, node: Node, obs: StepInput)
    requires
        event_owners_steppable(code, ev),
    ensures
        main_mutate(ev, node, obs) matches Some(Ok(ev1)) ==> event_owners_steppable(code, ev1),
{
    broadcast use lemma_with_top_owners, lemma_with_pushed_owners, lemma_without_top_owners, lemma_next_node_owners;
}

/// An operation node keeps the owners.
proof fn lemma_owners_operation(code: VmCode, names: Seq<Seq<char>>, ev: EventView, node: Node, name: String, obs: StepInput)
    requires
        event_owners_steppable(code, ev),
    ensures
        main_operation(code, names, ev, node, name, obs) matches Some(Ok(ev1)) ==> event_owners_steppable(code, ev1),
{
    broadcast use lemma_with_top_owners, lemma_with_pushed_owners, lemma_without_top_owners, lemma_next_node_owners;
}

/// A function-call node adds a context owned by a function, never by an event.
proof fn lemma_owners_function(code: VmCode, ev: EventView, node: Node, name: String, obs: StepInput)
    requires
        event_owners_steppable(code, ev),
    ensures
        main_function(code, ev, node, name, obs) matches Some(Ok(ev1)) ==> event_owners_steppable(code, ev1),
{
    broadcast use lemma_with_top_owners, lemma_with_pushed_owners, lemma_without_top_owners, lemma_next_node_owners;
}

/// A method-call node adds a context owned by a method, never by an event.
proof fn lemma_owners_method(code: VmCode, ev: EventView, node: Node, tn: String, mn: String, obs: StepInput)
    requires
        event_owners_steppable(code, ev),
    ensures
        main_method(code, ev, node, tn, mn, obs) matches Some(Ok(ev1)) ==> event_owners_steppable(code, ev1),
{
    broadcast use lemma_with_top_owners, lemma_with_pushed_owners, lemma_without_top_owners, lemma_next_node_owners;
}

/// The move after a node's own work keeps the owners of events' contexts steppable.
proof fn lemma_end_keeps_owners(code: VmCode, ev: EventView, node: Node)
    requires
        event_owners_steppable(code, ev),
    ensures
        step_end(code, ev, node) matches Ok((_, ev1)) ==> event_owners_steppable(code, ev1),
{
    broadcast use lemma_with_top_owners, lemma_with_pushed_owners, lemma_without_top_owners, lemma_next_node_owners;
}

/// Whether the node an event is at, if any, is steppable.
pub open spec fn current_steppable(code: VmCode, ev: EventView) -> bool {
    spec_current_node(code, ev) matches Some(n) ==> node_steppable(code, n)
}

/// The method a type implements is one of its groups' methods.
proof fn lemma_impl_method_member(impls: Seq<(String, Vec<Method>)>, name: Seq<char>, i: int)
    requires
        0 <= i,
    ensures
        impl_method(impls, name, i) matches Some(m) ==> exists|j: int, k: int|
            0 <= j < impls.len() && 0 <= k < impls[j].1@.len() && #[trigger] impls[j].1@[k] == m,
    decreases impls.len() - i,
{
    if i < impls.len() {
        lemma_impl_method_member(impls, name, i + 1);
        ast::lemma_named_pos_from(impls[i].1@, name, 0);
        match named(impls[i].1@, name) {
            Some(m) => {
                let k = ast::named_pos(impls[i].1@, name)->0;
                assert(impls[i].1@[k] == m);
            },
            None => {},
        }
    }
}

/// In a program whose nodes are all steppable, so is the node an event is at.
pub proof fn lemma_current_steppable(code: VmCode, ev: EventView)
    requires
        program_steppable(code),
    ensures
        current_steppable(code, ev),
{
    assert forall|i: int| 0 <= i < ev.contexts.len() implies owner_steppable(code, (#[trigger] ev.contexts[i]).owner) by {
        if let VmContextOwner::Event(en) = ev.contexts[i].owner {
            ast::lemma_named_pos_from(code.ast.events@, en@, 0);
            if let Some(p) = ast::named_pos(code.ast.events@, en@) {
                assert(nodes_steppable(code, code.ast.events@[p].nodes@));
            }
        }
    }
    lemma_owned_current_steppable(code, ev);
}

/// Where the functions and methods are steppable, and so are the events that
/// own contexts of an event, the node the event is at is steppable.
proof fn lemma_owned_current_steppable(code: VmCode, ev: EventView)
    requires
        callables_steppable(code),
        event_owners_steppable(code, ev),
    ensures
        current_steppable(code, ev),
{
    match spec_current_node(code, ev) {
        None => {},
        Some(n) => {
            let c = top(ev)->0;
            let reference = c.execution[c.current->0 as int];
            match c.owner {
                VmContextOwner::Event(en) => {
                    ast::lemma_named_pos_from(code.ast.events@, en@, 0);
                    let p = ast::named_pos(code.ast.events@, en@)->0;
                    let e = code.ast.events@[p];
                    assert(owner_steppable(code, ev.contexts[ev.contexts.len() - 1].owner));
                    crate::flow::lemma_first_with_id_bound(e.nodes@, reference@, 0);
                    let k = find_node(e.nodes@, reference@)->0;
                    assert(nodes_steppable(code, e.nodes@));
                    assert(e.nodes@[k] == n);
                },
                VmContextOwner::Function(fname) => {
                    ast::lemma_named_pos_from(code.ast.functions@, fname@, 0);
                    let p = ast::named_pos(code.ast.functions@, fname@)->0;
                    let f = code.ast.functions@[p];
                    crate::flow::lemma_first_with_id_bound(f.nodes@, reference@, 0);
                    let k = find_node(f.nodes@, reference@)->0;
                    assert(nodes_steppable(code, f.nodes@));
                    assert(f.nodes@[k] == n);
                },
                VmContextOwner::Method(tn, mn) => {
                    let methods = name_lookup(code.type_methods@, tn@)->0;
                    let entry = name_lookup(methods@, mn@)->0;
                    ast::lemma_named_pos_from(code.ast.types@, tn@, 0);
                    let tp = ast::named_pos(code.ast.types@, tn@)->0;
                    let t = code.ast.types@[tp];
                    if entry.1 {
                        lemma_impl_method_member(t.traits_implementation@, mn@, 0);
                        let m = impl_method(t.traits_implementation@, mn@, 0)->0;
                        let (j, k) = choose|j: int, k: int|
                            0 <= j < t.traits_implementation@.len() && 0 <= k < t.traits_implementation@[j].1@.len()
                                && #[trigger] t.traits_implementation@[j].1@[k] == m;
                        assert(code.ast.types@[tp].traits_implementation@[j].1@[k] == m);
                        assert(nodes_steppable(code, m.nodes@));
                        crate::flow::lemma_first_with_id_bound(m.nodes@, reference@, 0);
                        let q = find_node(m.nodes@, reference@)->0;
                        assert(m.nodes@[q] == n);
                    } else {
                        ast::lemma_named_pos_from(code.ast.traits@, entry.0@, 0);
                        let rp = ast::named_pos(code.ast.traits@, entry.0@)->0;
                        let tr = code.ast.traits@[rp];
                        ast::lemma_named_pos_from(tr.methods@, mn@, 0);
                        let mp = ast::named_pos(tr.methods@, mn@)->0;
                        let m = tr.methods@[mp];
                        assert(code.ast.traits@[rp].methods@[mp] == m);
                        assert(nodes_steppable(code, m.nodes@));
                        crate::flow::lemma_first_with_id_bound(m.nodes@, reference@, 0);
                        let q = find_node(m.nodes@, reference@)->0;
                        assert(m.nodes@[q] == n);
                    }
                },
            }
        },
    }
}

/// Whether a call of `tn`'s `mn` would take the instance from a first input
/// (see `method_call_takes_instance`).
fn method_call_takes_instance_exec(code: &VmCode, tn: &String, mn: &String) -> (r: bool)
    ensures
        r == method_call_takes_instance(*code, *tn, *mn),
{
    match find_named(&code.ast.types, tn) {
        Some(i) => match find_called_method(code, &code.ast.types[i].traits_implementation, mn) {
            Some(m) => find_method_order(&code.method_execution_order, &m.name).is_some() && m.input_constrains.len() == 0,
            None => false,
        },
        None => false,
    }
}

/// Whether a step on the node cannot panic (see `node_steppable`).
pub fn node_steppable_exec(code: &VmCode, node: &Node) -> (r: bool)
    ensures
        r == node_steppable(*code, *node),
{
    match &node.node_type {
        NodeType::IfElse(_) | NodeType::SetOutput(_) | NodeType::GetListItem(_) | NodeType::GetObjectItem(_)
        | NodeType::MutateValue => node.input_links.len() > 0,
        NodeType::GetValue(data) => crate::value::keys_are_strings_exec(data),
        NodeType::CallMethod(tn, mn) => node.input_links.len() > 0 || !method_call_takes_instance_exec(code, tn, mn),
        _ => true,
    }
}

/// Whether every node of a flow graph is steppable.
fn nodes_steppable_exec(code: &VmCode, nodes: &Vec<Node>) -> (r: bool)
    ensures
        r == nodes_steppable(*code, nodes@),
{
    let mut i: usize = 0;
    while i < nodes.len()
        invariant
            i <= nodes@.len(),
            forall|j: int| 0 <= j < i ==> node_steppable(*code, #[trigger] nodes@[j]),
        decreases nodes@.len() - i,
    {
        if !node_steppable_exec(code, &nodes[i]) {
            return false;
        }
        i = i + 1;
    }
    true
}

/// Whether every node of the program is steppable (see `program_steppable`).
pub fn program_steppable_exec(code: &VmCode) -> (r: bool)
    ensures
        r == program_steppable(*code),
{
    let events = &code.ast.events;
    let mut i: usize = 0;
    while i < events.len()
        invariant
            i <= events@.len(),
            *events == code.ast.events,
            forall|j: int| 0 <= j < i ==> nodes_steppable(*code, (#[trigger] events@[j]).nodes@),
        decreases events@.len() - i,
    {
        if !nodes_steppable_exec(code, &events[i].nodes) {
            return false;
        }
        i = i + 1;
    }
    callables_steppable_exec(code)
}

/// Whether every node of every function and method flow graph is steppable.
pub(crate) fn callables_steppable_exec(code: &VmCode) -> (r: bool)
    ensures
        r == callables_steppable(*code),
{
    let functions = &code.ast.functions;
    let mut i: usize = 0;
    while i < functions.len()
        invariant
            i <= functions@.len(),
            *functions == code.ast.functions,
            forall|j: int| 0 <= j < i ==> nodes_steppable(*code, (#[trigger] functions@[j]).nodes@),
        decreases functions@.len() - i,
    {
        if !nodes_steppable_exec(code, &functions[i].nodes) {
            return false;
        }
        i = i + 1;
    }
    let traits = &code.ast.traits;
    let mut i: usize = 0;
    while i < traits.len()
        invariant
            i <= traits@.len(),
            *traits == code.ast.traits,
            forall|a: int, b: int|
                0 <= a < i && 0 <= b < traits@[a].methods@.len() ==> nodes_steppable(
                    *code,
                    (#[trigger] traits@[a].methods@[b]).nodes@,
                ),
        decreases traits@.len() - i,
    {
        let methods = &traits[i].methods;
        let mut j: usize = 0;
        while j < methods.len()
            invariant
                i < traits@.len(),
                j <= methods@.len(),
                *traits == code.ast.traits,
                *methods == traits@[i as int].methods,
                forall|a: int, b: int|
                    0 <= a < i && 0 <= b < traits@[a].methods@.len() ==> nodes_steppable(
                        *code,
                        (#[trigger] traits@[a].methods@[b]).nodes@,
                    ),
                forall|b: int| 0 <= b < j ==> nodes_steppable(*code, (#[trigger] methods@[b]).nodes@),
            decreases methods@.len() - j,
        {
            if !nodes_steppable_exec(code, &methods[j].nodes) {
                assert(!nodes_steppable(*code, code.ast.traits@[i as int].methods@[j as int].nodes@));
                return false;
            }
            j = j + 1;
        }
        i = i + 1;
    }
    let types = &code.ast.types;
    let mut i: usize = 0;
    while i < types.len()
        invariant
            i <= types@.len(),
            *types == code.ast.types,
            forall|a: int, b: int, c: int|
                0 <= a < i && 0 <= b < types@[a].traits_implementation@.len() && 0 <= c
                    < types@[a].traits_implementation@[b].1@.len() ==> nodes_steppable(
                    *code,
                    (#[trigger] types@[a].traits_implementation@[b].1@[c]).nodes@,
                ),
        decreases types@.len() - i,
    {
        let impls = &types[i].traits_implementation;
        let mut j: usize = 0;
        while j < impls.len()
            invariant
                i < types@.len(),
                j <= impls@.len(),
                *types == code.ast.types,
                *impls == types@[i as int].traits_implementation,
                forall|a: int, b: int, c: int|
                    0 <= a < i && 0 <= b < types@[a].traits_implementation@.len() && 0 <= c
                        < types@[a].traits_implementation@[b].1@.len() ==> nodes_steppable(
                        *code,
                        (#[trigger] types@[a].traits_implementation@[b].1@[c]).nodes@,
                    ),
                forall|b: int, c: int|
                    0 <= b < j && 0 <= c < impls@[b].1@.len() ==> nodes_steppable(
                        *code,
                        (#[trigger] impls@[b].1@[c]).nodes@,
                    ),
            decreases impls@.len() - j,
        {
            let methods = &impls[j].1;
            let mut k: usize = 0;
            while k < methods.len()
                invariant
                    i < types@.len(),
                    j < impls@.len(),
                    k <= methods@.len(),
                    *types == code.ast.types,
                    *impls == types@[i as int].traits_implementation,
                    *methods == impls@[j as int].1,
                    forall|a: int, b: int, c: int|
                        0 <= a < i && 0 <= b < types@[a].traits_implementation@.len() && 0 <= c
                            < types@[a].traits_implementation@[b].1@.len() ==> nodes_steppable(
                            *code,
                            (#[trigger] types@[a].traits_implementation@[b].1@[c]).nodes@,
                        ),
                    forall|b: int, c: int|
                        0 <= b < j && 0 <= c < impls@[b].1@.len() ==> nodes_steppable(
                            *code,
                            (#[trigger] impls@[b].1@[c]).nodes@,
                        ),
                    forall|c: int| 0 <= c < k ==> nodes_steppable(*code, (#[trigger] methods@[c]).nodes@),
                decreases methods@.len() - k,
            {
                if !nodes_steppable_exec(code, &methods[k].nodes) {
                    assert(!nodes_steppable(*code, code.ast.types@[i as int].traits_implementation@[j as int].1@[k as int].nodes@));
                    return false;
                }
                k = k + 1;
            }
            j = j + 1;
        }
        i = i + 1;
    }
    true
}

/// The largest number of steps one call runs an event for.
pub const STEP_LIMIT: u64 = 0xffff_ffff_ffff_ffff;

/// The event after steps that each continue, in order; `None` where one does
/// not, or does not fit what it learned from outside.
pub open spec fn trace(code: VmCode, names: Seq<Seq<char>>, ev: EventView, obs: Seq<StepInput>) -> Option<EventView>
    decreases obs.len(),
{
    if obs.len() == 0 {
        Some(ev)
    } else {
        match trace(code, names, ev, obs.drop_last()) {
            Some(e) => match step_spec(code, names, e, obs.last()) {
                Some(Ok((VmStepStatus::Continue, e1))) => Some(e1),
                _ => None,
            },
            None => None,
        }
    }
}

/// Running an event until a step halts, stops or fails, or for `STEP_LIMIT`
/// steps: whether it is still running, and how it is left.
pub open spec fn process_spec(code: VmCode, names: Seq<Seq<char>>, ev: EventView, obs: Seq<StepInput>) -> Option<Result<(bool, EventView), VmError>> {
    if obs.len() == 0 {
        None
    } else {
        match trace(code, names, ev, obs.drop_last()) {
            None => None,
            Some(e) => match step_spec(code, names, e, obs.last()) {
                None => None,
                Some(Err((err, _))) => Some(Err(err)),
                Some(Ok((VmStepStatus::Halt, e1))) => Some(Ok((true, e1))),
                Some(Ok((VmStepStatus::Stop, e1))) => Some(Ok((false, e1))),
                Some(Ok((VmStepStatus::Continue, e1))) => if obs.len() == STEP_LIMIT {
                    Some(Ok((true, e1)))
                } else {
                    None
                },
            },
        }
    }
}

/// Whether no step of a run of the event can panic, whatever the run learns
/// from outside: every event that steps which continue can reach is at a
/// steppable node.
pub open spec fn run_safe(code: VmCode, names: Seq<Seq<char>>, ev: EventView) -> bool {
    forall|obs: Seq<StepInput>| #[trigger] trace(code, names, ev, obs) matches Some(e) ==> current_steppable(code, e)
}

/// In a program whose nodes are all steppable, every run is safe.
pub proof fn lemma_steppable_run_safe(code: VmCode, names: Seq<Seq<char>>, ev: EventView)
    requires
        program_steppable(code),
    ensures
        run_safe(code, names, ev),
{
    assert forall|obs: Seq<StepInput>| (#[trigger] trace(code, names, ev, obs)) is Some implies current_steppable(
        code,
        trace(code, names, ev, obs)->0,
    ) by {
        lemma_current_steppable(code, trace(code, names, ev, obs)->0);
    }
}

/// Steps that continue keep the owners of events' contexts steppable.
proof fn lemma_trace_keeps_owners(code: VmCode, names: Seq<Seq<char>>, ev: EventView, obs: Seq<StepInput>)
    requires
        event_owners_steppable(code, ev),
    ensures
        trace(code, names, ev, obs) matches Some(e) ==> event_owners_steppable(code, e),
    decreases obs.len(),
{
    if obs.len() > 0 {
        lemma_trace_keeps_owners(code, names, ev, obs.drop_last());
        if let Some(e) = trace(code, names, ev, obs.drop_last()) {
            lemma_step_keeps_owners(code, names, e, obs.last());
        }
    }
}

/// An event runs safely where the functions and methods are steppable, and
/// so are the events that own its contexts: other events' flow graphs play
/// no part in its run.
pub proof fn lemma_owned_run_safe(code: VmCode, names: Seq<Seq<char>>, ev: EventView)
    requires
        callables_steppable(code),
        event_owners_steppable(code, ev),
    ensures
        run_safe(code, names, ev),
{
    assert forall|obs: Seq<StepInput>| (#[trigger] trace(code, names, ev, obs)) is Some implies current_steppable(
        code,
        trace(code, names, ev, obs)->0,
    ) by {
        lemma_trace_keeps_owners(code, names, ev, obs);
        lemma_owned_current_steppable(code, trace(code, names, ev, obs)->0);
    }
}

/// Whether every event that owns one of the contexts is steppable.
pub(crate) fn event_owners_steppable_exec(code: &VmCode, event: &VmEvent) -> (r: bool)
    ensures
        r == event_owners_steppable(*code, event@),
{
    let mut i: usize = 0;
    while i < event.contexts.len()
        invariant
            i <= event.contexts@.len(),
            forall|j: int| 0 <= j < i ==> owner_steppable(*code, (#[trigger] event@.contexts[j]).owner),
        decreases event.contexts@.len() - i,
    {
        assert(event@.contexts[i as int] == event.contexts@[i as int]@);
        if let VmContextOwner::Event(en) = &event.contexts[i].owner {
            if let Some(k) = find_named(&code.ast.events, en) {
                if !nodes_steppable_exec(code, &code.ast.events[k].nodes) {
                    return false;
                }
            }
        }
        i = i + 1;
    }
    true
}

/// How running an event ended, with the event it left.
pub open spec fn run_outcome(r: Result<bool, VmError>, ev: EventView) -> Result<(bool, EventView), VmError> {
    match r {
        Ok(b) => Ok((b, ev)),
        Err(e) => Err(e),
    }
}

/// A position found in an execution order holds the identifier looked for.
proof fn lemma_exec_pos(s: Seq<ast::Reference>, id: RefKey, i: int)
    requires
        0 <= i,
    ensures
        exec_pos(s, id, i) matches Some(p) ==> i <= p < s.len() && s[p]@ == id,
    decreases s.len() - i,
{
    if i < s.len() {
        lemma_exec_pos(s, id, i + 1);
    }
}

/// Collected inputs hold, in link order, the output that each link names.
proof fn lemma_collect_inputs_each(ev: EventView, links: Seq<Link>, m: int)
    requires
        0 <= m,
    ensures
        collect_inputs(ev, links, m) matches Ok(v) ==> v.len() == m && forall|k: int|
            0 <= k < m ==> spec_get_node_output(ev, links[k]) == Ok::<Reference, VmError>(#[trigger] v[k]),
    decreases m,
{
    if m > 0 {
        lemma_collect_inputs_each(ev, links, m - 1);
    }
}

/// The node a reference names depends on the reference's key alone.
proof fn lemma_get_node_by_key(code: VmCode, ev: EventView, a: ast::Reference, b: ast::Reference)
    requires
        a@ == b@,
        spec_get_node(code, ev, a) is Ok,
    ensures
        spec_get_node(code, ev, b) == spec_get_node(code, ev, a),
{
}

/// An if-else node whose first input reads `true` moves the event to the
/// node that `next_node_true` names, wherever that node stands in the
/// running context's execution order.
pub proof fn law_if_else_true(code: VmCode, names: Seq<Seq<char>>, ev: EventView, node: Node, if_else: IfElse, target: Node)
    requires
        node.node_type == NodeType::IfElse(if_else),
        spec_get_node_output(ev, node.input_links@[0]) is Ok,
        spec_get_node(code, ev, if_else.next_node_true) == Ok::<Node, VmError>(target),
        top(ev) matches Some(c) && exec_pos(c.execution, target.id@, 0) is Some && c.execution.len() <= usize::MAX,
    ensures
        step_main(code, names, ev, node, StepInput::Read(Some(Value::Bool(true)))) matches Some(Ok(ev1)) && {
            &&& spec_current_node(code, ev1) == Some(target)
            &&& top(ev1) matches Some(c1) && c1.jump_stack == top(ev)->0.jump_stack.push(VmJump::IfElse(node.id))
        },
{
    lemma_if_else_goes(code, names, ev, node, if_else, true, if_else.next_node_true, target);
}

/// An if-else node whose first input reads `false` moves the event to the
/// node that `next_node_false` names, wherever that node stands in the
/// running context's execution order.
pub proof fn law_if_else_false(code: VmCode, names: Seq<Seq<char>>, ev: EventView, node: Node, if_else: IfElse, target: Node)
    requires
        node.node_type == NodeType::IfElse(if_else),
        spec_get_node_output(ev, node.input_links@[0]) is Ok,
        spec_get_node(code, ev, if_else.next_node_false) == Ok::<Node, VmError>(target),
        top(ev) matches Some(c) && exec_pos(c.execution, target.id@, 0) is Some && c.execution.len() <= usize::MAX,
    ensures
        step_main(code, names, ev, node, StepInput::Read(Some(Value::Bool(false)))) matches Some(Ok(ev1)) && {
            &&& spec_current_node(code, ev1) == Some(target)
            &&& top(ev1) matches Some(c1) && c1.jump_stack == top(ev)->0.jump_stack.push(VmJump::IfElse(node.id))
        },
{
    lemma_if_else_goes(code, names, ev, node, if_else, false, if_else.next_node_false, target);
}

proof fn lemma_if_else_goes(
    code: VmCode,
    names: Seq<Seq<char>>,
    ev: EventView,
    node: Node,
    if_else: IfElse,
    b: bool,
    reference: ast::Reference,
    target: Node,
)
    requires
        node.node_type == NodeType::IfElse(if_else),
        reference == (if b { if_else.next_node_true } else { if_else.next_node_false }),
        spec_get_node_output(ev, node.input_links@[0]) is Ok,
        spec_get_node(code, ev, reference) == Ok::<Node, VmError>(target),
        top(ev) matches Some(c) && exec_pos(c.execution, target.id@, 0) is Some && c.execution.len() <= usize::MAX,
    ensures
        step_main(code, names, ev, node, StepInput::Read(Some(Value::Bool(b)))) matches Some(Ok(ev1)) && {
            &&& spec_current_node(code, ev1) == Some(target)
            &&& top(ev1) matches Some(c1) && c1.jump_stack == top(ev)->0.jump_stack.push(VmJump::IfElse(node.id))
        },
{
    let c = top(ev)->0;
    let pushed = spec_push_jump(ev, VmJump::IfElse(node.id));
    lemma_goes_to(code, pushed, reference, target);
}

/// Moving to the node a reference names, where the running context's
/// execution order holds it, makes it the current node and leaves the rest
/// of the context as it was.
proof fn lemma_goes_to(code: VmCode, ev: EventView, reference: ast::Reference, target: Node)
    requires
        spec_get_node(code, ev, reference) == Ok::<Node, VmError>(target),
        top(ev) matches Some(c) && exec_pos(c.execution, target.id@, 0) is Some && c.execution.len() <= usize::MAX,
    ensures
        spec_go_to_node(code, ev, reference) matches (Ok(()), ev1) && {
            &&& spec_current_node(code, ev1) == Some(target)
            &&& top(ev1) matches Some(c1) && c1.jump_stack == top(ev)->0.jump_stack
        },
{
    let c = top(ev)->0;
    let p = exec_pos(c.execution, target.id@, 0)->0;
    lemma_exec_pos(c.execution, target.id@, 0);
    let (r, ev1) = spec_go_to_node(code, ev, reference);
    lemma_get_node_key(code, ev, reference);
    assert(target.id@ == reference@);
    assert(r is Ok);
    assert(top(ev1) matches Some(c3) && c3.owner == c.owner && c3.execution == c.execution && c3.current == Some(p as usize));
    assert(c.execution[p]@ == target.id@);
    assert(spec_get_node(code, ev1, reference) == Ok::<Node, VmError>(target));
    lemma_get_node_by_key(code, ev1, reference, c.execution[p]);
    assert(spec_get_node(code, ev1, c.execution[p]) == Ok::<Node, VmError>(target));
    assert((p as usize) as int == p);
    assert(spec_current_node(code, ev1) == Some(target));
}

/// A loop node starts its body: the event moves to the node the body names,
/// with the loop on the jump stack.
pub proof fn law_loop_enters_body(code: VmCode, names: Seq<Seq<char>>, ev: EventView, node: Node, body: ast::Reference, target: Node)
    requires
        node.node_type == NodeType::Loop(body),
        spec_get_node(code, ev, body) == Ok::<Node, VmError>(target),
        top(ev) matches Some(c) && exec_pos(c.execution, target.id@, 0) is Some && c.execution.len() <= usize::MAX,
    ensures
        step_main(code, names, ev, node, StepInput::Nothing) matches Some(Ok(ev1)) && {
            &&& spec_current_node(code, ev1) == Some(target)
            &&& top(ev1) matches Some(c1) && c1.jump_stack == top(ev)->0.jump_stack.push(VmJump::Loop(node.id))
        },
{
    lemma_goes_to(code, spec_push_jump(ev, VmJump::Loop(node.id)), body, target);
}

/// A break node inside a loop leaves it: the loop comes off the jump stack
/// and the event moves to the node after the loop.
pub proof fn law_break_leaves_loop(
    code: VmCode,
    names: Seq<Seq<char>>,
    ev: EventView,
    node: Node,
    id: ast::Reference,
    looped: Node,
    target: Node,
)
    requires
        node.node_type is Break,
        top(ev) matches Some(c) && c.jump_stack.len() > 0 && c.jump_stack.last() == VmJump::Loop(id)
            && exec_pos(c.execution, target.id@, 0) is Some && c.execution.len() <= usize::MAX,
        spec_get_node(code, ev, id) == Ok::<Node, VmError>(looped),
        looped.node_type is Loop,
        spec_get_node(code, ev, looped.next_node) == Ok::<Node, VmError>(target),
    ensures
        step_main(code, names, ev, node, StepInput::Nothing) matches Some(Ok(ev1)) && {
            &&& spec_current_node(code, ev1) == Some(target)
            &&& top(ev1) matches Some(c1) && c1.jump_stack == top(ev)->0.jump_stack.drop_last()
        },
{
    let (_, popped) = spec_pop_jump(ev);
    lemma_goes_to(code, popped, looped.next_node, target);
}

/// A continue node inside a loop starts the loop's body again: the loop comes
/// off the jump stack and the event moves to the node the body names.
pub proof fn law_continue_restarts_body(
    code: VmCode,
    names: Seq<Seq<char>>,
    ev: EventView,
    node: Node,
    id: ast::Reference,
    body: ast::Reference,
    target: Node,
)
    requires
        node.node_type is Continue,
        top(ev) matches Some(c) && c.jump_stack.len() > 0 && c.jump_stack.last() == VmJump::Loop(id)
            && exec_pos(c.execution, target.id@, 0) is Some && c.execution.len() <= usize::MAX,
        spec_get_node(code, ev, id) matches Ok(looped) && looped.node_type == NodeType::Loop(body),
        spec_get_node(code, ev, body) == Ok::<Node, VmError>(target),
    ensures
        step_main(code, names, ev, node, StepInput::Nothing) matches Some(Ok(ev1)) && {
            &&& spec_current_node(code, ev1) == Some(target)
            &&& top(ev1) matches Some(c1) && c1.jump_stack == top(ev)->0.jump_stack.drop_last()
        },
{
    let (_, popped) = spec_pop_jump(ev);
    lemma_goes_to(code, popped, body, target);
}

/// The node a reference names carries the reference's key.
proof fn lemma_get_node_key(code: VmCode, ev: EventView, reference: ast::Reference)
    ensures
        spec_get_node(code, ev, reference) matches Ok(n) ==> n.id@ == reference@,
{
    broadcast use lemma_node_in_key;
}

/// The node found for a reference carries the reference's key.
broadcast proof fn lemma_node_in_key(nodes: Seq<Node>, reference: ast::Reference)
    ensures
        #[trigger] node_in(nodes, reference) matches Ok(n) ==> n.id@ == reference@,
{
    crate::flow::lemma_first_with_id_bound(nodes, reference@, 0);
}

/// A step that runs a host operation hands it, in link order, the outputs
/// that the input links of the node it is at name.
pub proof fn law_operation_handed_link_outputs(code: VmCode, names: Seq<Seq<char>>, ev: EventView, obs: StepInput)
    requires
        step_spec(code, names, ev, obs) is Some,
    ensures
        obs matches StepInput::Operation(_, handed, _) ==> {
            &&& spec_current_node(code, ev) matches Some(node)
            &&& handed.len() == node.input_links@.len()
            &&& forall|k: int|
                0 <= k < handed.len() ==> spec_get_node_output(ev, node.input_links@[k]) == Ok::<Reference, VmError>(
                    #[trigger] handed[k],
                )
        },
{
    reveal(step_spec);
    if let Some(node) = spec_current_node(code, ev) {
        lemma_collect_inputs_each(ev, node.input_links@, node.input_links@.len() as int);
    }
}

/// A function or method call that starts runs a new context on top, called
/// from the node, whose inputs are, in link order, the outputs that the
/// node's input links name; a method's instance is the first of them.
pub proof fn law_call_hands_link_outputs(code: VmCode, names: Seq<Seq<char>>, ev: EventView, node: Node, obs: StepInput)
    requires
        node.node_type is CallFunction || node.node_type is CallMethod,
    ensures
        step_main(code, names, ev, node, obs) matches Some(Ok(ev1)) ==> {
            &&& ev1.contexts.len() == ev.contexts.len() + 1
            &&& ev1.contexts.drop_last() == ev.contexts
            &&& top(ev1) matches Some(c) && {
                &&& c.caller_node == Some(node.id)
                &&& c.inputs.len() == node.input_links@.len()
                &&& forall|k: int|
                    0 <= k < c.inputs.len() ==> spec_get_node_output(ev, node.input_links@[k]) == Ok::<Reference, VmError>(
                        #[trigger] c.inputs[k],
                    )
                &&& node.node_type is CallMethod ==> (c.instance matches Some(x) && spec_get_node_output(
                    ev,
                    node.input_links@[0],
                ) == Ok::<Reference, VmError>(x))
            }
        },
{
    lemma_collect_inputs_each(ev, node.input_links@, node.input_links@.len() as int);
    if let Some(Ok(ev1)) = step_main(code, names, ev, node, obs) {
        assert(ev1.contexts.drop_last() =~= ev.contexts);
    }
}

} // verus!
