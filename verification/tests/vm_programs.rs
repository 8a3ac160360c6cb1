use oxygen_flow::ast::{
    Event, Function, Link, Method, Node, NodeType, Number, Operation, PrefabValue, Program,
    Reference as NodeRef, Trait, Type, Variable, GUID,
};
use oxygen_flow::error::{VmError, VmOperationError};
use oxygen_flow::value::{Reference, Value};
use oxygen_flow::vm::{Vm, VmOperation, VERSION, VERSION_MIN};

fn named(s: &str) -> NodeRef {
    NodeRef::Named(s.to_string())
}

fn node(id: &str, node_type: NodeType, next: Option<&str>, links: Vec<Link>) -> Node {
    Node {
        id: named(id),
        node_type,
        next_node: match next {
            Some(n) => named(n),
            None => NodeRef::Unset,
        },
        input_links: links,
    }
}

fn link(id: &str, index: usize) -> Link {
    Link::NodeIndexed(named(id), index)
}

fn event(name: &str, inputs: usize, outputs: usize, nodes: Vec<Node>) -> Event {
    Event {
        name: name.to_string(),
        input_constrains: (0..inputs).map(|i| format!("in{}", i)).collect(),
        output_constrains: (0..outputs).map(|i| format!("out{}", i)).collect(),
        variables: vec![],
        nodes,
    }
}

fn program(events: Vec<Event>) -> Program {
    Program {
        version: 1,
        types: vec![],
        traits: vec![],
        functions: vec![],
        events,
        variables: vec![],
        operations: vec![],
    }
}

/// entry -> value(42) -> set output 0
fn answer_event() -> Event {
    event(
        "main",
        0,
        1,
        vec![
            node("entry", NodeType::Entry, Some("value"), vec![]),
            node(
                "value",
                NodeType::GetValue(PrefabValue::Number(Number::PosInt(42))),
                Some("set"),
                vec![],
            ),
            node("set", NodeType::SetOutput(0), None, vec![link("value", 0)]),
        ],
    )
}

fn is_answer(r: &Reference) -> bool {
    matches!(r.read(), Value::Number(Number::PosInt(42)))
}

#[test]
fn version_range_is_one_to_one() {
    assert_eq!(Vm::version_range(), (1, 1));
    assert_eq!((VERSION_MIN, VERSION), (1, 1));
}

#[test]
fn new_refuses_other_versions() {
    let mut p = program(vec![]);
    p.version = 2;
    assert!(matches!(
        Vm::new(p),
        Err(VmError::ProgramCompiledForDifferentVersion(2, 1))
    ));
    let mut p = program(vec![]);
    p.version = 0;
    assert!(matches!(
        Vm::new(p),
        Err(VmError::ProgramCompiledForDifferentVersion(0, 1))
    ));
}

#[test]
fn empty_program_loads() {
    let vm = Vm::new(program(vec![])).unwrap();
    assert!(matches!(
        vm.global_variable_value("x"),
        Err(VmError::GlobalVariableDoesNotExists(NodeRef::Named(ref s))) if s == "x"
    ));
    assert!(vm.is_runnable());
}

#[test]
fn try_new_loads_as_new_does() {
    assert!(matches!(Vm::try_new(program(vec![answer_event()])), Some(Ok(_))));
    let mut p = program(vec![]);
    p.version = 3;
    assert!(matches!(
        Vm::try_new(p),
        Some(Err(VmError::ProgramCompiledForDifferentVersion(3, 1)))
    ));
}

#[test]
fn global_write_then_read() {
    let mut p = program(vec![]);
    p.variables = vec![Variable { name: "score".to_string() }];
    let mut vm = Vm::new(p).unwrap();
    let before = vm.global_variable_value("score").unwrap();
    assert!(matches!(before.read(), Value::Null));
    let previous = vm
        .set_global_variable_value("score", Reference::value(Value::Bool(true)))
        .unwrap();
    assert!(matches!(previous.read(), Value::Null));
    let after = vm.global_variable_value("score").unwrap();
    assert!(matches!(after.read(), Value::Bool(true)));
    assert!(matches!(
        vm.set_global_variable_value("missing", Reference::value(Value::Null)),
        Err(VmError::GlobalVariableDoesNotExists(NodeRef::Named(ref s))) if s == "missing"
    ));
}

struct Constant(u64);

impl VmOperation for Constant {
    fn execute(&mut self, _inputs: &[Reference]) -> Result<Vec<Reference>, VmOperationError> {
        Ok(vec![Reference::value(Value::Number(Number::PosInt(self.0)))])
    }
}

struct Failing;

impl VmOperation for Failing {
    fn execute(&mut self, inputs: &[Reference]) -> Result<Vec<Reference>, VmOperationError> {
        Err(VmOperationError::CouldNotPerformOperation {
            message: "no".to_string(),
            name: "fail".to_string(),
            inputs: inputs.iter().map(|r| r.read()).collect(),
        })
    }
}

#[test]
fn register_then_unregister() {
    let mut vm = Vm::new(program(vec![])).unwrap();
    assert!(!vm.unregister_operator("seven"));
    vm.register_operation("seven", Constant(7));
    vm.register_operation("seven", Constant(8));
    assert!(vm.unregister_operator("seven"));
    assert!(!vm.unregister_operator("seven"));
}

#[test]
fn run_event_errors() {
    let mut vm = Vm::new(program(vec![answer_event()])).unwrap();
    assert!(matches!(
        vm.run_event("other", vec![]),
        Err(VmError::CouldNotRunEvent(ref s)) if s == "other"
    ));
    assert!(matches!(
        vm.run_event("main", vec![Reference::value(Value::Null)]),
        Err(VmError::WrongNumberOfInputs(0, 1))
    ));
}

#[test]
fn event_runs_to_completion() {
    let mut vm = Vm::new(program(vec![answer_event()])).unwrap();
    let guid = vm.run_event("main", vec![]).unwrap();
    assert!(vm.is_runnable());
    vm.process_events().unwrap();
    let outputs = vm.get_completed_event(guid).unwrap();
    assert_eq!(outputs.len(), 1);
    assert!(is_answer(&outputs[0]));
    assert!(vm.get_completed_event(guid).is_none());
}

#[test]
fn started_events_get_fresh_identifiers() {
    let mut vm = Vm::new(program(vec![answer_event()])).unwrap();
    let a = vm.run_event("main", vec![]).unwrap();
    let b = vm.run_event("main", vec![]).unwrap();
    assert_ne!(a, b);
    vm.process_events().unwrap();
    let done = vm.get_completed_events();
    assert_eq!(done.len(), 2);
    assert!(done.iter().any(|(g, _)| *g == a));
    assert!(done.iter().any(|(g, _)| *g == b));
    assert!(vm.get_completed_events().is_empty());
}

#[test]
fn single_steps_reach_the_output() {
    let mut vm = Vm::new(program(vec![answer_event()])).unwrap();
    let guid = vm.run_event("main", vec![]).unwrap();
    for _ in 0..3 {
        assert!(vm.can_step(guid));
        vm.single_step_event(guid).unwrap();
    }
    // The event is still listed as running: only `process_events` completes events.
    assert!(vm.get_completed_event(guid).is_none());
    vm.process_events().unwrap();
    let outputs = vm.get_completed_event(guid).unwrap();
    assert!(is_answer(&outputs[0]));
}

#[test]
fn single_step_of_unknown_event() {
    let mut vm = Vm::new(program(vec![answer_event()])).unwrap();
    assert!(matches!(
        vm.single_step_event(GUID(99)),
        Err(VmError::EventDoesNotExists(NodeRef::Guid(GUID(99))))
    ));
}

#[test]
fn destroy_then_take_once() {
    let mut vm = Vm::new(program(vec![answer_event()])).unwrap();
    let guid = vm.run_event("main", vec![]).unwrap();
    vm.destroy_event(guid).unwrap();
    let outputs = vm.get_completed_event(guid).unwrap();
    assert!(outputs.is_empty());
    assert!(vm.get_completed_event(guid).is_none());
    assert!(matches!(
        vm.destroy_event(guid),
        Err(VmError::EventDoesNotExists(NodeRef::Guid(g))) if g == guid
    ));
}

#[test]
fn halted_event_stays_running() {
    let ev = event(
        "main",
        0,
        1,
        vec![
            node("entry", NodeType::Entry, Some("halt"), vec![]),
            node("halt", NodeType::Halt, Some("value"), vec![]),
            node(
                "value",
                NodeType::GetValue(PrefabValue::Number(Number::PosInt(42))),
                Some("set"),
                vec![],
            ),
            node("set", NodeType::SetOutput(0), None, vec![link("value", 0)]),
        ],
    );
    let mut vm = Vm::new(program(vec![ev])).unwrap();
    let guid = vm.run_event("main", vec![]).unwrap();
    vm.process_events().unwrap();
    assert!(vm.get_completed_event(guid).is_none());
    vm.process_events().unwrap();
    let outputs = vm.get_completed_event(guid).unwrap();
    assert!(is_answer(&outputs[0]));
}

#[test]
fn inputs_flow_to_outputs() {
    let ev = event(
        "echo",
        1,
        1,
        vec![
            node("entry", NodeType::Entry, Some("get"), vec![]),
            node("get", NodeType::GetInput(0), Some("set"), vec![]),
            node("set", NodeType::SetOutput(0), None, vec![link("get", 0)]),
        ],
    );
    let mut vm = Vm::new(program(vec![ev])).unwrap();
    let input = Reference::value(Value::String("hi".to_string()));
    let guid = vm.run_event("echo", vec![input.clone()]).unwrap();
    vm.process_events().unwrap();
    let outputs = vm.get_completed_event(guid).unwrap();
    // The output is the input's own cell: a write through one is seen by the other.
    let mut writer = input;
    writer.write(Value::Bool(false));
    assert!(matches!(outputs[0].read(), Value::Bool(false)));
}

#[test]
fn missing_input_fails_the_step() {
    let ev = event(
        "main",
        0,
        1,
        vec![
            node("entry", NodeType::Entry, Some("get"), vec![]),
            node("get", NodeType::GetInput(3), Some("set"), vec![]),
            node("set", NodeType::SetOutput(0), None, vec![link("get", 0)]),
        ],
    );
    let mut vm = Vm::new(program(vec![ev])).unwrap();
    let guid = vm.run_event("main", vec![]).unwrap();
    assert!(matches!(
        vm.process_events(),
        Err(VmError::InputDoesNotExists(3))
    ));
    // The failed event is dropped.
    assert!(matches!(
        vm.single_step_event(guid),
        Err(VmError::EventDoesNotExists(_))
    ));
}

fn operation_program(op_name: &str) -> Program {
    let ev = event(
        "main",
        0,
        1,
        vec![
            node("entry", NodeType::Entry, Some("call"), vec![]),
            node(
                "call",
                NodeType::CallOperation(op_name.to_string()),
                Some("set"),
                vec![],
            ),
            node("set", NodeType::SetOutput(0), None, vec![link("call", 0)]),
        ],
    );
    let mut p = program(vec![ev]);
    p.operations = vec![Operation {
        name: op_name.to_string(),
        input_constrains: vec![],
        output_constrains: vec!["value".to_string()],
    }];
    p
}

#[test]
fn operation_results_become_outputs() {
    let mut vm = Vm::new(operation_program("answer")).unwrap();
    vm.register_operation("answer", Constant(42));
    let guid = vm.run_event("main", vec![]).unwrap();
    vm.process_events().unwrap();
    let outputs = vm.get_completed_event(guid).unwrap();
    assert!(is_answer(&outputs[0]));
}

#[test]
fn registering_again_replaces_the_operation() {
    let mut vm = Vm::new(operation_program("answer")).unwrap();
    vm.register_operation("answer", Constant(7));
    vm.register_operation("answer", Constant(42));
    let guid = vm.run_event("main", vec![]).unwrap();
    vm.process_events().unwrap();
    let outputs = vm.get_completed_event(guid).unwrap();
    assert!(is_answer(&outputs[0]));
}

#[test]
fn unregistering_keeps_other_operations() {
    let mut vm = Vm::new(operation_program("answer")).unwrap();
    vm.register_operation("other", Constant(7));
    vm.register_operation("answer", Constant(42));
    vm.register_operation("third", Constant(9));
    assert!(vm.unregister_operator("other"));
    let guid = vm.run_event("main", vec![]).unwrap();
    vm.process_events().unwrap();
    let outputs = vm.get_completed_event(guid).unwrap();
    assert!(is_answer(&outputs[0]));
}

#[test]
fn unregistered_operation_fails() {
    let mut vm = Vm::new(operation_program("answer")).unwrap();
    vm.run_event("main", vec![]).unwrap();
    assert!(matches!(
        vm.process_events(),
        Err(VmError::OperationIsNotRegistered(ref s)) if s == "answer"
    ));
}

#[test]
fn failing_operation_reports_a_message() {
    let mut vm = Vm::new(operation_program("fail")).unwrap();
    vm.register_operation("fail", Failing);
    vm.run_event("main", vec![]).unwrap();
    match vm.process_events() {
        Err(VmError::Message(m)) => {
            assert!(m.starts_with("Error during call to \"fail\" operation: CouldNotPerformOperation"));
            assert!(m.contains("message: \"no\""));
        }
        other => panic!("unexpected result: {:?}", other),
    }
}

#[test]
fn unknown_operation_fails() {
    let mut p = operation_program("answer");
    p.operations.clear();
    let mut vm = Vm::new(p).unwrap();
    vm.run_event("main", vec![]).unwrap();
    assert!(matches!(
        vm.process_events(),
        Err(VmError::OperationDoesNotExists(NodeRef::Named(ref s))) if s == "answer"
    ));
}

#[test]
fn cycle_is_refused() {
    let ev = event(
        "main",
        0,
        0,
        vec![
            node("entry", NodeType::Entry, Some("a"), vec![]),
            node("a", NodeType::Knot, Some("b"), vec![]),
            node("b", NodeType::Knot, Some("a"), vec![]),
        ],
    );
    assert!(matches!(
        Vm::new(program(vec![ev])),
        Err(VmError::FoundCycleInFlowGraph)
    ));
}

#[test]
fn entry_is_required_once() {
    let none = event(
        "main",
        0,
        0,
        vec![node("a", NodeType::Knot, None, vec![])],
    );
    assert!(matches!(
        Vm::new(program(vec![none])),
        Err(VmError::EntryNodeNotFound)
    ));
    let two = event(
        "main",
        0,
        0,
        vec![
            node("a", NodeType::Entry, None, vec![]),
            node("b", NodeType::Entry, None, vec![]),
        ],
    );
    match Vm::new(program(vec![two])) {
        Err(VmError::FoundMultipleEntryNodes(ids)) => {
            assert_eq!(ids.len(), 2);
            assert!(matches!(ids[0], NodeRef::Named(ref s) if s == "a"));
            assert!(matches!(ids[1], NodeRef::Named(ref s) if s == "b"));
        }
        other => panic!("unexpected result: {:?}", other.err()),
    }
}

#[test]
fn invalid_nodes_are_refused() {
    let unnamed = event(
        "main",
        0,
        0,
        vec![Node {
            id: NodeRef::Unset,
            node_type: NodeType::Entry,
            next_node: NodeRef::Unset,
            input_links: vec![],
        }],
    );
    assert!(matches!(
        Vm::new(program(vec![unnamed])),
        Err(VmError::FoundNodeWithInvalidIdentifier)
    ));
    let flows_out = event(
        "main",
        0,
        0,
        vec![
            node("entry", NodeType::Entry, Some("stop"), vec![]),
            node("stop", NodeType::Break, Some("entry"), vec![]),
        ],
    );
    assert!(matches!(
        Vm::new(program(vec![flows_out])),
        Err(VmError::NodeCannotFlowOut(NodeRef::Named(ref s))) if s == "stop"
    ));
    let flows_in = event(
        "main",
        0,
        0,
        vec![
            node("entry", NodeType::Entry, Some("other"), vec![]),
            node("other", NodeType::Entry, None, vec![]),
        ],
    );
    assert!(matches!(
        Vm::new(program(vec![flows_in])),
        Err(VmError::NodeCannotFlowIn(NodeRef::Named(ref s))) if s == "other"
    ));
    let takes_input = event(
        "main",
        0,
        0,
        vec![node("entry", NodeType::Entry, None, vec![link("entry", 0)])],
    );
    assert!(matches!(
        Vm::new(program(vec![takes_input])),
        Err(VmError::NodeCannotTakeInput(NodeRef::Named(ref s))) if s == "entry"
    ));
    let gives_output = event(
        "main",
        0,
        0,
        vec![
            node("entry", NodeType::Entry, Some("set"), vec![]),
            node("set", NodeType::SetOutput(0), None, vec![link("entry", 0)]),
        ],
    );
    assert!(matches!(
        Vm::new(program(vec![gives_output])),
        Err(VmError::NodeCannotGiveOutput(NodeRef::Named(ref s))) if s == "entry"
    ));
}

#[test]
fn missing_trait_is_refused() {
    let mut p = program(vec![]);
    p.types = vec![Type {
        name: "T".to_string(),
        traits_implementation: vec![("Missing".to_string(), vec![])],
    }];
    assert!(matches!(
        Vm::new(p),
        Err(VmError::TraitDoesNotExists(NodeRef::Named(ref s))) if s == "Missing"
    ));
}

#[test]
fn function_without_successors_panics_on_load() {
    let mut p = program(vec![]);
    p.functions = vec![Function {
        name: "f".to_string(),
        input_constrains: vec![],
        output_constrains: vec![],
        variables: vec![],
        nodes: vec![node("entry", NodeType::Entry, None, vec![])],
    }];
    assert!(Vm::try_new(p).is_none());
}

#[test]
fn trait_methods_are_listed() {
    let mut p = program(vec![]);
    p.traits = vec![Trait {
        name: "Show".to_string(),
        methods: vec![],
    }];
    p.types = vec![Type {
        name: "T".to_string(),
        traits_implementation: vec![("Show".to_string(), vec![] as Vec<Method>)],
    }];
    assert!(Vm::new(p).is_ok());
}

#[test]
fn unreachable_nodes_are_not_run() {
    // "orphan" is a node on its own: no edge leads to or from it, so the
    // execution order around the entry leaves it out and it never runs.
    let ev = event(
        "main",
        0,
        1,
        vec![
            node("orphan", NodeType::GetInput(5), None, vec![]),
            node("entry", NodeType::Entry, Some("value"), vec![]),
            node(
                "value",
                NodeType::GetValue(PrefabValue::Number(Number::PosInt(42))),
                Some("set"),
                vec![],
            ),
            node("set", NodeType::SetOutput(0), None, vec![link("value", 0)]),
        ],
    );
    let mut vm = Vm::new(program(vec![ev])).unwrap();
    let guid = vm.run_event("main", vec![]).unwrap();
    vm.process_events().unwrap();
    let outputs = vm.get_completed_event(guid).unwrap();
    assert!(is_answer(&outputs[0]));
}

#[test]
fn mutate_node_reads_its_own_target() {
    // The node's target and source are both its first input: once the cell is
    // locked for the write, it cannot be read.
    let ev = event(
        "main",
        0,
        0,
        vec![
            node("entry", NodeType::Entry, Some("value"), vec![]),
            node(
                "value",
                NodeType::GetValue(PrefabValue::Bool(true)),
                Some("mutate"),
                vec![],
            ),
            node("mutate", NodeType::MutateValue, None, vec![link("value", 0)]),
        ],
    );
    let mut vm = Vm::new(program(vec![ev])).unwrap();
    vm.run_event("main", vec![]).unwrap();
    match vm.process_events() {
        Err(VmError::TryingToReadBorrowedReference(r)) => {
            assert!(matches!(r.read(), Value::Bool(true)));
        }
        other => panic!("unexpected result: {:?}", other),
    }
}

#[test]
fn if_else_needs_a_bool() {
    let ev = event(
        "main",
        0,
        0,
        vec![
            node("entry", NodeType::Entry, Some("value"), vec![]),
            node(
                "value",
                NodeType::GetValue(PrefabValue::Number(Number::PosInt(1))),
                Some("branch"),
                vec![],
            ),
            node(
                "branch",
                NodeType::IfElse(oxygen_flow::ast::IfElse {
                    next_node_true: named("value"),
                    next_node_false: named("value"),
                }),
                None,
                vec![link("value", 0)],
            ),
        ],
    );
    let mut vm = Vm::new(program(vec![ev])).unwrap();
    vm.run_event("main", vec![]).unwrap();
    match vm.process_events() {
        Err(VmError::ValueIsNotABool(r)) => {
            assert!(matches!(r.read(), Value::Number(Number::PosInt(1))));
        }
        other => panic!("unexpected result: {:?}", other),
    }
}

/// entry -> value(data) -> probe (reads value's output) -> set output 0 from probe.
fn probe_event(data: PrefabValue, probe: NodeType) -> Event {
    event(
        "main",
        0,
        1,
        vec![
            node("entry", NodeType::Entry, Some("value"), vec![]),
            node("value", NodeType::GetValue(data), Some("probe"), vec![]),
            node("probe", probe, Some("set"), vec![link("value", 0)]),
            node("set", NodeType::SetOutput(0), None, vec![link("probe", 0)]),
        ],
    )
}

fn run_probe(data: PrefabValue, probe: NodeType) -> Result<Vec<Reference>, VmError> {
    let mut vm = Vm::new(program(vec![probe_event(data, probe)])).unwrap();
    let guid = vm.run_event("main", vec![]).unwrap();
    vm.process_events()?;
    Ok(vm.get_completed_event(guid).unwrap())
}

fn list_data() -> PrefabValue {
    PrefabValue::Sequence(vec![
        PrefabValue::Number(Number::PosInt(1)),
        PrefabValue::Number(Number::PosInt(2)),
        PrefabValue::Number(Number::PosInt(3)),
    ])
}

fn object_data() -> PrefabValue {
    PrefabValue::Mapping(vec![(
        PrefabValue::String("k".to_string()),
        PrefabValue::String("v".to_string()),
    )])
}

#[test]
fn list_items_are_read() {
    let outputs = run_probe(list_data(), NodeType::GetListItem(1)).unwrap();
    assert!(matches!(outputs[0].read(), Value::Number(Number::PosInt(2))));
    assert!(matches!(
        run_probe(list_data(), NodeType::GetListItem(5)),
        Err(VmError::IndexOutOfBounds(3, 5, _))
    ));
    assert!(matches!(
        run_probe(object_data(), NodeType::GetListItem(0)),
        Err(VmError::ValueIsNotAList(_))
    ));
}

#[test]
fn object_items_are_read() {
    let outputs = run_probe(object_data(), NodeType::GetObjectItem("k".to_string())).unwrap();
    assert!(matches!(outputs[0].read(), Value::String(ref s) if s == "v"));
    assert!(matches!(
        run_probe(object_data(), NodeType::GetObjectItem("zz".to_string())),
        Err(VmError::ObjectKeyDoesNotExists(ref k, _)) if k == "zz"
    ));
    assert!(matches!(
        run_probe(list_data(), NodeType::GetObjectItem("k".to_string())),
        Err(VmError::ValueIsNotAnObject(_))
    ));
}

/// entry -> get (a node without inputs) -> set output 0 from get.
fn getter_program(get: NodeType) -> Program {
    let mut ev = event(
        "main",
        0,
        1,
        vec![
            node("entry", NodeType::Entry, Some("get"), vec![]),
            node("get", get, Some("set"), vec![]),
            node("set", NodeType::SetOutput(0), None, vec![link("get", 0)]),
        ],
    );
    ev.variables = vec![Variable { name: "local".to_string() }];
    let mut p = program(vec![ev]);
    p.variables = vec![Variable { name: "global".to_string() }];
    p
}

#[test]
fn variables_are_read() {
    let mut vm = Vm::new(getter_program(NodeType::GetGlobalVariable("global".to_string()))).unwrap();
    vm.set_global_variable_value("global", Reference::value(Value::Bool(true)))
        .unwrap();
    let guid = vm.run_event("main", vec![]).unwrap();
    vm.process_events().unwrap();
    let outputs = vm.get_completed_event(guid).unwrap();
    assert!(matches!(outputs[0].read(), Value::Bool(true)));

    let mut vm = Vm::new(getter_program(NodeType::GetLocalVariable("local".to_string()))).unwrap();
    let guid = vm.run_event("main", vec![]).unwrap();
    vm.process_events().unwrap();
    let outputs = vm.get_completed_event(guid).unwrap();
    assert!(matches!(outputs[0].read(), Value::Null));
}

#[test]
fn missing_variables_and_instance_fail() {
    let mut vm = Vm::new(getter_program(NodeType::GetGlobalVariable("nope".to_string()))).unwrap();
    vm.run_event("main", vec![]).unwrap();
    assert!(matches!(
        vm.process_events(),
        Err(VmError::GlobalVariableDoesNotExists(NodeRef::Named(ref s))) if s == "nope"
    ));
    let mut vm = Vm::new(getter_program(NodeType::GetLocalVariable("nope".to_string()))).unwrap();
    vm.run_event("main", vec![]).unwrap();
    assert!(matches!(
        vm.process_events(),
        Err(VmError::LocalVariableDoesNotExists(NodeRef::Named(ref s))) if s == "nope"
    ));
    let mut vm = Vm::new(getter_program(NodeType::GetInstance)).unwrap();
    vm.run_event("main", vec![]).unwrap();
    assert!(matches!(
        vm.process_events(),
        Err(VmError::InstanceDoesNotExists)
    ));
}

#[test]
fn output_index_must_exist() {
    let ev = event(
        "main",
        0,
        1,
        vec![
            node("entry", NodeType::Entry, Some("value"), vec![]),
            node("value", NodeType::GetValue(PrefabValue::Null), Some("set"), vec![]),
            node("set", NodeType::SetOutput(4), None, vec![link("value", 0)]),
        ],
    );
    let mut vm = Vm::new(program(vec![ev])).unwrap();
    vm.run_event("main", vec![]).unwrap();
    assert!(matches!(
        vm.process_events(),
        Err(VmError::OutputDoesNotExists(4))
    ));
}

fn function_program(nodes: Vec<Node>) -> Program {
    let mut p = program(vec![]);
    p.functions = vec![Function {
        name: "f".to_string(),
        input_constrains: vec![],
        output_constrains: vec![],
        variables: vec![],
        nodes,
    }];
    p
}

#[test]
fn function_graphs_are_ordered_on_load() {
    assert!(matches!(
        Vm::new(function_program(vec![])),
        Err(VmError::EntryNodeNotFound)
    ));
    assert!(matches!(
        Vm::new(function_program(vec![
            node("entry", NodeType::Entry, Some("a"), vec![]),
            node("a", NodeType::Knot, Some("entry"), vec![]),
        ])),
        Err(VmError::FoundCycleInFlowGraph)
    ));
}

#[test]
fn steps_that_would_panic_are_told_apart() {
    // Constant data with a key that is not a string cannot be converted.
    let bad = PrefabValue::Mapping(vec![(PrefabValue::Bool(true), PrefabValue::Null)]);
    let ev = event(
        "main",
        0,
        0,
        vec![
            node("entry", NodeType::Entry, Some("value"), vec![]),
            node("value", NodeType::GetValue(bad), None, vec![]),
        ],
    );
    let mut vm = Vm::new(program(vec![ev])).unwrap();
    assert!(!vm.is_runnable());
    let guid = vm.run_event("main", vec![]).unwrap();
    assert!(vm.can_step(guid));
    vm.single_step_event(guid).unwrap();
    assert!(!vm.can_step(guid));
    // An if-else node without inputs cannot be stepped either.
    let ev = event(
        "main",
        0,
        0,
        vec![node(
            "entry",
            NodeType::Entry,
            None,
            vec![],
        ),
        node(
            "branch",
            NodeType::IfElse(oxygen_flow::ast::IfElse {
                next_node_true: NodeRef::Unset,
                next_node_false: NodeRef::Unset,
            }),
            None,
            vec![],
        )],
    );
    let vm = Vm::new(program(vec![ev])).unwrap();
    assert!(!vm.is_runnable());
}

/// entry -> constant data with a key that is not a string
fn unsteppable_event(name: &str) -> Event {
    let bad = PrefabValue::Mapping(vec![(PrefabValue::Bool(true), PrefabValue::Null)]);
    event(
        name,
        0,
        0,
        vec![
            node("start", NodeType::Entry, Some("data"), vec![]),
            node("data", NodeType::GetValue(bad), None, vec![]),
        ],
    )
}

#[test]
fn events_are_checked_one_by_one() {
    let mut vm = Vm::new(program(vec![answer_event(), unsteppable_event("bad")])).unwrap();
    assert!(!vm.is_runnable());
    assert!(vm.can_process_events());
    let good = vm.run_event("main", vec![]).unwrap();
    assert!(vm.can_run_event(good));
    assert!(vm.can_process_events());
    let outcome = vm.try_process_events();
    assert!(matches!(outcome, Some(Ok(()))));
    let outputs = vm.get_completed_event(good).unwrap();
    assert!(is_answer(&outputs[0]));
    let bad = vm.run_event("bad", vec![]).unwrap();
    assert!(!vm.can_run_event(bad));
    assert!(!vm.can_process_events());
    assert!(vm.try_process_events().is_none());
    // The refused call left the event running where it was.
    assert!(vm.can_step(bad));
    assert!(vm.destroy_event(bad).is_ok());
    assert!(vm.can_process_events());
}
