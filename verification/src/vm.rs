//! The virtual machine: runs the events of a flow program step by step.
use vstd::prelude::*;
use crate::ast::{self, find_named, named, Event, NodeType, Program, Variable, GUID};
use crate::error::{VmError, VmOperationError};
use crate::event::{EventView, VmContextOwner, VmEvent, event_start, spec_input_value, made_null, variable_names_of, variables_init, variables_start};
use crate::keyed::{
    guid_pos, guid_find, guid_insert, guid_lookup, guid_remove, guid_set, guid_take, guids_distinct, guids_of,
    lemma_guid_insert_distinct, lemma_guid_remove_distinct, name_find, name_lookup, name_pos,
};
use crate::step::{
    callables_steppable, callables_steppable_exec, current_steppable, event_owners_steppable, event_owners_steppable_exec,
    lemma_owned_run_safe, lemma_steppable_run_safe, spec_current_node, node_steppable_exec, process_spec, program_steppable, run_safe,
    program_steppable_exec, run_outcome, status_outcome, operations_after, step_spec, step_with, trace, StepInput, VmStepStatus,
    STEP_LIMIT,
};
use crate::load::{event_orders_good, load_program, load_program_exec, orders_view, pairs_view, table_view, Load, Loaded};
use crate::value::Reference;

verus! {

pub const VERSION: usize = 1;

pub const VERSION_MIN: usize = 1;

/// An operation of the host that a program calls by name.
pub trait VmOperation {
    fn execute(&mut self, inputs: &[Reference]) -> Result<Vec<Reference>, VmOperationError>;
}

/// A registered operation.
pub struct OperationBox {
    op: Box<dyn VmOperation>,
}

/// The program loaded into a machine, with what loading worked out, and the
/// global variables.
pub struct VmCode {
    pub ast: Program,
    pub variables: Vec<(String, Reference)>,
    /// {event name: [node reference]}
    pub event_execution_order: Vec<(String, Vec<ast::Reference>)>,
    /// {(type name, method name): [node reference]}
    pub method_execution_order: Vec<((String, String), Vec<ast::Reference>)>,
    /// {function name: [node reference]}
    pub function_execution_order: Vec<(String, Vec<ast::Reference>)>,
    /// {type name: {method name: (trait name, is implemented by type)}}
    pub type_methods: Vec<(String, Vec<(String, (String, bool))>)>,
    pub end_nodes: Vec<ast::Reference>,
}

/// The virtual machine.
pub struct Vm {
    code: VmCode,
    operation_names: Vec<String>,
    operations: Vec<OperationBox>,
    running_events: Vec<(GUID, VmEvent)>,
    completed_events: Vec<(GUID, Vec<Reference>)>,
    next_guid: u64,
}

/// Names of the registered operations, in order.
pub open spec fn names_of(s: Seq<String>) -> Seq<Seq<char>> {
    s.map_values(|p: String| p@)
}

/// The registered operation that `operator` becomes.
pub closed spec fn boxed<T: VmOperation + 'static>(operator: T) -> OperationBox {
    OperationBox { op: Box::new(operator) }
}

/// The operators registered under each name: a name maps to the operator at
/// its own position.
pub open spec fn registry_of(names: Seq<Seq<char>>, boxes: Seq<OperationBox>) -> Map<Seq<char>, OperationBox> {
    Map::new(|k: Seq<char>| names.contains(k), |k: Seq<char>| boxes[names.index_of(k)])
}

/// Where no name repeats, the name at a position maps to the operator there.
pub proof fn lemma_registry_at(names: Seq<Seq<char>>, boxes: Seq<OperationBox>, j: int)
    requires
        names.no_duplicates(),
        0 <= j < names.len(),
    ensures
        registry_of(names, boxes).contains_key(names[j]),
        registry_of(names, boxes)[names[j]] == boxes[j],
{
    assert(names.contains(names[j]));
    let k = names.index_of(names[j]);
    assert(0 <= k < names.len() && names[k] == names[j]);
}

/// Replacing the operator at a position replaces what its name maps to.
proof fn lemma_registry_update(names: Seq<Seq<char>>, boxes: Seq<OperationBox>, i: int, op: OperationBox)
    requires
        names.no_duplicates(),
        0 <= i < names.len(),
        boxes.len() == names.len(),
    ensures
        registry_of(names, boxes.update(i, op)) == registry_of(names, boxes).insert(names[i], op),
{
    let after = registry_of(names, boxes.update(i, op));
    let want = registry_of(names, boxes).insert(names[i], op);
    assert forall|k: Seq<char>| after.contains_key(k) <==> want.contains_key(k) by {
        if k == names[i] {
            assert(names.contains(k));
        }
    }
    assert forall|k: Seq<char>| after.contains_key(k) implies after[k] == want[k] by {
        let x = names.index_of(k);
        assert(0 <= x < names.len() && names[x] == k);
        if k == names[i] {
            assert(x == i);
        } else {
            assert(x != i);
        }
    }
    assert(after =~= want);
}

/// Adding a new name with its operator adds that entry.
proof fn lemma_registry_push(names: Seq<Seq<char>>, boxes: Seq<OperationBox>, name: Seq<char>, op: OperationBox)
    requires
        names.no_duplicates(),
        !names.contains(name),
        boxes.len() == names.len(),
    ensures
        registry_of(names.push(name), boxes.push(op)) == registry_of(names, boxes).insert(name, op),
{
    let nn = names.push(name);
    let after = registry_of(nn, boxes.push(op));
    let want = registry_of(names, boxes).insert(name, op);
    assert forall|k: Seq<char>| after.contains_key(k) <==> want.contains_key(k) by {
        if k == name {
            assert(nn[names.len() as int] == name);
        } else if names.contains(k) {
            let x = choose|x: int| 0 <= x < names.len() && names[x] == k;
            assert(nn[x] == k);
        } else if nn.contains(k) {
            let x = choose|x: int| 0 <= x < nn.len() && nn[x] == k;
            assert(names[x] == k);
        }
    }
    assert forall|k: Seq<char>| after.contains_key(k) implies after[k] == want[k] by {
        let x = nn.index_of(k);
        assert(0 <= x < nn.len() && nn[x] == k);
        if k == name {
            if x < names.len() {
                assert(names[x] == name);
            }
        } else {
            assert(x < names.len());
            assert(names[x] == k);
            let y = names.index_of(k);
            assert(names.contains(k));
            assert(0 <= y < names.len() && names[y] == k);
            assert(x == y);
        }
    }
    assert(after =~= want);
}

/// Removing the name at a position, with its operator, removes that entry.
proof fn lemma_registry_remove(names: Seq<Seq<char>>, boxes: Seq<OperationBox>, i: int)
    requires
        names.no_duplicates(),
        0 <= i < names.len(),
        boxes.len() == names.len(),
    ensures
        registry_of(names.remove(i), boxes.remove(i)) == registry_of(names, boxes).remove(names[i]),
{
    let nn = names.remove(i);
    let after = registry_of(nn, boxes.remove(i));
    let want = registry_of(names, boxes).remove(names[i]);
    assert forall|k: Seq<char>| after.contains_key(k) <==> want.contains_key(k) by {
        if nn.contains(k) {
            let x = choose|x: int| 0 <= x < nn.len() && nn[x] == k;
            let x2 = if x < i { x } else { x + 1 };
            assert(names[x2] == k);
            assert(x2 != i);
            assert(names.contains(k));
        }
        if names.contains(k) && k != names[i] {
            let x = choose|x: int| 0 <= x < names.len() && names[x] == k;
            assert(x != i);
            let x2 = if x < i { x } else { x - 1 };
            assert(nn[x2] == k);
        }
    }
    assert forall|k: Seq<char>| after.contains_key(k) implies after[k] == want[k] by {
        let x = nn.index_of(k);
        assert(0 <= x < nn.len() && nn[x] == k);
        let x2 = if x < i { x } else { x + 1 };
        assert(names[x2] == k);
        assert(names.contains(k));
        let y = names.index_of(k);
        assert(0 <= y < names.len() && names[y] == k);
        assert(y == x2);
        assert(boxes.remove(i)[x] == boxes[x2]);
    }
    assert(after =~= want);
}

impl Vm {
    /// The loaded program and the global variables.
    pub closed spec fn code(&self) -> VmCode {
        self.code
    }

    pub closed spec fn program(&self) -> Program {
        self.code.ast
    }

    /// The global variables.
    pub closed spec fn globals(&self) -> Seq<(String, Reference)> {
        self.code.variables@
    }

    /// Names under which operations are registered.
    pub closed spec fn operation_names(&self) -> Seq<Seq<char>> {
        names_of(self.operation_names@)
    }

    /// The registered operators, position by position beside their names.
    pub closed spec fn operation_boxes(&self) -> Seq<OperationBox> {
        self.operations@
    }

    /// The operator registered under each name.
    pub open spec fn registry(&self) -> Map<Seq<char>, OperationBox> {
        registry_of(self.operation_names(), self.operation_boxes())
    }

    /// The events that run, with their state.
    pub closed spec fn running(&self) -> Seq<(GUID, VmEvent)> {
        self.running_events@
    }

    /// The events that ended, with their outputs.
    pub closed spec fn completed(&self) -> Seq<(GUID, Vec<Reference>)> {
        self.completed_events@
    }

    pub closed spec fn event_orders(&self) -> Seq<(String, Vec<ast::Reference>)> {
        self.code.event_execution_order@
    }

    pub closed spec fn method_orders(&self) -> Seq<((String, String), Vec<ast::Reference>)> {
        self.code.method_execution_order@
    }

    pub closed spec fn function_orders(&self) -> Seq<(String, Vec<ast::Reference>)> {
        self.code.function_execution_order@
    }

    pub closed spec fn type_method_table(&self) -> Seq<(String, Vec<(String, (String, bool))>)> {
        self.code.type_methods@
    }

    pub closed spec fn ends(&self) -> Seq<ast::Reference> {
        self.code.end_nodes@
    }

    /// The identifier the next event started gets.
    pub closed spec fn next_id(&self) -> u64 {
        self.next_guid
    }

    /// Identifiers are distinct, and below the next one handed out.
    pub closed spec fn wf(&self) -> bool {
        &&& names_of(self.operation_names@).no_duplicates()
        &&& self.operation_names@.len() == self.operations@.len()
        &&& guids_distinct(self.running_events@)
        &&& guids_distinct(self.completed_events@)
        &&& forall|i: int| 0 <= i < self.running_events@.len() ==> (#[trigger] self.running_events@[i]).0.0 < self.next_guid
        &&& forall|i: int| 0 <= i < self.completed_events@.len() ==> (#[trigger] self.completed_events@[i]).0.0 < self.next_guid
    }

    /// The supported program versions: (lowest, highest).
    pub fn version_range() -> (r: (usize, usize))
        ensures
            r == (VERSION_MIN, VERSION),
    {
        (VERSION_MIN, VERSION)
    }

    /// Registers an operation under a name, replacing one of the same name.
    pub fn register_operation<T: VmOperation + 'static>(&mut self, name: &str, operator: T)
        requires
            old(self).wf(),
        ensures
            final(self).wf(),
            final(self).operation_names().to_set() == old(self).operation_names().to_set().insert(name@),
            final(self).registry() == old(self).registry().insert(name@, boxed(operator)),
            final(self).program() == old(self).program(),
            final(self).globals() == old(self).globals(),
            final(self).running() == old(self).running(),
            final(self).completed() == old(self).completed(),
            final(self).next_id() == old(self).next_id(),
    {
        let key = name.to_owned();
        let op = OperationBox { op: Box::new(operator) };
        assert(op == boxed(operator));
        let ghost before = self.operation_names@;
        match position_of(&self.operation_names, &key) {
            Some(i) => {
                let ghost ob = self.operations@;
                self.operations.set(i, op);
                proof {
                    assert(self.operations@ == ob.update(i as int, op));
                    assert(i < self.operation_names@.len());
                    assert(self.operation_names@.len() == ob.len());
                    lemma_box_update_len(ob, i as int, op);
                    assert(names_of(before)[i as int] == name@);
                    assert(names_of(before).to_set().insert(name@) =~= names_of(before).to_set());
                    lemma_registry_update(names_of(before), ob, i as int, op);
                }
            },
            None => {
                let ghost ob = self.operations@;
                self.operation_names.push(key);
                self.operations.push(op);
                proof {
                    lemma_box_push_len(ob, op);
                    let nb = names_of(before);
                    let na = names_of(self.operation_names@);
                    assert(na =~= nb.push(name@));
                    nb.lemma_push_to_set_commute(name@);
                    lemma_registry_push(nb, ob, name@, op);
                    assert(na.no_duplicates()) by {
                        assert forall|a: int, b: int| 0 <= a < b < na.len() implies na[a] != na[b] by {
                            if b == nb.len() {
                                assert(nb[a] == na[a]);
                            }
                        }
                    }
                }
            },
        }
    }

    /// Removes the operation registered under a name; whether there was one.
    pub fn unregister_operator(&mut self, name: &str) -> (r: bool)
        requires
            old(self).wf(),
        ensures
            final(self).wf(),
            r == old(self).operation_names().contains(name@),
            final(self).operation_names().to_set() == old(self).operation_names().to_set().remove(name@),
            final(self).registry() == old(self).registry().remove(name@),
            final(self).program() == old(self).program(),
            final(self).globals() == old(self).globals(),
            final(self).running() == old(self).running(),
            final(self).completed() == old(self).completed(),
            final(self).next_id() == old(self).next_id(),
    {
        let key = name.to_owned();
        let ghost before = self.operation_names@;
        let ghost ob = self.operations@;
        match position_of(&self.operation_names, &key) {
            Some(i) => {
                let _ = self.operation_names.remove(i);
                let _ = self.operations.remove(i);
                proof {
                    let nb = names_of(before);
                    assert(names_of(self.operation_names@) =~= nb.remove(i as int));
                    lemma_registry_remove(nb, ob, i as int);
                    let na = names_of(self.operation_names@);
                    assert(na =~= nb.remove(i as int));
                    assert(nb[i as int] == name@);
                    assert(na.to_set() =~= nb.to_set().remove(name@)) by {
                        assert forall|k: Seq<char>| na.to_set().contains(k) <==> nb.to_set().remove(name@).contains(k) by {
                            if na.contains(k) {
                                let a = choose|a: int| 0 <= a < na.len() && na[a] == k;
                                let a2 = if a < i { a } else { a + 1 };
                                assert(nb[a2] == k);
                                assert(a2 != i);
                            }
                            if nb.contains(k) && k != name@ {
                                let a = choose|a: int| 0 <= a < nb.len() && nb[a] == k;
                                assert(a != i);
                                let a2 = if a < i { a } else { a - 1 };
                                assert(na[a2] == k);
                            }
                        }
                    }
                    assert(na.no_duplicates()) by {
                        assert forall|a: int, b: int| 0 <= a < b < na.len() implies na[a] != na[b] by {
                            let a2 = if a < i { a } else { a + 1 };
                            let b2 = if b < i { b } else { b + 1 };
                            assert(na[a] == nb[a2] && na[b] == nb[b2]);
                        }
                    }
                }
                true
            },
            None => {
                proof {
                    assert(names_of(before).to_set().remove(name@) =~= names_of(before).to_set());
                    assert(registry_of(names_of(before), ob).remove(name@) =~= registry_of(names_of(before), ob));
                }
                false
            },
        }
    }

    /// The reference held by a global variable.
    pub fn global_variable_value(&self, name: &str) -> (r: Result<Reference, VmError>)
        ensures
            match name_lookup(self.globals(), name@) {
                Some(v) => r == Ok::<Reference, VmError>(v),
                None => r matches Err(VmError::GlobalVariableDoesNotExists(ast::Reference::Named(s))) && s@ == name@,
            },
    {
        let key = name.to_owned();
        self.global_value_of(&key)
    }

    /// The reference held by a global variable named by a program.
    fn global_value_of(&self, name: &String) -> (r: Result<Reference, VmError>)
        ensures
            r == match name_lookup(self.globals(), name@) {
                Some(v) => Ok::<Reference, VmError>(v),
                None => Err(VmError::GlobalVariableDoesNotExists(ast::Reference::Named(*name))),
            },
    {
        match name_find(&self.code.variables, name) {
            Some(i) => Ok(self.code.variables[i].1.clone()),
            None => Err(VmError::GlobalVariableDoesNotExists(ast::Reference::Named(name.clone()))),
        }
    }

    /// Makes a global variable hold another reference; the reference it held.
    pub fn set_global_variable_value(&mut self, name: &str, value: Reference) -> (r: Result<Reference, VmError>)
        ensures
            match name_lookup(old(self).globals(), name@) {
                Some(v) => {
                    &&& r == Ok::<Reference, VmError>(v)
                    &&& final(self).globals() == global_replaced(old(self).globals(), name@, value)
                },
                None => {
                    &&& r matches Err(VmError::GlobalVariableDoesNotExists(ast::Reference::Named(s))) && s@ == name@
                    &&& final(self).globals() == old(self).globals()
                },
            },
            final(self).program() == old(self).program(),
            final(self).operation_names() == old(self).operation_names(),
            final(self).running() == old(self).running(),
            final(self).completed() == old(self).completed(),
            final(self).next_id() == old(self).next_id(),
            old(self).wf() ==> final(self).wf(),
    {
        let key = name.to_owned();
        match name_find(&self.code.variables, &key) {
            Some(i) => {
                let prev = self.code.variables[i].1.clone();
                let k = self.code.variables[i].0.clone();
                self.code.variables.set(i, (k, value));
                Ok(prev)
            },
            None => Err(VmError::GlobalVariableDoesNotExists(ast::Reference::Named(key))),
        }
    }
}

/// The global variables after the one named `k` is made to hold `v`.
pub open spec fn global_replaced(g: Seq<(String, Reference)>, k: Seq<char>, v: Reference) -> Seq<(String, Reference)> {
    match name_pos(g, k) {
        Some(i) => g.update(i, (g[i].0, v)),
        None => g,
    }
}

/// A new event of `e`: its context at the start of `order`, with fresh
/// cells for outputs and variables.
pub open spec fn started(ev: EventView, e: Event, order: Seq<ast::Reference>, inputs: Seq<Reference>) -> bool {
    exists|o: Reference, cells: Seq<Reference>|
        cells.len() == e.variables@.len() && made_null(seq![o] + cells) && ev == #[trigger] event_start(
            e.name,
            order,
            inputs,
            e.output_constrains@.len() as nat,
            o,
            variable_names_of(e.variables@),
            cells,
        )
}

/// What `run_event` does.
pub open spec fn run_event_post(pre: Vm, post: Vm, name: Seq<char>, inputs: Seq<Reference>, r: Result<GUID, VmError>) -> bool {
            match named(pre.program().events@, name) {
                None => {
                    &&& r matches Err(VmError::CouldNotRunEvent(s)) && s@ == name
                    &&& post == pre
                },
                Some(e) => if e.input_constrains@.len() != inputs.len() {
                    &&& r == Err::<GUID, VmError>(VmError::WrongNumberOfInputs(e.input_constrains@.len() as usize, inputs.len() as usize))
                    &&& post == pre
                } else {
                    match name_lookup(pre.event_orders(), e.name@) {
                        None => {
                            &&& r matches Err(VmError::CouldNotRunEvent(s)) && s@ == name
                            &&& post == pre
                        },
                        Some(order) => {
                            &&& r == Ok::<GUID, VmError>(GUID(pre.next_id()))
                            &&& post.next_id() == pre.next_id() + 1
                            &&& post.running().len() == pre.running().len() + 1
                            &&& post.running().drop_last() == pre.running()
                            &&& post.running().last().0 == GUID(pre.next_id())
                            &&& started(post.running().last().1@, e, order@, inputs)
                            &&& post.program() == pre.program()
                            &&& post.globals() == pre.globals()
                            &&& post.operation_names() == pre.operation_names()
                            &&& post.completed() == pre.completed()
                            &&& post.event_orders() == pre.event_orders()
                            &&& post.method_orders() == pre.method_orders()
                            &&& post.function_orders() == pre.function_orders()
                            &&& post.type_method_table() == pre.type_method_table()
                            &&& post.ends() == pre.ends()
                        },
                    }
                },
            }
}

impl Vm {
    /// Starts the event named `name` with the given inputs; its identifier.
    #[verifier::spinoff_prover]
    #[verifier::rlimit(40)]
    pub fn run_event(&mut self, name: &str, inputs: Vec<Reference>) -> (r: Result<GUID, VmError>)
        requires
            old(self).wf(),
            old(self).next_id() < u64::MAX,
        ensures
            final(self).wf(),
            run_event_post(*old(self), *final(self), name@, inputs@, r),
    {
        let key = name.to_owned();
        match find_named(&self.code.ast.events, &key) {
            Some(ei) => {
                let e = &self.code.ast.events[ei];
                if e.input_constrains.len() != inputs.len() {
                    return Err(VmError::WrongNumberOfInputs(e.input_constrains.len(), inputs.len()));
                }
                let guid = GUID(self.next_guid);
                match name_find(&self.code.event_execution_order, &e.name) {
                    Some(oi) => {
                        let vars = names_of_variables(&e.variables);
                        let execution = self.code.event_execution_order[oi].1.clone();
                        let ghost order = self.code.event_execution_order@[oi as int].1;
                        assert(execution@ =~= order@);
                        let ghost ins = inputs@;
                        let ev = VmEvent::new(e.name.clone(), execution, vars, inputs, e.output_constrains.len());
                        let ghost before = self.running_events@;
                        proof {
                            crate::keyed::lemma_guid_lookup_some(before, guid);
                            if guid_pos(before, guid) is Some {
                                let p = guid_pos(before, guid)->0;
                                assert(before[p].0.0 < self.next_guid);
                            }
                            lemma_guid_insert_distinct(before, guid, ev);
                        }
                        guid_set(&mut self.running_events, guid, ev);
                        self.next_guid = self.next_guid + 1;
                        proof {
                            assert(self.running_events@.drop_last() =~= before);
                            let (o, cells) = choose|o: Reference, cells: Seq<Reference>|
                                cells.len() == e.variables@.len() && made_null(seq![o] + cells) && ev@ == event_start(
                                    e.name,
                                    order@,
                                    ins,
                                    e.output_constrains@.len() as nat,
                                    o,
                                    variable_names_of(e.variables@),
                                    cells,
                                );
                            assert(started(self.running_events@.last().1@, *e, order@, ins));
                        }
                        Ok(guid)
                    },
                    None => Err(VmError::CouldNotRunEvent(key)),
                }
            },
            None => Err(VmError::CouldNotRunEvent(key)),
        }
    }

    /// Stops a running event; it completes with no outputs.
    pub fn destroy_event(&mut self, guid: GUID) -> (r: Result<(), VmError>)
        requires
            old(self).wf(),
        ensures
            final(self).wf(),
            match guid_lookup(old(self).running(), guid) {
                Some(_) => {
                    &&& r == Ok::<(), VmError>(())
                    &&& final(self).running() == guid_remove(old(self).running(), guid)
                    &&& guid_lookup(final(self).completed(), guid) matches Some(v) && v@.len() == 0
                    &&& forall|h: GUID| h != guid ==> guid_lookup(final(self).completed(), h) == guid_lookup(old(self).completed(), h)
                    &&& guids_of(final(self).completed()).to_set() == guids_of(old(self).completed()).to_set().insert(guid)
                    &&& final(self).program() == old(self).program()
                    &&& final(self).globals() == old(self).globals()
                    &&& final(self).operation_names() == old(self).operation_names()
                    &&& final(self).next_id() == old(self).next_id()
                },
                None => {
                    &&& r == Err::<(), VmError>(VmError::EventDoesNotExists(ast::Reference::Guid(guid)))
                    &&& *final(self) == *old(self)
                },
            },
    {
        let ghost before = self.running_events@;
        proof {
            crate::keyed::lemma_guid_lookup_some(before, guid);
            lemma_guid_remove_distinct(before, guid);
            lemma_remove_bounded(before, guid, self.next_guid);
            if guid_pos(before, guid) is Some {
                let p = guid_pos(before, guid)->0;
                assert(before[p].0.0 < self.next_guid);
            }
        }
        match guid_find(&self.running_events, guid) {
            Some(i) => {
                let _ = self.running_events.remove(i);
                let ghost cbefore = self.completed_events@;
                let empty: Vec<Reference> = Vec::new();
                proof {
                    lemma_guid_insert_distinct(cbefore, guid, empty);
                    lemma_insert_bounded(cbefore, guid, empty, self.next_guid);
                }
                guid_set(&mut self.completed_events, guid, empty);
                Ok(())
            },
            None => Err(VmError::EventDoesNotExists(ast::Reference::Guid(guid))),
        }
    }

    /// Takes the outputs of a completed event.
    pub fn get_completed_event(&mut self, guid: GUID) -> (r: Option<Vec<Reference>>)
        requires
            old(self).wf(),
        ensures
            final(self).wf(),
            r == guid_lookup(old(self).completed(), guid),
            final(self).completed() == guid_remove(old(self).completed(), guid),
            final(self).running() == old(self).running(),
            final(self).program() == old(self).program(),
            final(self).globals() == old(self).globals(),
            final(self).operation_names() == old(self).operation_names(),
            final(self).next_id() == old(self).next_id(),
    {
        let ghost before = self.completed_events@;
        let r = guid_take(&mut self.completed_events, guid);
        proof {
            lemma_guid_remove_distinct(before, guid);
            lemma_remove_bounded(before, guid, self.next_guid);
        }
        r
    }

    /// Takes the outputs of every completed event.
    pub fn get_completed_events(&mut self) -> (r: Vec<(GUID, Vec<Reference>)>)
        requires
            old(self).wf(),
        ensures
            final(self).wf(),
            r@ == old(self).completed(),
            final(self).completed() == Seq::<(GUID, Vec<Reference>)>::empty(),
            final(self).running() == old(self).running(),
            final(self).program() == old(self).program(),
            final(self).globals() == old(self).globals(),
            final(self).operation_names() == old(self).operation_names(),
            final(self).next_id() == old(self).next_id(),
    {
        let mut taken: Vec<(GUID, Vec<Reference>)> = Vec::new();
        std::mem::swap(&mut taken, &mut self.completed_events);
        taken
    }
}

/// What `single_step_event` does: the event makes one step; it is dropped
/// where the step fails, and goes back among the running events otherwise.
pub open spec fn single_step_post(pre: Vm, post: Vm, guid: GUID, r: Result<(), VmError>) -> bool {
    &&& post.code() == pre.code()
    &&& post.operation_names() == pre.operation_names()
    &&& post.completed() == pre.completed()
    &&& post.next_id() == pre.next_id()
    &&& match guid_lookup(pre.running(), guid) {
        None => {
            &&& r == Err::<(), VmError>(VmError::EventDoesNotExists(ast::Reference::Guid(guid)))
            &&& post.running() == pre.running()
        },
        Some(ev) => exists|obs: StepInput|
            match #[trigger] step_spec(pre.code(), pre.operation_names(), ev@, obs) {
                Some(Ok((_, ev1))) => {
                    &&& r is Ok
                    &&& post.running().len() > 0
                    &&& post.running().drop_last() == guid_remove(pre.running(), guid)
                    &&& post.running().last().0 == guid
                    &&& post.running().last().1@ == ev1
                },
                Some(Err((e, _))) => {
                    &&& r == Err::<(), VmError>(e)
                    &&& post.running() == guid_remove(pre.running(), guid)
                },
                None => false,
            },
    }
}

impl Vm {
    /// Whether no step of any event of the loaded program can panic: every
    /// node of every flow graph is steppable.
    pub closed spec fn runnable(&self) -> bool {
        program_steppable(self.code)
    }

    /// Whether no step of any running event can panic, whatever the steps
    /// learn from outside.
    pub closed spec fn events_safe(&self) -> bool {
        forall|i: int|
            0 <= i < self.running_events@.len() ==> run_safe(
                self.code,
                names_of(self.operation_names@),
                (#[trigger] self.running_events@[i]).1@,
            )
    }

    /// In a machine whose program is runnable, every running event is safe to run.
    pub proof fn lemma_runnable_events_safe(&self)
        requires
            self.runnable(),
        ensures
            self.events_safe(),
    {
        assert forall|i: int| 0 <= i < self.running_events@.len() implies run_safe(
            self.code,
            names_of(self.operation_names@),
            (#[trigger] self.running_events@[i]).1@,
        ) by {
            lemma_steppable_run_safe(self.code, names_of(self.operation_names@), self.running_events@[i].1@);
        }
    }

    /// Whether a run of the event `guid`, if it runs, passes the check that
    /// keeps it from panicking: the functions and methods of the program are
    /// steppable, and so are the flow graphs of the events that own its
    /// contexts. The other events' flow graphs play no part.
    pub closed spec fn event_checked(&self, guid: GUID) -> bool {
        guid_lookup(self.running_events@, guid) matches Some(ev) ==> {
            &&& callables_steppable(self.code)
            &&& event_owners_steppable(self.code, ev@)
        }
    }

    /// Whether every running event passes the check of `event_checked`.
    pub closed spec fn events_checked(&self) -> bool {
        &&& callables_steppable(self.code)
        &&& forall|i: int|
            0 <= i < self.running_events@.len() ==> event_owners_steppable(self.code, (#[trigger] self.running_events@[i]).1@)
    }

    /// A running event that passes the check runs safely.
    pub proof fn lemma_checked_event_safe(&self, guid: GUID)
        requires
            self.event_checked(guid),
        ensures
            guid_lookup(self.running(), guid) matches Some(ev) ==> run_safe(self.code(), self.operation_names(), ev@),
    {
        if let Some(ev) = guid_lookup(self.running_events@, guid) {
            lemma_owned_run_safe(self.code, names_of(self.operation_names@), ev@);
        }
    }

    /// Where every running event passes the check, every one runs safely.
    pub proof fn lemma_checked_events_safe(&self)
        requires
            self.events_checked(),
        ensures
            self.events_safe(),
    {
        assert forall|i: int| 0 <= i < self.running_events@.len() implies run_safe(
            self.code,
            names_of(self.operation_names@),
            (#[trigger] self.running_events@[i]).1@,
        ) by {
            lemma_owned_run_safe(self.code, names_of(self.operation_names@), self.running_events@[i].1@);
        }
    }

    /// Whether the next step of the running event `guid`, if there is one,
    /// cannot panic.
    pub closed spec fn can_step_spec(&self, guid: GUID) -> bool {
        guid_lookup(self.running_events@, guid) matches Some(ev) ==> current_steppable(self.code, ev@)
    }

    /// Whether no step of any event of the loaded program can panic.
    pub fn is_runnable(&self) -> (r: bool)
        ensures
            r == self.runnable(),
    {
        program_steppable_exec(&self.code)
    }

    /// Checks the running event `guid` (see `event_checked`).
    pub fn can_run_event(&self, guid: GUID) -> (r: bool)
        ensures
            r == self.event_checked(guid),
    {
        match guid_find(&self.running_events, guid) {
            Some(i) => callables_steppable_exec(&self.code) && event_owners_steppable_exec(&self.code, &self.running_events[i].1),
            None => true,
        }
    }

    /// Checks every running event in turn (see `events_checked`); where the
    /// answer is yes, `process_events` can run (see `lemma_checked_events_safe`).
    pub fn can_process_events(&self) -> (r: bool)
        ensures
            r == self.events_checked(),
    {
        if !callables_steppable_exec(&self.code) {
            return false;
        }
        let mut i: usize = 0;
        while i < self.running_events.len()
            invariant
                i <= self.running_events@.len(),
                forall|j: int| 0 <= j < i ==> event_owners_steppable(self.code, (#[trigger] self.running_events@[j]).1@),
            decreases self.running_events@.len() - i,
        {
            if !event_owners_steppable_exec(&self.code, &self.running_events[i].1) {
                return false;
            }
            i = i + 1;
        }
        true
    }

    /// Whether the next step of the running event `guid` cannot panic.
    pub fn can_step(&self, guid: GUID) -> (r: bool)
        ensures
            r == self.can_step_spec(guid),
    {
        match guid_find(&self.running_events, guid) {
            Some(i) => match self.running_events[i].1.get_current_node(&self.code) {
                Some(node) => node_steppable_exec(&self.code, node),
                None => true,
            },
            None => true,
        }
    }

    /// One step of an event (see `step_spec`); what it learned from outside
    /// comes back beside the result.
    fn step_event(&mut self, event: &mut VmEvent) -> (r: (Result<VmStepStatus, VmError>, Ghost<StepInput>))
        requires
            old(self).wf(),
            current_steppable(old(self).code, old(event)@),
        ensures
            final(self).wf(),
            final(self).code == old(self).code,
            final(self).operation_names == old(self).operation_names,
            final(self).running_events == old(self).running_events,
            final(self).completed_events == old(self).completed_events,
            final(self).next_guid == old(self).next_guid,
            step_spec(old(self).code, names_of(old(self).operation_names@), old(event)@, r.1@) == Some(
                status_outcome(r.0, final(event)@),
            ),
            operations_after(old(self).operations@, final(self).operations@, r.1@),
    {
        step_with(&self.code, &self.operation_names, &mut self.operations, event)
    }

    /// Runs an event until a step halts, stops or fails, or for `STEP_LIMIT`
    /// steps (see `process_spec`); whether the event still runs.
    fn process_event(&mut self, event: &mut VmEvent) -> (r: (Result<bool, VmError>, Ghost<Seq<StepInput>>))
        requires
            old(self).wf(),
            run_safe(old(self).code, names_of(old(self).operation_names@), old(event)@),
        ensures
            final(self).wf(),
            final(self).code == old(self).code,
            final(self).operation_names == old(self).operation_names,
            final(self).running_events == old(self).running_events,
            final(self).completed_events == old(self).completed_events,
            final(self).next_guid == old(self).next_guid,
            process_spec(old(self).code, names_of(old(self).operation_names@), old(event)@, r.1@) == Some(
                run_outcome(r.0, final(event)@),
            ),
    {
        let ghost code = self.code;
        let ghost onames = self.operation_names;
        let ghost running = self.running_events;
        let ghost completed = self.completed_events;
        let ghost next = self.next_guid;
        let ghost names = names_of(self.operation_names@);
        let ghost ev0 = event@;
        let ghost mut obs: Seq<StepInput> = Seq::empty();
        let mut steps: u64 = 0;
        loop
            invariant
                self.wf(),
                self.code == code,
                self.operation_names == onames,
                self.running_events == running,
                self.completed_events == completed,
                self.next_guid == next,
                code == old(self).code,
                onames == old(self).operation_names,
                running == old(self).running_events,
                completed == old(self).completed_events,
                next == old(self).next_guid,
                ev0 == old(event)@,
                names == names_of(onames@),
                run_safe(code, names, ev0),
                trace(code, names, ev0, obs) == Some(event@),
                obs.len() == steps,
                steps < STEP_LIMIT,
            decreases STEP_LIMIT - steps,
        {
            assert(current_steppable(code, event@)) by {
                assert(trace(code, names, ev0, obs) matches Some(e) ==> current_steppable(code, e));
            }
            let (r, Ghost(o)) = self.step_event(event);
            let ghost prev = obs;
            proof {
                obs = obs.push(o);
                assert(obs.drop_last() =~= prev);
            }
            match r {
                Err(e) => {
                    return (Err(e), Ghost(obs));
                },
                Ok(VmStepStatus::Halt) => {
                    return (Ok(true), Ghost(obs));
                },
                Ok(VmStepStatus::Stop) => {
                    return (Ok(false), Ghost(obs));
                },
                Ok(VmStepStatus::Continue) => {
                    steps = steps + 1;
                    if steps == STEP_LIMIT {
                        return (Ok(true), Ghost(obs));
                    }
                },
            }
        }
    }

    /// Makes one step of the running event `guid`.
    pub fn single_step_event(&mut self, guid: GUID) -> (r: Result<(), VmError>)
        requires
            old(self).wf(),
            old(self).can_step_spec(guid),
        ensures
            final(self).wf(),
            single_step_post(*old(self), *final(self), guid, r),
    {
        let ghost before = self.running_events@;
        proof {
            crate::keyed::lemma_guid_lookup_some(before, guid);
            lemma_guid_remove_distinct(before, guid);
            lemma_remove_bounded(before, guid, self.next_guid);
            if guid_pos(before, guid) is Some {
                let p = guid_pos(before, guid)->0;
                assert(before[p].0.0 < self.next_guid);
            }
        }
        match guid_take(&mut self.running_events, guid) {
            Some(mut event) => {
                let (r, Ghost(obs)) = self.step_event(&mut event);
                match r {
                    Err(e) => {
                        assert(step_spec(old(self).code(), old(self).operation_names(), guid_lookup(before, guid)->0@, obs) matches Some(Err(_)));
                        Err(e)
                    },
                    Ok(_) => {
                        let ghost mid = self.running_events@;
                        proof {
                            lemma_guid_insert_distinct(mid, guid, event);
                            lemma_insert_bounded(mid, guid, event, self.next_guid);
                            crate::keyed::lemma_guid_lookup_some(mid, guid);
                        }
                        guid_set(&mut self.running_events, guid, event);
                        proof {
                            assert(self.running_events@ == mid.push((guid, event)));
                            assert(self.running_events@.drop_last() =~= mid);
                            assert(step_spec(old(self).code(), old(self).operation_names(), guid_lookup(before, guid)->0@, obs) matches Some(Ok(_)));
                        }
                        Ok(())
                    },
                }
            },
            None => Err(VmError::EventDoesNotExists(ast::Reference::Guid(guid))),
        }
    }
}

/// The events with their states seen as views.
pub open spec fn events_view(s: Seq<(GUID, VmEvent)>) -> Seq<(GUID, EventView)> {
    s.map_values(|p: (GUID, VmEvent)| (p.0, p.1@))
}

/// The completed events with their outputs seen as sequences.
pub open spec fn completed_view(s: Seq<(GUID, Vec<Reference>)>) -> Seq<(GUID, Seq<Reference>)> {
    s.map_values(|p: (GUID, Vec<Reference>)| (p.0, p.1@))
}

/// Processing the first `k` events in order, each run as `process_spec` says
/// with what it learns from outside: the events still running, the events
/// that completed with their outputs, and the first failure. The event that
/// fails is dropped, and the events after it are left as they are.
pub open spec fn process_all(
    code: VmCode,
    names: Seq<Seq<char>>,
    evs: Seq<(GUID, EventView)>,
    obs: Seq<Seq<StepInput>>,
    k: int,
) -> Option<(Seq<(GUID, EventView)>, Seq<(GUID, Seq<Reference>)>, Option<VmError>)>
    decreases k,
{
    if k <= 0 {
        Some((Seq::empty(), Seq::empty(), None))
    } else {
        match process_all(code, names, evs, obs, k - 1) {
            None => None,
            Some((run, done, err)) => match err {
                Some(e) => Some((run.push(evs[k - 1]), done, Some(e))),
                None => match process_spec(code, names, evs[k - 1].1, obs[k - 1]) {
                    None => None,
                    Some(Err(e)) => Some((run, done, Some(e))),
                    Some(Ok((still, ev))) => if still {
                        Some((run.push((evs[k - 1].0, ev)), done, None))
                    } else {
                        Some((run, done.push((evs[k - 1].0, ev.outputs)), None))
                    },
                },
            },
        }
    }
}

/// The completed events after the first `k` of `done` are added in order,
/// each replacing an entry with its identifier.
pub open spec fn insert_all(c: Seq<(GUID, Seq<Reference>)>, done: Seq<(GUID, Seq<Reference>)>, k: int) -> Seq<(GUID, Seq<Reference>)>
    decreases k,
{
    if k <= 0 {
        c
    } else {
        guid_insert(insert_all(c, done, k - 1), done[k - 1].0, done[k - 1].1)
    }
}

/// What `process_events` does: every running event runs in turn until it
/// halts (it stays running), stops (it completes with its outputs) or fails
/// (it is dropped, the failure is returned and the events after it are not run).
pub open spec fn process_events_post(pre: Vm, post: Vm, r: Result<(), VmError>) -> bool {
    &&& post.code() == pre.code()
    &&& post.operation_names() == pre.operation_names()
    &&& post.next_id() == pre.next_id()
    &&& exists|obs: Seq<Seq<StepInput>>|
        #![trigger process_all(pre.code(), pre.operation_names(), events_view(pre.running()), obs, pre.running().len() as int)]
        obs.len() == pre.running().len() && match process_all(
            pre.code(),
            pre.operation_names(),
            events_view(pre.running()),
            obs,
            pre.running().len() as int,
        ) {
            Some((run, done, err)) => {
                &&& events_view(post.running()) == run
                &&& completed_view(post.completed()) == insert_all(completed_view(pre.completed()), done, done.len() as int)
                &&& r == match err {
                    Some(e) => Err::<(), VmError>(e),
                    None => Ok::<(), VmError>(()),
                }
            },
            None => false,
        }
}

/// Positions by identifier agree between two lists with the same identifiers.
proof fn lemma_guid_pos_same<A, B>(a: Seq<(GUID, A)>, b: Seq<(GUID, B)>, g: GUID, i: int)
    requires
        a.len() == b.len(),
        forall|k: int| 0 <= k < a.len() ==> (#[trigger] a[k]).0 == b[k].0,
    ensures
        crate::keyed::guid_pos_from(a, g, i) == crate::keyed::guid_pos_from(b, g, i),
    decreases a.len() - i,
{
    if 0 <= i < a.len() {
        lemma_guid_pos_same(a, b, g, i + 1);
    }
}

proof fn lemma_completed_view_insert(s: Seq<(GUID, Vec<Reference>)>, g: GUID, v: Vec<Reference>)
    ensures
        completed_view(guid_insert(s, g, v)) == guid_insert(completed_view(s), g, v@),
{
    let cv = completed_view(s);
    lemma_guid_pos_same(s, cv, g, 0);
    crate::keyed::lemma_guid_pos_from(s, g, 0);
    assert(completed_view(guid_insert(s, g, v)) =~= guid_insert(cv, g, v@));
}

impl Vm {
    /// Runs every running event in turn where each passes the check of
    /// `can_process_events`; `None`, with the machine left as it was, where
    /// one does not.
    pub fn try_process_events(&mut self) -> (r: Option<Result<(), VmError>>)
        requires
            old(self).wf(),
        ensures
            final(self).wf(),
            r is None <==> !old(self).events_checked(),
            r is None ==> *final(self) == *old(self),
            r matches Some(res) ==> process_events_post(*old(self), *final(self), res),
    {
        if self.can_process_events() {
            proof {
                self.lemma_checked_events_safe();
            }
            Some(self.process_events())
        } else {
            None
        }
    }
}

impl Vm {
    /// Runs every running event in turn (see `process_events_post`).
    #[verifier::rlimit(40)]
    pub fn process_events(&mut self) -> (r: Result<(), VmError>)
        requires
            old(self).wf(),
            old(self).events_safe(),
        ensures
            final(self).wf(),
            process_events_post(*old(self), *final(self), r),
    {
        let mut events: Vec<(GUID, VmEvent)> = Vec::new();
        std::mem::swap(&mut events, &mut self.running_events);
        let ghost pre = events@;
        let total = events.len();
        let ghost evs = events_view(pre);
        let ghost code = self.code;
        let ghost names = names_of(self.operation_names@);
        let ghost completed0 = completed_view(self.completed_events@);
        let ghost mut obs: Seq<Seq<StepInput>> = Seq::empty();
        let ghost mut done: Seq<(GUID, Seq<Reference>)> = Seq::empty();
        let mut error: Option<VmError> = None;
        let mut i: usize = 0;
        proof {
            assert(pre.subrange(0, pre.len() as int) =~= pre);
        }
        while events.len() > 0
            invariant
                i <= pre.len(),
                pre.len() == total,
                events@ == pre.subrange(i as int, pre.len() as int),
                obs.len() == i,
                pre == old(self).running_events@,
                evs == events_view(pre),
                code == old(self).code,
                self.code == code,
                names == names_of(self.operation_names@),
                self.operation_names == old(self).operation_names,
                self.next_guid == old(self).next_guid,
                completed0 == completed_view(old(self).completed_events@),
                forall|k: int| 0 <= k < pre.len() ==> run_safe(code, names, (#[trigger] pre[k]).1@),
                names_of(self.operation_names@).no_duplicates(),
                self.operation_names@.len() == self.operations@.len(),
                guids_distinct(pre),
                forall|k: int| 0 <= k < pre.len() ==> (#[trigger] pre[k]).0.0 < self.next_guid,
                guids_distinct(self.running_events@),
                guids_distinct(self.completed_events@),
                forall|k: int| 0 <= k < self.running_events@.len() ==> (#[trigger] self.running_events@[k]).0.0 < self.next_guid,
                forall|k: int| 0 <= k < self.completed_events@.len() ==> (#[trigger] self.completed_events@[k]).0.0 < self.next_guid,
                forall|k: int| 0 <= k < self.running_events@.len() ==> exists|p: int| 0 <= p < i && (#[trigger] self.running_events@[k]).0 == pre[p].0,
                process_all(code, names, evs, obs, i as int) == Some((events_view(self.running_events@), done, error)),
                completed_view(self.completed_events@) == insert_all(completed0, done, done.len() as int),
            decreases events@.len(),
        {
            assert(events@.len() == pre.len() - i);
            let (g, mut ev) = events.remove(0);
            assert(pre[i as int] == (g, ev));
            let ghost obs_before = obs;
            let ghost run_before = self.running_events@;
            proof {
                assert forall|k: int| 0 <= k < run_before.len() implies (#[trigger] run_before[k]).0 != g by {
                    let p = choose|p: int| 0 <= p < i && run_before[k].0 == pre[p].0;
                    assert(pre[p].0 != pre[i as int].0);
                }
            }
            if error.is_some() {
                self.running_events.push((g, ev));
                proof {
                    obs = obs.push(Seq::empty());
                    assert(events_view(self.running_events@) =~= events_view(run_before).push(evs[i as int]));
                    assert(guids_distinct(self.running_events@)) by {
                        assert forall|a: int, b: int| 0 <= a < b < self.running_events@.len() implies self.running_events@[a].0 != self.running_events@[b].0 by {
                            if b < run_before.len() {
                                assert(self.running_events@[a] == run_before[a] && self.running_events@[b] == run_before[b]);
                            } else {
                                assert(self.running_events@[a] == run_before[a]);
                            }
                        }
                    }
                    assert forall|k: int| 0 <= k < self.running_events@.len() implies exists|p: int| 0 <= p < i + 1 && (#[trigger] self.running_events@[k]).0 == pre[p].0 by {
                        if k < run_before.len() {
                            assert(self.running_events@[k] == run_before[k]);
                            let p = choose|p: int| 0 <= p < i && run_before[k].0 == pre[p].0;
                            assert(0 <= p < i + 1 && self.running_events@[k].0 == pre[p].0);
                        } else {
                            assert(self.running_events@[k].0 == pre[i as int].0);
                        }
                    }
                    assert(obs.drop_last() =~= obs.subrange(0, i as int));
                }
            } else {
                let ghost ev_before = ev@;
                let (res, Ghost(o)) = self.process_event(&mut ev);
                let ghost prev_obs = obs;
                proof {
                    obs = obs.push(o);
                    assert(obs[i as int] == o);
                    assert(forall|k: int| 0 <= k < i ==> obs[k] == prev_obs[k]);
                }
                match res {
                    Ok(true) => {
                        self.running_events.push((g, ev));
                        proof {
                            assert(events_view(self.running_events@) =~= events_view(run_before).push((g, ev@)));
                            assert(guids_distinct(self.running_events@)) by {
                                assert forall|a: int, b: int| 0 <= a < b < self.running_events@.len() implies self.running_events@[a].0 != self.running_events@[b].0 by {
                                    if b < run_before.len() {
                                        assert(self.running_events@[a] == run_before[a] && self.running_events@[b] == run_before[b]);
                                    } else {
                                        assert(self.running_events@[a] == run_before[a]);
                                    }
                                }
                            }
                            assert forall|k: int| 0 <= k < self.running_events@.len() implies exists|p: int| 0 <= p < i + 1 && (#[trigger] self.running_events@[k]).0 == pre[p].0 by {
                                if k < run_before.len() {
                                    assert(self.running_events@[k] == run_before[k]);
                                    let p = choose|p: int| 0 <= p < i && run_before[k].0 == pre[p].0;
                                    assert(0 <= p < i + 1 && self.running_events@[k].0 == pre[p].0);
                                } else {
                                    assert(self.running_events@[k].0 == pre[i as int].0);
                                }
                            }
                        }
                    },
                    Ok(false) => {
                        let ghost cbefore = self.completed_events@;
                        let outputs = ev.outputs;
                        proof {
                            lemma_guid_insert_distinct(cbefore, g, outputs);
                            lemma_insert_bounded(cbefore, g, outputs, self.next_guid);
                            lemma_completed_view_insert(cbefore, g, outputs);
                        }
                        guid_set(&mut self.completed_events, g, outputs);
                        proof {
                            let prev_done = done;
                            done = done.push((g, outputs@));
                            lemma_insert_all_prefix(completed0, done, prev_done, prev_done.len() as int);
                        }
                    },
                    Err(e) => {
                        error = Some(e);
                    },
                }
            }
            proof {
                assert(obs.len() == i + 1);
                assert forall|j: int| 0 <= j < i implies obs[j] == obs_before[j] by {}
                lemma_process_all_prefix(code, names, evs, obs, obs_before, i as int);
            }
            i = i + 1;
            proof {
                assert(events@ =~= pre.subrange(i as int, pre.len() as int));
            }
        }
        proof {
            assert(i == pre.len());
        }
        match error {
            Some(e) => Err(e),
            None => Ok(()),
        }
    }
}

/// Processing the first `k` events depends on what the first `k` learned alone.
proof fn lemma_process_all_prefix(
    code: VmCode,
    names: Seq<Seq<char>>,
    evs: Seq<(GUID, EventView)>,
    a: Seq<Seq<StepInput>>,
    b: Seq<Seq<StepInput>>,
    k: int,
)
    requires
        0 <= k <= a.len(),
        k <= b.len(),
        forall|j: int| 0 <= j < k ==> a[j] == b[j],
    ensures
        process_all(code, names, evs, a, k) == process_all(code, names, evs, b, k),
    decreases k,
{
    if k > 0 {
        lemma_process_all_prefix(code, names, evs, a, b, k - 1);
    }
}

/// Adding the same first `k` entries gives the same completed events.
proof fn lemma_insert_all_prefix(c: Seq<(GUID, Seq<Reference>)>, a: Seq<(GUID, Seq<Reference>)>, b: Seq<(GUID, Seq<Reference>)>, k: int)
    requires
        0 <= k <= a.len(),
        k <= b.len(),
        forall|j: int| 0 <= j < k ==> a[j] == b[j],
    ensures
        insert_all(c, a, k) == insert_all(c, b, k),
    decreases k,
{
    if k > 0 {
        lemma_insert_all_prefix(c, a, b, k - 1);
    }
}

/// What loading a program gives: a version outside the supported range fails
/// first (see `load_program` for the rest).
pub open spec fn vm_load(ast: Program) -> Load<Loaded> {
    if ast.version < VERSION_MIN || ast.version > VERSION {
        Load::Fail(VmError::ProgramCompiledForDifferentVersion(ast.version, VERSION))
    } else {
        load_program(ast)
    }
}

/// A machine that has just loaded `ast`: what loading worked out, every
/// global variable with a fresh cell, no operation and no event.
pub open spec fn loaded_vm(vm: Vm, ast: Program, l: Loaded) -> bool {
    &&& vm.wf()
    &&& vm.program() == ast
    &&& table_view(vm.type_method_table()) == l.type_methods
    &&& orders_view(vm.event_orders()) == l.event_orders
    &&& pairs_view(vm.method_orders()) == l.method_orders
    &&& orders_view(vm.function_orders()) == l.function_orders
    &&& vm.ends() == l.end_nodes
    &&& exists|cells: Seq<Reference>|
        cells.len() == ast.variables@.len() && made_null(cells) && vm.globals() == #[trigger] variables_init(
            variable_names_of(ast.variables@),
            cells,
            ast.variables@.len() as int,
        )
    &&& vm.operation_names() == Seq::<Seq<char>>::empty()
    &&& vm.running() == Seq::<(GUID, VmEvent)>::empty()
    &&& vm.completed() == Seq::<(GUID, Vec<Reference>)>::empty()
    &&& vm.next_id() == 0
}

/// What `Vm::new` gives for a load that does not panic; a loaded machine
/// keeps for each event name a good execution order of an event of that name
/// (see `order_good`).
pub open spec fn new_post(ast: Program, r: Result<Vm, VmError>) -> bool {
    match vm_load(ast) {
        Load::Done(l) => r matches Ok(vm) && loaded_vm(vm, ast, l) && event_orders_good(ast.events@, vm.event_orders()),
        Load::Fail(e) => r matches Err(x) && x == e,
        Load::MultipleEntries(ids) => r matches Err(VmError::FoundMultipleEntryNodes(v)) && v@ == ids,
        Load::Panic => false,
    }
}

impl Vm {
    /// Loads a program (see `vm_load`); loading panics on the programs that
    /// `requires` leaves out, which `try_new` tells apart.
    pub fn new(ast: Program) -> (r: Result<Vm, VmError>)
        requires
            !(vm_load(ast) is Panic),
        ensures
            new_post(ast, r),
    {
        if ast.version < VERSION_MIN || ast.version > VERSION {
            return Err(VmError::ProgramCompiledForDifferentVersion(ast.version, VERSION));
        }
        let tables = match load_program_exec(&ast) {
            Some(Ok(t)) => t,
            Some(Err(e)) => {
                return Err(e);
            },
            None => {
                proof {
                    assert(false);
                }
                return Err(VmError::FoundCycleInFlowGraph);
            },
        };
        let names = names_of_variables(&ast.variables);
        let variables = variables_start(&names);
        let ghost g_ast = ast;
        let vm = Vm {
            code: VmCode {
                ast,
                variables,
                event_execution_order: tables.event_orders,
                method_execution_order: tables.method_orders,
                function_execution_order: tables.function_orders,
                type_methods: tables.type_methods,
                end_nodes: tables.end_nodes,
            },
            operation_names: Vec::new(),
            operations: Vec::new(),
            running_events: Vec::new(),
            completed_events: Vec::new(),
            next_guid: 0,
        };
        proof {
            assert(names_of(vm.operation_names@) =~= Seq::<Seq<char>>::empty());
            let cells = choose|cells: Seq<Reference>|
                cells.len() == names@.len() && made_null(cells) && variables@ == variables_init(names@, cells, names@.len() as int);
            assert(vm.globals() == variables_init(variable_names_of(g_ast.variables@), cells, g_ast.variables@.len() as int));
        }
        Ok(vm)
    }

    /// Loads a program as `new` does; `None` where loading panics.
    pub fn try_new(ast: Program) -> (r: Option<Result<Vm, VmError>>)
        ensures
            match r {
                None => vm_load(ast) is Panic,
                Some(x) => new_post(ast, x),
            },
    {
        if VERSION_MIN <= ast.version && ast.version <= VERSION {
            match load_program_exec(&ast) {
                None => {
                    return None;
                },
                Some(_) => {},
            }
        }
        Some(Vm::new(ast))
    }
}

/// The identifier the next event gets is held by no running or completed event.
pub proof fn law_fresh_identifier(vm: Vm)
    requires
        vm.wf(),
    ensures
        guid_lookup(vm.running(), GUID(vm.next_id())) is None,
        guid_lookup(vm.completed(), GUID(vm.next_id())) is None,
{
    crate::keyed::lemma_guid_lookup_some(vm.running_events@, GUID(vm.next_guid));
    crate::keyed::lemma_guid_lookup_some(vm.completed_events@, GUID(vm.next_guid));
    if guid_pos(vm.running_events@, GUID(vm.next_guid)) is Some {
        let p = guid_pos(vm.running_events@, GUID(vm.next_guid))->0;
        assert(vm.running_events@[p].0.0 < vm.next_guid);
    }
    if guid_pos(vm.completed_events@, GUID(vm.next_guid)) is Some {
        let p = guid_pos(vm.completed_events@, GUID(vm.next_guid))->0;
        assert(vm.completed_events@[p].0.0 < vm.next_guid);
    }
}

/// A call node runs the operator registered under the name of the operation
/// it calls: in a step that runs the host operation at some position, the
/// current node calls an operation of the program whose name stands at that
/// position, and the registry maps that name to the operator there.
pub proof fn law_call_runs_registered(vm: Vm, ev: EventView, obs: StepInput)
    requires
        vm.wf(),
        step_spec(vm.code(), vm.operation_names(), ev, obs) is Some,
    ensures
        obs matches StepInput::Operation(i, _, _) ==> {
            &&& spec_current_node(vm.code(), ev) matches Some(node)
            &&& node.node_type matches NodeType::CallOperation(name)
            &&& named(vm.program().operations@, name@) matches Some(op)
            &&& i < vm.operation_names().len()
            &&& vm.operation_names()[i as int] == op.name@
            &&& vm.registry().contains_key(op.name@)
            &&& vm.registry()[op.name@] == vm.operation_boxes()[i as int]
        },
{
    reveal(step_spec);
    if let StepInput::Operation(i, _, _) = obs {
        let names = vm.operation_names();
        if 0 <= i < names.len() {
            lemma_registry_at(names, vm.operation_boxes(), i as int);
        }
    }
}

/// The event that `run_event` starts runs one context, owned by the event of
/// that name, holding the given inputs in the given order: input `k` reads
/// the `k`-th reference given.
pub proof fn law_started_event_inputs(pre: Vm, post: Vm, name: Seq<char>, inputs: Seq<Reference>, guid: GUID)
    requires
        run_event_post(pre, post, name, inputs, Ok(guid)),
    ensures
        post.running().last().0 == guid,
        post.running().last().1@.contexts.len() == 1,
        post.running().last().1@.contexts[0].owner matches VmContextOwner::Event(en) && en@ == name,
        post.running().last().1@.contexts[0].inputs == inputs,
        forall|k: usize| (k as int) < inputs.len() ==> #[trigger] spec_input_value(post.running().last().1@, k) == Ok::<Reference, VmError>(inputs[k as int]),
{
    let e = named(pre.program().events@, name)->0;
    ast::lemma_named_pos_from(pre.program().events@, name, 0);
}

/// An event that `run_event` started is running under the identifier it
/// returned, so `destroy_event` and `single_step_event` find it.
pub proof fn law_started_event_runs(pre: Vm, post: Vm, name: Seq<char>, inputs: Seq<Reference>, guid: GUID)
    requires
        post.wf(),
        run_event_post(pre, post, name, inputs, Ok(guid)),
    ensures
        guid_lookup(post.running(), guid) is Some,
{
    let s = post.running_events@;
    crate::keyed::lemma_guid_lookup_distinct(s, guid);
    assert(s[s.len() - 1].0 == guid);
}

/// A machine keeps identifiers distinct: none is held twice among the running
/// events, nor among the completed ones.
pub proof fn lemma_wf_distinct(vm: Vm)
    requires
        vm.wf(),
    ensures
        guids_distinct(vm.running()),
        guids_distinct(vm.completed()),
{
}

/// An event that `destroy_event` removed no longer runs, so destroying it
/// again fails with `EventDoesNotExists`.
pub proof fn law_destroy_twice(before: Vm, after: Vm, guid: GUID)
    requires
        before.wf(),
        guid_lookup(before.running(), guid) is Some,
        after.running() == guid_remove(before.running(), guid),
    ensures
        guid_lookup(after.running(), guid) is None,
{
    lemma_guid_remove_distinct(before.running_events@, guid);
}

/// Taking a completed event's outputs removes them: taking them again gives nothing.
pub proof fn law_take_twice(before: Vm, after: Vm, guid: GUID)
    requires
        before.wf(),
        after.completed() == guid_remove(before.completed(), guid),
    ensures
        guid_lookup(after.completed(), guid) is None,
{
    lemma_guid_remove_distinct(before.completed_events@, guid);
}

/// A destroyed event has completed with no outputs, which are taken once:
/// taking them gives the empty outputs, taking them again gives nothing.
pub proof fn law_destroy_then_take(destroyed: Vm, taken: Vm, guid: GUID, r: Option<Vec<Reference>>)
    requires
        destroyed.wf(),
        guid_lookup(destroyed.completed(), guid) matches Some(v) && v@.len() == 0,
        r == guid_lookup(destroyed.completed(), guid),
        taken.completed() == guid_remove(destroyed.completed(), guid),
    ensures
        r matches Some(v) && v@.len() == 0,
        guid_lookup(taken.completed(), guid) is None,
{
    lemma_guid_remove_distinct(destroyed.completed_events@, guid);
}

/// Removing keeps every identifier below a bound.
proof fn lemma_remove_bounded<V>(s: Seq<(GUID, V)>, g: GUID, bound: u64)
    requires
        forall|i: int| 0 <= i < s.len() ==> (#[trigger] s[i]).0.0 < bound,
    ensures
        forall|i: int| 0 <= i < guid_remove(s, g).len() ==> (#[trigger] guid_remove(s, g)[i]).0.0 < bound,
{
    crate::keyed::lemma_guid_pos_from(s, g, 0);
    match crate::keyed::guid_pos(s, g) {
        Some(p) => {
            assert forall|i: int| 0 <= i < guid_remove(s, g).len() implies (#[trigger] guid_remove(s, g)[i]).0.0 < bound by {
                if i < p {
                    assert(guid_remove(s, g)[i] == s[i]);
                } else {
                    assert(guid_remove(s, g)[i] == s[i + 1]);
                }
            }
        },
        None => {},
    }
}

/// Inserting an identifier below a bound keeps every identifier below it.
proof fn lemma_insert_bounded<V>(s: Seq<(GUID, V)>, g: GUID, v: V, bound: u64)
    requires
        forall|i: int| 0 <= i < s.len() ==> (#[trigger] s[i]).0.0 < bound,
        g.0 < bound,
    ensures
        forall|i: int| 0 <= i < guid_insert(s, g, v).len() ==> (#[trigger] guid_insert(s, g, v)[i]).0.0 < bound,
{
    crate::keyed::lemma_guid_pos_from(s, g, 0);
    match crate::keyed::guid_pos(s, g) {
        Some(p) => {
            assert forall|i: int| 0 <= i < guid_insert(s, g, v).len() implies (#[trigger] guid_insert(s, g, v)[i]).0.0 < bound by {
                if i != p {
                    assert(guid_insert(s, g, v)[i] == s[i]);
                }
            }
        },
        None => {
            assert forall|i: int| 0 <= i < guid_insert(s, g, v).len() implies (#[trigger] guid_insert(s, g, v)[i]).0.0 < bound by {
                if i < s.len() {
                    assert(guid_insert(s, g, v)[i] == s[i]);
                }
            }
        },
    }
}

proof fn lemma_box_update_len(s: Seq<OperationBox>, i: int, a: OperationBox)
    requires
        0 <= i < s.len(),
    ensures
        s.update(i, a).len() == s.len(),
{
}

proof fn lemma_box_push_len(s: Seq<OperationBox>, a: OperationBox)
    ensures
        s.push(a).len() == s.len() + 1,
{
}


/// Runs the operation at position `i` on the inputs, and gives back what it
/// returned with the inputs it was handed: the operations stay where they
/// are, and every other operation is left as it was. What the operation
/// returns, and how running changes it, is the host's own.
pub(crate) fn call_operation(ops: &mut Vec<OperationBox>, i: usize, inputs: &Vec<Reference>) -> (r: (Result<Vec<Reference>, VmOperationError>, Ghost<Seq<Reference>>))
    requires
        i < old(ops)@.len(),
    ensures
        r.1@ == inputs@,
        final(ops)@.len() == old(ops)@.len(),
        forall|j: int| 0 <= j < old(ops)@.len() && j != i ==> final(ops)@[j] == old(ops)@[j],
{
    let ghost before = ops@;
    let mut ob = ops.remove(i);
    let ghost removed = ops@;
    let handed = inputs.as_slice();
    let r = ob.op.execute(handed);
    ops.insert(i, ob);
    proof {
        assert(removed == before.remove(i as int));
        assert forall|j: int| 0 <= j < before.len() && j != i implies ops@[j] == before[j] by {
            if j < i {
                assert(ops@[j] == removed[j]);
                assert(removed[j] == before[j]);
            } else {
                assert(ops@[j] == removed[j - 1]);
                assert(removed[j - 1] == before[j]);
            }
        }
    }
    (r, Ghost(handed@))
}

/// Copies of the names of variables.
pub(crate) fn names_of_variables(vars: &Vec<Variable>) -> (r: Vec<String>)
    ensures
        r@ == variable_names_of(vars@),
{
    let mut r: Vec<String> = Vec::new();
    let mut i: usize = 0;
    while i < vars.len()
        invariant
            i <= vars@.len(),
            r@ == variable_names_of(vars@.subrange(0, i as int)),
        decreases vars@.len() - i,
    {
        r.push(vars[i].name.clone());
        proof {
            assert(vars@.subrange(0, i + 1) =~= vars@.subrange(0, i as int).push(vars@[i as int]));
            assert(r@ =~= variable_names_of(vars@.subrange(0, i + 1)));
        }
        i = i + 1;
    }
    proof {
        assert(vars@.subrange(0, vars@.len() as int) =~= vars@);
    }
    r
}

/// Position of a name in a list of names.
pub(crate) fn position_of(names: &Vec<String>, key: &String) -> (r: Option<usize>)
    ensures
        match r {
            Some(i) => i < names@.len() && names@[i as int]@ == key@,
            None => !names_of(names@).contains(key@),
        },
{
    let mut i: usize = 0;
    while i < names.len()
        invariant
            i <= names@.len(),
            forall|j: int| 0 <= j < i ==> names@[j]@ != key@,
        decreases names@.len() - i,
    {
        if names[i] == *key {
            return Some(i);
        }
        i = i + 1;
    }
    proof {
        if names_of(names@).contains(key@) {
            let j = choose|j: int| 0 <= j < names_of(names@).len() && names_of(names@)[j] == key@;
            assert(names@[j]@ == key@);
        }
    }
    None
}

} // verus!
