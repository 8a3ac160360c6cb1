//! A running event: a stack of call contexts, each walking its execution
//! order with its own inputs, outputs, variables, jumps and cached node outputs.
use vstd::prelude::*;
use crate::ast::{self, Link, RefKey};
use crate::error::VmError;
use crate::keyed::{lemma_ref_pos_from_bound, lemma_ref_pos_same_keys, name_find, name_insert, name_lookup, name_set, ref_find, ref_insert, ref_lookup, ref_pos, ref_set};
use crate::value::{cell_created_with, Reference, Value};

verus! {

/// Whose flow graph a context runs.
#[derive(Debug)]
pub enum VmContextOwner {
    Event(String),
    /// (type name, method name)
    Method(String, String),
    Function(String),
}

/// An entry of a context's jump stack.
#[derive(Debug)]
pub enum VmJump {
    /// The bottom of a context's stack.
    Unset(Option<ast::Reference>),
    /// A loop node whose body runs.
    Loop(ast::Reference),
    /// An if-else node whose branch runs.
    IfElse(ast::Reference),
}

impl VmJump {
    pub fn duplicate(&self) -> (r: VmJump)
        ensures
            r == *self,
    {
        match self {
            VmJump::Unset(None) => VmJump::Unset(None),
            VmJump::Unset(Some(id)) => VmJump::Unset(Some(id.duplicate())),
            VmJump::Loop(id) => VmJump::Loop(id.duplicate()),
            VmJump::IfElse(id) => VmJump::IfElse(id.duplicate()),
        }
    }
}

/// One call of a flow graph.
#[derive(Debug)]
pub struct VmContext {
    pub owner: VmContextOwner,
    pub caller_node: Option<ast::Reference>,
    pub execution: Vec<ast::Reference>,
    pub current: Option<usize>,
    pub instance: Option<Reference>,
    pub inputs: Vec<Reference>,
    pub outputs: Vec<Reference>,
    pub variables: Vec<(String, Reference)>,
    pub jump_stack: Vec<VmJump>,
    pub node_outputs: Vec<(ast::Reference, Vec<Reference>)>,
}

/// A context with its vectors seen as sequences.
pub struct ContextView {
    pub owner: VmContextOwner,
    pub caller_node: Option<ast::Reference>,
    pub execution: Seq<ast::Reference>,
    pub current: Option<usize>,
    pub instance: Option<Reference>,
    pub inputs: Seq<Reference>,
    pub outputs: Seq<Reference>,
    pub variables: Seq<(String, Reference)>,
    pub jump_stack: Seq<VmJump>,
    pub node_outputs: Seq<(ast::Reference, Seq<Reference>)>,
}

#[verifier::opaque]
pub open spec fn outputs_view(s: Seq<(ast::Reference, Vec<Reference>)>) -> Seq<(ast::Reference, Seq<Reference>)> {
    s.map_values(|p: (ast::Reference, Vec<Reference>)| (p.0, p.1@))
}

impl View for VmContext {
    type V = ContextView;

    open spec fn view(&self) -> ContextView {
        ContextView {
            owner: self.owner,
            caller_node: self.caller_node,
            execution: self.execution@,
            current: self.current,
            instance: self.instance,
            inputs: self.inputs@,
            outputs: self.outputs@,
            variables: self.variables@,
            jump_stack: self.jump_stack@,
            node_outputs: outputs_view(self.node_outputs@),
        }
    }
}

/// An event being run.
#[derive(Debug)]
pub struct VmEvent {
    pub contexts: Vec<VmContext>,
    pub outputs: Vec<Reference>,
}

pub struct EventView {
    pub contexts: Seq<ContextView>,
    pub outputs: Seq<Reference>,
}

impl View for VmEvent {
    type V = EventView;

    open spec fn view(&self) -> EventView {
        EventView { contexts: self.contexts@.map_values(|c: VmContext| c@), outputs: self.outputs@ }
    }
}

/// The context that runs now: the last one.
pub open spec fn top(ev: EventView) -> Option<ContextView> {
    if ev.contexts.len() > 0 {
        Some(ev.contexts.last())
    } else {
        None
    }
}

/// The event with its last context replaced.
pub open spec fn with_top(ev: EventView, c: ContextView) -> EventView {
    EventView { contexts: ev.contexts.drop_last().push(c), outputs: ev.outputs }
}

/// The event without its last context.
pub open spec fn without_top(ev: EventView) -> EventView {
    EventView { contexts: ev.contexts.drop_last(), outputs: ev.outputs }
}

/// The event with a context added last.
pub open spec fn with_pushed(ev: EventView, c: ContextView) -> EventView {
    EventView { contexts: ev.contexts.push(c), outputs: ev.outputs }
}

/// Every cell was made holding `Value::Null`.
pub open spec fn made_null(cells: Seq<Reference>) -> bool {
    forall|i: int| 0 <= i < cells.len() ==> cell_created_with((#[trigger] cells[i]).0) == Value::Null
}

/// The variables of a new context: each name gets its fresh cell, a later
/// duplicate name replacing an earlier one.
pub open spec fn variables_init(names: Seq<String>, cells: Seq<Reference>, k: int) -> Seq<(String, Reference)>
    decreases k,
{
    if k <= 0 {
        Seq::empty()
    } else {
        name_insert(variables_init(names, cells, k - 1), names[k - 1], cells[k - 1])
    }
}

/// A new context at the start of its execution order: every output is the
/// same fresh cell, every variable has a fresh cell.
pub open spec fn context_start(
    owner: VmContextOwner,
    caller_node: Option<ast::Reference>,
    execution: Seq<ast::Reference>,
    instance: Option<Reference>,
    inputs: Seq<Reference>,
    outputs: nat,
    output_cell: Reference,
    variable_names: Seq<String>,
    variable_cells: Seq<Reference>,
) -> ContextView {
    ContextView {
        owner,
        caller_node,
        execution,
        current: Some(0),
        instance,
        inputs,
        outputs: Seq::new(outputs, |i: int| output_cell),
        variables: variables_init(variable_names, variable_cells, variable_names.len() as int),
        jump_stack: seq![VmJump::Unset(None)],
        node_outputs: Seq::empty(),
    }
}

/// Names of the variables, in order.
pub open spec fn variable_names_of(vars: Seq<ast::Variable>) -> Seq<String> {
    vars.map_values(|v: ast::Variable| v.name)
}

/// A new event: one context running the event's own flow graph.
pub open spec fn event_start(
    owner_event: String,
    execution: Seq<ast::Reference>,
    inputs: Seq<Reference>,
    outputs: nat,
    output_cell: Reference,
    variable_names: Seq<String>,
    variable_cells: Seq<Reference>,
) -> EventView {
    EventView {
        contexts: seq![context_start(VmContextOwner::Event(owner_event), None, execution, None, inputs, outputs, output_cell, variable_names, variable_cells)],
        outputs: Seq::empty(),
    }
}

pub open spec fn spec_get_node_outputs(ev: EventView, id: ast::Reference) -> Result<Seq<Reference>, VmError> {
    match top(ev) {
        Some(c) => match ref_lookup(c.node_outputs, id@) {
            Some(o) => Ok(o),
            None => Err(VmError::ThereAreNoCachedNodeOutputs(id)),
        },
        None => Err(VmError::ThereAreNoCachedNodeOutputs(id)),
    }
}

pub open spec fn spec_get_node_output(ev: EventView, link: Link) -> Result<Reference, VmError> {
    match link {
        Link::NodeIndexed(id, index) => match spec_get_node_outputs(ev, id) {
            Ok(outs) => if index < outs.len() {
                Ok(outs[index as int])
            } else {
                Err(VmError::ThereIsNoCachedNodeIndexedOutput(link))
            },
            Err(e) => Err(e),
        },
        Link::Unset => Err(VmError::ThereIsNoCachedNodeIndexedOutput(link)),
    }
}

pub open spec fn spec_set_node_outputs(ev: EventView, id: ast::Reference, values: Seq<Reference>) -> EventView {
    match top(ev) {
        Some(c) => with_top(ev, ContextView { node_outputs: ref_insert(c.node_outputs, id, values), ..c }),
        None => ev,
    }
}

/// Moves to the next node; a context that has run its last node is left,
/// its caller moves on, and the context's outputs become the caller node's
/// outputs (or the event's, for the event's own context).
pub open spec fn spec_go_to_next_node(ev: EventView) -> EventView
    decreases ev.contexts.len(),
{
    match top(ev) {
        Some(c) => match c.current {
            Some(cur) => if cur < c.execution.len() && cur + 1 < c.execution.len() {
                with_top(ev, ContextView { current: Some((cur + 1) as usize), ..c })
            } else {
                let moved = spec_go_to_next_node(without_top(ev));
                match c.caller_node {
                    Some(caller) => spec_set_node_outputs(moved, caller, c.outputs),
                    None => EventView { outputs: c.outputs, ..moved },
                }
            },
            None => ev,
        },
        None => ev,
    }
}

pub open spec fn spec_push_jump(ev: EventView, jump: VmJump) -> EventView {
    match top(ev) {
        Some(c) => with_top(ev, ContextView { jump_stack: c.jump_stack.push(jump), ..c }),
        None => ev,
    }
}

pub open spec fn spec_pop_jump(ev: EventView) -> (Result<VmJump, VmError>, EventView) {
    match top(ev) {
        Some(c) => if c.jump_stack.len() > 0 {
            (Ok(c.jump_stack.last()), with_top(ev, ContextView { jump_stack: c.jump_stack.drop_last(), ..c }))
        } else {
            (Err(VmError::StackUnderflow), ev)
        },
        None => (Err(VmError::StackUnderflow), ev),
    }
}

pub open spec fn spec_jump_stack_empty(ev: EventView) -> bool {
    match top(ev) {
        Some(c) => c.jump_stack.len() == 0,
        None => true,
    }
}

pub open spec fn spec_instance_value(ev: EventView) -> Result<Reference, VmError> {
    match top(ev) {
        Some(c) => match c.instance {
            Some(i) => Ok(i),
            None => Err(VmError::InstanceDoesNotExists),
        },
        None => Err(VmError::InstanceDoesNotExists),
    }
}

pub open spec fn spec_local_variable_value(ev: EventView, name: String) -> Result<Reference, VmError> {
    match top(ev) {
        Some(c) => match name_lookup(c.variables, name@) {
            Some(v) => Ok(v),
            None => Err(VmError::LocalVariableDoesNotExists(ast::Reference::Named(name))),
        },
        None => Err(VmError::LocalVariableDoesNotExists(ast::Reference::Named(name))),
    }
}

pub open spec fn spec_input_value(ev: EventView, index: usize) -> Result<Reference, VmError> {
    match top(ev) {
        Some(c) => if index < c.inputs.len() {
            Ok(c.inputs[index as int])
        } else {
            Err(VmError::InputDoesNotExists(index))
        },
        None => Err(VmError::InputDoesNotExists(index)),
    }
}

pub open spec fn spec_set_output_value(ev: EventView, index: usize, value: Reference) -> (Result<Reference, VmError>, EventView) {
    match top(ev) {
        Some(c) => if index < c.outputs.len() {
            (Ok(c.outputs[index as int]), with_top(ev, ContextView { outputs: c.outputs.update(index as int, value), ..c }))
        } else {
            (Err(VmError::OutputDoesNotExists(index)), ev)
        },
        None => (Err(VmError::OutputDoesNotExists(index)), ev),
    }
}

/// Fresh cells holding `Value::Null`, as many as asked for.
fn null_cells(n: usize) -> (r: Vec<Reference>)
    ensures
        r@.len() == n,
        made_null(r@),
{
    let mut r: Vec<Reference> = Vec::new();
    let mut i: usize = 0;
    while i < n
        invariant
            i <= n,
            r@.len() == i,
            made_null(r@),
        decreases n - i,
    {
        r.push(Reference::value(Value::Null));
        i = i + 1;
    }
    r
}

/// The variables of a new context, each with a fresh cell.
pub fn variables_start(names: &Vec<String>) -> (r: Vec<(String, Reference)>)
    ensures
        exists|cells: Seq<Reference>|
            cells.len() == names@.len() && made_null(cells) && r@ == variables_init(names@, cells, names@.len() as int),
{
    let cells = null_cells(names.len());
    let mut r: Vec<(String, Reference)> = Vec::new();
    let mut i: usize = 0;
    while i < names.len()
        invariant
            i <= names@.len(),
            cells@.len() == names@.len(),
            made_null(cells@),
            r@ == variables_init(names@, cells@, i as int),
        decreases names@.len() - i,
    {
        name_set(&mut r, names[i].clone(), cells[i].clone());
        i = i + 1;
    }
    r
}

/// A new context at the start of `execution` (see `context_start`), with the
/// fresh cells it was given.
pub(crate) fn context_new(
    owner: VmContextOwner,
    caller_node: Option<ast::Reference>,
    execution: Vec<ast::Reference>,
    instance: Option<Reference>,
    inputs: Vec<Reference>,
    outputs: usize,
    variables: &Vec<String>,
) -> (r: (VmContext, Ghost<Reference>, Ghost<Seq<Reference>>))
    ensures
        r.2@.len() == variables@.len(),
        made_null(seq![r.1@] + r.2@),
        r.0@ == context_start(owner, caller_node, execution@, instance, inputs@, outputs as nat, r.1@, variables@, r.2@),
{
    let ghost ex = execution@;
    let ghost ins = inputs@;
    let ghost own = owner;
    let ghost caller = caller_node;
    let ghost inst = instance;
    let o = Reference::value(Value::Null);
    let outs = vec![o.clone(); outputs];
    let vars = variables_start(variables);
    let ctx = VmContext {
        owner,
        caller_node,
        execution,
        current: Some(0),
        instance,
        inputs,
        outputs: outs,
        variables: vars,
        jump_stack: vec![VmJump::Unset(None)],
        node_outputs: Vec::new(),
    };
    let ghost cells = choose|cells: Seq<Reference>|
        cells.len() == variables@.len() && made_null(cells) && vars@ == variables_init(variables@, cells, variables@.len() as int);
    proof {
        assert(ctx.outputs@ =~= Seq::new(outputs as nat, |i: int| o));
        reveal(outputs_view);
        assert(ctx@.node_outputs =~= Seq::empty());
        assert(ctx.jump_stack@ =~= seq![VmJump::Unset(None)]);
        assert(ctx@ == context_start(own, caller, ex, inst, ins, outputs as nat, o, variables@, cells));
        assert forall|i: int| 0 <= i < (seq![o] + cells).len() implies cell_created_with(
            ((#[trigger] (seq![o] + cells)[i])).0,
        ) == Value::Null by {
            if i > 0 {
                assert((seq![o] + cells)[i] == cells[i - 1]);
            }
        }
    }
    (ctx, Ghost(o), Ghost(cells))
}

impl VmEvent {
    /// An event at the start of its execution order.
    pub fn new(
        owner_event: String,
        execution: Vec<ast::Reference>,
        variables: Vec<String>,
        inputs: Vec<Reference>,
        outputs: usize,
    ) -> (r: Self)
        ensures
            exists|o: Reference, cells: Seq<Reference>|
                cells.len() == variables@.len() && made_null(seq![o] + cells) && r@ == event_start(owner_event, execution@, inputs@, outputs as nat, o, variables@, cells),
    {
        let ghost own = owner_event;
        let ghost ex = execution@;
        let ghost ins = inputs@;
        let (ctx, Ghost(o), Ghost(cells)) = context_new(VmContextOwner::Event(owner_event), None, execution, None, inputs, outputs, &variables);
        let r = VmEvent { contexts: vec![ctx], outputs: Vec::new() };
        proof {
            assert(r@.contexts =~= seq![context_start(VmContextOwner::Event(own), None, ex, None, ins, outputs as nat, o, variables@, cells)]);
            assert(r@ == event_start(own, ex, ins, outputs as nat, o, variables@, cells));
        }
        r
    }
}

proof fn lemma_view_push(cs: Seq<VmContext>, c: VmContext)
    ensures
        cs.push(c).map_values(|x: VmContext| x@) == cs.map_values(|x: VmContext| x@).push(c@),
{
    assert(cs.push(c).map_values(|x: VmContext| x@) =~= cs.map_values(|x: VmContext| x@).push(c@));
}

proof fn lemma_view_drop_last(cs: Seq<VmContext>)
    requires
        cs.len() > 0,
    ensures
        cs.drop_last().map_values(|x: VmContext| x@) == cs.map_values(|x: VmContext| x@).drop_last(),
        cs.map_values(|x: VmContext| x@).last() == cs.last()@,
{
    assert(cs.drop_last().map_values(|x: VmContext| x@) =~= cs.map_values(|x: VmContext| x@).drop_last());
}

proof fn lemma_outputs_view_pos(s: Seq<(ast::Reference, Vec<Reference>)>, k: RefKey)
    ensures
        ref_pos(outputs_view(s), k) == ref_pos(s, k),
        outputs_view(s).len() == s.len(),
        forall|j: int| 0 <= j < s.len() ==> #[trigger] outputs_view(s)[j] == (s[j].0, s[j].1@),
{
    reveal(outputs_view);
    let v = outputs_view(s);
    assert forall|j: int| 0 <= j < s.len() implies #[trigger] v[j] == (s[j].0, s[j].1@) by {}
    lemma_ref_pos_same_keys(v, s, k, 0);
}

#[verifier::rlimit(60)]
proof fn lemma_outputs_view_insert(s: Seq<(ast::Reference, Vec<Reference>)>, k: ast::Reference, v: Vec<Reference>)
    ensures
        outputs_view(ref_insert(s, k, v)) == ref_insert(outputs_view(s), k, v@),
{
    lemma_outputs_view_pos(s, k@);
    lemma_ref_pos_from_bound(s, k@, 0);
    reveal(outputs_view);
    assert(outputs_view(ref_insert(s, k, v)) =~= ref_insert(outputs_view(s), k, v@));
}

impl VmEvent {
    /// Takes the running context out; the event is left without it.
    pub(crate) fn take_top(&mut self) -> (r: Option<VmContext>)
        ensures
            match r {
                Some(c) => {
                    &&& top(old(self)@) == Some(c@)
                    &&& final(self)@ == without_top(old(self)@)
                    &&& final(self).contexts@.len() + 1 == old(self).contexts@.len()
                },
                None => top(old(self)@) is None && final(self)@ == old(self)@,
            },
    {
        let r = self.contexts.pop();
        proof {
            if r is Some {
                lemma_view_drop_last(old(self).contexts@);
                assert(old(self)@.contexts.len() > 0);
                assert(self@.contexts == old(self)@.contexts.drop_last());
            }
        }
        r
    }

    /// Puts a context back as the running one.
    pub(crate) fn put_top(&mut self, c: VmContext)
        ensures
            final(self)@ == with_pushed(old(self)@, c@),
    {
        self.contexts.push(c);
        proof {
            lemma_view_push(old(self).contexts@, c);
        }
    }

    /// The cached outputs of a node in the running context.
    pub fn get_node_outputs(&self, id: &ast::Reference) -> (r: Result<&Vec<Reference>, VmError>)
        ensures
            match r {
                Ok(v) => spec_get_node_outputs(self@, *id) == Ok::<Seq<Reference>, VmError>(v@),
                Err(e) => spec_get_node_outputs(self@, *id) == Err::<Seq<Reference>, VmError>(e),
            },
    {
        if self.contexts.len() > 0 {
            let c = &self.contexts[self.contexts.len() - 1];
            proof {
                lemma_outputs_view_pos(c.node_outputs@, id@);
                assert(top(self@) == Some(c@));
            }
            match ref_find(&c.node_outputs, id) {
                Some(i) => {
                    return Ok(&c.node_outputs[i].1);
                },
                None => {},
            }
        }
        Err(VmError::ThereAreNoCachedNodeOutputs(id.duplicate()))
    }

    /// The indexed output of the node that a link names.
    pub fn get_node_output(&self, link: &Link) -> (r: Result<&Reference, VmError>)
        ensures
            match r {
                Ok(v) => spec_get_node_output(self@, *link) == Ok::<Reference, VmError>(*v),
                Err(e) => spec_get_node_output(self@, *link) == Err::<Reference, VmError>(e),
            },
    {
        match link {
            Link::NodeIndexed(id, index) => {
                let outs = self.get_node_outputs(id)?;
                if *index < outs.len() {
                    return Ok(&outs[*index]);
                }
            },
            Link::Unset => {},
        }
        Err(VmError::ThereIsNoCachedNodeIndexedOutput(link.duplicate()))
    }

    pub fn set_node_outputs(&mut self, id: ast::Reference, values: Vec<Reference>)
        ensures
            final(self)@ == spec_set_node_outputs(old(self)@, id, values@),
    {
        match self.take_top() {
            Some(mut c) => {
                let ghost before = c.node_outputs@;
                let ghost key = id;
                ref_set(&mut c.node_outputs, id, values);
                proof {
                    lemma_outputs_view_insert(before, key, values);
                }
                self.put_top(c);
            },
            None => {},
        }
    }

    pub fn set_node_output(&mut self, id: ast::Reference, value: Reference)
        ensures
            final(self)@ == spec_set_node_outputs(old(self)@, id, seq![value]),
    {
        let v = vec![value];
        assert(v@ =~= seq![value]);
        self.set_node_outputs(id, v);
    }

    /// Moves to the next node (see `spec_go_to_next_node`).
    pub fn go_to_next_node(&mut self)
        ensures
            final(self)@ == spec_go_to_next_node(old(self)@),
        decreases old(self).contexts@.len(),
    {
        if self.contexts.len() == 0 {
            return;
        }
        let last = self.contexts.len() - 1;
        match self.contexts[last].current {
            Some(cur) => {
                let len = self.contexts[last].execution.len();
                if cur < len && cur + 1 < len {
                    let mut c = self.take_top().unwrap();
                    c.current = Some(cur + 1);
                    self.put_top(c);
                } else {
                    let c = self.take_top().unwrap();
                    self.go_to_next_node();
                    match c.caller_node {
                        Some(caller) => self.set_node_outputs(caller, c.outputs),
                        None => {
                            self.outputs = c.outputs;
                        },
                    }
                }
            },
            None => {},
        }
    }

    pub fn push_jump_on_stack(&mut self, jump: VmJump)
        ensures
            final(self)@ == spec_push_jump(old(self)@, jump),
    {
        match self.take_top() {
            Some(mut c) => {
                c.jump_stack.push(jump);
                self.put_top(c);
            },
            None => {},
        }
    }

    pub fn pop_jump_from_stack(&mut self) -> (r: Result<VmJump, VmError>)
        ensures
            (r, final(self)@) == spec_pop_jump(old(self)@),
    {
        match self.take_top() {
            Some(mut c) => {
                match c.jump_stack.pop() {
                    Some(j) => {
                        self.put_top(c);
                        Ok(j)
                    },
                    None => {
                        self.put_top(c);
                        proof {
                            assert(self@.contexts =~= old(self)@.contexts);
                        }
                        Err(VmError::StackUnderflow)
                    },
                }
            },
            None => Err(VmError::StackUnderflow),
        }
    }

    pub fn is_jump_stack_empty(&self) -> (r: bool)
        ensures
            r == spec_jump_stack_empty(self@),
    {
        if self.contexts.len() > 0 {
            self.contexts[self.contexts.len() - 1].jump_stack.len() == 0
        } else {
            true
        }
    }

    pub fn instance_value(&self) -> (r: Result<Reference, VmError>)
        ensures
            r == spec_instance_value(self@),
    {
        if self.contexts.len() > 0 {
            match &self.contexts[self.contexts.len() - 1].instance {
                Some(i) => return Ok(i.clone()),
                None => {},
            }
        }
        Err(VmError::InstanceDoesNotExists)
    }

    pub fn local_variable_value(&self, name: &String) -> (r: Result<Reference, VmError>)
        ensures
            r == spec_local_variable_value(self@, *name),
    {
        if self.contexts.len() > 0 {
            let c = &self.contexts[self.contexts.len() - 1];
            match name_find(&c.variables, name) {
                Some(i) => return Ok(c.variables[i].1.clone()),
                None => {},
            }
        }
        Err(VmError::LocalVariableDoesNotExists(ast::Reference::Named(name.clone())))
    }

    pub fn input_value(&self, index: usize) -> (r: Result<Reference, VmError>)
        ensures
            r == spec_input_value(self@, index),
    {
        if self.contexts.len() > 0 {
            let c = &self.contexts[self.contexts.len() - 1];
            if index < c.inputs.len() {
                return Ok(c.inputs[index].clone());
            }
        }
        Err(VmError::InputDoesNotExists(index))
    }

    pub fn set_output_value(&mut self, index: usize, value: Reference) -> (r: Result<Reference, VmError>)
        ensures
            (r, final(self)@) == spec_set_output_value(old(self)@, index, value),
    {
        match self.take_top() {
            Some(mut c) => {
                if index < c.outputs.len() {
                    let prev = c.outputs[index].clone();
                    c.outputs.set(index, value);
                    self.put_top(c);
                    Ok(prev)
                } else {
                    self.put_top(c);
                    proof {
                        assert(self@.contexts =~= old(self)@.contexts);
                    }
                    Err(VmError::OutputDoesNotExists(index))
                }
            },
            None => Err(VmError::OutputDoesNotExists(index)),
        }
    }
}

} // verus!
