//! The flow program: events, functions, types with trait methods, and the
//! nodes that make up each flow graph.
use vstd::prelude::*;

verus! {

/// Identifier of a running event.
#[derive(Clone, Copy, PartialEq, Eq, Structural, Debug)]
pub struct GUID(pub u64);

/// Reference to a node, a named item or an event.
#[derive(Debug)]
pub enum Reference {
    Unset,
    Named(String),
    Guid(GUID),
}

/// What identifies a reference: two references denote the same thing exactly
/// when their keys are equal.
pub enum RefKey {
    Unset,
    Named(Seq<char>),
    Guid(u64),
}

impl View for Reference {
    type V = RefKey;

    open spec fn view(&self) -> RefKey {
        match self {
            Reference::Unset => RefKey::Unset,
            Reference::Named(s) => RefKey::Named(s@),
            Reference::Guid(g) => RefKey::Guid(g.0),
        }
    }
}

impl Reference {
    /// An identical copy of this reference.
    pub fn duplicate(&self) -> (r: Reference)
        ensures
            r == *self,
    {
        match self {
            Reference::Unset => Reference::Unset,
            Reference::Named(s) => Reference::Named(s.clone()),
            Reference::Guid(g) => Reference::Guid(*g),
        }
    }

    /// Whether both references denote the same thing.
    pub fn same_as(&self, other: &Reference) -> (r: bool)
        ensures
            r == (self@ == other@),
    {
        match self {
            Reference::Unset => other.is_unset(),
            Reference::Named(a) => match other {
                Reference::Named(b) => {
                    let r = a.eq(b);
                    r
                },
                _ => false,
            },
            Reference::Guid(a) => match other {
                Reference::Guid(b) => a.0 == b.0,
                _ => false,
            },
        }
    }

    pub fn is_unset(&self) -> (r: bool)
        ensures
            r == (self@ == RefKey::Unset),
    {
        match self {
            Reference::Unset => true,
            _ => false,
        }
    }
}

/// Where a node takes one of its inputs from: the indexed output of a node.
#[derive(Debug)]
pub enum Link {
    Unset,
    NodeIndexed(Reference, usize),
}

impl Link {
    pub fn duplicate(&self) -> (r: Link)
        ensures
            r == *self,
    {
        match self {
            Link::Unset => Link::Unset,
            Link::NodeIndexed(id, i) => Link::NodeIndexed(id.duplicate(), *i),
        }
    }
}

/// Numbers as a prefab holds them: non-negative and negative integers, and
/// floating-point numbers kept by their IEEE-754 bit pattern.
#[derive(Clone, Copy, Debug, PartialEq, Eq, Structural)]
pub enum Number {
    PosInt(u64),
    NegInt(i64),
    Float(u64),
}

/// Constant data written in a program.
#[derive(Debug)]
pub enum PrefabValue {
    Null,
    Bool(bool),
    Number(Number),
    String(String),
    Sequence(Vec<PrefabValue>),
    Mapping(Vec<(PrefabValue, PrefabValue)>),
}

/// Both branches of an if-else node.
#[derive(Debug)]
pub struct IfElse {
    pub next_node_true: Reference,
    pub next_node_false: Reference,
}

/// What a node does.
#[derive(Debug)]
pub enum NodeType {
    Unset,
    Entry,
    Knot,
    Halt,
    /// Loop whose body starts at the referenced node.
    Loop(Reference),
    IfElse(IfElse),
    Break,
    Continue,
    GetInstance,
    GetGlobalVariable(String),
    GetLocalVariable(String),
    GetInput(usize),
    SetOutput(usize),
    GetValue(PrefabValue),
    GetListItem(usize),
    GetObjectItem(String),
    MutateValue,
    CallOperation(String),
    CallFunction(String),
    /// (type name, method name)
    CallMethod(String, String),
}

/// (takes input, gives output, flows in, flows out) of a node type.
pub open spec fn io_flow(t: NodeType) -> (bool, bool, bool, bool) {
    match t {
        NodeType::Unset => (false, false, false, false),
        NodeType::Entry => (false, false, false, true),
        NodeType::Knot => (false, false, true, true),
        NodeType::Halt => (false, false, true, true),
        NodeType::Loop(_) => (false, false, true, true),
        NodeType::IfElse(_) => (true, false, true, true),
        NodeType::Break => (false, false, true, false),
        NodeType::Continue => (false, false, true, false),
        NodeType::GetInstance => (false, true, true, true),
        NodeType::GetGlobalVariable(_) => (false, true, true, true),
        NodeType::GetLocalVariable(_) => (false, true, true, true),
        NodeType::GetInput(_) => (false, true, true, true),
        NodeType::SetOutput(_) => (true, false, true, true),
        NodeType::GetValue(_) => (false, true, true, true),
        NodeType::GetListItem(_) => (true, true, true, true),
        NodeType::GetObjectItem(_) => (true, true, true, true),
        NodeType::MutateValue => (true, false, true, true),
        NodeType::CallOperation(_) => (true, true, true, true),
        NodeType::CallFunction(_) => (true, true, true, true),
        NodeType::CallMethod(_, _) => (true, true, true, true),
    }
}

impl NodeType {
    pub fn is_input_output_flow_in_out(&self) -> (r: (bool, bool, bool, bool))
        ensures
            r == io_flow(*self),
    {
        match self {
            NodeType::Unset => (false, false, false, false),
            NodeType::Entry => (false, false, false, true),
            NodeType::Knot => (false, false, true, true),
            NodeType::Halt => (false, false, true, true),
            NodeType::Loop(_) => (false, false, true, true),
            NodeType::IfElse(_) => (true, false, true, true),
            NodeType::Break => (false, false, true, false),
            NodeType::Continue => (false, false, true, false),
            NodeType::GetInstance => (false, true, true, true),
            NodeType::GetGlobalVariable(_) => (false, true, true, true),
            NodeType::GetLocalVariable(_) => (false, true, true, true),
            NodeType::GetInput(_) => (false, true, true, true),
            NodeType::SetOutput(_) => (true, false, true, true),
            NodeType::GetValue(_) => (false, true, true, true),
            NodeType::GetListItem(_) => (true, true, true, true),
            NodeType::GetObjectItem(_) => (true, true, true, true),
            NodeType::MutateValue => (true, false, true, true),
            NodeType::CallOperation(_) => (true, true, true, true),
            NodeType::CallFunction(_) => (true, true, true, true),
            NodeType::CallMethod(_, _) => (true, true, true, true),
        }
    }

    pub fn is_entry(&self) -> (r: bool)
        ensures
            r == (*self is Entry),
    {
        match self {
            NodeType::Entry => true,
            _ => false,
        }
    }
}

/// One node of a flow graph.
#[derive(Debug)]
pub struct Node {
    pub id: Reference,
    pub node_type: NodeType,
    pub next_node: Reference,
    pub input_links: Vec<Link>,
}

#[derive(Debug)]
pub struct Variable {
    pub name: String,
}

/// An event: a flow graph that the virtual machine runs on request.
#[derive(Debug)]
pub struct Event {
    pub name: String,
    pub input_constrains: Vec<String>,
    pub output_constrains: Vec<String>,
    pub variables: Vec<Variable>,
    pub nodes: Vec<Node>,
}

/// A function: a flow graph called by a node.
#[derive(Debug)]
pub struct Function {
    pub name: String,
    pub input_constrains: Vec<String>,
    pub output_constrains: Vec<String>,
    pub variables: Vec<Variable>,
    pub nodes: Vec<Node>,
}

/// A trait method, or its implementation by a type.
#[derive(Debug)]
pub struct Method {
    pub name: String,
    pub input_constrains: Vec<String>,
    pub output_constrains: Vec<String>,
    pub variables: Vec<Variable>,
    pub nodes: Vec<Node>,
}

#[derive(Debug)]
pub struct Trait {
    pub name: String,
    pub methods: Vec<Method>,
}

/// A type with the methods it implements, grouped by trait name.
#[derive(Debug)]
pub struct Type {
    pub name: String,
    pub traits_implementation: Vec<(String, Vec<Method>)>,
}

/// An operation implemented by the host and called by name.
#[derive(Debug)]
pub struct Operation {
    pub name: String,
    pub input_constrains: Vec<String>,
    pub output_constrains: Vec<String>,
}

/// A whole flow program.
#[derive(Debug)]
pub struct Program {
    pub version: usize,
    pub types: Vec<Type>,
    pub traits: Vec<Trait>,
    pub functions: Vec<Function>,
    pub events: Vec<Event>,
    pub variables: Vec<Variable>,
    pub operations: Vec<Operation>,
}

impl Clone for Reference {
    fn clone(&self) -> (r: Self)
        ensures
            r == *self,
    {
        self.duplicate()
    }
}

/// Items looked up by name: events, functions, methods, traits, types,
/// operations and variables.
pub trait Named {
    spec fn key(&self) -> Seq<char>;

    fn name_ref(&self) -> (r: &String)
        ensures
            r@ == self.key(),
    ;
}

impl Named for Event {
    open spec fn key(&self) -> Seq<char> {
        self.name@
    }

    fn name_ref(&self) -> (r: &String) {
        &self.name
    }
}

impl Named for Function {
    open spec fn key(&self) -> Seq<char> {
        self.name@
    }

    fn name_ref(&self) -> (r: &String) {
        &self.name
    }
}

impl Named for Method {
    open spec fn key(&self) -> Seq<char> {
        self.name@
    }

    fn name_ref(&self) -> (r: &String) {
        &self.name
    }
}

impl Named for Trait {
    open spec fn key(&self) -> Seq<char> {
        self.name@
    }

    fn name_ref(&self) -> (r: &String) {
        &self.name
    }
}

impl Named for Type {
    open spec fn key(&self) -> Seq<char> {
        self.name@
    }

    fn name_ref(&self) -> (r: &String) {
        &self.name
    }
}

impl Named for Operation {
    open spec fn key(&self) -> Seq<char> {
        self.name@
    }

    fn name_ref(&self) -> (r: &String) {
        &self.name
    }
}

/// Position of the first item named `k`, from position `i` on.
pub open spec fn named_pos_from<T: Named>(s: Seq<T>, k: Seq<char>, i: int) -> Option<int>
    decreases s.len() - i,
{
    if i < 0 || i >= s.len() {
        None
    } else if s[i].key() == k {
        Some(i)
    } else {
        named_pos_from(s, k, i + 1)
    }
}

/// Position of the first item named `k`.
pub open spec fn named_pos<T: Named>(s: Seq<T>, k: Seq<char>) -> Option<int> {
    named_pos_from(s, k, 0)
}

/// The first item named `k`.
pub open spec fn named<T: Named>(s: Seq<T>, k: Seq<char>) -> Option<T> {
    match named_pos(s, k) {
        Some(i) => Some(s[i]),
        None => None,
    }
}

pub proof fn lemma_named_pos_from<T: Named>(s: Seq<T>, k: Seq<char>, i: int)
    ensures
        named_pos_from(s, k, i) matches Some(p) ==> i <= p < s.len() && s[p].key() == k,
    decreases s.len() - i,
{
    if 0 <= i < s.len() {
        lemma_named_pos_from(s, k, i + 1);
    }
}

/// Finds the first item named `k`.
pub fn find_named<T: Named>(s: &Vec<T>, k: &String) -> (r: Option<usize>)
    ensures
        match r {
            Some(i) => named_pos(s@, k@) == Some(i as int) && i < s@.len() && s@[i as int].key() == k@,
            None => named_pos(s@, k@) is None,
        },
{
    let mut i: usize = 0;
    while i < s.len()
        invariant
            i <= s@.len(),
            named_pos(s@, k@) == named_pos_from(s@, k@, i as int),
        decreases s@.len() - i,
    {
        if *s[i].name_ref() == *k {
            return Some(i);
        }
        i = i + 1;
    }
    None
}

} // verus!
