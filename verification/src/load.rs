//! Loading a flow program: the methods each type provides, and the execution
//! order and end nodes of every flow graph.
use vstd::prelude::*;
use crate::ast::{self, find_named, named, Event, Function, Method, Node, Program, Trait, Type};
use crate::error::VmError;
use crate::flow::{first_entry, fits_graph, fits_graph_exec, flow_order, flow_order_exec, follows_edges, holds_id, FlowOrder};
use crate::keyed::{
    lemma_name_pos_same_keys, lemma_pair_pos_same_keys, name_insert, name_set, pair_insert, pair_set,
};

verus! {

/// Outcome of loading: a panic, a failure, a failure that names several entry
/// nodes, or what was loaded.
pub enum Load<T> {
    Panic,
    Fail(VmError),
    MultipleEntries(Seq<ast::Reference>),
    Done(T),
}

/// A load that did not succeed, as a load of another kind.
pub open spec fn lift<A, B>(l: Load<A>) -> Load<B> {
    match l {
        Load::Panic => Load::Panic,
        Load::Fail(e) => Load::Fail(e),
        Load::MultipleEntries(ids) => Load::MultipleEntries(ids),
        Load::Done(_) => Load::Panic,
    }
}

/// The result of an executable load where the load did not succeed: `None`
/// for a panic, the error otherwise.
pub open spec fn failed_as<T, X>(l: Load<T>, r: Option<Result<X, VmError>>) -> bool {
    match l {
        Load::Panic => r is None,
        Load::Fail(e) => r == Some(Err::<X, VmError>(e)),
        Load::MultipleEntries(ids) => r matches Some(Err(VmError::FoundMultipleEntryNodes(v))) && v@ == ids,
        Load::Done(_) => false,
    }
}

/// The execution order and end nodes of one flow graph; a graph too large for
/// the graph's indices panics.
pub open spec fn graph_order(nodes: Seq<Node>, checked: bool) -> Load<(Seq<ast::Reference>, Seq<ast::Reference>)> {
    if !fits_graph(nodes) {
        Load::Panic
    } else {
        match flow_order(nodes, checked) {
            FlowOrder::Panic => Load::Panic,
            FlowOrder::Fail(e) => Load::Fail(e),
            FlowOrder::MultipleEntries(ids) => Load::MultipleEntries(ids),
            FlowOrder::Done(order, ends) => Load::Done((order, ends)),
        }
    }
}

/// An execution order as a run of a flow graph walks it: no node twice, the
/// entry node in it, and no edge from a later node into an earlier one.
pub open spec fn order_good(nodes: Seq<Node>, checked: bool, o: Seq<ast::Reference>) -> bool {
    &&& forall|a: int, b: int| 0 <= a < b < o.len() ==> o[a]@ != o[b]@
    &&& holds_id(o, nodes[first_entry(nodes, 0)].id@)
    &&& follows_edges(nodes, checked, o)
}

/// Every execution order kept for an event name is a good order of an event
/// with that name.
pub open spec fn event_orders_good(events: Seq<Event>, orders: Seq<(String, Vec<ast::Reference>)>) -> bool {
    forall|k: int|
        0 <= k < orders.len() ==> exists|j: int|
            0 <= j < events.len() && events[j].name@ == (#[trigger] orders[k]).0@ && order_good(
                events[j].nodes@,
                true,
                orders[k].1@,
            )
}

/// Execution orders keyed by name, with the orders seen as sequences.
pub open spec fn orders_view(s: Seq<(String, Vec<ast::Reference>)>) -> Seq<(String, Seq<ast::Reference>)> {
    s.map_values(|p: (String, Vec<ast::Reference>)| (p.0, p.1@))
}

/// Execution orders keyed by (type name, method name), seen as sequences.
pub open spec fn pairs_view(s: Seq<((String, String), Vec<ast::Reference>)>) -> Seq<((String, String), Seq<ast::Reference>)> {
    s.map_values(|p: ((String, String), Vec<ast::Reference>)| (p.0, p.1@))
}

/// The table of the methods each type provides, seen as sequences.
pub open spec fn table_view(s: Seq<(String, Vec<(String, (String, bool))>)>) -> Seq<(String, Seq<(String, (String, bool))>)> {
    s.map_values(|p: (String, Vec<(String, (String, bool))>)| (p.0, p.1@))
}

/// For the first `k` methods of a trait: each method's name, with the trait's
/// name and whether the type implements the method itself.
pub open spec fn trait_entries(
    m: Seq<(String, (String, bool))>,
    trait_name: String,
    own: Seq<Method>,
    trait_methods: Seq<Method>,
    k: int,
) -> Seq<(String, (String, bool))>
    decreases k,
{
    if k <= 0 {
        m
    } else {
        name_insert(
            trait_entries(m, trait_name, own, trait_methods, k - 1),
            trait_methods[k - 1].name,
            (trait_name, named(own, trait_methods[k - 1].name@) is Some),
        )
    }
}

/// The methods a type provides through its first `k` trait implementations;
/// a trait that does not exist fails.
pub open spec fn type_entries(traits: Seq<Trait>, impls: Seq<(String, Vec<Method>)>, k: int) -> Result<Seq<(String, (String, bool))>, VmError>
    decreases k,
{
    if k <= 0 {
        Ok(Seq::empty())
    } else {
        match type_entries(traits, impls, k - 1) {
            Err(e) => Err(e),
            Ok(m) => match named(traits, impls[k - 1].0@) {
                None => Err(VmError::TraitDoesNotExists(ast::Reference::Named(impls[k - 1].0))),
                Some(tr) => Ok(trait_entries(m, impls[k - 1].0, impls[k - 1].1@, tr.methods@, tr.methods@.len() as int)),
            },
        }
    }
}

/// The methods each of the first `k` types provides.
pub open spec fn type_table(ast: Program, k: int) -> Result<Seq<(String, Seq<(String, (String, bool))>)>, VmError>
    decreases k,
{
    if k <= 0 {
        Ok(Seq::empty())
    } else {
        match type_table(ast, k - 1) {
            Err(e) => Err(e),
            Ok(acc) => match type_entries(ast.traits@, ast.types@[k - 1].traits_implementation@, ast.types@[k - 1].traits_implementation@.len() as int) {
                Err(e) => Err(e),
                Ok(m) => Ok(name_insert(acc, ast.types@[k - 1].name, m)),
            },
        }
    }
}

/// The orders of the first `k` events, with the end nodes after `ends0`.
pub open spec fn event_orders(events: Seq<Event>, ends0: Seq<ast::Reference>, k: int) -> Load<(Seq<(String, Seq<ast::Reference>)>, Seq<ast::Reference>)>
    decreases k,
{
    if k <= 0 {
        Load::Done((Seq::empty(), ends0))
    } else {
        match event_orders(events, ends0, k - 1) {
            Load::Done((orders, ends)) => match graph_order(events[k - 1].nodes@, true) {
                Load::Done((list, e)) => Load::Done((name_insert(orders, events[k - 1].name, list), ends + e)),
                other => lift(other),
            },
            other => other,
        }
    }
}

/// The orders of the first `k` functions, with the end nodes after `ends0`.
pub open spec fn function_orders(functions: Seq<Function>, ends0: Seq<ast::Reference>, k: int) -> Load<(Seq<(String, Seq<ast::Reference>)>, Seq<ast::Reference>)>
    decreases k,
{
    if k <= 0 {
        Load::Done((Seq::empty(), ends0))
    } else {
        match function_orders(functions, ends0, k - 1) {
            Load::Done((orders, ends)) => match graph_order(functions[k - 1].nodes@, false) {
                Load::Done((list, e)) => Load::Done((name_insert(orders, functions[k - 1].name, list), ends + e)),
                other => lift(other),
            },
            other => other,
        }
    }
}

/// The method that runs for a trait's method: the type's own, or else the trait's.
pub open spec fn impl_or_trait(own: Seq<Method>, tm: Method) -> Method {
    match named(own, tm.name@) {
        Some(m) => m,
        None => tm,
    }
}

/// The orders of the methods a type gives for the first `k` methods of a trait.
pub open spec fn method_orders_in(
    tname: String,
    own: Seq<Method>,
    tms: Seq<Method>,
    acc: (Seq<((String, String), Seq<ast::Reference>)>, Seq<ast::Reference>),
    k: int,
) -> Load<(Seq<((String, String), Seq<ast::Reference>)>, Seq<ast::Reference>)>
    decreases k,
{
    if k <= 0 {
        Load::Done(acc)
    } else {
        match method_orders_in(tname, own, tms, acc, k - 1) {
            Load::Done((orders, ends)) => {
                let m = impl_or_trait(own, tms[k - 1]);
                match graph_order(m.nodes@, false) {
                    Load::Done((list, e)) => Load::Done((pair_insert(orders, tname, m.name, list), ends + e)),
                    other => lift(other),
                }
            },
            other => other,
        }
    }
}

/// The method orders of a type's first `j` trait implementations (a trait
/// that does not exist gives none).
pub open spec fn method_orders_impls(
    traits: Seq<Trait>,
    t: Type,
    acc: (Seq<((String, String), Seq<ast::Reference>)>, Seq<ast::Reference>),
    j: int,
) -> Load<(Seq<((String, String), Seq<ast::Reference>)>, Seq<ast::Reference>)>
    decreases j,
{
    if j <= 0 {
        Load::Done(acc)
    } else {
        match method_orders_impls(traits, t, acc, j - 1) {
            Load::Done(a) => match named(traits, t.traits_implementation@[j - 1].0@) {
                Some(tr) => method_orders_in(t.name, t.traits_implementation@[j - 1].1@, tr.methods@, a, tr.methods@.len() as int),
                None => Load::Done(a),
            },
            other => other,
        }
    }
}

/// The method orders of the first `i` types.
pub open spec fn method_orders_types(
    ast: Program,
    acc: (Seq<((String, String), Seq<ast::Reference>)>, Seq<ast::Reference>),
    i: int,
) -> Load<(Seq<((String, String), Seq<ast::Reference>)>, Seq<ast::Reference>)>
    decreases i,
{
    if i <= 0 {
        Load::Done(acc)
    } else {
        match method_orders_types(ast, acc, i - 1) {
            Load::Done(a) => method_orders_impls(ast.traits@, ast.types@[i - 1], a, ast.types@[i - 1].traits_implementation@.len() as int),
            other => other,
        }
    }
}

/// What loading a program works out.
pub struct Loaded {
    pub type_methods: Seq<(String, Seq<(String, (String, bool))>)>,
    pub event_orders: Seq<(String, Seq<ast::Reference>)>,
    pub method_orders: Seq<((String, String), Seq<ast::Reference>)>,
    pub function_orders: Seq<(String, Seq<ast::Reference>)>,
    pub end_nodes: Seq<ast::Reference>,
}

/// Loading a program of a supported version: the type table first, then the
/// orders of events, methods and functions; the first failure stops it.
pub open spec fn load_program(ast: Program) -> Load<Loaded> {
    match type_table(ast, ast.types@.len() as int) {
        Err(e) => Load::Fail(e),
        Ok(table) => match event_orders(ast.events@, Seq::empty(), ast.events@.len() as int) {
            Load::Done((eo, ends1)) => match method_orders_types(ast, (Seq::empty(), ends1), ast.types@.len() as int) {
                Load::Done((mo, ends2)) => match function_orders(ast.functions@, ends2, ast.functions@.len() as int) {
                    Load::Done((fo, ends3)) => Load::Done(
                        Loaded { type_methods: table, event_orders: eo, method_orders: mo, function_orders: fo, end_nodes: ends3 },
                    ),
                    other => lift(other),
                },
                other => lift(other),
            },
            other => lift(other),
        },
    }
}

proof fn lemma_lift_failed<A, B, X>(l: Load<A>, r: Option<Result<X, VmError>>)
    requires
        !(l is Done),
    ensures
        failed_as(lift::<A, B>(l), r) == failed_as(l, r),
        !(lift::<A, B>(l) is Done),
{
}

proof fn lemma_event_orders_sticky(events: Seq<Event>, ends0: Seq<ast::Reference>, k: int, m: int)
    requires
        0 <= k <= m,
        !(event_orders(events, ends0, k) is Done),
    ensures
        event_orders(events, ends0, m) == event_orders(events, ends0, k),
    decreases m - k,
{
    if m > k {
        lemma_event_orders_sticky(events, ends0, k, m - 1);
    }
}

proof fn lemma_function_orders_sticky(functions: Seq<Function>, ends0: Seq<ast::Reference>, k: int, m: int)
    requires
        0 <= k <= m,
        !(function_orders(functions, ends0, k) is Done),
    ensures
        function_orders(functions, ends0, m) == function_orders(functions, ends0, k),
    decreases m - k,
{
    if m > k {
        lemma_function_orders_sticky(functions, ends0, k, m - 1);
    }
}

proof fn lemma_method_orders_in_sticky(
    tname: String,
    own: Seq<Method>,
    tms: Seq<Method>,
    acc: (Seq<((String, String), Seq<ast::Reference>)>, Seq<ast::Reference>),
    k: int,
    m: int,
)
    requires
        0 <= k <= m,
        !(method_orders_in(tname, own, tms, acc, k) is Done),
    ensures
        method_orders_in(tname, own, tms, acc, m) == method_orders_in(tname, own, tms, acc, k),
    decreases m - k,
{
    if m > k {
        lemma_method_orders_in_sticky(tname, own, tms, acc, k, m - 1);
    }
}

proof fn lemma_method_orders_impls_sticky(
    traits: Seq<Trait>,
    t: Type,
    acc: (Seq<((String, String), Seq<ast::Reference>)>, Seq<ast::Reference>),
    k: int,
    m: int,
)
    requires
        0 <= k <= m,
        !(method_orders_impls(traits, t, acc, k) is Done),
    ensures
        method_orders_impls(traits, t, acc, m) == method_orders_impls(traits, t, acc, k),
    decreases m - k,
{
    if m > k {
        lemma_method_orders_impls_sticky(traits, t, acc, k, m - 1);
    }
}

proof fn lemma_method_orders_types_sticky(
    ast: Program,
    acc: (Seq<((String, String), Seq<ast::Reference>)>, Seq<ast::Reference>),
    k: int,
    m: int,
)
    requires
        0 <= k <= m,
        !(method_orders_types(ast, acc, k) is Done),
    ensures
        method_orders_types(ast, acc, m) == method_orders_types(ast, acc, k),
    decreases m - k,
{
    if m > k {
        lemma_method_orders_types_sticky(ast, acc, k, m - 1);
    }
}

proof fn lemma_type_entries_sticky(traits: Seq<Trait>, impls: Seq<(String, Vec<Method>)>, k: int, m: int)
    requires
        0 <= k <= m,
        type_entries(traits, impls, k) is Err,
    ensures
        type_entries(traits, impls, m) == type_entries(traits, impls, k),
    decreases m - k,
{
    if m > k {
        lemma_type_entries_sticky(traits, impls, k, m - 1);
    }
}

proof fn lemma_type_table_sticky(ast: Program, k: int, m: int)
    requires
        0 <= k <= m,
        type_table(ast, k) is Err,
    ensures
        type_table(ast, m) == type_table(ast, k),
    decreases m - k,
{
    if m > k {
        lemma_type_table_sticky(ast, k, m - 1);
    }
}

proof fn lemma_orders_view_insert(s: Seq<(String, Vec<ast::Reference>)>, k: String, v: Vec<ast::Reference>)
    ensures
        orders_view(name_insert(s, k, v)) == name_insert(orders_view(s), k, v@),
{
    let w = orders_view(s);
    lemma_name_pos_same_keys(s, w, k@, 0);
    crate::keyed::lemma_name_pos_from_bound(s, k@, 0);
    assert(orders_view(name_insert(s, k, v)) =~= name_insert(w, k, v@));
}

proof fn lemma_pairs_view_insert(s: Seq<((String, String), Vec<ast::Reference>)>, a: String, b: String, v: Vec<ast::Reference>)
    ensures
        pairs_view(pair_insert(s, a, b, v)) == pair_insert(pairs_view(s), a, b, v@),
{
    let w = pairs_view(s);
    lemma_pair_pos_same_keys(s, w, a@, b@, 0);
    crate::keyed::lemma_pair_pos_from(s, a@, b@, 0);
    assert(pairs_view(pair_insert(s, a, b, v)) =~= pair_insert(w, a, b, v@));
}

proof fn lemma_table_view_insert(s: Seq<(String, Vec<(String, (String, bool))>)>, k: String, v: Vec<(String, (String, bool))>)
    ensures
        table_view(name_insert(s, k, v)) == name_insert(table_view(s), k, v@),
{
    let w = table_view(s);
    lemma_name_pos_same_keys(s, w, k@, 0);
    crate::keyed::lemma_name_pos_from_bound(s, k@, 0);
    assert(table_view(name_insert(s, k, v)) =~= name_insert(w, k, v@));
}

/// The execution order and end nodes of one flow graph (see `graph_order`).
fn graph_order_exec(nodes: &Vec<Node>, checked: bool) -> (r: Option<Result<(Vec<ast::Reference>, Vec<ast::Reference>), VmError>>)
    ensures
        match r {
            Some(Ok(x)) => graph_order(nodes@, checked) == Load::Done((x.0@, x.1@)),
            _ => failed_as(graph_order(nodes@, checked), r),
        },
        r matches Some(Ok(x)) ==> order_good(nodes@, checked, x.0@),
{
    if !fits_graph_exec(nodes) {
        return None;
    }
    flow_order_exec(nodes, checked)
}

/// The methods a type provides (see `type_entries`).
fn type_entries_exec(traits: &Vec<Trait>, impls: &Vec<(String, Vec<Method>)>) -> (r: Result<Vec<(String, (String, bool))>, VmError>)
    ensures
        match r {
            Ok(m) => type_entries(traits@, impls@, impls@.len() as int) == Ok::<Seq<(String, (String, bool))>, VmError>(m@),
            Err(e) => type_entries(traits@, impls@, impls@.len() as int) == Err::<Seq<(String, (String, bool))>, VmError>(e),
        },
{
    let mut m: Vec<(String, (String, bool))> = Vec::new();
    let mut j: usize = 0;
    while j < impls.len()
        invariant
            j <= impls@.len(),
            type_entries(traits@, impls@, j as int) == Ok::<Seq<(String, (String, bool))>, VmError>(m@),
        decreases impls@.len() - j,
    {
        let trait_name = &impls[j].0;
        let own = &impls[j].1;
        match find_named(traits, trait_name) {
            None => {
                proof {
                    lemma_type_entries_sticky(traits@, impls@, j + 1, impls@.len() as int);
                }
                return Err(VmError::TraitDoesNotExists(ast::Reference::Named(trait_name.clone())));
            },
            Some(ti) => {
                let tms = &traits[ti].methods;
                let ghost m0 = m@;
                let mut k: usize = 0;
                while k < tms.len()
                    invariant
                        k <= tms@.len(),
                        m@ == trait_entries(m0, *trait_name, own@, tms@, k as int),
                    decreases tms@.len() - k,
                {
                    let implemented = find_named(own, &tms[k].name).is_some();
                    name_set(&mut m, tms[k].name.clone(), (trait_name.clone(), implemented));
                    k = k + 1;
                }
            },
        }
        j = j + 1;
    }
    Ok(m)
}

/// The methods each type provides (see `type_table`).
fn type_table_exec(ast: &Program) -> (r: Result<Vec<(String, Vec<(String, (String, bool))>)>, VmError>)
    ensures
        match r {
            Ok(t) => type_table(*ast, ast.types@.len() as int) == Ok::<Seq<(String, Seq<(String, (String, bool))>)>, VmError>(table_view(t@)),
            Err(e) => type_table(*ast, ast.types@.len() as int) == Err::<Seq<(String, Seq<(String, (String, bool))>)>, VmError>(e),
        },
{
    let mut table: Vec<(String, Vec<(String, (String, bool))>)> = Vec::new();
    assert(table_view(table@) =~= Seq::empty());
    let mut i: usize = 0;
    while i < ast.types.len()
        invariant
            i <= ast.types@.len(),
            type_table(*ast, i as int) == Ok::<Seq<(String, Seq<(String, (String, bool))>)>, VmError>(table_view(table@)),
        decreases ast.types@.len() - i,
    {
        let t = &ast.types[i];
        match type_entries_exec(&ast.traits, &t.traits_implementation) {
            Ok(m) => {
                let ghost before = table@;
                proof {
                    lemma_table_view_insert(before, t.name, m);
                }
                name_set(&mut table, t.name.clone(), m);
            },
            Err(e) => {
                proof {
                    lemma_type_table_sticky(*ast, i + 1, ast.types@.len() as int);
                }
                return Err(e);
            },
        }
        i = i + 1;
    }
    Ok(table)
}

/// The orders of the events, with their end nodes added to `ends` (see `event_orders`).
fn event_orders_exec(events: &Vec<Event>, ends: &mut Vec<ast::Reference>) -> (r: Option<Result<Vec<(String, Vec<ast::Reference>)>, VmError>>)
    ensures
        match r {
            Some(Ok(o)) => event_orders(events@, old(ends)@, events@.len() as int) == Load::Done((orders_view(o@), final(ends)@)),
            _ => failed_as(event_orders(events@, old(ends)@, events@.len() as int), r),
        },
        r matches Some(Ok(o)) ==> event_orders_good(events@, o@),
{
    let ghost ends0 = ends@;
    let mut orders: Vec<(String, Vec<ast::Reference>)> = Vec::new();
    assert(orders_view(orders@) =~= Seq::empty());
    let mut i: usize = 0;
    while i < events.len()
        invariant
            i <= events@.len(),
            ends0 == old(ends)@,
            event_orders(events@, ends0, i as int) == Load::Done((orders_view(orders@), ends@)),
            event_orders_good(events@, orders@),
        decreases events@.len() - i,
    {
        match graph_order_exec(&events[i].nodes, true) {
            Some(Ok((list, mut e))) => {
                let ghost before = orders@;
                proof {
                    lemma_orders_view_insert(before, events@[i as int].name, list);
                    crate::keyed::lemma_name_pos_from_bound(before, events@[i as int].name@, 0);
                }
                name_set(&mut orders, events[i].name.clone(), list);
                proof {
                    assert forall|k: int| 0 <= k < orders@.len() implies exists|j: int|
                        0 <= j < events@.len() && events@[j].name@ == (#[trigger] orders@[k]).0@ && order_good(
                            events@[j].nodes@,
                            true,
                            orders@[k].1@,
                        ) by {
                        if k < before.len() && orders@[k] == before[k] {
                        } else {
                            assert(events@[i as int].name@ == orders@[k].0@);
                        }
                    }
                }
                ends.append(&mut e);
            },
            None => {
                proof {
                    lemma_event_orders_sticky(events@, ends0, i + 1, events@.len() as int);
                }
                return None;
            },
            Some(Err(err)) => {
                let r: Option<Result<Vec<(String, Vec<ast::Reference>)>, VmError>> = Some(Err(err));
                proof {
                    lemma_lift_failed::<(Seq<ast::Reference>, Seq<ast::Reference>), (Seq<(String, Seq<ast::Reference>)>, Seq<ast::Reference>), Vec<(String, Vec<ast::Reference>)>>(graph_order(events@[i as int].nodes@, true), r);
                    lemma_event_orders_sticky(events@, ends0, i + 1, events@.len() as int);
                }
                return r;
            },
        }
        i = i + 1;
    }
    Some(Ok(orders))
}

/// The orders of the functions, with their end nodes added to `ends` (see
/// `function_orders`).
fn function_orders_exec(functions: &Vec<Function>, ends: &mut Vec<ast::Reference>) -> (r: Option<Result<Vec<(String, Vec<ast::Reference>)>, VmError>>)
    ensures
        match r {
            Some(Ok(o)) => function_orders(functions@, old(ends)@, functions@.len() as int) == Load::Done((orders_view(o@), final(ends)@)),
            _ => failed_as(function_orders(functions@, old(ends)@, functions@.len() as int), r),
        },
{
    let ghost ends0 = ends@;
    let mut orders: Vec<(String, Vec<ast::Reference>)> = Vec::new();
    assert(orders_view(orders@) =~= Seq::empty());
    let mut i: usize = 0;
    while i < functions.len()
        invariant
            i <= functions@.len(),
            ends0 == old(ends)@,
            function_orders(functions@, ends0, i as int) == Load::Done((orders_view(orders@), ends@)),
        decreases functions@.len() - i,
    {
        match graph_order_exec(&functions[i].nodes, false) {
            Some(Ok((list, mut e))) => {
                let ghost before = orders@;
                proof {
                    lemma_orders_view_insert(before, functions@[i as int].name, list);
                }
                name_set(&mut orders, functions[i].name.clone(), list);
                ends.append(&mut e);
            },
            None => {
                proof {
                    lemma_function_orders_sticky(functions@, ends0, i + 1, functions@.len() as int);
                }
                return None;
            },
            Some(Err(err)) => {
                let r: Option<Result<Vec<(String, Vec<ast::Reference>)>, VmError>> = Some(Err(err));
                proof {
                    lemma_lift_failed::<(Seq<ast::Reference>, Seq<ast::Reference>), (Seq<(String, Seq<ast::Reference>)>, Seq<ast::Reference>), Vec<(String, Vec<ast::Reference>)>>(graph_order(functions@[i as int].nodes@, false), r);
                    lemma_function_orders_sticky(functions@, ends0, i + 1, functions@.len() as int);
                }
                return r;
            },
        }
        i = i + 1;
    }
    Some(Ok(orders))
}

/// The method a type runs for a trait's method (see `impl_or_trait`).
fn impl_or_trait_exec<'a>(own: &'a Vec<Method>, tm: &'a Method) -> (r: &'a Method)
    ensures
        *r == impl_or_trait(own@, *tm),
{
    match find_named(own, &tm.name) {
        Some(j) => &own[j],
        None => tm,
    }
}

/// The orders of the methods a type gives for a trait's methods (see
/// `method_orders_in`).
fn method_orders_in_exec(
    tname: &String,
    own: &Vec<Method>,
    tms: &Vec<Method>,
    orders: &mut Vec<((String, String), Vec<ast::Reference>)>,
    ends: &mut Vec<ast::Reference>,
) -> (r: Option<Result<(), VmError>>)
    ensures
        match r {
            Some(Ok(())) => method_orders_in(*tname, own@, tms@, (pairs_view(old(orders)@), old(ends)@), tms@.len() as int)
                == Load::Done((pairs_view(final(orders)@), final(ends)@)),
            _ => failed_as(method_orders_in(*tname, own@, tms@, (pairs_view(old(orders)@), old(ends)@), tms@.len() as int), r),
        },
{
    let ghost acc = (pairs_view(orders@), ends@);
    let mut k: usize = 0;
    while k < tms.len()
        invariant
            k <= tms@.len(),
            acc == (pairs_view(old(orders)@), old(ends)@),
            method_orders_in(*tname, own@, tms@, acc, k as int) == Load::Done((pairs_view(orders@), ends@)),
        decreases tms@.len() - k,
    {
        let m = impl_or_trait_exec(own, &tms[k]);
        match graph_order_exec(&m.nodes, false) {
            Some(Ok((list, mut e))) => {
                let ghost before = orders@;
                proof {
                    lemma_pairs_view_insert(before, *tname, m.name, list);
                }
                pair_set(orders, tname.clone(), m.name.clone(), list);
                ends.append(&mut e);
            },
            None => {
                proof {
                    lemma_method_orders_in_sticky(*tname, own@, tms@, acc, k + 1, tms@.len() as int);
                }
                return None;
            },
            Some(Err(err)) => {
                let r: Option<Result<(), VmError>> = Some(Err(err));
                proof {
                    lemma_lift_failed::<(Seq<ast::Reference>, Seq<ast::Reference>), (Seq<((String, String), Seq<ast::Reference>)>, Seq<ast::Reference>), ()>(graph_order(m.nodes@, false), r);
                    lemma_method_orders_in_sticky(*tname, own@, tms@, acc, k + 1, tms@.len() as int);
                }
                return r;
            },
        }
        k = k + 1;
    }
    Some(Ok(()))
}

/// The method orders of a type (see `method_orders_impls`).
fn method_orders_impls_exec(
    traits: &Vec<Trait>,
    t: &Type,
    orders: &mut Vec<((String, String), Vec<ast::Reference>)>,
    ends: &mut Vec<ast::Reference>,
) -> (r: Option<Result<(), VmError>>)
    ensures
        match r {
            Some(Ok(())) => method_orders_impls(traits@, *t, (pairs_view(old(orders)@), old(ends)@), t.traits_implementation@.len() as int)
                == Load::Done((pairs_view(final(orders)@), final(ends)@)),
            _ => failed_as(method_orders_impls(traits@, *t, (pairs_view(old(orders)@), old(ends)@), t.traits_implementation@.len() as int), r),
        },
{
    let ghost acc = (pairs_view(orders@), ends@);
    let mut j: usize = 0;
    while j < t.traits_implementation.len()
        invariant
            j <= t.traits_implementation@.len(),
            acc == (pairs_view(old(orders)@), old(ends)@),
            method_orders_impls(traits@, *t, acc, j as int) == Load::Done((pairs_view(orders@), ends@)),
        decreases t.traits_implementation@.len() - j,
    {
        let (trait_name, own) = (&t.traits_implementation[j].0, &t.traits_implementation[j].1);
        match find_named(traits, trait_name) {
            Some(ti) => {
                let r = method_orders_in_exec(&t.name, own, &traits[ti].methods, orders, ends);
                match r {
                    Some(Ok(())) => {},
                    _ => {
                        proof {
                            lemma_method_orders_impls_sticky(traits@, *t, acc, j + 1, t.traits_implementation@.len() as int);
                        }
                        return r;
                    },
                }
            },
            None => {},
        }
        j = j + 1;
    }
    Some(Ok(()))
}

/// The method orders of all types (see `method_orders_types`).
fn method_orders_types_exec(
    ast: &Program,
    orders: &mut Vec<((String, String), Vec<ast::Reference>)>,
    ends: &mut Vec<ast::Reference>,
) -> (r: Option<Result<(), VmError>>)
    ensures
        match r {
            Some(Ok(())) => method_orders_types(*ast, (pairs_view(old(orders)@), old(ends)@), ast.types@.len() as int)
                == Load::Done((pairs_view(final(orders)@), final(ends)@)),
            _ => failed_as(method_orders_types(*ast, (pairs_view(old(orders)@), old(ends)@), ast.types@.len() as int), r),
        },
{
    let ghost acc = (pairs_view(orders@), ends@);
    let mut i: usize = 0;
    while i < ast.types.len()
        invariant
            i <= ast.types@.len(),
            acc == (pairs_view(old(orders)@), old(ends)@),
            method_orders_types(*ast, acc, i as int) == Load::Done((pairs_view(orders@), ends@)),
        decreases ast.types@.len() - i,
    {
        let r = method_orders_impls_exec(&ast.traits, &ast.types[i], orders, ends);
        match r {
            Some(Ok(())) => {},
            _ => {
                proof {
                    lemma_method_orders_types_sticky(*ast, acc, i + 1, ast.types@.len() as int);
                }
                return r;
            },
        }
        i = i + 1;
    }
    Some(Ok(()))
}

/// What loading a program works out, as executable tables.
pub struct LoadedTables {
    pub type_methods: Vec<(String, Vec<(String, (String, bool))>)>,
    pub event_orders: Vec<(String, Vec<ast::Reference>)>,
    pub method_orders: Vec<((String, String), Vec<ast::Reference>)>,
    pub function_orders: Vec<(String, Vec<ast::Reference>)>,
    pub end_nodes: Vec<ast::Reference>,
}

/// The tables seen as sequences.
pub open spec fn tables_view(t: LoadedTables) -> Loaded {
    Loaded {
        type_methods: table_view(t.type_methods@),
        event_orders: orders_view(t.event_orders@),
        method_orders: pairs_view(t.method_orders@),
        function_orders: orders_view(t.function_orders@),
        end_nodes: t.end_nodes@,
    }
}

/// Loads a program of a supported version (see `load_program`); `None`
/// where loading panics.
pub fn load_program_exec(ast: &Program) -> (r: Option<Result<LoadedTables, VmError>>)
    ensures
        match r {
            Some(Ok(t)) => load_program(*ast) == Load::Done(tables_view(t)),
            _ => failed_as(load_program(*ast), r),
        },
        r matches Some(Ok(t)) ==> event_orders_good(ast.events@, t.event_orders@),
{
    let table = match type_table_exec(ast) {
        Ok(t) => t,
        Err(e) => {
            return Some(Err(e));
        },
    };
    let mut ends: Vec<ast::Reference> = Vec::new();
    let event_orders_v = match event_orders_exec(&ast.events, &mut ends) {
        Some(Ok(o)) => o,
        other => {
            let r: Option<Result<LoadedTables, VmError>> = match other {
                Some(Err(e)) => Some(Err(e)),
                _ => None,
            };
            proof {
                lemma_lift_failed::<(Seq<(String, Seq<ast::Reference>)>, Seq<ast::Reference>), Loaded, LoadedTables>(event_orders(ast.events@, Seq::empty(), ast.events@.len() as int), r);
            }
            return r;
        },
    };
    let ghost ends1 = ends@;
    let mut method_orders_v: Vec<((String, String), Vec<ast::Reference>)> = Vec::new();
    assert(pairs_view(method_orders_v@) =~= Seq::empty());
    match method_orders_types_exec(ast, &mut method_orders_v, &mut ends) {
        Some(Ok(())) => {},
        other => {
            let r: Option<Result<LoadedTables, VmError>> = match other {
                Some(Err(e)) => Some(Err(e)),
                _ => None,
            };
            proof {
                lemma_lift_failed::<(Seq<((String, String), Seq<ast::Reference>)>, Seq<ast::Reference>), Loaded, LoadedTables>(method_orders_types(*ast, (Seq::empty(), ends1), ast.types@.len() as int), r);
            }
            return r;
        },
    }
    let ghost ends2 = ends@;
    let function_orders_v = match function_orders_exec(&ast.functions, &mut ends) {
        Some(Ok(o)) => o,
        other => {
            let r: Option<Result<LoadedTables, VmError>> = match other {
                Some(Err(e)) => Some(Err(e)),
                _ => None,
            };
            proof {
                lemma_lift_failed::<(Seq<(String, Seq<ast::Reference>)>, Seq<ast::Reference>), Loaded, LoadedTables>(function_orders(ast.functions@, ends2, ast.functions@.len() as int), r);
            }
            return r;
        },
    };
    Some(Ok(LoadedTables {
        type_methods: table,
        event_orders: event_orders_v,
        method_orders: method_orders_v,
        function_orders: function_orders_v,
        end_nodes: ends,
    }))
}

} // verus!
