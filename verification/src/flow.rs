//! The execution order of a flow graph: which nodes run, and in what order,
//! found by sorting the graph of node successions and data links.
use vstd::prelude::*;
use crate::ast::{self, io_flow, Link, Node, RefKey};
use crate::error::VmError;
use crate::graph::{
    externals_of, graph_add_edge, graph_add_node, graph_edges, graph_externals, graph_has_path,
    graph_new, graph_node_count, graph_toposort, has_edge, has_incoming, has_outgoing, is_topological,
    reachable, toposort_order, FlowGraph,
};

verus! {

/// The graph node of an identifier: nodes are entered in order into a map
/// from identifiers, so the last node with the identifier wins.
pub open spec fn last_with_id(nodes: Seq<Node>, id: RefKey, k: int) -> Option<int>
    decreases k,
{
    if k <= 0 {
        None
    } else if nodes[k - 1].id@ == id {
        Some(k - 1)
    } else {
        last_with_id(nodes, id, k - 1)
    }
}

pub open spec fn node_slot(nodes: Seq<Node>, id: RefKey) -> Option<int> {
    last_with_id(nodes, id, nodes.len() as int)
}

/// The first node, from position `k` on, with the identifier.
pub open spec fn first_with_id(nodes: Seq<Node>, id: RefKey, k: int) -> Option<int>
    decreases nodes.len() - k,
{
    if k >= nodes.len() || k < 0 {
        None
    } else if nodes[k].id@ == id {
        Some(k)
    } else {
        first_with_id(nodes, id, k + 1)
    }
}

pub open spec fn find_node(nodes: Seq<Node>, id: RefKey) -> Option<int> {
    first_with_id(nodes, id, 0)
}

/// The first link, from position `j` on, that names a node that cannot give output.
pub open spec fn check_links(nodes: Seq<Node>, links: Seq<Link>, j: int) -> Option<VmError>
    decreases links.len() - j,
{
    if j >= links.len() || j < 0 {
        None
    } else {
        match links[j] {
            Link::NodeIndexed(lid, _) => match find_node(nodes, lid@) {
                Some(m) => if !io_flow(nodes[m].node_type).1 {
                    Some(VmError::NodeCannotGiveOutput(nodes[m].id))
                } else {
                    check_links(nodes, links, j + 1)
                },
                None => check_links(nodes, links, j + 1),
            },
            Link::Unset => check_links(nodes, links, j + 1),
        }
    }
}

/// What is wrong with a node of an event, if anything.
pub open spec fn check_node(nodes: Seq<Node>, node: Node) -> Option<VmError> {
    let (can_input, _, _, can_out) = io_flow(node.node_type);
    if node.id@ == RefKey::Unset {
        Some(VmError::FoundNodeWithInvalidIdentifier)
    } else if node.next_node@ != RefKey::Unset && !can_out {
        Some(VmError::NodeCannotFlowOut(node.id))
    } else if node.next_node@ != RefKey::Unset && find_node(nodes, node.next_node@) is Some && !io_flow(
        nodes[find_node(nodes, node.next_node@)->0].node_type,
    ).2 {
        Some(VmError::NodeCannotFlowIn(nodes[find_node(nodes, node.next_node@)->0].id))
    } else if node.input_links@.len() > 0 && !can_input {
        Some(VmError::NodeCannotTakeInput(node.id))
    } else if node.input_links@.len() > 0 {
        check_links(nodes, node.input_links@, 0)
    } else {
        None
    }
}

/// The edges from the nodes that links name, from position `j` on, into
/// node `to`; `None` where a link names no node (the ordering panics there).
pub open spec fn link_edges(nodes: Seq<Node>, links: Seq<Link>, j: int, to: int) -> Option<Seq<(usize, usize)>>
    decreases links.len() - j,
{
    if j >= links.len() || j < 0 {
        Some(Seq::empty())
    } else {
        match links[j] {
            Link::NodeIndexed(lid, _) => match node_slot(nodes, lid@) {
                Some(f) => match link_edges(nodes, links, j + 1, to) {
                    Some(rest) => Some(seq![(f as usize, to as usize)] + rest),
                    None => None,
                },
                None => None,
            },
            Link::Unset => link_edges(nodes, links, j + 1, to),
        }
    }
}

/// Result of reading the nodes of a flow graph into a graph.
pub enum Scan {
    Panic,
    Fail(VmError),
    Edges(Seq<(usize, usize)>),
}

/// The edges that node `i` adds: one to its successor, then one from each
/// linked node; none where the successor is not a node and `checked` (an
/// event); a panic there otherwise.
pub open spec fn node_edges(nodes: Seq<Node>, i: int, checked: bool) -> Option<Seq<(usize, usize)>> {
    let node = nodes[i];
    match node_slot(nodes, node.next_node@) {
        None => if checked {
            Some(Seq::empty())
        } else {
            None
        },
        Some(to) => {
            let from = node_slot(nodes, node.id@)->0;
            match link_edges(nodes, node.input_links@, 0, from) {
                Some(le) => Some(seq![(from as usize, to as usize)] + le),
                None => None,
            }
        },
    }
}

/// Reading the first `k` nodes: events check each node before its edges.
pub open spec fn scan(nodes: Seq<Node>, k: int, checked: bool) -> Scan
    decreases k,
{
    if k <= 0 {
        Scan::Edges(Seq::empty())
    } else {
        match scan(nodes, k - 1, checked) {
            Scan::Edges(edges) => {
                if checked && check_node(nodes, nodes[k - 1]) is Some {
                    Scan::Fail(check_node(nodes, nodes[k - 1])->0)
                } else {
                    match node_edges(nodes, k - 1, checked) {
                        Some(e) => Scan::Edges(edges + e),
                        None => Scan::Panic,
                    }
                }
            },
            other => other,
        }
    }
}

pub open spec fn ids_unique(nodes: Seq<Node>) -> bool {
    forall|i: int, j: int| 0 <= i < j < nodes.len() ==> nodes[i].id@ != nodes[j].id@
}

/// Identifiers of the entry nodes, in order.
pub open spec fn entry_ids(nodes: Seq<Node>, k: int) -> Seq<ast::Reference>
    decreases k,
{
    if k <= 0 {
        Seq::empty()
    } else if nodes[k - 1].node_type is Entry {
        entry_ids(nodes, k - 1).push(nodes[k - 1].id)
    } else {
        entry_ids(nodes, k - 1)
    }
}

/// Position of the first entry node.
pub open spec fn first_entry(nodes: Seq<Node>, k: int) -> int
    decreases nodes.len() - k,
{
    if k >= nodes.len() || k < 0 {
        k
    } else if nodes[k].node_type is Entry {
        k
    } else {
        first_entry(nodes, k + 1)
    }
}

/// Scanning the order down from `i`: where the run that leads to the entry
/// starts. It stops above a source that cannot reach the entry.
pub open spec fn back_stop(edges: Seq<(usize, usize)>, order: Seq<usize>, ep: int, i: int) -> int
    decreases i,
{
    if i <= 0 {
        0
    } else if !has_incoming(edges, order[i - 1] as int) && !reachable(edges, order[i - 1] as int, order[ep] as int) {
        i
    } else {
        back_stop(edges, order, ep, i - 1)
    }
}

/// Scanning the order up from `i`: where the run from the entry ends. It
/// stops below a sink that the entry cannot reach.
pub open spec fn fwd_stop(edges: Seq<(usize, usize)>, order: Seq<usize>, ep: int, i: int) -> int
    decreases order.len() - i,
{
    if i >= order.len() {
        order.len() - 1
    } else if !has_outgoing(edges, order[i] as int) && !reachable(edges, order[ep] as int, order[i] as int) {
        i - 1
    } else {
        fwd_stop(edges, order, ep, i + 1)
    }
}

/// Whether a reference in the list denotes `id`.
pub open spec fn holds_id(s: Seq<ast::Reference>, id: RefKey) -> bool {
    exists|k: int| 0 <= k < s.len() && (#[trigger] s[k])@ == id
}

/// An execution order that follows the flow graph: every reference in it
/// names a node, and of two nodes in it the later one has no edge into the
/// earlier one (edges run from a node to its successor, and from a linked
/// node to the node that takes its output).
pub open spec fn follows_edges(nodes: Seq<Node>, checked: bool, o: Seq<ast::Reference>) -> bool {
    &&& forall|a: int| 0 <= a < o.len() ==> node_slot(nodes, (#[trigger] o[a])@) is Some
    &&& scan(nodes, nodes.len() as int, checked) matches Scan::Edges(edges) && forall|a: int, b: int|
        0 <= a < b < o.len() ==> !has_edge(edges, node_slot(nodes, o[b]@)->0, node_slot(nodes, o[a]@)->0)
}

/// With distinct identifiers, a node's identifier leads back to the node.
proof fn lemma_slot_of_unique(nodes: Seq<Node>, x: int)
    requires
        ids_unique(nodes),
        0 <= x < nodes.len(),
    ensures
        node_slot(nodes, nodes[x].id@) == Some(x),
{
    lemma_last_with_id_bound(nodes, nodes[x].id@, nodes.len() as int);
    let i = node_slot(nodes, nodes[x].id@)->0;
    if i != x {
        if i < x {
            assert(nodes[i].id@ != nodes[x].id@);
        } else {
            assert(nodes[x].id@ != nodes[i].id@);
        }
    }
}

/// Outcome of ordering a flow graph.
pub enum FlowOrder {
    Panic,
    Fail(VmError),
    MultipleEntries(Seq<ast::Reference>),
    /// (execution order, end nodes)
    Done(Seq<ast::Reference>, Seq<ast::Reference>),
}

/// The identifiers of nodes at the given graph positions.
pub open spec fn ids_at(nodes: Seq<Node>, xs: Seq<usize>) -> Seq<ast::Reference> {
    xs.map_values(|x: usize| nodes[x as int].id)
}

/// The execution order of a flow graph: its nodes sorted so that each comes
/// after its predecessor and after the nodes it takes input from, cut to the
/// run around the single entry node; and the nodes without successors.
pub open spec fn flow_order(nodes: Seq<Node>, checked: bool) -> FlowOrder {
    match scan(nodes, nodes.len() as int, checked) {
        Scan::Panic => FlowOrder::Panic,
        Scan::Fail(e) => FlowOrder::Fail(e),
        Scan::Edges(edges) => match toposort_order(nodes.len(), edges) {
            None => FlowOrder::Fail(VmError::FoundCycleInFlowGraph),
            Some(order) => if !ids_unique(nodes) {
                FlowOrder::Panic
            } else {
                let entries = entry_ids(nodes, nodes.len() as int);
                if entries.len() == 0 {
                    FlowOrder::Fail(VmError::EntryNodeNotFound)
                } else if entries.len() > 1 {
                    FlowOrder::MultipleEntries(entries)
                } else {
                    let e = first_entry(nodes, 0);
                    let ep = choose|p: int| 0 <= p < order.len() && order[p] == e;
                    let from = back_stop(edges, order, ep, ep);
                    let to = fwd_stop(edges, order, ep, ep + 1);
                    FlowOrder::Done(
                        ids_at(nodes, order.subrange(from, to + 1)),
                        ids_at(nodes, externals_of(nodes.len(), edges, false)),
                    )
                }
            }
        },
    }
}

/// Total number of input links of the first `k` nodes.
pub open spec fn links_total(nodes: Seq<Node>, k: int) -> int
    decreases k,
{
    if k <= 0 {
        0
    } else {
        links_total(nodes, k - 1) + nodes[k - 1].input_links@.len()
    }
}

/// A flow graph small enough for the graph's 32-bit indices.
pub open spec fn fits_graph(nodes: Seq<Node>) -> bool {
    nodes.len() + links_total(nodes, nodes.len() as int) + 2 < u32::MAX
}

/// Once reading the nodes has failed or panicked, later nodes change nothing.
pub proof fn lemma_scan_sticky(nodes: Seq<Node>, k: int, m: int, checked: bool)
    requires
        0 <= k <= m,
        !(scan(nodes, k, checked) is Edges),
    ensures
        scan(nodes, m, checked) == scan(nodes, k, checked),
    decreases m - k,
{
    if m > k {
        lemma_scan_sticky(nodes, k, m - 1, checked);
    }
}

proof fn lemma_last_with_id_bound(nodes: Seq<Node>, id: RefKey, k: int)
    requires
        0 <= k <= nodes.len(),
    ensures
        last_with_id(nodes, id, k) matches Some(i) ==> 0 <= i < k && nodes[i].id@ == id,
        (exists|j: int| 0 <= j < k && nodes[j].id@ == id) ==> last_with_id(nodes, id, k) is Some,
    decreases k,
{
    if k > 0 {
        lemma_last_with_id_bound(nodes, id, k - 1);
        if exists|j: int| 0 <= j < k && nodes[j].id@ == id {
            if nodes[k - 1].id@ != id {
                let j = choose|j: int| 0 <= j < k && nodes[j].id@ == id;
                assert(j < k - 1);
            }
        }
    }
}

pub proof fn lemma_first_with_id_bound(nodes: Seq<Node>, id: RefKey, k: int)
    requires
        0 <= k,
    ensures
        first_with_id(nodes, id, k) matches Some(i) ==> k <= i < nodes.len() && nodes[i].id@ == id,
    decreases nodes.len() - k,
{
    if k < nodes.len() {
        lemma_first_with_id_bound(nodes, id, k + 1);
    }
}

/// The graph position of an identifier.
fn slot_of(nodes: &Vec<Node>, id: &ast::Reference) -> (r: Option<usize>)
    ensures
        match r {
            Some(i) => node_slot(nodes@, id@) == Some(i as int) && i < nodes@.len(),
            None => node_slot(nodes@, id@) is None,
        },
{
    let mut k: usize = nodes.len();
    while k > 0
        invariant
            k <= nodes@.len(),
            node_slot(nodes@, id@) == last_with_id(nodes@, id@, k as int),
        decreases k,
    {
        if nodes[k - 1].id.same_as(id) {
            return Some(k - 1);
        }
        k = k - 1;
    }
    None
}

/// The first node with an identifier.
pub(crate) fn find_first(nodes: &Vec<Node>, id: &ast::Reference) -> (r: Option<usize>)
    ensures
        match r {
            Some(i) => find_node(nodes@, id@) == Some(i as int) && i < nodes@.len(),
            None => find_node(nodes@, id@) is None,
        },
{
    let mut k: usize = 0;
    while k < nodes.len()
        invariant
            k <= nodes@.len(),
            find_node(nodes@, id@) == first_with_id(nodes@, id@, k as int),
        decreases nodes@.len() - k,
    {
        if nodes[k].id.same_as(id) {
            return Some(k);
        }
        k = k + 1;
    }
    None
}

/// What is wrong with a node of an event, if anything.
fn check_node_exec(nodes: &Vec<Node>, node: &Node) -> (r: Option<VmError>)
    ensures
        r == check_node(nodes@, *node),
{
    let (can_input, _, _, can_out) = node.node_type.is_input_output_flow_in_out();
    if node.id.is_unset() {
        return Some(VmError::FoundNodeWithInvalidIdentifier);
    }
    if !node.next_node.is_unset() {
        if !can_out {
            return Some(VmError::NodeCannotFlowOut(node.id.duplicate()));
        }
        match find_first(nodes, &node.next_node) {
            Some(m) => {
                let (_, _, can_in2, _) = nodes[m].node_type.is_input_output_flow_in_out();
                if !can_in2 {
                    return Some(VmError::NodeCannotFlowIn(nodes[m].id.duplicate()));
                }
            },
            None => {},
        }
    }
    if node.input_links.len() > 0 {
        if !can_input {
            return Some(VmError::NodeCannotTakeInput(node.id.duplicate()));
        }
        let mut j: usize = 0;
        while j < node.input_links.len()
            invariant
                j <= node.input_links@.len(),
                node.input_links@.len() > 0,
                check_node(nodes@, *node) == check_links(nodes@, node.input_links@, 0),
                check_links(nodes@, node.input_links@, 0) == check_links(nodes@, node.input_links@, j as int),
            decreases node.input_links@.len() - j,
        {
            match &node.input_links[j] {
                Link::NodeIndexed(lid, _) => {
                    match find_first(nodes, lid) {
                        Some(m) => {
                            let (_, can_output2, _, _) = nodes[m].node_type.is_input_output_flow_in_out();
                            if !can_output2 {
                                return Some(VmError::NodeCannotGiveOutput(nodes[m].id.duplicate()));
                            }
                        },
                        None => {},
                    }
                },
                Link::Unset => {},
            }
            j = j + 1;
        }
        return None;
    }
    None
}

proof fn lemma_links_total_mono(nodes: Seq<Node>, k: int, m: int)
    requires
        0 <= k <= m,
    ensures
        links_total(nodes, k) <= links_total(nodes, m),
    decreases m - k,
{
    if m > k {
        lemma_links_total_mono(nodes, k, m - 1);
    }
}

/// Reads the nodes into a graph: every node, then the edges of each node in
/// turn, checking the nodes of an event first. `None` where the reading
/// panics: a link to no node, or (outside events) a successor that is no node.
fn build_graph(nodes: &Vec<Node>, checked: bool) -> (r: Option<Result<FlowGraph, VmError>>)
    requires
        fits_graph(nodes@),
    ensures
        match r {
            Some(Ok(g)) => {
                &&& scan(nodes@, nodes@.len() as int, checked) == Scan::Edges(graph_edges(g))
                &&& graph_node_count(g) == nodes@.len()
            },
            Some(Err(e)) => scan(nodes@, nodes@.len() as int, checked) == Scan::Fail(e),
            None => scan(nodes@, nodes@.len() as int, checked) is Panic,
        },
{
    let n = nodes.len();
    proof {
        lemma_links_total_mono(nodes@, 0, n as int);
    }
    let mut g = graph_new();
    let mut i: usize = 0;
    while i < n
        invariant
            i <= n == nodes@.len(),
            fits_graph(nodes@),
            links_total(nodes@, n as int) >= 0,
            graph_node_count(g) == i,
            graph_edges(g) == Seq::<(usize, usize)>::empty(),
        decreases n - i,
    {
        graph_add_node(&mut g, i);
        i = i + 1;
    }
    let mut i: usize = 0;
    while i < n
        invariant
            i <= n == nodes@.len(),
            fits_graph(nodes@),
            links_total(nodes@, n as int) >= 0,
            graph_node_count(g) == n,
            scan(nodes@, i as int, checked) == Scan::Edges(graph_edges(g)),
            graph_edges(g).len() <= i + links_total(nodes@, i as int),
        decreases n - i,
    {
        let node = &nodes[i];
        proof {
            lemma_links_total_mono(nodes@, i + 1, n as int);
            assert(scan(nodes@, i + 1, checked) == {
                if checked && check_node(nodes@, nodes@[i as int]) is Some {
                    Scan::Fail(check_node(nodes@, nodes@[i as int])->0)
                } else {
                    match node_edges(nodes@, i as int, checked) {
                        Some(e) => Scan::Edges(graph_edges(g) + e),
                        None => Scan::Panic,
                    }
                }
            });
        }
        if checked {
            match check_node_exec(nodes, node) {
                Some(e) => {
                    proof {
                        lemma_scan_sticky(nodes@, i + 1, n as int, checked);
                    }
                    return Some(Err(e));
                },
                None => {},
            }
        }
        let to = slot_of(nodes, &node.next_node);
        match to {
            None => {
                if !checked {
                    proof {
                        lemma_scan_sticky(nodes@, i + 1, n as int, checked);
                    }
                    return None;
                }
                proof {
                    assert(node_edges(nodes@, i as int, checked) == Some(Seq::<(usize, usize)>::empty()));
                    assert(graph_edges(g) + Seq::<(usize, usize)>::empty() =~= graph_edges(g));
                }
            },
            Some(to) => {
                proof {
                    lemma_last_with_id_bound(nodes@, node.id@, n as int);
                }
                let from = match slot_of(nodes, &node.id) {
                    Some(f) => f,
                    None => {
                        proof {
                            assert(false);
                        }
                        0
                    },
                };
                let ghost base = graph_edges(g);
                graph_add_edge(&mut g, from, to);
                let links = &node.input_links;
                let mut j: usize = 0;
                while j < links.len()
                    invariant
                        j <= links@.len(),
                        links == &nodes@[i as int].input_links,
                        i < n == nodes@.len(),
                        node_slot(nodes@, nodes@[i as int].next_node@) == Some(to as int),
                        node_slot(nodes@, nodes@[i as int].id@) == Some(from as int),
                        scan(nodes@, i as int, checked) == Scan::Edges(base),
                        !(checked && check_node(nodes@, nodes@[i as int]) is Some),
                        from < n,
                        fits_graph(nodes@),
                        links_total(nodes@, n as int) >= 0,
                        links_total(nodes@, i + 1) == links_total(nodes@, i as int) + links@.len(),
                        graph_node_count(g) == n,
                        graph_edges(g).len() >= base.len() + 1,
                        base.len() <= i + links_total(nodes@, i as int),
                        links_total(nodes@, i + 1) <= links_total(nodes@, n as int),
                        link_edges(nodes@, links@, 0, from as int) == match link_edges(nodes@, links@, j as int, from as int) {
                            Some(rest) => Some(graph_edges(g).subrange(base.len() + 1int, graph_edges(g).len() as int) + rest),
                            None => None,
                        },
                        graph_edges(g).subrange(0, base.len() + 1int) == base.push((from, to)),
                        graph_edges(g).len() <= base.len() + 1 + j,
                    decreases links@.len() - j,
                {
                    match &links[j] {
                        Link::NodeIndexed(lid, _) => {
                            let f = match slot_of(nodes, lid) {
                                Some(f) => f,
                                None => {
                                    proof {
                                        assert(link_edges(nodes@, links@, j as int, from as int) is None);
                                        assert(node_edges(nodes@, i as int, checked) is None);
                                        assert(scan(nodes@, i + 1, checked) is Panic);
                                        lemma_scan_sticky(nodes@, i + 1, n as int, checked);
                                    }
                                    return None;
                                },
                            };
                            let ghost before = graph_edges(g);
                            graph_add_edge(&mut g, f, from);
                            proof {
                                assert(graph_edges(g).subrange(base.len() + 1int, graph_edges(g).len() as int)
                                    =~= before.subrange(base.len() + 1int, before.len() as int).push((f, from)));
                                assert(graph_edges(g).subrange(0, base.len() + 1int) =~= before.subrange(0, base.len() + 1int));
                                match link_edges(nodes@, links@, j + 1, from as int) {
                                    Some(rest) => {
                                        assert(link_edges(nodes@, links@, j as int, from as int) == Some(seq![(f, from)] + rest));
                                        assert(before.subrange(base.len() + 1int, before.len() as int) + (seq![(f, from)] + rest)
                                            =~= graph_edges(g).subrange(base.len() + 1int, graph_edges(g).len() as int) + rest);
                                    },
                                    None => {},
                                }
                            }
                        },
                        Link::Unset => {},
                    }
                    j = j + 1;
                }
                proof {
                    assert(link_edges(nodes@, links@, j as int, from as int) == Some(Seq::<(usize, usize)>::empty()));
                    let all = graph_edges(g).subrange(base.len() + 1int, graph_edges(g).len() as int);
                    assert(all + Seq::<(usize, usize)>::empty() =~= all);
                    assert(graph_edges(g) =~= graph_edges(g).subrange(0, base.len() + 1int) + all);
                    assert(graph_edges(g) =~= base + (seq![(from, to)] + all));
                }
            },
        }
        i = i + 1;
    }
    Some(Ok(g))
}

pub open spec fn external_pred(edges: Seq<(usize, usize)>, incoming: bool, x: usize) -> bool {
    if incoming {
        !has_incoming(edges, x as int)
    } else {
        !has_outgoing(edges, x as int)
    }
}

proof fn lemma_externals(n: nat, edges: Seq<(usize, usize)>, incoming: bool)
    ensures
        forall|x: usize| #[trigger] externals_of(n, edges, incoming).contains(x) <==> (x < n && external_pred(edges, incoming, x)),
        forall|k: int| 0 <= k < externals_of(n, edges, incoming).len() ==> #[trigger] externals_of(n, edges, incoming)[k] < n,
{
    let base = Seq::new(n, |i: int| i as usize);
    let pred = |x: usize|
        if incoming {
            !has_incoming(edges, x as int)
        } else {
            !has_outgoing(edges, x as int)
        };
    assert(externals_of(n, edges, incoming) == base.filter(pred));
    assert forall|x: usize| #[trigger] externals_of(n, edges, incoming).contains(x) implies (x < n && external_pred(edges, incoming, x)) by {
        base.lemma_filter_contains_rev(pred, x);
        let i = choose|i: int| 0 <= i < base.filter(pred).len() && base.filter(pred)[i] == x;
        base.lemma_filter_pred(pred, i);
    }
    assert forall|x: usize| x < n && external_pred(edges, incoming, x) implies #[trigger] externals_of(n, edges, incoming).contains(x) by {
        assert(base[x as int] == x);
        base.lemma_filter_contains(pred, x as int);
    }
    assert forall|k: int| 0 <= k < externals_of(n, edges, incoming).len() implies #[trigger] externals_of(n, edges, incoming)[k] < n by {
        let x = externals_of(n, edges, incoming)[k];
        assert(externals_of(n, edges, incoming).contains(x));
    }
}

fn contains_index(v: &Vec<usize>, x: usize) -> (r: bool)
    ensures
        r == v@.contains(x),
{
    let mut i: usize = 0;
    while i < v.len()
        invariant
            i <= v@.len(),
            forall|j: int| 0 <= j < i ==> v@[j] != x,
        decreases v@.len() - i,
    {
        if v[i] == x {
            return true;
        }
        i = i + 1;
    }
    false
}

proof fn lemma_entry_ids(nodes: Seq<Node>, k: int)
    requires
        0 <= k <= nodes.len(),
    ensures
        entry_ids(nodes, k).len() > 0 ==> exists|j: int| 0 <= j < k && (#[trigger] nodes[j]).node_type is Entry,
        entry_ids(nodes, k).len() > 0 ==> entry_ids(nodes, k)[0] == nodes[first_entry(nodes, 0)].id,
    decreases k,
{
    if k > 0 {
        lemma_entry_ids(nodes, k - 1);
        if entry_ids(nodes, k - 1).len() == 0 && nodes[k - 1].node_type is Entry {
            lemma_no_entry_before(nodes, k - 1);
            lemma_first_entry_at(nodes, 0, k - 1);
        }
    }
}

proof fn lemma_no_entry_before(nodes: Seq<Node>, k: int)
    requires
        0 <= k <= nodes.len(),
        entry_ids(nodes, k).len() == 0,
    ensures
        forall|j: int| 0 <= j < k ==> !((#[trigger] nodes[j]).node_type is Entry),
    decreases k,
{
    if k > 0 {
        lemma_no_entry_before(nodes, k - 1);
    }
}

proof fn lemma_first_entry_at(nodes: Seq<Node>, i: int, k: int)
    requires
        0 <= i <= k < nodes.len(),
        nodes[k].node_type is Entry,
        forall|j: int| i <= j < k ==> !((#[trigger] nodes[j]).node_type is Entry),
    ensures
        first_entry(nodes, i) == k,
    decreases k - i,
{
    if i < k {
        lemma_first_entry_at(nodes, i + 1, k);
    }
}

proof fn lemma_back_stop(edges: Seq<(usize, usize)>, order: Seq<usize>, ep: int, i: int)
    requires
        0 <= i,
    ensures
        0 <= back_stop(edges, order, ep, i) <= i,
    decreases i,
{
    if i > 0 {
        lemma_back_stop(edges, order, ep, i - 1);
    }
}

proof fn lemma_fwd_stop(edges: Seq<(usize, usize)>, order: Seq<usize>, ep: int, i: int)
    requires
        0 <= i <= order.len(),
    ensures
        i - 1 <= fwd_stop(edges, order, ep, i) < order.len(),
    decreases order.len() - i,
{
    if i < order.len() {
        lemma_fwd_stop(edges, order, ep, i + 1);
    }
}

/// The identifiers of the nodes at the given positions.
fn ids_of(nodes: &Vec<Node>, xs: &Vec<usize>, from: usize, to: usize) -> (r: Vec<ast::Reference>)
    requires
        from <= to <= xs@.len(),
        forall|k: int| from <= k < to ==> #[trigger] xs@[k] < nodes@.len(),
    ensures
        r@ == ids_at(nodes@, xs@.subrange(from as int, to as int)),
{
    let mut r: Vec<ast::Reference> = Vec::new();
    let mut k: usize = from;
    while k < to
        invariant
            from <= k <= to <= xs@.len(),
            forall|k: int| from <= k < to ==> #[trigger] xs@[k] < nodes@.len(),
            r@ == ids_at(nodes@, xs@.subrange(from as int, k as int)),
        decreases to - k,
    {
        let id = nodes[xs[k]].id.duplicate();
        r.push(id);
        proof {
            assert(xs@.subrange(from as int, k + 1) =~= xs@.subrange(from as int, k as int).push(xs@[k as int]));
            assert(r@ =~= ids_at(nodes@, xs@.subrange(from as int, k + 1)));
        }
        k = k + 1;
    }
    r
}

/// Whether the backward scan stops at position `i`: a source that cannot
/// reach the entry.
fn stops_back(g: &FlowGraph, order: &Vec<usize>, sources: &Vec<usize>, ep: usize, i: usize) -> (r: bool)
    requires
        i < order@.len(),
        ep < order@.len(),
        is_topological(graph_node_count(*g), graph_edges(*g), order@),
        sources@ == externals_of(graph_node_count(*g), graph_edges(*g), true),
        forall|x: usize| #[trigger] externals_of(graph_node_count(*g), graph_edges(*g), true).contains(x)
            <==> (x < graph_node_count(*g) && external_pred(graph_edges(*g), true, x)),
    ensures
        r == (!has_incoming(graph_edges(*g), order@[i as int] as int)
            && !reachable(graph_edges(*g), order@[i as int] as int, order@[ep as int] as int)),
{
    let x = order[i];
    contains_index(sources, x) && !graph_has_path(g, x, order[ep])
}

/// Whether the forward scan stops at position `i`: a sink that the entry
/// cannot reach.
fn stops_fwd(g: &FlowGraph, order: &Vec<usize>, sinks: &Vec<usize>, ep: usize, i: usize) -> (r: bool)
    requires
        i < order@.len(),
        ep < order@.len(),
        is_topological(graph_node_count(*g), graph_edges(*g), order@),
        sinks@ == externals_of(graph_node_count(*g), graph_edges(*g), false),
        forall|x: usize| #[trigger] externals_of(graph_node_count(*g), graph_edges(*g), false).contains(x)
            <==> (x < graph_node_count(*g) && external_pred(graph_edges(*g), false, x)),
    ensures
        r == (!has_outgoing(graph_edges(*g), order@[i as int] as int)
            && !reachable(graph_edges(*g), order@[ep as int] as int, order@[i as int] as int)),
{
    let x = order[i];
    contains_index(sinks, x) && !graph_has_path(g, order[ep], x)
}

/// Orders a flow graph (see `flow_order`): the execution order and the end
/// nodes, or the error that the graph gives.
pub fn flow_order_exec(nodes: &Vec<Node>, checked: bool) -> (r: Option<Result<(Vec<ast::Reference>, Vec<ast::Reference>), VmError>>)
    requires
        fits_graph(nodes@),
    ensures
        match flow_order(nodes@, checked) {
            FlowOrder::Panic => r is None,
            FlowOrder::Fail(e) => r == Some(Err::<(Vec<ast::Reference>, Vec<ast::Reference>), VmError>(e)),
            FlowOrder::MultipleEntries(ids) => r matches Some(Err(VmError::FoundMultipleEntryNodes(v))) && v@ == ids,
            FlowOrder::Done(order, ends) => r matches Some(Ok((o, e))) && o@ == order && e@ == ends,
        },
        r matches Some(Ok((o, _))) ==> forall|a: int, b: int| 0 <= a < b < o@.len() ==> o@[a]@ != o@[b]@,
        r matches Some(Ok((o, _))) ==> holds_id(o@, nodes@[first_entry(nodes@, 0)].id@),
        r matches Some(Ok((o, _))) ==> follows_edges(nodes@, checked, o@),
{
    let n = nodes.len();
    let g = match build_graph(nodes, checked) {
        Some(Ok(g)) => g,
        Some(Err(e)) => return Some(Err(e)),
        None => return None,
    };
    let ghost edges = graph_edges(g);
    let order = match graph_toposort(&g) {
        Some(o) => o,
        None => return Some(Err(VmError::FoundCycleInFlowGraph)),
    };
    if !ids_unique_exec(nodes) {
        return None;
    }
    let mut entries: Vec<ast::Reference> = Vec::new();
    let mut i: usize = 0;
    while i < n
        invariant
            i <= n == nodes@.len(),
            entries@ == entry_ids(nodes@, i as int),
        decreases n - i,
    {
        if nodes[i].node_type.is_entry() {
            entries.push(nodes[i].id.duplicate());
        }
        i = i + 1;
    }
    if entries.len() == 0 {
        return Some(Err(VmError::EntryNodeNotFound));
    }
    if entries.len() > 1 {
        return Some(Err(VmError::FoundMultipleEntryNodes(entries)));
    }
    proof {
        lemma_entry_ids(nodes@, n as int);
    }
    let mut e: usize = 0;
    while e < n && !nodes[e].node_type.is_entry()
        invariant
            e <= n == nodes@.len(),
            forall|j: int| 0 <= j < e ==> !((#[trigger] nodes@[j]).node_type is Entry),
            exists|j: int| 0 <= j < n && (#[trigger] nodes@[j]).node_type is Entry,
        decreases n - e,
    {
        e = e + 1;
    }
    proof {
        if e == n {
            let j = choose|j: int| 0 <= j < n && (#[trigger] nodes@[j]).node_type is Entry;
            assert(!(nodes@[j].node_type is Entry));
        }
        lemma_first_entry_at(nodes@, 0, e as int);
        assert(order@.contains(e));
    }
    let mut ep: usize = 0;
    while ep < n && order[ep] != e
        invariant
            ep <= n == nodes@.len() == order@.len(),
            order@.contains(e),
            forall|j: int| 0 <= j < ep ==> order@[j] != e,
        decreases n - ep,
    {
        ep = ep + 1;
    }
    proof {
        if ep == n {
            let j = choose|j: int| 0 <= j < order@.len() && order@[j] == e;
            assert(order@[j] != e);
        }
        let c = choose|p: int| 0 <= p < order@.len() && order@[p] == e;
        if c != ep {
            if c < ep {
                assert(order@[c] != order@[ep as int]);
            } else {
                assert(order@[ep as int] != order@[c]);
            }
        }
        lemma_externals(n as nat, edges, true);
        lemma_externals(n as nat, edges, false);
    }
    let sources = graph_externals(&g, true);
    let sinks = graph_externals(&g, false);
    let mut from_pos: usize = ep;
    let mut i: usize = ep;
    while i > 0 && !stops_back(&g, &order, &sources, ep, i - 1)
        invariant
            i <= ep < n == nodes@.len() == order@.len(),
            from_pos == i,
            is_topological(n as nat, edges, order@),
            graph_node_count(g) == n,
            graph_edges(g) == edges,
            sources@ == externals_of(n as nat, edges, true),
            forall|x: usize| #[trigger] externals_of(n as nat, edges, true).contains(x) <==> (x < n && external_pred(edges, true, x)),
            back_stop(edges, order@, ep as int, ep as int) == back_stop(edges, order@, ep as int, i as int),
        decreases i,
    {
        from_pos = i - 1;
        i = i - 1;
    }
    let mut to_pos: usize = ep;
    let mut i: usize = ep + 1;
    while i < n && !stops_fwd(&g, &order, &sinks, ep, i)
        invariant
            ep < i <= n == nodes@.len() == order@.len(),
            to_pos + 1 == i,
            is_topological(n as nat, edges, order@),
            graph_node_count(g) == n,
            graph_edges(g) == edges,
            sinks@ == externals_of(n as nat, edges, false),
            forall|x: usize| #[trigger] externals_of(n as nat, edges, false).contains(x) <==> (x < n && external_pred(edges, false, x)),
            fwd_stop(edges, order@, ep as int, ep + 1) == fwd_stop(edges, order@, ep as int, i as int),
        decreases n - i,
    {
        to_pos = i;
        i = i + 1;
    }
    proof {
        lemma_back_stop(edges, order@, ep as int, ep as int);
    }
    let list = ids_of(nodes, &order, from_pos, to_pos + 1);
    let ends = ids_of(nodes, &sinks, 0, sinks.len());
    proof {
        assert(sinks@.subrange(0, sinks@.len() as int) =~= sinks@);
        let sub = order@.subrange(from_pos as int, to_pos + 1);
        assert forall|a: int, b: int| 0 <= a < b < list@.len() implies list@[a]@ != list@[b]@ by {
            assert(list@[a] == nodes@[sub[a] as int].id);
            assert(list@[b] == nodes@[sub[b] as int].id);
            assert(sub[a] == order@[from_pos + a] && sub[b] == order@[from_pos + b]);
            assert(order@[from_pos + a] != order@[from_pos + b]);
            if sub[a] < sub[b] {
                assert(nodes@[sub[a] as int].id@ != nodes@[sub[b] as int].id@);
            } else {
                assert(nodes@[sub[b] as int].id@ != nodes@[sub[a] as int].id@);
            }
        }
        let k = ep - from_pos;
        assert(from_pos <= ep <= to_pos);
        assert(list@[k] == nodes@[sub[k] as int].id);
        assert(sub[k] == order@[ep as int]);
        assert(order@[ep as int] == e);
        assert(first_entry(nodes@, 0) == e);
        assert(0 <= k < list@.len() && list@[k]@ == nodes@[first_entry(nodes@, 0)].id@);
        assert(holds_id(list@, nodes@[first_entry(nodes@, 0)].id@));
        assert forall|a: int| 0 <= a < list@.len() implies node_slot(nodes@, (#[trigger] list@[a])@) == Some(sub[a] as int) by {
            assert(list@[a] == nodes@[sub[a] as int].id);
            lemma_slot_of_unique(nodes@, sub[a] as int);
        }
        assert forall|a: int, b: int| 0 <= a < b < list@.len() implies !has_edge(
            edges,
            node_slot(nodes@, list@[b]@)->0,
            node_slot(nodes@, list@[a]@)->0,
        ) by {
            assert(node_slot(nodes@, list@[a]@) == Some(sub[a] as int));
            assert(node_slot(nodes@, list@[b]@) == Some(sub[b] as int));
            assert(sub[a] == order@[from_pos + a] && sub[b] == order@[from_pos + b]);
        }
    }
    Some(Ok((list, ends)))
}

/// Whether no two nodes share an identifier.
fn ids_unique_exec(nodes: &Vec<Node>) -> (r: bool)
    ensures
        r == ids_unique(nodes@),
{
    let mut i: usize = 0;
    while i < nodes.len()
        invariant
            i <= nodes@.len(),
            forall|a: int, b: int| 0 <= a < b < nodes@.len() && a < i ==> nodes@[a].id@ != nodes@[b].id@,
        decreases nodes@.len() - i,
    {
        let mut j: usize = i + 1;
        while j < nodes.len()
            invariant
                i < j <= nodes@.len(),
                forall|a: int, b: int| 0 <= a < b < nodes@.len() && a < i ==> nodes@[a].id@ != nodes@[b].id@,
                forall|b: int| i < b < j ==> nodes@[i as int].id@ != nodes@[b].id@,
            decreases nodes@.len() - j,
        {
            if nodes[i].id.same_as(&nodes[j].id) {
                return false;
            }
            j = j + 1;
        }
        i = i + 1;
    }
    true
}

/// Total number of nodes and input links, when it stays below `limit`.
fn graph_size(nodes: &Vec<Node>, limit: usize) -> (r: bool)
    ensures
        r == (nodes@.len() + links_total(nodes@, nodes@.len() as int) < limit),
{
    let mut total: usize = nodes.len();
    if total >= limit {
        proof {
            lemma_links_total_mono(nodes@, 0, nodes@.len() as int);
        }
        return false;
    }
    let mut i: usize = 0;
    while i < nodes.len()
        invariant
            i <= nodes@.len(),
            total == nodes@.len() + links_total(nodes@, i as int),
            total < limit,
        decreases nodes@.len() - i,
    {
        let k = nodes[i].input_links.len();
        if k >= limit - total {
            proof {
                lemma_links_total_mono(nodes@, i + 1, nodes@.len() as int);
            }
            return false;
        }
        total = total + k;
        i = i + 1;
    }
    true
}

/// Whether a flow graph fits the graph's 32-bit indices.
pub fn fits_graph_exec(nodes: &Vec<Node>) -> (r: bool)
    ensures
        r == fits_graph(nodes@),
{
    graph_size(nodes, 4294967293)
}

/// Scanning up from `i`: every position passed has a successor or is reached
/// from the entry, and the scan ends at the last position or just below a
/// node without successors that the entry does not reach.
proof fn lemma_fwd_stop_cut(edges: Seq<(usize, usize)>, order: Seq<usize>, ep: int, i: int)
    requires
        0 <= i <= order.len(),
    ensures
        i - 1 <= fwd_stop(edges, order, ep, i) < order.len(),
        forall|j: int|
            i <= j <= fwd_stop(edges, order, ep, i) ==> has_outgoing(edges, order[j] as int) || reachable(
                edges,
                order[ep] as int,
                #[trigger] order[j] as int,
            ),
        fwd_stop(edges, order, ep, i) + 1 == order.len() || (!has_outgoing(
            edges,
            order[fwd_stop(edges, order, ep, i) + 1] as int,
        ) && !reachable(edges, order[ep] as int, order[fwd_stop(edges, order, ep, i) + 1] as int)),
    decreases order.len() - i,
{
    if i < order.len() {
        lemma_fwd_stop_cut(edges, order, ep, i + 1);
    }
}

/// Scanning down from `i`: every position passed has a predecessor or reaches
/// the entry, and the scan ends at the first position or just above a node
/// without predecessors that does not reach the entry.
proof fn lemma_back_stop_cut(edges: Seq<(usize, usize)>, order: Seq<usize>, ep: int, i: int)
    requires
        0 <= i <= order.len(),
    ensures
        0 <= back_stop(edges, order, ep, i) <= i,
        forall|j: int|
            back_stop(edges, order, ep, i) <= j < i ==> has_incoming(edges, order[j] as int) || reachable(
                edges,
                #[trigger] order[j] as int,
                order[ep] as int,
            ),
        back_stop(edges, order, ep, i) == 0 || (!has_incoming(
            edges,
            order[back_stop(edges, order, ep, i) - 1] as int,
        ) && !reachable(edges, order[back_stop(edges, order, ep, i) - 1] as int, order[ep] as int)),
    decreases i,
{
    if i > 0 {
        lemma_back_stop_cut(edges, order, ep, i - 1);
    }
}

/// The execution order of a flow graph is the run of the sorted order around
/// the entry node. Upward it goes on past every node that has a successor or
/// that the entry reaches (a reached end of a branch does not end it), and
/// stops only before a node without successors that the entry cannot reach,
/// or at the end of the sorted order; downward it goes on past every node
/// that has a predecessor or reaches the entry, and stops only after a node
/// without predecessors that cannot reach the entry, or at the start.
pub proof fn law_flow_order_cut(nodes: Seq<Node>, checked: bool)
    ensures
        flow_order(nodes, checked) matches FlowOrder::Done(o, _) ==> {
            &&& scan(nodes, nodes.len() as int, checked) matches Scan::Edges(edges)
            &&& toposort_order(nodes.len(), edges) matches Some(order)
            &&& {
                let ep = choose|p: int| 0 <= p < order.len() && order[p] == first_entry(nodes, 0);
                0 <= ep < order.len() ==> exists|from: int, to: int|
                    {
                        &&& 0 <= from <= ep <= to < order.len()
                        &&& o == ids_at(nodes, #[trigger] order.subrange(from, to + 1))
                        &&& forall|j: int|
                            ep < j <= to ==> has_outgoing(edges, order[j] as int) || reachable(
                                edges,
                                order[ep] as int,
                                #[trigger] order[j] as int,
                            )
                        &&& to + 1 == order.len() || (!has_outgoing(edges, order[to + 1] as int) && !reachable(
                            edges,
                            order[ep] as int,
                            order[to + 1] as int,
                        ))
                        &&& forall|j: int|
                            from <= j < ep ==> has_incoming(edges, order[j] as int) || reachable(
                                edges,
                                #[trigger] order[j] as int,
                                order[ep] as int,
                            )
                        &&& from == 0 || (!has_incoming(edges, order[from - 1] as int) && !reachable(
                            edges,
                            order[from - 1] as int,
                            order[ep] as int,
                        ))
                    }
            }
        },
{
    if let FlowOrder::Done(o, _) = flow_order(nodes, checked) {
        let edges = scan(nodes, nodes.len() as int, checked)->Edges_0;
        let order = toposort_order(nodes.len(), edges)->0;
        let ep = choose|p: int| 0 <= p < order.len() && order[p] == first_entry(nodes, 0);
        if 0 <= ep < order.len() {
            lemma_fwd_stop_cut(edges, order, ep, ep + 1);
            lemma_back_stop_cut(edges, order, ep, ep);
            let from = back_stop(edges, order, ep, ep);
            let to = fwd_stop(edges, order, ep, ep + 1);
            assert(o == ids_at(nodes, order.subrange(from, to + 1)));
        }
    }
}

} // verus!
