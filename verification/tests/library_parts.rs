use oxygen_flow::ast::{Link, Node, NodeType, Number, PrefabValue, Reference as NodeRef};
use oxygen_flow::event::VmEvent;
use oxygen_flow::flow::{fits_graph_exec, flow_order_exec};
use oxygen_flow::spline::{Curved, SplineError, SplinePoint, SplinePointDirection};
use oxygen_flow::value::{keys_are_strings_exec, value_from_prefab, ObjectMap, Reference, Value};

fn named(s: &str) -> NodeRef {
    NodeRef::Named(s.to_string())
}

fn node(id: &str, node_type: NodeType, next: Option<&str>, links: Vec<Link>) -> Node {
    Node {
        id: named(id),
        node_type,
        next_node: match next {
            Some(n) => named(n),
            None => NodeRef::Unset,
        },
        input_links: links,
    }
}

fn names(v: &[NodeRef]) -> Vec<String> {
    v.iter()
        .map(|r| match r {
            NodeRef::Named(s) => s.clone(),
            _ => String::new(),
        })
        .collect()
}

#[test]
fn order_follows_successors_and_links() {
    let nodes = vec![
        node("set", NodeType::SetOutput(0), None, vec![Link::NodeIndexed(named("value"), 0)]),
        node("value", NodeType::GetInput(0), Some("set"), vec![]),
        node("entry", NodeType::Entry, Some("value"), vec![]),
    ];
    assert!(fits_graph_exec(&nodes));
    let (order, ends) = flow_order_exec(&nodes, true).unwrap().unwrap();
    assert_eq!(names(&order), vec!["entry", "value", "set"]);
    assert_eq!(names(&ends), vec!["set"]);
}

#[test]
fn order_is_cut_around_the_entry() {
    let nodes = vec![
        node("entry", NodeType::Entry, Some("a"), vec![]),
        node("a", NodeType::Knot, None, vec![]),
        node("lonely", NodeType::Knot, None, vec![]),
    ];
    let (order, ends) = flow_order_exec(&nodes, true).unwrap().unwrap();
    assert_eq!(names(&order), vec!["entry", "a"]);
    assert_eq!(names(&ends), vec!["a", "lonely"]);
}

#[test]
fn unchecked_order_panics_without_successor() {
    let nodes = vec![node("entry", NodeType::Entry, None, vec![])];
    assert!(flow_order_exec(&nodes, false).is_none());
    assert!(flow_order_exec(&nodes, true).is_some());
}

#[test]
fn duplicate_identifiers_panic() {
    let nodes = vec![
        node("entry", NodeType::Entry, None, vec![]),
        node("entry", NodeType::Knot, None, vec![]),
    ];
    assert!(flow_order_exec(&nodes, true).is_none());
}

#[test]
fn object_insert_then_get() {
    let mut m = ObjectMap::new();
    assert_eq!(m.len(), 0);
    m.insert("b".to_string(), Reference::value(Value::Null));
    m.insert("a".to_string(), Reference::value(Value::Bool(true)));
    m.insert("ab".to_string(), Reference::value(Value::Null));
    m.insert("a".to_string(), Reference::value(Value::Bool(false)));
    assert_eq!(m.len(), 3);
    // Entries are kept in key order, as in a map ordered by key.
    assert_eq!(m.entry(0).0, "a");
    assert_eq!(m.entry(1).0, "ab");
    assert_eq!(m.entry(2).0, "b");
    assert!(matches!(m.get(&"a".to_string()).unwrap().read(), Value::Bool(false)));
    assert!(matches!(m.get(&"b".to_string()).unwrap().read(), Value::Null));
    assert!(m.get(&"c".to_string()).is_none());
}

#[test]
fn prefab_data_converts() {
    let data = PrefabValue::Mapping(vec![
        (PrefabValue::String("n".to_string()), PrefabValue::Number(Number::NegInt(-3))),
        (
            PrefabValue::String("l".to_string()),
            PrefabValue::Sequence(vec![PrefabValue::Bool(true), PrefabValue::Null]),
        ),
    ]);
    assert!(keys_are_strings_exec(&data));
    match value_from_prefab(&data) {
        Value::Object(m) => {
            assert_eq!(m.len(), 2);
            assert!(matches!(
                m.get(&"n".to_string()).unwrap().read(),
                Value::Number(Number::NegInt(-3))
            ));
            match m.get(&"l".to_string()).unwrap().read() {
                Value::List(items) => {
                    assert_eq!(items.len(), 2);
                    assert!(matches!(items[0].read(), Value::Bool(true)));
                    assert!(matches!(items[1].read(), Value::Null));
                }
                other => panic!("not a list: {:?}", other),
            }
        }
        other => panic!("not an object: {:?}", other),
    }
    let bad = PrefabValue::Mapping(vec![(PrefabValue::Bool(true), PrefabValue::Null)]);
    assert!(!keys_are_strings_exec(&bad));
}

#[test]
fn reference_copies_share_a_cell() {
    let mut a = Reference::value(Value::String("x".to_string()));
    let b = a.clone();
    let c = a.clone();
    a.write(Value::Bool(true));
    assert!(matches!(b.read(), Value::Bool(true)));
    assert!(matches!(c.into_inner(), Value::Bool(true)));
    let d = Reference::new(b.0.clone());
    assert!(matches!(d.read(), Value::Bool(true)));
}

#[test]
fn new_event_has_one_context() {
    let ev = VmEvent::new(
        "main".to_string(),
        vec![named("entry")],
        vec!["x".to_string(), "x".to_string()],
        vec![],
        2,
    );
    assert_eq!(ev.contexts.len(), 1);
    assert_eq!(ev.contexts[0].current, Some(0));
    assert_eq!(ev.contexts[0].outputs.len(), 2);
    assert_eq!(ev.contexts[0].variables.len(), 1);
    assert!(ev.outputs.is_empty());
}

#[derive(Clone, Debug, PartialEq)]
struct Step(i32);

impl Curved for Step {
    fn zero() -> Self {
        Step(0)
    }
}

#[test]
fn spline_points() {
    let p = SplinePoint::point(Step(3));
    assert_eq!(p.point, Step(3));
    assert!(matches!(p.direction, SplinePointDirection::Single(Step(0))));
    let q = SplinePoint::new(Step(1), SplinePointDirection::InOut(Step(2), Step(4)));
    assert!(matches!(q.direction, SplinePointDirection::InOut(Step(2), Step(4))));
    let d: SplinePointDirection<Step> = Default::default();
    assert!(matches!(d, SplinePointDirection::Single(Step(0))));
    assert_eq!(SplineError::EmptyPointsList.to_string(), "EmptyPointsList");
    let s: SplinePoint<Step> = (Step(1), Step(2)).into();
    assert_eq!(s.point, Step(1));
    assert!(matches!(s.direction, SplinePointDirection::Single(Step(2))));
    let t: SplinePoint<Step> = (Step(1), Step(2), Step(3)).into();
    assert!(matches!(t.direction, SplinePointDirection::InOut(Step(2), Step(3))));
}
