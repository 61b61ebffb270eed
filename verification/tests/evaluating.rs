use graph::evaluation::{evaluate, EvaluationError};
use graph::network::{Connection, Network, Node, NodeKind};
use graph::value::Value;
use graph::vm::RuntimeErrorKind;

fn constant(name: &str, kind: NodeKind, values: Vec<(&str, Value)>) -> Node {
    let mut node = Node::new(name.to_string(), 0, 0, kind);
    for (port, value) in values {
        node.set_value(port.to_string(), value);
    }
    node
}

fn wire(output: &str, input: &str, port: &str) -> Connection {
    Connection::new(output.to_string(), input.to_string(), port.to_string())
}

fn graph_of(rendered: &str, nodes: Vec<Node>, connections: Vec<Connection>) -> Network {
    Network { name: "net".to_string(), rendered_node: rendered.to_string(), nodes, connections }
}

#[test]
fn evaluating_gives_the_value_of_the_rendered_node() {
    let network = graph_of(
        "top",
        vec![
            constant("top", NodeKind::Add, vec![("b", Value::IntList(vec![1, 2, 3]))]),
            constant("below", NodeKind::Negate, vec![("v", Value::IntList(vec![10, 20]))]),
        ],
        vec![wire("below", "top", "a")],
    );
    assert!(network.is_compilable());
    assert_eq!(evaluate(&network).unwrap(), vec![Value::IntList(vec![-9, -18, -7])]);
}

#[test]
fn evaluating_nothing_gives_nothing() {
    let network = graph_of("", vec![], vec![]);
    assert!(evaluate(&network).unwrap().is_empty());
}

#[test]
fn evaluating_a_switch_leaves_its_selector_below_the_result() {
    let network = graph_of(
        "switch",
        vec![
            constant("switch", NodeKind::Switch, vec![("index", Value::Int(1))]),
            constant("ten", NodeKind::Int, vec![("v", Value::Int(10))]),
            constant("twenty", NodeKind::Int, vec![("v", Value::Int(20))]),
        ],
        vec![wire("ten", "switch", "in0"), wire("twenty", "switch", "in1")],
    );
    assert!(network.is_compilable());
    assert!(network.has_single_uses());
    assert_eq!(evaluate(&network).unwrap(), vec![Value::Int(1), Value::Int(20)]);
}

#[test]
fn evaluating_reports_the_failure_of_the_program() {
    let network = graph_of(
        "top",
        vec![
            constant("top", NodeKind::Add, vec![]),
            constant("left", NodeKind::Frame, vec![]),
            constant("right", NodeKind::Add, vec![("a", Value::IntList(vec![])), ("b", Value::Int(1))]),
        ],
        vec![wire("left", "top", "a"), wire("right", "top", "b")],
    );
    assert!(network.is_compilable());
    let EvaluationError { error, stack } = evaluate(&network).unwrap_err();
    assert_eq!(error.kind, RuntimeErrorKind::EmptyList);
    assert_eq!(error.message, "Empty list");
    assert_eq!(stack, vec![Value::Int(42)]);
}

#[test]
fn evaluating_runs_a_program_whose_addresses_do_not_fit() {
    // The jumps to the end of this switch carry the low bits of an address
    // that does not fit, and lead back into the code.
    let mut nodes = vec![constant("switch", NodeKind::Switch, vec![("index", Value::Int(0))])];
    let mut connections = vec![wire("level0", "switch", "in0")];
    let levels = 14;
    for level in 0..levels {
        nodes.push(constant(&format!("level{}", level), NodeKind::Add, vec![]));
        let below = if level + 1 == levels {
            "frame".to_string()
        } else {
            format!("level{}", level + 1)
        };
        connections.push(wire(&below, &format!("level{}", level), "a"));
        connections.push(wire(&below, &format!("level{}", level), "b"));
    }
    nodes.push(constant("frame", NodeKind::Frame, vec![]));
    let network = graph_of("switch", nodes, connections);
    assert!(network.is_compilable());
    let failure = evaluate(&network).unwrap_err();
    assert_eq!(failure.error.kind, RuntimeErrorKind::UnknownOpcode { opcode: 5 });
}
