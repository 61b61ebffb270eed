use graph::compiler::compile_network;
use graph::network::{Connection, Network, Node, NodeKind};
use graph::value::Value;
use graph::vm::{RuntimeErrorKind, VM};

fn node(name: &str, kind: NodeKind, values: Vec<(&str, Value)>) -> Node {
    let mut node = Node::new(name.to_string(), 0, 0, kind);
    for (port, value) in values {
        node.set_value(port.to_string(), value);
    }
    node
}

fn connection(output: &str, input: &str, port: &str) -> Connection {
    Connection::new(output.to_string(), input.to_string(), port.to_string())
}

fn network(rendered: &str, nodes: Vec<Node>, connections: Vec<Connection>) -> Network {
    Network {
        name: "test".to_string(),
        rendered_node: rendered.to_string(),
        nodes,
        connections,
    }
}

fn run(network: &Network) -> Vec<Value> {
    assert!(network.is_compilable());
    let compiled = compile_network(network).unwrap();
    let mut vm = VM::new(compiled.bytecode, compiled.constant_pool);
    assert!(vm.run().is_ok());
    vm.stack
}

#[test]
fn add_of_two_constants() {
    let net = network(
        "add1",
        vec![node("add1", NodeKind::Add, vec![("a", Value::Int(2)), ("b", Value::Int(3))])],
        vec![],
    );
    let compiled = compile_network(&net).unwrap();
    assert_eq!(
        compiled.bytecode,
        vec![0x01, 2, 0, 0, 0, 0x01, 3, 0, 0, 0, 0x10, 0x02, 0xFF]
    );
    assert!(compiled.constant_pool.is_empty());
    assert_eq!(run(&net), vec![Value::IntList(vec![5])]);
}

#[test]
fn add_wraps_around() {
    let net = network(
        "add1",
        vec![node(
            "add1",
            NodeKind::Add,
            vec![("a", Value::Int(i32::MAX)), ("b", Value::Int(1))],
        )],
        vec![],
    );
    assert_eq!(run(&net), vec![Value::IntList(vec![i32::MIN])]);
}

#[test]
fn add_broadcasts_a_scalar() {
    let net = network(
        "add1",
        vec![node(
            "add1",
            NodeKind::Add,
            vec![("a", Value::IntList(vec![1, 2, 3])), ("b", Value::Int(100))],
        )],
        vec![],
    );
    assert_eq!(run(&net), vec![Value::IntList(vec![101, 102, 103])]);
}

#[test]
fn add_broadcasts_the_shorter_list() {
    let net = network(
        "add1",
        vec![node(
            "add1",
            NodeKind::Add,
            vec![
                ("a", Value::IntList(vec![1, 2, 3])),
                ("b", Value::IntList(vec![100, 200])),
            ],
        )],
        vec![],
    );
    assert_eq!(run(&net), vec![Value::IntList(vec![101, 202, 103])]);
}

#[test]
fn negate_of_a_list() {
    let net = network(
        "negate1",
        vec![node("negate1", NodeKind::Negate, vec![("v", Value::IntList(vec![1, 2, 3]))])],
        vec![],
    );
    assert_eq!(run(&net), vec![Value::IntList(vec![-1, -2, -3])]);
}

#[test]
fn switch_selects_the_matching_candidate() {
    let net = network(
        "switch1",
        vec![
            node("switch1", NodeKind::Switch, vec![("index", Value::Int(1))]),
            node("ten", NodeKind::Int, vec![("v", Value::Int(10))]),
            node("twenty", NodeKind::Int, vec![("v", Value::Int(20))]),
        ],
        vec![connection("ten", "switch1", "in0"), connection("twenty", "switch1", "in1")],
    );
    let compiled = compile_network(&net).unwrap();
    assert_eq!(
        compiled.bytecode,
        vec![
            0x01, 1, 0, 0, 0, // 0: the selector
            0x03, 0x01, 0, 0, 0, 0, 0x9F, 27, 0, // 5: is it 0? then to "ten"
            0x03, 0x01, 1, 0, 0, 0, 0x9F, 37, 0, // 14: is it 1? then to "twenty"
            0x04, 0x99, 47, 0, // 23: no match
            0x01, 10, 0, 0, 0, 0x10, 0x01, 0x99, 47, 0, // 27: "ten"
            0x01, 20, 0, 0, 0, 0x10, 0x01, 0x99, 47, 0, // 37: "twenty"
            0xFF, // 47: the end
        ]
    );
    let stack = run(&net);
    assert_eq!(stack.last(), Some(&Value::Int(20)));
}

#[test]
fn compiling_twice_gives_the_same_program() {
    let net = network(
        "add1",
        vec![
            node("add1", NodeKind::Add, vec![("b", Value::String("x".to_string()))]),
            node("negate1", NodeKind::Negate, vec![("v", Value::IntList(vec![4, 5]))]),
        ],
        vec![connection("negate1", "add1", "a")],
    );
    let first = compile_network(&net).unwrap();
    let second = compile_network(&net).unwrap();
    assert_eq!(first.bytecode, second.bytecode);
    assert_eq!(first.constant_pool, second.constant_pool);
}

#[test]
fn network_without_rendered_node_only_halts() {
    let net = network("nowhere", vec![], vec![]);
    let compiled = compile_network(&net).unwrap();
    assert_eq!(compiled.bytecode, vec![0xFF]);
    assert!(compiled.constant_pool.is_empty());
    let mut vm = VM::new(compiled.bytecode, compiled.constant_pool);
    assert!(vm.run().is_ok());
    assert!(vm.stack.is_empty());
}

#[test]
fn add_on_an_empty_stack_underflows() {
    let mut vm = VM::new(vec![0x10, 0x02, 0xFF], vec![]);
    let error = vm.run().unwrap_err();
    assert_eq!(error.kind, RuntimeErrorKind::StackUnderflow);
    assert_eq!(error.message, "Stack underflow");
}

#[test]
fn it_works() {
    assert_eq!(2 + 2, 4);
}

#[test]
fn switch_without_a_match_leaves_nothing() {
    let net = network(
        "switch1",
        vec![
            node("switch1", NodeKind::Switch, vec![("index", Value::Int(3))]),
            node("ten", NodeKind::Int, vec![("v", Value::Int(10))]),
            node("twenty", NodeKind::Int, vec![("v", Value::Int(20))]),
        ],
        vec![connection("ten", "switch1", "in0"), connection("twenty", "switch1", "in1")],
    );
    assert!(run(&net).is_empty());
}

#[test]
fn switch_selects_the_first_candidate() {
    let net = network(
        "switch1",
        vec![
            node("switch1", NodeKind::Switch, vec![("index", Value::Int(0))]),
            node("ten", NodeKind::Int, vec![("v", Value::Int(10))]),
            node("twenty", NodeKind::Int, vec![("v", Value::Int(20))]),
        ],
        vec![connection("ten", "switch1", "in0"), connection("twenty", "switch1", "in1")],
    );
    assert_eq!(run(&net), vec![Value::Int(0), Value::Int(10)]);
}

#[test]
fn switch_result_feeds_the_next_node() {
    let net = network(
        "negate1",
        vec![
            node("negate1", NodeKind::Negate, vec![]),
            node("switch1", NodeKind::Switch, vec![("index", Value::Int(2))]),
            node("list", NodeKind::Int, vec![("v", Value::IntList(vec![1, 2]))]),
        ],
        vec![connection("switch1", "negate1", "v"), connection("list", "switch1", "in2")],
    );
    assert_eq!(run(&net), vec![Value::Int(2), Value::IntList(vec![-1, -2])]);
}

#[test]
fn frame_feeds_an_addition() {
    let net = network(
        "add1",
        vec![
            node("add1", NodeKind::Add, vec![("b", Value::IntList(vec![1, 2]))]),
            node("frame1", NodeKind::Frame, vec![]),
        ],
        vec![connection("frame1", "add1", "a")],
    );
    assert_eq!(run(&net), vec![Value::IntList(vec![43, 44])]);
}

#[test]
fn nested_additions() {
    let net = network(
        "top",
        vec![
            node("top", NodeKind::Add, vec![]),
            node("left", NodeKind::Add, vec![("a", Value::Int(1)), ("b", Value::Int(2))]),
            node("right", NodeKind::Negate, vec![("v", Value::IntList(vec![10, 20]))]),
        ],
        vec![connection("left", "top", "a"), connection("right", "top", "b")],
    );
    assert_eq!(run(&net), vec![Value::IntList(vec![-7, -17])]);
}

#[test]
fn text_counts_as_zero_in_an_addition() {
    let net = network(
        "add1",
        vec![node(
            "add1",
            NodeKind::Add,
            vec![("a", Value::String("five".to_string())), ("b", Value::Int(5))],
        )],
        vec![],
    );
    assert_eq!(run(&net), vec![Value::IntList(vec![5])]);
}

#[test]
fn floats_are_cut_to_integers_in_an_addition() {
    let net = network(
        "add1",
        vec![node(
            "add1",
            NodeKind::Add,
            vec![
                ("a", Value::Float(2.9f32.to_bits())),
                ("b", Value::FloatList(vec![0.5f32.to_bits(), (-7.2f32).to_bits()])),
            ],
        )],
        vec![],
    );
    assert_eq!(run(&net), vec![Value::IntList(vec![2, -5])]);
}

#[test]
fn an_empty_list_fails_an_addition() {
    let net = network(
        "add1",
        vec![node(
            "add1",
            NodeKind::Add,
            vec![("a", Value::IntList(vec![])), ("b", Value::Int(5))],
        )],
        vec![],
    );
    let compiled = compile_network(&net).unwrap();
    let mut vm = VM::new(compiled.bytecode, compiled.constant_pool);
    assert_eq!(vm.run().unwrap_err().kind, RuntimeErrorKind::EmptyList);
}

#[test]
fn switch_of_switches_selects_twice() {
    let net = network(
        "outer",
        vec![
            node("outer", NodeKind::Switch, vec![("index", Value::Int(2))]),
            node("inner", NodeKind::Switch, vec![("index", Value::Int(0))]),
            node("seven", NodeKind::Int, vec![("v", Value::Int(7))]),
            node("eight", NodeKind::Int, vec![("v", Value::Int(8))]),
            node("nine", NodeKind::Negate, vec![("v", Value::Int(9))]),
        ],
        vec![
            connection("nine", "outer", "in0"),
            connection("inner", "outer", "in2"),
            connection("seven", "inner", "in0"),
            connection("eight", "inner", "in3"),
        ],
    );
    assert!(net.has_single_uses());
    assert_eq!(run(&net), vec![Value::Int(2), Value::Int(0), Value::Int(7)]);
}

#[test]
fn switch_selector_that_is_a_list_selects_nothing() {
    let net = network(
        "switch1",
        vec![
            node("switch1", NodeKind::Switch, vec![]),
            node("sum", NodeKind::Add, vec![("a", Value::Int(0)), ("b", Value::Int(0))]),
            node("ten", NodeKind::Int, vec![("v", Value::Int(10))]),
        ],
        vec![connection("sum", "switch1", "index"), connection("ten", "switch1", "in0")],
    );
    assert!(run(&net).is_empty());
}

#[test]
fn addition_below_an_unmatched_switch_underflows() {
    let net = network(
        "add1",
        vec![
            node("add1", NodeKind::Add, vec![("b", Value::Int(1))]),
            node("switch1", NodeKind::Switch, vec![("index", Value::Int(3))]),
        ],
        vec![connection("switch1", "add1", "a")],
    );
    let compiled = compile_network(&net).unwrap();
    let mut vm = VM::new(compiled.bytecode, compiled.constant_pool);
    assert_eq!(vm.run().unwrap_err().kind, RuntimeErrorKind::StackUnderflow);
}
