use graph::network::{is_time_dependent, Connection, Network, Node, NodeKind};
use graph::value::Value;

fn plain(name: &str, kind: NodeKind) -> Node {
    Node::new(name.to_string(), 0, 0, kind)
}

fn link(output: &str, input: &str, port: &str) -> Connection {
    Connection::new(output.to_string(), input.to_string(), port.to_string())
}

fn net(rendered: &str, nodes: Vec<Node>, connections: Vec<Connection>) -> Network {
    Network { name: "net".to_string(), rendered_node: rendered.to_string(), nodes, connections }
}

#[test]
fn ports_of_each_kind() {
    assert_eq!(NodeKind::Int.inputs(), vec!["v".to_string()]);
    assert_eq!(NodeKind::Add.inputs(), vec!["a".to_string(), "b".to_string()]);
    assert_eq!(NodeKind::Negate.inputs(), vec!["v".to_string()]);
    assert_eq!(
        NodeKind::Switch.inputs(),
        vec![
            "index".to_string(),
            "in0".to_string(),
            "in1".to_string(),
            "in2".to_string(),
            "in3".to_string()
        ]
    );
    assert!(NodeKind::Frame.inputs().is_empty());
}

#[test]
fn positions_of_ports() {
    assert_eq!(NodeKind::Add.port_index("a"), Some(0));
    assert_eq!(NodeKind::Add.port_index("b"), Some(1));
    assert_eq!(NodeKind::Add.port_index("v"), None);
    assert_eq!(NodeKind::Add.port_index(""), None);
    assert_eq!(NodeKind::Int.port_index("v"), Some(0));
    assert_eq!(NodeKind::Switch.port_index("index"), Some(0));
    assert_eq!(NodeKind::Switch.port_index("in3"), Some(4));
    assert_eq!(NodeKind::Switch.port_index("in4"), None);
    assert_eq!(NodeKind::Frame.port_index("v"), None);
}

#[test]
fn node_kind_tags() {
    let kinds = [
        (NodeKind::Int, 1u8),
        (NodeKind::Add, 2),
        (NodeKind::Negate, 3),
        (NodeKind::Switch, 4),
        (NodeKind::Frame, 5),
    ];
    for (kind, tag) in kinds {
        assert_eq!(kind.tag(), tag);
        assert_eq!(u8::from(kind), tag);
        assert_eq!(NodeKind::from_tag(tag), Some(kind));
    }
    assert_eq!(NodeKind::from_tag(0), None);
    assert_eq!(NodeKind::from_tag(6), None);
    assert_eq!(NodeKind::from_tag(255), None);
}

#[test]
fn only_frame_is_time_dependent_by_kind() {
    assert!(is_time_dependent(NodeKind::Frame));
    assert!(!is_time_dependent(NodeKind::Int));
    assert!(!is_time_dependent(NodeKind::Add));
    assert!(!is_time_dependent(NodeKind::Negate));
    assert!(!is_time_dependent(NodeKind::Switch));
}

#[test]
fn a_node_keeps_what_it_was_given() {
    let mut node = Node::new("n".to_string(), 3, -5, NodeKind::Add);
    assert_eq!(node.name, "n");
    assert_eq!(node.x, 3);
    assert_eq!(node.y, -5);
    assert_eq!(node.kind, NodeKind::Add);
    assert_eq!(node.value("a"), None);
    node.set_value("a".to_string(), Value::Int(1));
    node.set_value("b".to_string(), Value::Int(2));
    node.set_value("a".to_string(), Value::Int(3));
    assert_eq!(node.value("a"), Some(&Value::Int(3)));
    assert_eq!(node.value("b"), Some(&Value::Int(2)));
    assert_eq!(node.value("c"), None);
}

#[test]
fn a_connection_keeps_what_it_was_given() {
    let connection = link("from", "to", "a");
    assert_eq!(connection.output, "from");
    assert_eq!(connection.input, "to");
    assert_eq!(connection.port, "a");
}

#[test]
fn a_name_refers_to_the_first_node_that_has_it() {
    let mut second = plain("twin", NodeKind::Add);
    second.x = 9;
    let network = net(
        "twin",
        vec![plain("other", NodeKind::Int), plain("twin", NodeKind::Negate), second],
        vec![],
    );
    assert_eq!(network.node_position("twin"), Some(1));
    assert_eq!(network.node_position("other"), Some(0));
    assert_eq!(network.node_position("missing"), None);
    assert_eq!(network.node_position("twi"), None);
    let found = network.find_node_by_name("twin").unwrap();
    assert_eq!(found.kind, NodeKind::Negate);
    assert!(network.find_node_by_name("Twin").is_none());
    assert_eq!(network.rendered_node().unwrap().kind, NodeKind::Negate);
    assert!(!network.has_unique_names());
}

#[test]
fn a_missing_rendered_node_is_none() {
    assert!(net("x", vec![], vec![]).rendered_node().is_none());
    assert!(net("", vec![plain("a", NodeKind::Int)], vec![]).rendered_node().is_none());
    assert!(net("a", vec![plain("a", NodeKind::Int)], vec![]).rendered_node().is_some());
}

#[test]
fn the_first_connection_into_a_port_feeds_it() {
    let network = net(
        "add",
        vec![
            plain("add", NodeKind::Add),
            plain("one", NodeKind::Int),
            plain("two", NodeKind::Int),
            plain("three", NodeKind::Int),
        ],
        vec![
            link("one", "other", "a"),
            link("two", "add", "b"),
            link("one", "add", "a"),
            link("three", "add", "a"),
        ],
    );
    let add = network.find_node_by_name("add").unwrap();
    assert_eq!(network.find_output_node(add, "a").unwrap().name, "one");
    assert_eq!(network.find_output_node(add, "b").unwrap().name, "two");
    assert!(network.find_output_node(add, "c").is_none());
    let one = network.find_node_by_name("one").unwrap();
    assert!(network.find_output_node(one, "v").is_none());
    assert!(!network.has_single_drivers());
}

#[test]
fn input_nodes_follow_the_connections_in_order() {
    let network = net(
        "add",
        vec![
            plain("add", NodeKind::Add),
            plain("one", NodeKind::Int),
            plain("two", NodeKind::Int),
        ],
        vec![
            link("two", "add", "b"),
            link("one", "two", "v"),
            link("one", "add", "a"),
            link("two", "add", "zzz"),
        ],
    );
    let add = network.find_node_by_name("add").unwrap();
    let names: Vec<&str> = network.input_nodes(add).iter().map(|n| n.name.as_str()).collect();
    assert_eq!(names, vec!["two", "one", "two"]);
    let two = network.find_node_by_name("two").unwrap();
    let names: Vec<&str> = network.input_nodes(two).iter().map(|n| n.name.as_str()).collect();
    assert_eq!(names, vec!["one"]);
    let one = network.find_node_by_name("one").unwrap();
    assert!(network.input_nodes(one).is_empty());
}

#[test]
fn time_dependence_passes_along_connections() {
    let network = net(
        "add",
        vec![
            plain("add", NodeKind::Add),
            plain("negate", NodeKind::Negate),
            plain("frame", NodeKind::Frame),
            plain("int", NodeKind::Int),
            plain("lonely", NodeKind::Negate),
        ],
        vec![link("negate", "add", "a"), link("int", "add", "b"), link("frame", "negate", "v")],
    );
    assert!(network.is_acyclic());
    let dependent = |name: &str| network.is_time_dependent(network.find_node_by_name(name).unwrap());
    assert!(dependent("frame"));
    assert!(dependent("negate"));
    assert!(dependent("add"));
    assert!(!dependent("int"));
    assert!(!dependent("lonely"));
}

#[test]
fn time_dependence_counts_connections_to_any_port() {
    let network = net(
        "int",
        vec![plain("int", NodeKind::Int), plain("frame", NodeKind::Frame)],
        vec![link("frame", "int", "no such port")],
    );
    assert!(network.is_time_dependent(network.find_node_by_name("int").unwrap()));
}

#[test]
fn a_dangling_connection_is_not_resolved() {
    let network = net(
        "a",
        vec![plain("a", NodeKind::Negate)],
        vec![link("ghost", "a", "v")],
    );
    assert!(!network.is_resolved());
    assert!(network.is_acyclic());
    assert!(!network.is_compilable());
    let network = net(
        "a",
        vec![plain("a", NodeKind::Negate), plain("b", NodeKind::Frame)],
        vec![link("b", "a", "v"), link("b", "ghost", "v")],
    );
    assert!(network.is_resolved());
    assert!(network.is_compilable());
}

#[test]
fn a_dangling_connection_beside_the_visit_does_no_harm() {
    let network = net(
        "a",
        vec![plain("a", NodeKind::Frame), plain("b", NodeKind::Negate)],
        vec![link("ghost", "b", "v")],
    );
    assert!(!network.is_resolved());
    assert!(network.is_compilable());
    assert!(network.is_visitable(&network.nodes[0]));
    assert!(!network.is_visitable(&network.nodes[1]));
}

#[test]
fn a_port_without_connection_needs_a_value() {
    let network = net("a", vec![plain("a", NodeKind::Add)], vec![]);
    assert!(!network.is_compilable());
    let mut a = plain("a", NodeKind::Add);
    a.set_value("a".to_string(), Value::Int(1));
    let network = net(
        "a",
        vec![a, plain("f", NodeKind::Frame)],
        vec![link("f", "a", "b")],
    );
    assert!(network.is_compilable());
    let mut a = plain("a", NodeKind::Add);
    a.set_value("a".to_string(), Value::Int(1));
    let network = net("a", vec![a, plain("f", NodeKind::Frame)], vec![]);
    assert!(!network.is_compilable());
}

#[test]
fn a_port_below_the_rendered_node_needs_a_value_too() {
    let network = net(
        "top",
        vec![plain("top", NodeKind::Negate), plain("below", NodeKind::Negate)],
        vec![link("below", "top", "v")],
    );
    assert!(!network.is_compilable());
    let mut below = plain("below", NodeKind::Negate);
    below.set_value("v".to_string(), Value::Int(1));
    let network = net(
        "top",
        vec![plain("top", NodeKind::Negate), below],
        vec![link("below", "top", "v")],
    );
    assert!(network.is_compilable());
}

#[test]
fn a_node_beside_the_visit_needs_no_value() {
    let network = net(
        "f",
        vec![plain("f", NodeKind::Frame), plain("a", NodeKind::Add)],
        vec![],
    );
    assert!(network.is_compilable());
}

#[test]
fn a_switch_needs_only_its_selector() {
    let network = net("s", vec![plain("s", NodeKind::Switch)], vec![]);
    assert!(!network.is_compilable());
    let mut s = plain("s", NodeKind::Switch);
    s.set_value("index".to_string(), Value::Int(0));
    let network = net("s", vec![s], vec![]);
    assert!(network.is_compilable());
    let network = net(
        "s",
        vec![plain("s", NodeKind::Switch), plain("f", NodeKind::Frame)],
        vec![link("f", "s", "index")],
    );
    assert!(network.is_compilable());
}

#[test]
fn a_connected_candidate_of_a_switch_has_to_be_there() {
    let mut s = plain("s", NodeKind::Switch);
    s.set_value("index".to_string(), Value::Int(0));
    let network = net("s", vec![s], vec![link("ghost", "s", "in2")]);
    assert!(!network.is_compilable());
    let mut s = plain("s", NodeKind::Switch);
    s.set_value("index".to_string(), Value::Int(0));
    let network = net(
        "s",
        vec![s, plain("n", NodeKind::Negate)],
        vec![link("n", "s", "in2")],
    );
    assert!(!network.is_compilable());
    let mut s = plain("s", NodeKind::Switch);
    s.set_value("index".to_string(), Value::Int(0));
    let network = net(
        "s",
        vec![s, plain("f", NodeKind::Frame)],
        vec![link("f", "s", "in2")],
    );
    assert!(network.is_compilable());
}

#[test]
fn without_a_rendered_node_a_network_is_compilable() {
    let network = net(
        "nowhere",
        vec![plain("a", NodeKind::Add)],
        vec![link("a", "a", "a"), link("ghost", "a", "b")],
    );
    assert!(network.is_compilable());
}

#[test]
fn a_cycle_among_names_that_no_node_has_is_a_cycle() {
    let network = net(
        "a",
        vec![plain("a", NodeKind::Frame)],
        vec![link("x", "y", "v"), link("y", "z", "v"), link("z", "x", "v")],
    );
    assert!(!network.is_acyclic());
    assert!(!network.is_compilable());
    let network = net(
        "a",
        vec![plain("a", NodeKind::Frame)],
        vec![link("x", "y", "v"), link("y", "z", "v"), link("x", "z", "v")],
    );
    assert!(network.is_acyclic());
    assert!(network.is_compilable());
}

#[test]
fn a_network_without_connections_is_acyclic() {
    assert!(net("", vec![], vec![]).is_acyclic());
    assert!(net("", vec![plain("a", NodeKind::Frame), plain("b", NodeKind::Frame)], vec![])
        .is_acyclic());
}

#[test]
fn a_chain_is_acyclic_in_any_order() {
    let nodes = || {
        vec![
            plain("c", NodeKind::Negate),
            plain("a", NodeKind::Negate),
            plain("d", NodeKind::Frame),
            plain("b", NodeKind::Negate),
        ]
    };
    let forward = net(
        "a",
        nodes(),
        vec![link("b", "a", "v"), link("c", "b", "v"), link("d", "c", "v")],
    );
    assert!(forward.is_acyclic());
    assert!(forward.is_compilable());
    let backward = net(
        "a",
        nodes(),
        vec![link("d", "c", "v"), link("c", "b", "v"), link("b", "a", "v")],
    );
    assert!(backward.is_acyclic());
}

#[test]
fn a_diamond_is_acyclic() {
    let network = net(
        "top",
        vec![
            plain("top", NodeKind::Add),
            plain("left", NodeKind::Negate),
            plain("right", NodeKind::Negate),
            plain("bottom", NodeKind::Frame),
        ],
        vec![
            link("left", "top", "a"),
            link("right", "top", "b"),
            link("bottom", "left", "v"),
            link("bottom", "right", "v"),
        ],
    );
    assert!(network.is_acyclic());
    assert!(network.is_compilable());
    assert!(network.has_unique_names());
    assert!(network.has_single_drivers());
}

#[test]
fn a_loop_is_a_cycle() {
    let network = net(
        "a",
        vec![plain("a", NodeKind::Negate)],
        vec![link("a", "a", "v")],
    );
    assert!(network.is_resolved());
    assert!(!network.is_acyclic());
    assert!(!network.is_compilable());
}

#[test]
fn a_ring_is_a_cycle() {
    let network = net(
        "a",
        vec![
            plain("z", NodeKind::Frame),
            plain("a", NodeKind::Add),
            plain("b", NodeKind::Negate),
            plain("c", NodeKind::Negate),
        ],
        vec![
            link("z", "a", "b"),
            link("b", "a", "a"),
            link("c", "b", "v"),
            link("a", "c", "v"),
        ],
    );
    assert!(!network.is_acyclic());
}

#[test]
fn a_cycle_through_an_unread_port_is_a_cycle() {
    let network = net(
        "a",
        vec![plain("a", NodeKind::Frame), plain("b", NodeKind::Frame)],
        vec![link("a", "b", "x"), link("b", "a", "y")],
    );
    assert!(!network.is_acyclic());
}

#[test]
fn a_cycle_beside_the_rendered_node_is_a_cycle() {
    let network = net(
        "a",
        vec![
            plain("a", NodeKind::Frame),
            plain("b", NodeKind::Negate),
            plain("c", NodeKind::Negate),
        ],
        vec![link("b", "c", "v"), link("c", "b", "v")],
    );
    assert!(!network.is_acyclic());
}

#[test]
fn twins_share_their_connections() {
    let network = net(
        "a",
        vec![plain("a", NodeKind::Negate), plain("a", NodeKind::Negate), plain("f", NodeKind::Frame)],
        vec![link("f", "a", "v")],
    );
    assert!(network.is_acyclic());
    assert!(network.is_compilable());
    let network = net(
        "a",
        vec![plain("a", NodeKind::Negate), plain("a", NodeKind::Frame)],
        vec![link("a", "a", "v")],
    );
    assert!(!network.is_acyclic());
}

#[test]
fn unique_names_and_single_drivers() {
    let network = net(
        "a",
        vec![plain("a", NodeKind::Add), plain("b", NodeKind::Frame), plain("c", NodeKind::Frame)],
        vec![link("b", "a", "a"), link("c", "a", "b"), link("b", "c", "a")],
    );
    assert!(network.has_unique_names());
    assert!(network.has_single_drivers());
    let network = net(
        "a",
        vec![plain("a", NodeKind::Add), plain("b", NodeKind::Frame), plain("a", NodeKind::Frame)],
        vec![link("b", "a", "a"), link("c", "a", "b"), link("b", "a", "a")],
    );
    assert!(!network.has_unique_names());
    assert!(!network.has_single_drivers());
}

#[test]
fn results_that_go_to_one_port_each() {
    let network = net(
        "a",
        vec![plain("a", NodeKind::Add), plain("b", NodeKind::Frame), plain("c", NodeKind::Frame)],
        vec![link("b", "a", "a"), link("c", "a", "b")],
    );
    assert!(network.has_single_uses());
    let network = net(
        "a",
        vec![plain("a", NodeKind::Add), plain("b", NodeKind::Frame)],
        vec![link("b", "a", "a"), link("b", "a", "b")],
    );
    assert!(!network.has_single_uses());
    assert!(net("", vec![], vec![]).has_single_uses());
}
