use graph::drawing::{NodeBox, TimeMark, Wire};
use graph::network::{Connection, Network, Node, NodeKind};

fn placed(name: &str, x: i32, y: i32, kind: NodeKind) -> Node {
    Node::new(name.to_string(), x, y, kind)
}

fn joined(output: &str, input: &str, port: &str) -> Connection {
    Connection::new(output.to_string(), input.to_string(), port.to_string())
}

fn sample() -> Network {
    Network {
        name: "net".to_string(),
        rendered_node: "add".to_string(),
        nodes: vec![
            placed("add", 3, 5, NodeKind::Add),
            placed("frame", -1, 2, NodeKind::Frame),
            placed("switch", 0, 0, NodeKind::Switch),
            placed("int", i32::MAX, i32::MIN, NodeKind::Int),
        ],
        connections: vec![
            joined("frame", "add", "b"),
            joined("int", "switch", "in3"),
            joined("int", "add", "nowhere"),
        ],
    }
}

#[test]
fn a_box_stands_on_the_grid() {
    let network = sample();
    assert!(network.is_acyclic());
    assert_eq!(
        network.node_box(&network.nodes[0]),
        NodeBox { x: 240, y: 100, ports: 2, time: TimeMark::Inherited }
    );
    assert_eq!(
        network.node_box(&network.nodes[1]),
        NodeBox { x: -80, y: 40, ports: 0, time: TimeMark::Own }
    );
    assert_eq!(
        network.node_box(&network.nodes[2]),
        NodeBox { x: 0, y: 0, ports: 5, time: TimeMark::Unmarked }
    );
    assert_eq!(
        network.node_box(&network.nodes[3]),
        NodeBox {
            x: 80 * i32::MAX as i64,
            y: 20 * i32::MIN as i64,
            ports: 1,
            time: TimeMark::Unmarked
        }
    );
}

#[test]
fn a_line_leads_from_the_bottom_of_a_box_to_a_port() {
    let network = sample();
    assert_eq!(
        network.wire(&network.connections[0]),
        Some(Wire { x1: -80 + 7, y1: 60, x2: 240 + 7 + 10, y2: 100 })
    );
    assert_eq!(
        network.wire(&network.connections[1]),
        Some(Wire {
            x1: 80 * i32::MAX as i64 + 7,
            y1: 20 * (i32::MIN as i64 + 1),
            x2: 7 + 40,
            y2: 0
        })
    );
}

#[test]
fn a_connection_to_no_port_has_no_line() {
    let network = sample();
    assert_eq!(network.wire(&network.connections[2]), None);
}
