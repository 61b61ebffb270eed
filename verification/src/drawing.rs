//! Where the nodes and the connections of a network stand in a drawing of
//! it: each node is a box on a grid, with its input ports along the top
//! edge, and each connection is a line from the bottom of one box to a port
//! of another.

use crate::network::{
    is_time_dependent, kind_is_time_dependent, Connection, Network, NetworkModel, Node, NodeModel,
};
use vstd::prelude::*;

verus! {

/// The width of a grid cell.
pub const ROW_WIDTH: i64 = 80;

/// The height of a grid cell.
pub const COLUMN_HEIGHT: i64 = 20;

/// The distance from one port to the next.
pub const PORT_WIDTH: i64 = 10;

/// The distance from the left edge of a box to the middle of its first port.
pub const PORT_INSET: i64 = 7;

/// The mark that a node carries for its dependence on time.
#[derive(Debug, Clone, Copy, PartialEq, Eq, Structural)]
pub enum TimeMark {
    /// The node does not depend on time.
    Unmarked,
    /// The kind of the node depends on time.
    Own,
    /// A node that feeds the node depends on time.
    Inherited,
}

/// The box of a node.
#[derive(Debug, Clone, Copy, PartialEq, Eq, Structural)]
pub struct NodeBox {
    /// The left edge.
    pub x: i64,
    /// The top edge.
    pub y: i64,
    /// The number of input ports.
    pub ports: usize,
    pub time: TimeMark,
}

/// The line of a connection.
#[derive(Debug, Clone, Copy, PartialEq, Eq, Structural)]
pub struct Wire {
    pub x1: i64,
    pub y1: i64,
    pub x2: i64,
    pub y2: i64,
}

/// The mark of `node` in `net`.
pub open spec fn time_mark(net: NetworkModel, node: NodeModel) -> TimeMark {
    if kind_is_time_dependent(node.kind) {
        TimeMark::Own
    } else if net.time_dependent(node) {
        TimeMark::Inherited
    } else {
        TimeMark::Unmarked
    }
}

/// The box of `node` in `net`.
pub open spec fn node_box(net: NetworkModel, node: NodeModel) -> NodeBox {
    NodeBox {
        x: (node.x * ROW_WIDTH) as i64,
        y: (node.y * COLUMN_HEIGHT) as i64,
        ports: node.kind.port_names().len() as usize,
        time: time_mark(net, node),
    }
}

/// The line from the bottom of the box of `output` to the port at position
/// `port` of `input`.
pub open spec fn wire_between(output: NodeModel, input: NodeModel, port: int) -> Wire {
    Wire {
        x1: (output.x * ROW_WIDTH + PORT_INSET) as i64,
        y1: ((output.y + 1) * COLUMN_HEIGHT) as i64,
        x2: (input.x * ROW_WIDTH + PORT_INSET + port * PORT_WIDTH) as i64,
        y2: (input.y * COLUMN_HEIGHT) as i64,
    }
}

impl Network {
    /// The box of `node`.
    pub fn node_box(&self, node: &Node) -> (shape: NodeBox)
        requires
            self@.acyclic(),
        ensures
            shape == node_box(self@, node@),
    {
        let ports = node.kind.inputs();
        assert(ports@.map_values(|s: String| s@).len() == ports.len());
        let time = if is_time_dependent(node.kind) {
            TimeMark::Own
        } else if self.is_time_dependent(node) {
            TimeMark::Inherited
        } else {
            TimeMark::Unmarked
        };
        NodeBox {
            x: node.x as i64 * ROW_WIDTH,
            y: node.y as i64 * COLUMN_HEIGHT,
            ports: ports.len(),
            time,
        }
    }

    /// The line of `connection`, unless the node that it ends in has no port
    /// of the name that the connection gives.
    pub fn wire(&self, connection: &Connection) -> (wire: Option<Wire>)
        requires
            self@.find_node(connection.output@) is Some,
            self@.find_node(connection.input@) is Some,
        ensures
            match wire {
                Some(line) => exists|port: int|
                    0 <= port < self@.find_node(connection.input@).unwrap().kind.port_names().len()
                        && #[trigger] self@.find_node(
                        connection.input@,
                    ).unwrap().kind.port_names()[port] == connection.port@ && line == wire_between(
                        self@.find_node(connection.output@).unwrap(),
                        self@.find_node(connection.input@).unwrap(),
                        port,
                    ),
                None => !self@.find_node(connection.input@).unwrap().kind.port_names().contains(
                    connection.port@,
                ),
            },
    {
        let output_node = match self.find_node_by_name(connection.output.as_str()) {
            Some(node) => node,
            None => {
                return None;
            },
        };
        let input_node = match self.find_node_by_name(connection.input.as_str()) {
            Some(node) => node,
            None => {
                return None;
            },
        };
        match input_node.kind.port_index(connection.port.as_str()) {
            None => None,
            Some(port_index) => {
                assert(input_node.kind.port_names().len() <= 5);
                let line = Wire {
                    x1: output_node.x as i64 * ROW_WIDTH + PORT_INSET,
                    y1: (output_node.y as i64 + 1) * COLUMN_HEIGHT,
                    x2: input_node.x as i64 * ROW_WIDTH + PORT_INSET + port_index as i64
                        * PORT_WIDTH,
                    y2: input_node.y as i64 * COLUMN_HEIGHT,
                };
                assert(input_node@.kind.port_names()[port_index as int] == connection.port@);
                Some(line)
            },
        }
    }
}

} // verus!
