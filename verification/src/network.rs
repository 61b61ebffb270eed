//! The dataflow graph: nodes with named input ports, and the connections
//! between them.

use crate::text::same_text;
use crate::value::{Value, ValueModel};
use vstd::hash_map::StringHashMap;
use vstd::prelude::*;

verus! {

/// What a node computes.
#[derive(Debug, Clone, Copy, PartialEq, Eq, Structural)]
pub enum NodeKind {
    Int,
    Add,
    Negate,
    Switch,
    Frame,
}

impl NodeKind {
    /// The number that stands for this kind in bytecode.
    pub open spec fn spec_tag(self) -> u8 {
        match self {
            NodeKind::Int => 1,
            NodeKind::Add => 2,
            NodeKind::Negate => 3,
            NodeKind::Switch => 4,
            NodeKind::Frame => 5,
        }
    }

    /// The kind that `tag` stands for, if any.
    pub open spec fn of_tag(tag: u8) -> Option<NodeKind> {
        if tag == 1 {
            Some(NodeKind::Int)
        } else if tag == 2 {
            Some(NodeKind::Add)
        } else if tag == 3 {
            Some(NodeKind::Negate)
        } else if tag == 4 {
            Some(NodeKind::Switch)
        } else if tag == 5 {
            Some(NodeKind::Frame)
        } else {
            None
        }
    }

    /// The number that stands for this kind in bytecode.
    #[verifier::when_used_as_spec(spec_tag)]
    pub fn tag(self) -> (tag: u8)
        ensures
            tag == self.spec_tag(),
            NodeKind::of_tag(tag) == Some(self),
    {
        match self {
            NodeKind::Int => 1,
            NodeKind::Add => 2,
            NodeKind::Negate => 3,
            NodeKind::Switch => 4,
            NodeKind::Frame => 5,
        }
    }

    /// The kind that `tag` stands for, if any.
    pub fn from_tag(tag: u8) -> (kind: Option<NodeKind>)
        ensures
            kind == NodeKind::of_tag(tag),
    {
        if tag == 1 {
            Some(NodeKind::Int)
        } else if tag == 2 {
            Some(NodeKind::Add)
        } else if tag == 3 {
            Some(NodeKind::Negate)
        } else if tag == 4 {
            Some(NodeKind::Switch)
        } else if tag == 5 {
            Some(NodeKind::Frame)
        } else {
            None
        }
    }

    /// The names of the kind's input ports, in order.
    pub open spec fn port_names(self) -> Seq<Seq<char>> {
        match self {
            NodeKind::Int => seq!["v"@],
            NodeKind::Add => seq!["a"@, "b"@],
            NodeKind::Negate => seq!["v"@],
            NodeKind::Switch => seq!["index"@, "in0"@, "in1"@, "in2"@, "in3"@],
            NodeKind::Frame => seq![],
        }
    }

    /// The names of the kind's input ports, in order.
    pub fn inputs(&self) -> (ports: Vec<String>)
        ensures
            ports@.map_values(|s: String| s@) == self.port_names(),
    {
        let ports = match self {
            NodeKind::Int => vec!["v".to_owned()],
            NodeKind::Add => vec!["a".to_owned(), "b".to_owned()],
            NodeKind::Negate => vec!["v".to_owned()],
            NodeKind::Switch => vec![
                "index".to_owned(),
                "in0".to_owned(),
                "in1".to_owned(),
                "in2".to_owned(),
                "in3".to_owned(),
            ],
            NodeKind::Frame => vec![],
        };
        assert(ports@.map_values(|s: String| s@) =~= self.port_names());
        ports
    }

    /// The position of the port called `port` among the kind's ports.
    pub fn port_index(&self, port: &str) -> (index: Option<usize>)
        ensures
            match index {
                Some(i) => i < self.port_names().len() && self.port_names()[i as int] == port@,
                None => !self.port_names().contains(port@),
            },
            self.port_names().no_duplicates(),
    {
        let inputs = self.inputs();
        proof {
            self.lemma_port_names_differ();
        }
        let mut i: usize = 0;
        while i < inputs.len()
            invariant
                i <= inputs.len(),
                inputs@.map_values(|s: String| s@) == self.port_names(),
                self.port_names().no_duplicates(),
                forall|j: int| 0 <= j < i ==> self.port_names()[j] != port@,
            decreases inputs.len() - i,
        {
            assert(inputs@.map_values(|s: String| s@)[i as int] == inputs@[i as int]@);
            if same_text(inputs[i].as_str(), port) {
                return Some(i);
            }
            i += 1;
        }
        None
    }

    /// No two ports of a kind have the same name.
    pub proof fn lemma_port_names_differ(self)
        ensures
            self.port_names().no_duplicates(),
    {
        reveal_strlit("v");
        reveal_strlit("a");
        reveal_strlit("b");
        reveal_strlit("index");
        reveal_strlit("in0");
        reveal_strlit("in1");
        reveal_strlit("in2");
        reveal_strlit("in3");
        let names = self.port_names();
        assert forall|i: int, j: int| 0 <= i < names.len() && 0 <= j < names.len() && i != j implies names[i] != names[j] by {
            if names[i] == names[j] {
                assert(names[i].len() == names[j].len());
                assert(names[i][0] == names[j][0]);
                if names[i].len() == 3 {
                    assert(names[i][2] == names[j][2]);
                }
            }
        }
    }
}

impl From<NodeKind> for u8 {
    fn from(kind: NodeKind) -> (tag: u8) {
        kind.tag()
    }
}

impl vstd::std_specs::convert::FromSpecImpl<NodeKind> for u8 {
    open spec fn obeys_from_spec() -> bool {
        true
    }

    open spec fn from_spec(kind: NodeKind) -> u8 {
        kind.spec_tag()
    }
}

/// Whether a node of this kind gives a different result from one evaluation
/// to the next.
pub open spec fn kind_is_time_dependent(kind: NodeKind) -> bool {
    kind == NodeKind::Frame
}

/// Whether a node of this kind gives a different result from one evaluation
/// to the next.
#[verifier::when_used_as_spec(kind_is_time_dependent)]
pub fn is_time_dependent(kind: NodeKind) -> (dependent: bool)
    ensures
        dependent == kind_is_time_dependent(kind),
{
    match kind {
        NodeKind::Frame => true,
        _ => false,
    }
}

/// A named unit of computation.
pub struct Node {
    /// The name, by which connections refer to the node.
    pub name: String,
    /// The column of the node in the layout.
    pub x: i32,
    /// The row of the node in the layout.
    pub y: i32,
    pub kind: NodeKind,
    /// The constant that each port takes while nothing is connected to it.
    pub values: StringHashMap<Value>,
}

/// The mathematical content of a [`Node`].
pub struct NodeModel {
    pub name: Seq<char>,
    pub x: i32,
    pub y: i32,
    pub kind: NodeKind,
    pub values: Map<Seq<char>, ValueModel>,
}

impl View for Node {
    type V = NodeModel;

    open spec fn view(&self) -> NodeModel {
        NodeModel {
            name: self.name@,
            x: self.x,
            y: self.y,
            kind: self.kind,
            values: self.values@.map_values(|v: Value| v@),
        }
    }
}

impl Node {
    /// A node without any port values.
    pub fn new(name: String, x: i32, y: i32, kind: NodeKind) -> (node: Node)
        ensures
            node@ == (NodeModel { name: name@, x, y, kind, values: Map::empty() }),
    {
        let node = Node { name, x, y, kind, values: StringHashMap::new() };
        assert(node@.values =~= Map::empty());
        node
    }

    /// Sets the constant that the port called `port` takes while nothing is
    /// connected to it.
    pub fn set_value(&mut self, port: String, value: Value)
        ensures
            final(self)@ == (NodeModel {
                values: old(self)@.values.insert(port@, value@),
                ..old(self)@
            }),
    {
        self.values.insert(port, value);
        assert(self@.values =~= old(self)@.values.insert(port@, value@));
    }

    /// The constant of the port called `port`, if the node has one.
    pub fn value(&self, port: &str) -> (value: Option<&Value>)
        ensures
            match value {
                Some(v) => self@.values.contains_key(port@) && v@ == self@.values[port@],
                None => !self@.values.contains_key(port@),
            },
    {
        self.values.get(port)
    }
}

/// A directed edge: the result of the node called `output` goes to the port
/// called `port` of the node called `input`.
#[derive(Debug)]
pub struct Connection {
    pub output: String,
    pub input: String,
    pub port: String,
}

/// The mathematical content of a [`Connection`].
pub struct ConnectionModel {
    pub output: Seq<char>,
    pub input: Seq<char>,
    pub port: Seq<char>,
}

impl View for Connection {
    type V = ConnectionModel;

    open spec fn view(&self) -> ConnectionModel {
        ConnectionModel { output: self.output@, input: self.input@, port: self.port@ }
    }
}

impl Connection {
    pub fn new(output: String, input: String, port: String) -> (connection: Connection)
        ensures
            connection@ == (ConnectionModel { output: output@, input: input@, port: port@ }),
    {
        Connection { output, input, port }
    }
}

/// Nodes, the connections between them, and the name of the node to evaluate.
pub struct Network {
    pub name: String,
    pub rendered_node: String,
    pub nodes: Vec<Node>,
    pub connections: Vec<Connection>,
}

/// The mathematical content of a [`Network`].
pub struct NetworkModel {
    pub name: Seq<char>,
    pub rendered_node: Seq<char>,
    pub nodes: Seq<NodeModel>,
    pub connections: Seq<ConnectionModel>,
}

impl View for Network {
    type V = NetworkModel;

    open spec fn view(&self) -> NetworkModel {
        NetworkModel {
            name: self.name@,
            rendered_node: self.rendered_node@,
            nodes: self.nodes@.map_values(|n: Node| n@),
            connections: self.connections@.map_values(|c: Connection| c@),
        }
    }
}

impl NetworkModel {
    /// The position of the first node at or after `start` that is called
    /// `name`.
    pub open spec fn node_position_from(self, name: Seq<char>, start: int) -> Option<int>
        decreases self.nodes.len() - start,
    {
        if start < 0 || start >= self.nodes.len() {
            None
        } else if self.nodes[start].name == name {
            Some(start)
        } else {
            self.node_position_from(name, start + 1)
        }
    }

    /// The node that `name` refers to: the first one of that name.
    pub open spec fn find_node(self, name: Seq<char>) -> Option<NodeModel> {
        match self.node_position_from(name, 0) {
            Some(i) => Some(self.nodes[i]),
            None => None,
        }
    }

    /// The node to evaluate, if `rendered_node` names one.
    pub open spec fn rendered(self) -> Option<NodeModel> {
        self.find_node(self.rendered_node)
    }

    /// The position of the first connection at or after `start` that ends in
    /// the port called `port` of the node called `input`.
    pub open spec fn driver_position_from(
        self,
        input: Seq<char>,
        port: Seq<char>,
        start: int,
    ) -> Option<int>
        decreases self.connections.len() - start,
    {
        if start < 0 || start >= self.connections.len() {
            None
        } else if self.connections[start].input == input && self.connections[start].port == port {
            Some(start)
        } else {
            self.driver_position_from(input, port, start + 1)
        }
    }

    /// The name of the node whose result the port called `port` of the node
    /// called `input` receives; `None` where the port is unconnected.
    pub open spec fn driver(self, input: Seq<char>, port: Seq<char>) -> Option<Seq<char>> {
        match self.driver_position_from(input, port, 0) {
            Some(k) => Some(self.connections[k].output),
            None => None,
        }
    }

    /// The node whose result the port called `port` of the node called
    /// `input` receives; `None` where the port is unconnected, or connected
    /// to a name that no node has.
    pub open spec fn source(self, input: Seq<char>, port: Seq<char>) -> Option<NodeModel> {
        match self.driver(input, port) {
            Some(output) => self.find_node(output),
            None => None,
        }
    }

    /// The connections that end in the node called `name`, in order.
    pub open spec fn incoming(self, name: Seq<char>) -> Seq<ConnectionModel> {
        self.connections.filter(|c: ConnectionModel| c.input == name)
    }

    /// The nodes that feed the node called `name`, one for each connection
    /// that ends in it.
    pub open spec fn input_nodes(self, name: Seq<char>) -> Seq<NodeModel> {
        self.incoming(name).map_values(|c: ConnectionModel| self.find_node(c.output).unwrap())
    }

    /// Whether every connection that ends in the node called `name` starts
    /// at a node of the network.
    pub open spec fn inputs_resolve(self, name: Seq<char>) -> bool {
        forall|k: int|
            0 <= k < self.connections.len() && (#[trigger] self.connections[k]).input == name
                ==> self.find_node(self.connections[k].output) is Some
    }

    /// Whether every connection starts at a node of the network.
    pub open spec fn resolved(self) -> bool {
        forall|k: int|
            0 <= k < self.connections.len() ==> self.find_node(
                (#[trigger] self.connections[k]).output,
            ) is Some
    }

    /// Whether no two nodes have the same name.
    pub open spec fn names_are_unique(self) -> bool {
        forall|i: int, j: int|
            0 <= i < j < self.nodes.len() ==> (#[trigger] self.nodes[i]).name != (
            #[trigger] self.nodes[j]).name
    }

    /// Whether no two connections end in the same port of the same node.
    pub open spec fn ports_have_one_driver(self) -> bool {
        forall|j: int, k: int|
            0 <= j < k < self.connections.len() ==> !((#[trigger] self.connections[j]).input == (
            #[trigger] self.connections[k]).input && self.connections[j].port
                == self.connections[k].port)
    }

    /// Whether the result of every node goes to one port at most: no two
    /// connections start at the same node.
    pub open spec fn feeds_one_port_each(self) -> bool {
        forall|j: int, k: int|
            0 <= j < k < self.connections.len() ==> (#[trigger] self.connections[j]).output != (
            #[trigger] self.connections[k]).output
    }

    /// Where names are unique, a name refers to the one node that has it.
    pub proof fn law_unique_name_finds_its_node(self, i: int)
        requires
            self.names_are_unique(),
            0 <= i < self.nodes.len(),
        ensures
            self.find_node(self.nodes[i].name) == Some(self.nodes[i]),
    {
        self.lemma_node_position(self.nodes[i].name, 0);
    }

    /// Where each port has one driver, a connection is the one that feeds
    /// the port it ends in.
    pub proof fn law_single_driver_feeds_its_port(self, k: int)
        requires
            self.ports_have_one_driver(),
            0 <= k < self.connections.len(),
        ensures
            self.driver(self.connections[k].input, self.connections[k].port) == Some(
                self.connections[k].output,
            ),
    {
        self.lemma_driver_position(self.connections[k].input, self.connections[k].port, 0);
    }

    /// Whether the result of `node` differs from one evaluation to the next:
    /// its kind is time-dependent, or a node that feeds it is time-dependent
    /// in this sense.
    pub open spec fn time_dependent(self, node: NodeModel) -> bool
        decreases self.rank(node.name),
        when self.acyclic()
    {
        kind_is_time_dependent(node.kind) || exists|k: int|
            0 <= k < self.connections.len() && (#[trigger] self.connections[k]).input == node.name
                && self.feeder(k) is Some && {
                proof {
                    self.lemma_feeder_ranks_lower(k);
                }
                self.time_dependent(self.feeder(k).unwrap())
            }
    }

    /// The node at which connection `k` starts, if it starts at one.
    pub open spec fn feeder(self, k: int) -> Option<NodeModel> {
        self.find_node(self.connections[k].output)
    }

    /// In an acyclic network the node at which a connection starts ranks
    /// below the name at which it ends.
    pub proof fn lemma_feeder_ranks_lower(self, k: int)
        requires
            self.acyclic(),
            0 <= k < self.connections.len(),
        ensures
            self.feeder(k) matches Some(node) ==> self.rank(node.name) < self.rank(
                self.connections[k].input,
            ),
    {
        let rank = choose|rank: spec_fn(Seq<char>) -> nat| self.is_ranking(rank);
        assert(self.is_ranking(rank));
        assert(rank(self.connections[k].output) < rank(self.connections[k].input));
        self.lemma_find_node_name(self.connections[k].output);
    }

    /// Whether `rank` orders the names so that every connection leads from a
    /// lower name to a higher one.
    pub open spec fn is_ranking(self, rank: spec_fn(Seq<char>) -> nat) -> bool {
        forall|k: int|
            0 <= k < self.connections.len() ==> rank((#[trigger] self.connections[k]).output)
                < rank(self.connections[k].input)
    }

    /// Whether no chain of connections leads from a node back to itself.
    pub open spec fn acyclic(self) -> bool {
        exists|rank: spec_fn(Seq<char>) -> nat| self.is_ranking(rank)
    }

    /// The height of a name in some fixed ranking of an acyclic network.
    pub open spec fn rank(self, name: Seq<char>) -> nat {
        (choose|rank: spec_fn(Seq<char>) -> nat| self.is_ranking(rank))(name)
    }

    /// Whether the port called `port` of `node` can be compiled: the
    /// connection that ends in it starts at a node that can be compiled, or
    /// else nothing is connected to it and the node has a value for it.
    pub open spec fn port_is_ready(self, node: NodeModel, port: Seq<char>) -> bool
        decreases self.rank(node.name), 0nat, 0nat,
        when self.acyclic()
    {
        match self.driver(node.name, port) {
            Some(output) => match self.find_node(output) {
                Some(source) => {
                    proof {
                        self.lemma_driver_ranks_lower(node.name, port);
                    }
                    self.visitable(source)
                },
                None => false,
            },
            None => node.values.contains_key(port),
        }
    }

    /// Whether the candidate port called `port` of the switch `node` can be
    /// compiled: nothing is connected to it, in which case it is passed
    /// over, or the connection that ends in it starts at a node that can be
    /// compiled.
    pub open spec fn candidate_is_ready(self, node: NodeModel, port: Seq<char>) -> bool
        decreases self.rank(node.name), 1nat, 0nat,
        when self.acyclic()
    {
        self.driver(node.name, port) is None || self.port_is_ready(node, port)
    }

    /// Whether the ports of `node` from position `from` on can be compiled.
    pub open spec fn inputs_are_ready(self, node: NodeModel, from: nat) -> bool
        decreases self.rank(node.name), 2nat, node.kind.port_names().len() - from,
        when self.acyclic()
    {
        from >= node.kind.port_names().len() || (self.port_is_ready(
            node,
            node.kind.port_names()[from as int],
        ) && self.inputs_are_ready(node, from + 1))
    }

    /// Whether `node` can be compiled: all that the code generator reads on
    /// its way from `node` is there. Of a switch it reads the selector and
    /// the connected candidates, of any other node every port.
    pub open spec fn visitable(self, node: NodeModel) -> bool
        decreases self.rank(node.name), 3nat, 0nat,
        when self.acyclic()
    {
        if node.kind == NodeKind::Switch {
            &&& self.port_is_ready(node, NodeKind::Switch.port_names()[0])
            &&& self.candidate_is_ready(node, NodeKind::Switch.port_names()[1])
            &&& self.candidate_is_ready(node, NodeKind::Switch.port_names()[2])
            &&& self.candidate_is_ready(node, NodeKind::Switch.port_names()[3])
            &&& self.candidate_is_ready(node, NodeKind::Switch.port_names()[4])
        } else {
            self.inputs_are_ready(node, 0)
        }
    }

    /// Whether each port that the evaluation of `node` reads gets a value,
    /// from a connection or else from the node's constants: every port of
    /// the kind, or the first one only for a switch, which passes over a
    /// candidate that nothing is connected to.
    pub open spec fn node_is_complete(self, node: NodeModel) -> bool {
        forall|p: int|
            0 <= p < node.kind.port_names().len() && (node.kind != NodeKind::Switch || p == 0)
                ==> self.driver(node.name, #[trigger] node.kind.port_names()[p]) is Some
                || node.values.contains_key(node.kind.port_names()[p])
    }

    /// Whether every node is complete.
    pub open spec fn complete(self) -> bool {
        forall|i: int| 0 <= i < self.nodes.len() ==> self.node_is_complete(#[trigger] self.nodes[i])
    }

    /// Whether the network can be compiled: it has no rendered node, or no
    /// chain of connections is circular and the rendered node can be
    /// compiled.
    pub open spec fn compilable(self) -> bool {
        match self.rendered() {
            Some(node) => self.acyclic() && self.visitable(node),
            None => true,
        }
    }

    /// In an acyclic network the node that feeds a port ranks below the node
    /// that the port belongs to.
    pub proof fn lemma_driver_ranks_lower(self, input: Seq<char>, port: Seq<char>)
        requires
            self.acyclic(),
        ensures
            self.driver(input, port) matches Some(output) ==> self.rank(output) < self.rank(input),
            self.source(input, port) matches Some(node) ==> self.rank(node.name) < self.rank(
                input,
            ) && self.nodes.contains(node),
    {
        if let Some(output) = self.driver(input, port) {
            self.lemma_find_node_name(output);
        }
        self.lemma_driver_position(input, port, 0);
        let rank = choose|rank: spec_fn(Seq<char>) -> nat| self.is_ranking(rank);
        assert(self.is_ranking(rank));
        if let Some(k) = self.driver_position_from(input, port, 0) {
            assert(rank(self.connections[k].output) < rank(self.connections[k].input));
        }
    }

    /// What a search for a node says of the nodes: a position found holds the
    /// name and nothing before it does, and where nothing is found no node
    /// holds the name.
    pub proof fn lemma_node_position(self, name: Seq<char>, start: int)
        requires
            0 <= start,
        ensures
            match self.node_position_from(name, start) {
                Some(i) => start <= i < self.nodes.len() && self.nodes[i].name == name
                    && forall|j: int| start <= j < i ==> self.nodes[j].name != name,
                None => forall|j: int| start <= j < self.nodes.len() ==> self.nodes[j].name != name,
            },
        decreases self.nodes.len() - start,
    {
        if start < self.nodes.len() && self.nodes[start].name != name {
            self.lemma_node_position(name, start + 1);
        }
    }

    /// A node that was found carries the name it was found by.
    pub proof fn lemma_find_node_name(self, name: Seq<char>)
        ensures
            self.find_node(name) matches Some(node) ==> node.name == name && self.nodes.contains(
                node,
            ),
    {
        self.lemma_node_position(name, 0);
    }

    /// What a search for a connection says of the connections.
    pub proof fn lemma_driver_position(self, input: Seq<char>, port: Seq<char>, start: int)
        requires
            0 <= start,
        ensures
            match self.driver_position_from(input, port, start) {
                Some(k) => start <= k < self.connections.len() && self.connections[k].input
                    == input && self.connections[k].port == port && forall|j: int|
                    start <= j < k ==> !(self.connections[j].input == input
                        && self.connections[j].port == port),
                None => forall|j: int|
                    start <= j < self.connections.len() ==> !(self.connections[j].input == input
                        && self.connections[j].port == port),
            },
        decreases self.connections.len() - start,
    {
        if start < self.connections.len() && !(self.connections[start].input == input
            && self.connections[start].port == port) {
            self.lemma_driver_position(input, port, start + 1);
        }
    }
}

impl Network {
    /// The position of the node that `name` refers to.
    pub fn node_position(&self, name: &str) -> (position: Option<usize>)
        ensures
            match position {
                Some(i) => self@.node_position_from(name@, 0) == Some(i as int) && i
                    < self.nodes.len(),
                None => self@.node_position_from(name@, 0) is None,
            },
    {
        let mut i: usize = 0;
        while i < self.nodes.len()
            invariant
                i <= self.nodes.len(),
                self@.node_position_from(name@, 0) == self@.node_position_from(name@, i as int),
            decreases self.nodes.len() - i,
        {
            if same_text(self.nodes[i].name.as_str(), name) {
                return Some(i);
            }
            i += 1;
        }
        None
    }

    /// The node that `name` refers to: the first one of that name.
    pub fn find_node_by_name(&self, name: &str) -> (found: Option<&Node>)
        ensures
            match found {
                Some(node) => self@.find_node(name@) == Some(node@) && self@.nodes.contains(
                    node@,
                ),
                None => self@.find_node(name@) is None,
            },
    {
        proof {
            self@.lemma_find_node_name(name@);
        }
        match self.node_position(name) {
            Some(i) => Some(&self.nodes[i]),
            None => None,
        }
    }

    /// The node to evaluate, if `rendered_node` names one.
    pub fn rendered_node(&self) -> (found: Option<&Node>)
        ensures
            match found {
                Some(node) => self@.rendered() == Some(node@) && self@.nodes.contains(node@),
                None => self@.rendered() is None,
            },
    {
        self.find_node_by_name(self.rendered_node.as_str())
    }

    /// The position of the first connection that ends in the port called
    /// `input_port` of `node`.
    pub(crate) fn driver_position(&self, node: &Node, input_port: &str) -> (position: Option<usize>)
        ensures
            match position {
                Some(k) => self@.driver_position_from(node.name@, input_port@, 0) == Some(
                    k as int,
                ) && k < self.connections.len(),
                None => self@.driver_position_from(node.name@, input_port@, 0) is None,
            },
    {
        let mut k: usize = 0;
        while k < self.connections.len()
            invariant
                k <= self.connections.len(),
                self@.driver_position_from(node.name@, input_port@, 0)
                    == self@.driver_position_from(node.name@, input_port@, k as int),
            decreases self.connections.len() - k,
        {
            let conn = &self.connections[k];
            if same_text(conn.input.as_str(), node.name.as_str()) && same_text(
                conn.port.as_str(),
                input_port,
            ) {
                return Some(k);
            }
            k += 1;
        }
        None
    }

    /// The node whose result the port called `input_port` of `node` receives;
    /// `None` where nothing is connected to the port, which then takes its
    /// constant.
    pub fn find_output_node(&self, node: &Node, input_port: &str) -> (found: Option<&Node>)
        requires
            self@.driver(node.name@, input_port@) matches Some(output) ==> self@.find_node(
                output,
            ) is Some,
        ensures
            match found {
                Some(source) => self@.source(node.name@, input_port@) == Some(source@)
                    && self@.nodes.contains(source@),
                None => self@.driver(node.name@, input_port@) is None,
            },
    {
        match self.driver_position(node, input_port) {
            Some(k) => self.find_node_by_name(self.connections[k].output.as_str()),
            None => None,
        }
    }

    /// The nodes that feed `node`, one for each connection that ends in it.
    pub fn input_nodes<'a>(&'a self, node: &'a Node) -> (inputs: Vec<&'a Node>)
        requires
            self@.inputs_resolve(node.name@),
        ensures
            inputs@.map_values(|n: &Node| n@) == self@.input_nodes(node.name@),
    {
        let mut inputs: Vec<&Node> = Vec::new();
        let ghost name = node.name@;
        let ghost feeds = |c: ConnectionModel| c.input == name;
        let ghost source = |c: ConnectionModel| self@.find_node(c.output).unwrap();
        let mut k: usize = 0;
        assert(self@.connections.take(0) =~= Seq::empty());
        while k < self.connections.len()
            invariant
                k <= self.connections.len(),
                name == node.name@,
                feeds == |c: ConnectionModel| c.input == name,
                source == |c: ConnectionModel| self@.find_node(c.output).unwrap(),
                self@.inputs_resolve(name),
                inputs@.map_values(|n: &Node| n@) == self@.connections.take(k as int).filter(
                    feeds,
                ).map_values(source),
            decreases self.connections.len() - k,
        {
            let conn = &self.connections[k];
            proof {
                reveal(Seq::filter);
                assert(self@.connections.take(k + 1).drop_last() =~= self@.connections.take(
                    k as int,
                ));
                assert(self@.connections.take(k + 1).last() == conn@);
                assert(self@.connections[k as int] == conn@);
            }
            if same_text(conn.input.as_str(), node.name.as_str()) {
                let found = self.find_node_by_name(conn.output.as_str());
                match found {
                    Some(input) => {
                        let ghost before = inputs@;
                        inputs.push(input);
                        assert(inputs@.map_values(|n: &Node| n@) =~= before.map_values(
                            |n: &Node| n@,
                        ).push(input@));
                        assert(self@.connections.take(k + 1).filter(feeds).map_values(source)
                            =~= self@.connections.take(k as int).filter(feeds).map_values(
                            source,
                        ).push(source(conn@)));
                    },
                    None => {
                        assert(false);
                    },
                }
            }
            k += 1;
        }
        assert(self@.connections.take(k as int) =~= self@.connections);
        inputs
    }
}

impl Network {
    /// Whether the result of `node` differs from one evaluation to the next.
    pub fn is_time_dependent(&self, node: &Node) -> (dependent: bool)
        requires
            self@.acyclic(),
        ensures
            dependent == self@.time_dependent(node@),
        decreases self@.rank(node.name@),
    {
        // If I am time-dependent myself, the result will always be true.
        if is_time_dependent(node.kind) {
            return true;
        }
        // If my input connections are time-dependent, I am as well.
        let mut k: usize = 0;
        while k < self.connections.len()
            invariant
                k <= self.connections.len(),
                self@.acyclic(),
                forall|j: int|
                    0 <= j < k ==> !((#[trigger] self@.connections[j]).input == node.name@
                        && self@.feeder(j) is Some && self@.time_dependent(
                        self@.feeder(j).unwrap(),
                    )),
            decreases self.connections.len() - k,
        {
            let conn = &self.connections[k];
            assert(self@.connections[k as int] == conn@);
            if same_text(conn.input.as_str(), node.name.as_str()) {
                proof {
                    self@.lemma_feeder_ranks_lower(k as int);
                }
                match self.find_node_by_name(conn.output.as_str()) {
                    Some(input_node) => {
                        if self.is_time_dependent(input_node) {
                            return true;
                        }
                    },
                    None => {},
                }
            }
            k += 1;
        }
        false
    }
}

} // verus!
