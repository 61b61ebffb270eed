//! Checks of a network before it is compiled: that its connections form no
//! cycle, and that all that the code generator reads on its way from the
//! rendered node is there.

use crate::network::{Network, NetworkModel, Node, NodeKind};
use crate::text::same_text;
use vstd::prelude::*;

verus! {

/// Whether connection `j` ends at the node at which connection `k` starts.
pub open spec fn leads_to(net: NetworkModel, j: int, k: int) -> bool {
    net.connections[j].input == net.connections[k].output
}

/// Whether the connections to which `order` gives a number above zero are
/// ordered by it: each connection that leads to one of them has a lower
/// number above zero.
pub open spec fn orders_numbered(net: NetworkModel, order: Seq<usize>) -> bool {
    &&& order.len() == net.connections.len()
    &&& forall|j: int, k: int|
        0 <= j < order.len() && 0 <= k < order.len() && order[k] > 0 && #[trigger] leads_to(
            net,
            j,
            k,
        ) ==> 0 < order[j] < order[k]
}

/// Whether a connection without a number leads to connection `k`.
pub open spec fn blocked(net: NetworkModel, order: Seq<usize>, k: int) -> bool {
    exists|j: int| 0 <= j < order.len() && #[trigger] leads_to(net, j, k) && order[j] == 0
}

/// The highest number among the first `upto` connections that end at the
/// node called `name`, and zero where there is none.
pub open spec fn height(net: NetworkModel, order: Seq<usize>, name: Seq<char>, upto: int) -> nat
    decreases upto,
{
    if upto <= 0 {
        0
    } else if net.connections[upto - 1].input == name && order[upto - 1] > height(
        net,
        order,
        name,
        upto - 1,
    ) {
        order[upto - 1] as nat
    } else {
        height(net, order, name, upto - 1)
    }
}

/// The height of a name is at least the number of each connection that
/// ends there, and below every bound above zero that all these numbers
/// are below.
pub proof fn lemma_height(
    net: NetworkModel,
    order: Seq<usize>,
    name: Seq<char>,
    upto: int,
    bound: nat,
)
    requires
        order.len() == net.connections.len(),
        0 <= upto <= order.len(),
    ensures
        forall|j: int|
            0 <= j < upto && net.connections[j].input == name ==> (#[trigger] order[j]) <= height(
                net,
                order,
                name,
                upto,
            ),
        bound > 0 && (forall|j: int|
            0 <= j < upto && net.connections[j].input == name ==> (#[trigger] order[j]) < bound)
            ==> height(net, order, name, upto) < bound,
    decreases upto,
{
    if upto > 0 {
        lemma_height(net, order, name, upto - 1, bound);
    }
}

/// The number of connections to which `order` gives no number yet.
pub open spec fn unranked(order: Seq<usize>) -> nat
    decreases order.len(),
{
    if order.len() == 0 {
        0
    } else {
        unranked(order.drop_last()) + if order.last() == 0 {
            1nat
        } else {
            0nat
        }
    }
}

/// Giving a number to a connection that had none leaves one fewer without.
pub proof fn lemma_unranked_update(order: Seq<usize>, i: int, rank: usize)
    requires
        0 <= i < order.len(),
        order[i] == 0,
        rank > 0,
    ensures
        unranked(order.update(i, rank)) + 1 == unranked(order),
    decreases order.len(),
{
    let updated = order.update(i, rank);
    if i == order.len() - 1 {
        assert(updated.drop_last() =~= order.drop_last());
    } else {
        assert(updated.drop_last() =~= order.drop_last().update(i, rank));
        lemma_unranked_update(order.drop_last(), i, rank);
    }
}

/// No connection is without a number exactly when every one has one.
pub proof fn lemma_unranked_none(order: Seq<usize>)
    ensures
        unranked(order) <= order.len(),
        unranked(order) == 0 <==> forall|i: int| 0 <= i < order.len() ==> order[i] > 0,
    decreases order.len(),
{
    if order.len() > 0 {
        lemma_unranked_none(order.drop_last());
        if unranked(order) == 0 {
            assert forall|i: int| 0 <= i < order.len() implies order[i] > 0 by {
                if i < order.len() - 1 {
                    assert(order.drop_last()[i] == order[i]);
                }
            }
        } else if order.last() != 0 {
            let i = choose|i: int| 0 <= i < order.len() - 1 && !(order.drop_last()[i] > 0);
            assert(order[i] == order.drop_last()[i]);
        }
    }
}

/// Where every connection without a number is led to by another such
/// connection, and one such connection exists, no ranking of the names
/// exists.
pub proof fn lemma_blocked_connections_form_a_cycle(
    net: NetworkModel,
    order: Seq<usize>,
    rank: spec_fn(Seq<char>) -> nat,
    k: int,
)
    requires
        order.len() == net.connections.len(),
        0 <= k < order.len(),
        order[k] == 0,
        forall|i: int| 0 <= i < order.len() && order[i] == 0 ==> blocked(net, order, i),
    ensures
        !net.is_ranking(rank),
    decreases rank(net.connections[k].output),
{
    if net.is_ranking(rank) {
        assert(blocked(net, order, k));
        let j = choose|j: int| 0 <= j < order.len() && #[trigger] leads_to(net, j, k) && order[j] == 0;
        assert(rank(net.connections[j].output) < rank(net.connections[j].input));
        lemma_blocked_connections_form_a_cycle(net, order, rank, j);
    }
}

/// An order that gives every connection a number ranks the names of an
/// acyclic network.
pub proof fn lemma_full_order_is_a_ranking(net: NetworkModel, order: Seq<usize>)
    requires
        orders_numbered(net, order),
        forall|k: int| 0 <= k < order.len() ==> order[k] > 0,
    ensures
        net.acyclic(),
{
    let count = net.connections.len() as int;
    let rank = |name: Seq<char>| height(net, order, name, count);
    assert forall|k: int| 0 <= k < net.connections.len() implies rank(
        (#[trigger] net.connections[k]).output,
    ) < rank(net.connections[k].input) by {
        let connection = net.connections[k];
        lemma_height(net, order, connection.input, count, order[k] as nat);
        lemma_height(net, order, connection.output, count, order[k] as nat);
        assert forall|j: int|
            0 <= j < count && net.connections[j].input == connection.output implies (
        #[trigger] order[j]) < order[k] by {
            assert(leads_to(net, j, k));
        }
        assert(order[k] <= height(net, order, connection.input, count));
    }
    assert(net.is_ranking(rank));
}

impl Network {
    /// Whether every connection starts at a node of the network.
    pub fn is_resolved(&self) -> (resolved: bool)
        ensures
            resolved == self@.resolved(),
    {
        let mut k: usize = 0;
        while k < self.connections.len()
            invariant
                k <= self.connections.len(),
                forall|j: int|
                    0 <= j < k ==> self@.find_node((#[trigger] self@.connections[j]).output)
                        is Some,
            decreases self.connections.len() - k,
        {
            assert(self@.connections[k as int] == self.connections[k as int]@);
            if self.node_position(self.connections[k].output.as_str()).is_none() {
                return false;
            }
            k += 1;
        }
        true
    }

    /// Whether no two nodes have the same name.
    pub fn has_unique_names(&self) -> (unique: bool)
        ensures
            unique == self@.names_are_unique(),
    {
        let mut j: usize = 0;
        while j < self.nodes.len()
            invariant
                j <= self.nodes.len(),
                forall|a: int, b: int|
                    0 <= a < b < j ==> (#[trigger] self@.nodes[a]).name != (
                    #[trigger] self@.nodes[b]).name,
            decreases self.nodes.len() - j,
        {
            let mut i: usize = 0;
            while i < j
                invariant
                    i <= j < self.nodes.len(),
                    forall|a: int|
                        0 <= a < i ==> (#[trigger] self@.nodes[a]).name != self@.nodes[j as int].name,
                decreases j - i,
            {
                assert(self@.nodes[i as int] == self.nodes[i as int]@);
                assert(self@.nodes[j as int] == self.nodes[j as int]@);
                if same_text(self.nodes[i].name.as_str(), self.nodes[j].name.as_str()) {
                    return false;
                }
                i += 1;
            }
            j += 1;
        }
        true
    }

    /// Whether no two connections end in the same port of the same node.
    pub fn has_single_drivers(&self) -> (single: bool)
        ensures
            single == self@.ports_have_one_driver(),
    {
        let mut k: usize = 0;
        while k < self.connections.len()
            invariant
                k <= self.connections.len(),
                forall|a: int, b: int|
                    0 <= a < b < k ==> !((#[trigger] self@.connections[a]).input == (
                    #[trigger] self@.connections[b]).input && self@.connections[a].port
                        == self@.connections[b].port),
            decreases self.connections.len() - k,
        {
            let mut j: usize = 0;
            while j < k
                invariant
                    j <= k < self.connections.len(),
                    forall|a: int|
                        0 <= a < j ==> !((#[trigger] self@.connections[a]).input
                            == self@.connections[k as int].input && self@.connections[a].port
                            == self@.connections[k as int].port),
                decreases k - j,
            {
                assert(self@.connections[j as int] == self.connections[j as int]@);
                assert(self@.connections[k as int] == self.connections[k as int]@);
                let first = &self.connections[j];
                let second = &self.connections[k];
                if same_text(first.input.as_str(), second.input.as_str()) && same_text(
                    first.port.as_str(),
                    second.port.as_str(),
                ) {
                    return false;
                }
                j += 1;
            }
            k += 1;
        }
        true
    }

    /// Whether the result of every node goes to one port at most.
    pub fn has_single_uses(&self) -> (single: bool)
        ensures
            single == self@.feeds_one_port_each(),
    {
        let mut k: usize = 0;
        while k < self.connections.len()
            invariant
                k <= self.connections.len(),
                forall|a: int, b: int|
                    0 <= a < b < k ==> (#[trigger] self@.connections[a]).output != (
                    #[trigger] self@.connections[b]).output,
            decreases self.connections.len() - k,
        {
            let mut j: usize = 0;
            while j < k
                invariant
                    j <= k < self.connections.len(),
                    forall|a: int|
                        0 <= a < j ==> (#[trigger] self@.connections[a]).output
                            != self@.connections[k as int].output,
                decreases k - j,
            {
                assert(self@.connections[j as int] == self.connections[j as int]@);
                assert(self@.connections[k as int] == self.connections[k as int]@);
                if same_text(
                    self.connections[j].output.as_str(),
                    self.connections[k].output.as_str(),
                ) {
                    return false;
                }
                j += 1;
            }
            k += 1;
        }
        true
    }

    /// Whether every connection that leads to connection `k` has a number in
    /// `order`.
    fn is_ready(&self, order: &Vec<usize>, k: usize) -> (ready: bool)
        requires
            order.len() == self.connections.len(),
            k < self.connections.len(),
        ensures
            ready == !blocked(self@, order@, k as int),
    {
        let mut j: usize = 0;
        while j < self.connections.len()
            invariant
                j <= self.connections.len(),
                order.len() == self.connections.len(),
                k < self.connections.len(),
                forall|i: int| 0 <= i < j ==> !(#[trigger] leads_to(self@, i, k as int) && order[i] == 0),
            decreases self.connections.len() - j,
        {
            assert(self@.connections[j as int] == self.connections[j as int]@);
            assert(self@.connections[k as int] == self.connections[k as int]@);
            if order[j] == 0 && same_text(
                self.connections[j].input.as_str(),
                self.connections[k].output.as_str(),
            ) {
                assert(leads_to(self@, j as int, k as int));
                return false;
            }
            j += 1;
        }
        true
    }

    /// Gives the next numbers to the connections without one that are led to
    /// only by connections with one. Returns whether any got a number.
    fn number_ready_connections(&self, order: &mut Vec<usize>, count: &mut usize) -> (progress: bool)
        requires
            orders_numbered(self@, old(order)@),
            forall|i: int| 0 <= i < old(order).len() ==> (#[trigger] old(order)[i]) <= *old(count),
            *old(count) + unranked(old(order)@) == self.connections.len(),
        ensures
            orders_numbered(self@, final(order)@),
            forall|i: int| 0 <= i < final(order).len() ==> (#[trigger] final(order)[i]) <= *final(count),
            *final(count) + unranked(final(order)@) == self.connections.len(),
            progress ==> unranked(final(order)@) < unranked(old(order)@),
            !progress ==> final(order)@ == old(order)@ && forall|k: int|
                0 <= k < final(order).len() && final(order)[k] == 0 ==> blocked(
                    self@,
                    final(order)@,
                    k,
                ),
    {
        let mut progress = false;
        let mut k: usize = 0;
        while k < self.connections.len()
            invariant
                k <= self.connections.len(),
                orders_numbered(self@, order@),
                forall|i: int| 0 <= i < order.len() ==> (#[trigger] order[i]) <= *count,
                *count + unranked(order@) == self.connections.len(),
                unranked(order@) <= unranked(old(order)@),
                progress ==> unranked(order@) < unranked(old(order)@),
                !progress ==> order@ == old(order)@ && forall|i: int|
                    0 <= i < k && order[i] == 0 ==> blocked(self@, order@, i),
            decreases self.connections.len() - k,
        {
            if order[k] == 0 && self.is_ready(order, k) {
                proof {
                    lemma_unranked_none(order@);
                    assert(unranked(order@) > 0) by {
                        assert(order@[k as int] == 0);
                    }
                    lemma_unranked_update(order@, k as int, (*count + 1) as usize);
                }
                let ghost before = order@;
                *count = *count + 1;
                order.set(k, *count);
                progress = true;
                assert forall|j: int, i: int|
                    0 <= j < order.len() && 0 <= i < order.len() && order[i] > 0 && #[trigger] leads_to(
                        self@,
                        j,
                        i,
                    ) implies 0 < order[j] < order[i] by {
                    if i == k {
                        assert(!blocked(self@, before, k as int));
                        assert(before[j] != 0);
                    } else {
                        assert(0 < before[j] < before[i]);
                    }
                }
            }
            k += 1;
        }
        progress
    }

    /// Whether no chain of connections leads from a node back to itself.
    pub fn is_acyclic(&self) -> (acyclic: bool)
        ensures
            acyclic == self@.acyclic(),
    {
        let mut order: Vec<usize> = Vec::new();
        let mut i: usize = 0;
        while i < self.connections.len()
            invariant
                i <= self.connections.len(),
                order.len() == i,
                unranked(order@) == i,
                forall|j: int| 0 <= j < i ==> (#[trigger] order[j]) == 0,
            decreases self.connections.len() - i,
        {
            let ghost before = order@;
            order.push(0);
            assert(order@.drop_last() =~= before);
            i += 1;
        }
        let mut count: usize = 0;
        loop
            invariant
                orders_numbered(self@, order@),
                forall|j: int| 0 <= j < order.len() ==> (#[trigger] order[j]) <= count,
                count + unranked(order@) == self.connections.len(),
            ensures
                orders_numbered(self@, order@),
                count + unranked(order@) == self.connections.len(),
                forall|k: int|
                    0 <= k < order.len() && order[k] == 0 ==> blocked(self@, order@, k),
            decreases unranked(order@),
        {
            let progress = self.number_ready_connections(&mut order, &mut count);
            if !progress {
                break ;
            }
        }
        proof {
            lemma_unranked_none(order@);
            if count == self.connections.len() {
                lemma_full_order_is_a_ranking(self@, order@);
            } else {
                let k = choose|k: int| 0 <= k < order.len() && !(order[k] > 0);
                if self@.acyclic() {
                    let rank = choose|rank: spec_fn(Seq<char>) -> nat| self@.is_ranking(rank);
                    lemma_blocked_connections_form_a_cycle(self@, order@, rank, k);
                }
            }
        }
        count == self.connections.len()
    }

    /// Whether the port called `port` of `node` can be compiled.
    fn port_is_ready(&self, node: &Node, port: &str) -> (ready: bool)
        requires
            self@.acyclic(),
        ensures
            ready == self@.port_is_ready(node@, port@),
        decreases self@.rank(node.name@), 0nat, 0nat,
    {
        proof {
            self@.lemma_driver_ranks_lower(node.name@, port@);
        }
        match self.driver_position(node, port) {
            Some(k) => {
                assert(self@.connections[k as int] == self.connections[k as int]@);
                match self.find_node_by_name(self.connections[k].output.as_str()) {
                    Some(source) => self.is_visitable(source),
                    None => false,
                }
            },
            None => node.value(port).is_some(),
        }
    }

    /// Whether the candidate port called `port` of the switch `node` can be
    /// compiled.
    fn candidate_is_ready(&self, node: &Node, port: &str) -> (ready: bool)
        requires
            self@.acyclic(),
        ensures
            ready == self@.candidate_is_ready(node@, port@),
        decreases self@.rank(node.name@), 1nat, 0nat,
    {
        self.driver_position(node, port).is_none() || self.port_is_ready(node, port)
    }

    /// Whether `node` can be compiled: all that the code generator reads on
    /// its way from `node` is there.
    pub fn is_visitable(&self, node: &Node) -> (visitable: bool)
        requires
            self@.acyclic(),
        ensures
            visitable == self@.visitable(node@),
        decreases self@.rank(node.name@), 3nat, 0nat,
    {
        let ports = node.kind.inputs();
        assert(ports@.map_values(|s: String| s@).len() == ports.len());
        match node.kind {
            NodeKind::Switch => {
                assert forall|q: int| 0 <= q < 5 implies ports@[q]@
                    == NodeKind::Switch.port_names()[q] by {
                    assert(ports@.map_values(|s: String| s@)[q] == ports@[q]@);
                }
                self.port_is_ready(node, ports[0].as_str()) && self.candidate_is_ready(
                    node,
                    ports[1].as_str(),
                ) && self.candidate_is_ready(node, ports[2].as_str()) && self.candidate_is_ready(
                    node,
                    ports[3].as_str(),
                ) && self.candidate_is_ready(node, ports[4].as_str())
            },
            _ => {
                let mut p: usize = 0;
                while p < ports.len()
                    invariant
                        p <= ports.len(),
                        self@.acyclic(),
                        node.kind != NodeKind::Switch,
                        ports@.map_values(|s: String| s@) == node.kind.port_names(),
                        self@.inputs_are_ready(node@, 0) == self@.inputs_are_ready(node@, p as nat),
                    decreases ports.len() - p,
                {
                    assert(ports@.map_values(|s: String| s@)[p as int] == ports@[p as int]@);
                    if !self.port_is_ready(node, ports[p].as_str()) {
                        return false;
                    }
                    p += 1;
                }
                true
            },
        }
    }

    /// Whether the network can be compiled: it has no rendered node, or its
    /// connections form no cycle and the rendered node can be compiled.
    pub fn is_compilable(&self) -> (compilable: bool)
        ensures
            compilable == self@.compilable(),
    {
        match self.rendered_node() {
            Some(node) => self.is_acyclic() && self.is_visitable(node),
            None => true,
        }
    }
}

} // verus!
