//! What holds of compiling and running together.

use crate::bytecode::{lemma_decode_encoding, Instruction, OP_END};
use crate::compiler::{
    candidate, compile_spec, emit_input_port, emit_inputs, emit_node, is_compilation_of,
    operands_fit,
    CodeModel, CompileError, CompiledModel, CompiledNetwork,
};
use crate::correctness::{chosen, law_program_has_the_effect, lemma_select_is_chosen, machine_for};
use crate::evaluation::{
    apply, branches_are_apart, call, has_no_switch, inputs_effect, inputs_values, inputs_visit,
    node_effect, node_value, port_effect, port_value, port_visits, visits,
};
use crate::network::{NetworkModel, NodeKind, NodeModel};
use crate::value::ValueModel;
use crate::vm::{advanced, sums, wrap_i32, MachineModel, RuntimeErrorKind, Status};
use vstd::prelude::*;

verus! {

/// Compiling is a function of the network: two compilations of one network
/// both succeed, and give the same bytecode and the same constant pool.
pub proof fn law_compiling_twice_gives_the_same(
    net: NetworkModel,
    first: Result<CompiledNetwork, CompileError>,
    second: Result<CompiledNetwork, CompileError>,
)
    requires
        is_compilation_of(first, net),
        is_compilation_of(second, net),
    ensures
        first matches Ok(a) && second matches Ok(b) && a.bytecode@ == b.bytecode@
            && a@.constant_pool == b@.constant_pool,
{
}

/// A network whose rendered node does not exist compiles to a program that
/// consists of `END` alone, and running that program halts with an empty
/// stack.
pub proof fn law_missing_rendered_node_only_halts(net: NetworkModel, fuel: nat)
    requires
        net.rendered() is None,
        fuel >= 1,
    ensures
        compile_spec(net) == (CompiledModel {
            bytecode: Instruction::End.encoding(),
            constant_pool: Seq::empty(),
        }),
        Instruction::End.encoding() == seq![OP_END],
        machine_for(compile_spec(net)).run(fuel) == (
            MachineModel { ip: 1, ..machine_for(compile_spec(net)) },
            Status::Halted,
        ),
{
    let machine = machine_for(compile_spec(net));
    assert(machine.bytecode.subrange(0, 1) =~= Instruction::End.encoding());
    lemma_decode_encoding(machine.bytecode, 0, Instruction::End);
}

/// The program of an `Add` node whose two ports take integer constants:
/// compiling a network whose rendered node it is gives two pushes, a call
/// and a halt, and running that program halts with one value on the stack,
/// the one-element list of the sum of the constants. The sum wraps around
/// where it leaves the range of 32-bit integers, and is the plain sum
/// where it does not.
pub proof fn law_add_of_constants(net: NetworkModel, a: i32, b: i32, fuel: nat)
    requires
        net.acyclic(),
        net.rendered() is Some,
        net.rendered().unwrap().kind == NodeKind::Add,
        net.source(net.rendered().unwrap().name, "a"@) is None,
        net.source(net.rendered().unwrap().name, "b"@) is None,
        net.rendered().unwrap().values.contains_key("a"@),
        net.rendered().unwrap().values.contains_key("b"@),
        net.rendered().unwrap().values["a"@] == ValueModel::Int(a),
        net.rendered().unwrap().values["b"@] == ValueModel::Int(b),
        fuel >= 4,
    ensures
        compile_spec(net) == (CompiledModel {
            bytecode: Instruction::ConstI32(a).encoding() + Instruction::ConstI32(b).encoding()
                + Instruction::CallNode(NodeKind::Add).encoding() + Instruction::End.encoding(),
            constant_pool: Seq::empty(),
        }),
        operands_fit(net),
        machine_for(compile_spec(net)).run(fuel) == (
            MachineModel {
                ip: 13,
                stack: seq![ValueModel::IntList(seq![wrap_i32(a + b)])],
                ..machine_for(compile_spec(net))
            },
            Status::Halted,
        ),
        i32::MIN <= a + b <= i32::MAX ==> wrap_i32(a + b) == a + b,
{
    let node = net.rendered().unwrap();
    let push_a = Instruction::ConstI32(a);
    let push_b = Instruction::ConstI32(b);
    let call = Instruction::CallNode(NodeKind::Add);
    let code = push_a.encoding() + push_b.encoding() + call.encoding() + Instruction::End.encoding();
    // Compiling.
    let marked = CodeModel::empty().mark_label(node.name);
    let after_a = emit_input_port(net, node, "a"@, marked);
    let after_b = emit_input_port(net, node, "b"@, after_a);
    assert(after_a == marked.emit(push_a));
    assert(after_b == after_a.emit(push_b));
    assert(emit_inputs(net, node, 0, marked) == after_b) by {
        reveal_with_fuel(emit_inputs, 3);
        assert(NodeKind::Add.port_names().len() == 2);
        assert(NodeKind::Add.port_names()[0] == "a"@);
        assert(NodeKind::Add.port_names()[1] == "b"@);
    }
    let done = emit_node(net, node, CodeModel::empty()).emit(Instruction::End);
    assert(done == after_b.emit(call).emit(Instruction::End));
    assert(done.bytecode =~= code);
    assert(done.overflow is None);
    assert(done.constant_pool =~= Seq::empty());
    // Running.
    let start = machine_for(compile_spec(net));
    assert(start.bytecode == code);
    assert(code.len() == 13);
    assert(code.subrange(0, 5) =~= push_a.encoding());
    assert(code.subrange(5, 10) =~= push_b.encoding());
    assert(code.subrange(10, 12) =~= call.encoding());
    assert(code.subrange(12, 13) =~= Instruction::End.encoding());
    lemma_decode_encoding(code, 0, push_a);
    lemma_decode_encoding(code, 5, push_b);
    lemma_decode_encoding(code, 10, call);
    lemma_decode_encoding(code, 12, Instruction::End);
    let first = MachineModel { ip: 5, stack: seq![ValueModel::Int(a)], ..start };
    let second = MachineModel { ip: 10, stack: seq![ValueModel::Int(a), ValueModel::Int(b)], ..start };
    let third = MachineModel {
        ip: 12,
        stack: seq![ValueModel::IntList(seq![wrap_i32(a + b)])],
        ..start
    };
    let last = MachineModel { ip: 13, ..third };
    assert(start.step() == (first, Status::Running)) by {
        assert(start.stack.push(ValueModel::Int(a)) =~= first.stack);
    }
    assert(first.step() == (second, Status::Running)) by {
        assert(first.stack.push(ValueModel::Int(b)) =~= second.stack);
    }
    assert(second.step() == (third, Status::Running)) by {
        let called = MachineModel { ip: 12, ..second };
        assert(called.stack.last() == ValueModel::Int(b));
        assert(called.stack.drop_last() =~= seq![ValueModel::Int(a)]);
        assert(called.stack.drop_last().drop_last() =~= Seq::<ValueModel>::empty());
        assert(sums(ValueModel::Int(b), ValueModel::Int(a)) =~= seq![wrap_i32(a + b)]);
        assert(Seq::<ValueModel>::empty().push(ValueModel::IntList(seq![wrap_i32(a + b)]))
            =~= third.stack);
    }
    assert(third.step() == (last, Status::Halted));
    assert(start.run(fuel) == (last, Status::Halted)) by {
        reveal_with_fuel(MachineModel::run, 5);
    }
}

/// Element-wise sums do not depend on the order of the two values.
pub proof fn lemma_sums_commute(a: ValueModel, b: ValueModel)
    ensures
        sums(a, b) == sums(b, a),
{
    assert(sums(a, b) =~= sums(b, a));
}

/// A call of a node that is no switch takes the values of its ports off the
/// stack and leaves what its kind makes of them.
pub proof fn lemma_call_applies(kind: NodeKind, below: Seq<ValueModel>, inputs: Seq<ValueModel>)
    requires
        kind != NodeKind::Switch,
        inputs.len() == kind.port_names().len(),
    ensures
        call(kind, below + inputs) == match apply(kind, inputs) {
            Ok(value) => Ok::<Seq<ValueModel>, RuntimeErrorKind>(below.push(value)),
            Err(error) => Err::<Seq<ValueModel>, RuntimeErrorKind>(error),
        },
{
    let stack = below + inputs;
    match kind {
        NodeKind::Int => {
            assert(stack =~= below.push(inputs[0]));
        },
        NodeKind::Add => {
            assert(stack.last() == inputs[1]);
            assert(stack.drop_last() =~= below.push(inputs[0]));
            assert(stack.drop_last().drop_last() =~= below);
            lemma_sums_commute(inputs[0], inputs[1]);
        },
        NodeKind::Negate => {
            assert(stack.last() == inputs[0]);
            assert(stack.drop_last() =~= below);
        },
        NodeKind::Switch => {},
        NodeKind::Frame => {
            assert(stack =~= below);
        },
    }
}

/// In a network without a switch, the evaluation of a port pushes the
/// value of the port.
pub proof fn lemma_port_pushes_its_value(
    net: NetworkModel,
    node: NodeModel,
    port: Seq<char>,
    stack: Seq<ValueModel>,
)
    requires
        net.acyclic(),
        has_no_switch(net),
    ensures
        port_effect(net, node, port, stack) == match port_value(net, node, port) {
            Ok(value) => Ok::<Seq<ValueModel>, RuntimeErrorKind>(stack.push(value)),
            Err(error) => Err::<Seq<ValueModel>, RuntimeErrorKind>(error),
        },
    decreases net.rank(node.name), 0nat, 0nat,
{
    net.lemma_driver_ranks_lower(node.name, port);
    if let Some(source) = net.source(node.name, port) {
        lemma_node_pushes_its_value(net, source, stack);
    }
}

/// In a network without a switch, the evaluation of the ports from
/// position `from` on pushes their values in port order.
pub proof fn lemma_inputs_push_their_values(
    net: NetworkModel,
    node: NodeModel,
    from: nat,
    stack: Seq<ValueModel>,
)
    requires
        net.acyclic(),
        has_no_switch(net),
        from <= node.kind.port_names().len(),
    ensures
        inputs_effect(net, node, from, stack) == match inputs_values(net, node, from) {
            Ok(values) => Ok::<Seq<ValueModel>, RuntimeErrorKind>(stack + values),
            Err(error) => Err::<Seq<ValueModel>, RuntimeErrorKind>(error),
        },
        inputs_values(net, node, from) matches Ok(values) ==> values.len()
            == node.kind.port_names().len() - from,
    decreases net.rank(node.name), 1nat, node.kind.port_names().len() - from,
{
    if from < node.kind.port_names().len() {
        let port = node.kind.port_names()[from as int];
        lemma_port_pushes_its_value(net, node, port, stack);
        if let Ok(value) = port_value(net, node, port) {
            lemma_inputs_push_their_values(net, node, from + 1, stack.push(value));
            if let Ok(rest) = inputs_values(net, node, from + 1) {
                assert(stack.push(value) + rest =~= stack + (seq![value] + rest));
            }
        }
    } else {
        assert(stack + Seq::<ValueModel>::empty() =~= stack);
    }
}

/// In a network without a switch, the evaluation of a node pushes the value
/// of the node.
pub proof fn lemma_node_pushes_its_value(
    net: NetworkModel,
    node: NodeModel,
    stack: Seq<ValueModel>,
)
    requires
        net.acyclic(),
        has_no_switch(net),
        net.nodes.contains(node),
    ensures
        node_effect(net, node, stack) == match node_value(net, node) {
            Ok(value) => Ok::<Seq<ValueModel>, RuntimeErrorKind>(stack.push(value)),
            Err(error) => Err::<Seq<ValueModel>, RuntimeErrorKind>(error),
        },
    decreases net.rank(node.name), 2nat, 0nat,
{
    assert(node.kind != NodeKind::Switch);
    lemma_inputs_push_their_values(net, node, 0, stack);
    if let Ok(inputs) = inputs_values(net, node, 0) {
        lemma_call_applies(node.kind, stack, inputs);
    }
}

/// The program of a network without a switch computes the value of the
/// rendered node: run for at least as many instructions as it has bytes, it
/// halts at its end with that value alone on the stack, or else fails as the
/// evaluation of the node fails.
pub proof fn law_program_computes_the_value(net: NetworkModel, fuel: nat)
    requires
        net.acyclic(),
        has_no_switch(net),
        net.rendered() is Some,
        operands_fit(net),
        fuel >= compile_spec(net).bytecode.len(),
    ensures
        match node_value(net, net.rendered().unwrap()) {
            Ok(value) => machine_for(compile_spec(net)).run(fuel) == (
                advanced(
                    machine_for(compile_spec(net)),
                    compile_spec(net).bytecode.len() as int,
                    seq![value],
                ),
                Status::Halted,
            ),
            Err(error) => machine_for(compile_spec(net)).run(fuel).1 == Status::Failed(
                error,
            ),
        },
{
    let node = net.rendered().unwrap();
    net.lemma_find_node_name(net.rendered_node);
    lemma_node_pushes_its_value(net, node, Seq::empty());
    law_program_has_the_effect(net, fuel);
    if let Ok(value) = node_value(net, node) {
        assert(Seq::<ValueModel>::empty().push(value) =~= seq![value]);
    }
}

/// A switch selects by its selector: where the rendered node is a switch
/// whose selector is the constant `k`, and the candidate of ordinal `k` is
/// fed by an `Int` node whose port takes the constant `value`, the program
/// halts with the selector on the stack and `value` on top of it.
pub proof fn law_switch_selects_the_candidate(
    net: NetworkModel,
    k: i32,
    value: ValueModel,
    fuel: nat,
)
    requires
        net.acyclic(),
        branches_are_apart(net),
        net.rendered() is Some,
        net.rendered().unwrap().kind == NodeKind::Switch,
        net.source(net.rendered().unwrap().name, "index"@) is None,
        net.rendered().unwrap().values["index"@] == ValueModel::Int(k),
        0 <= k < 4,
        candidate(net, net.rendered().unwrap(), k + 1) is Some,
        candidate(net, net.rendered().unwrap(), k + 1).unwrap().kind == NodeKind::Int,
        net.source(candidate(net, net.rendered().unwrap(), k + 1).unwrap().name, "v"@) is None,
        candidate(net, net.rendered().unwrap(), k + 1).unwrap().values["v"@] == value,
        operands_fit(net),
        fuel >= compile_spec(net).bytecode.len(),
    ensures
        machine_for(compile_spec(net)).run(fuel) == (
            advanced(
                machine_for(compile_spec(net)),
                compile_spec(net).bytecode.len() as int,
                seq![ValueModel::Int(k), value],
            ),
            Status::Halted,
        ),
{
    let node = net.rendered().unwrap();
    let source = candidate(net, node, k + 1).unwrap();
    let selected = seq![ValueModel::Int(k)];
    law_program_has_the_effect(net, fuel);
    assert(NodeKind::Switch.port_names()[0] == "index"@);
    assert(NodeKind::Int.port_names()[0] == "v"@);
    assert(port_effect(net, node, "index"@, Seq::empty()) == Ok::<
        Seq<ValueModel>,
        RuntimeErrorKind,
    >(selected)) by {
        assert(Seq::<ValueModel>::empty().push(ValueModel::Int(k)) =~= selected);
    }
    assert(selected.last() == ValueModel::Int(k));
    assert(chosen(net, node, 1, ValueModel::Int(k)) == k + 1) by {
        reveal_with_fuel(chosen, 5);
    }
    lemma_select_is_chosen(net, node, 1, selected);
    assert(node_effect(net, node, Seq::empty()) == node_effect(net, source, selected));
    let pushed = selected.push(value);
    assert(port_effect(net, source, "v"@, selected) == Ok::<Seq<ValueModel>, RuntimeErrorKind>(
        pushed,
    ));
    assert(inputs_effect(net, source, 0, selected) == Ok::<Seq<ValueModel>, RuntimeErrorKind>(
        pushed,
    )) by {
        reveal_with_fuel(inputs_effect, 3);
    }
    assert(call(NodeKind::Int, pushed) == Ok::<Seq<ValueModel>, RuntimeErrorKind>(pushed));
    assert(pushed =~= seq![ValueModel::Int(k), value]);
}

/// A node that the evaluation of the ports of another comes to feeds a port
/// of a node that ranks no higher than the other.
pub proof fn lemma_visited_through_ports_feeds(
    net: NetworkModel,
    node: NodeModel,
    from: nat,
    name: Seq<char>,
)
    requires
        net.acyclic(),
        inputs_visit(net, node, from, name),
    ensures
        exists|j: int|
            0 <= j < net.connections.len() && (#[trigger] net.connections[j]).output == name
                && net.rank(net.connections[j].input) <= net.rank(node.name),
    decreases net.rank(node.name), 1nat, node.kind.port_names().len() - from,
{
    let port = node.kind.port_names()[from as int];
    if port_visits(net, node, port, name) {
        let source = net.source(node.name, port).unwrap();
        net.lemma_driver_ranks_lower(node.name, port);
        net.lemma_driver_position(node.name, port, 0);
        let d = net.driver_position_from(node.name, port, 0).unwrap();
        net.lemma_find_node_name(net.connections[d].output);
        if source.name == name {
            assert(net.connections[d].output == name);
        } else {
            lemma_visited_feeds(net, source, name);
        }
    } else {
        lemma_visited_through_ports_feeds(net, node, from + 1, name);
    }
}

/// A node that the evaluation of another comes to feeds a port of a node
/// that ranks no higher than the other.
pub proof fn lemma_visited_feeds(net: NetworkModel, node: NodeModel, name: Seq<char>)
    requires
        net.acyclic(),
        visits(net, node, name),
        node.name != name,
    ensures
        exists|j: int|
            0 <= j < net.connections.len() && (#[trigger] net.connections[j]).output == name
                && net.rank(net.connections[j].input) <= net.rank(node.name),
    decreases net.rank(node.name), 2nat, 0nat,
{
    lemma_visited_through_ports_feeds(net, node, 0, name);
}

/// In a network in which the result of every node goes to one port at most,
/// the branches of every switch are apart.
pub proof fn law_single_use_keeps_branches_apart(net: NetworkModel)
    requires
        net.acyclic(),
        net.feeds_one_port_each(),
    ensures
        branches_are_apart(net),
{
    assert forall|i: int, k: int, later: int|
        0 <= i < net.nodes.len() && net.nodes[i].kind == NodeKind::Switch && 1 <= k < later
            < NodeKind::Switch.port_names().len() && (#[trigger] candidate(net, net.nodes[i], k))
            is Some && (#[trigger] candidate(net, net.nodes[i], later)) is Some implies !visits(
        net,
        candidate(net, net.nodes[i], later).unwrap(),
        candidate(net, net.nodes[i], k).unwrap().name,
    ) by {
        let node = net.nodes[i];
        let first = candidate(net, node, k).unwrap();
        let second = candidate(net, node, later).unwrap();
        let first_port = NodeKind::Switch.port_names()[k];
        let second_port = NodeKind::Switch.port_names()[later];
        NodeKind::Switch.lemma_port_names_differ();
        assert(first_port != second_port);
        net.lemma_driver_position(node.name, first_port, 0);
        net.lemma_driver_position(node.name, second_port, 0);
        let d = net.driver_position_from(node.name, first_port, 0).unwrap();
        let e = net.driver_position_from(node.name, second_port, 0).unwrap();
        net.lemma_find_node_name(net.connections[d].output);
        net.lemma_find_node_name(net.connections[e].output);
        net.lemma_driver_ranks_lower(node.name, second_port);
        assert(d != e);
        if visits(net, second, first.name) {
            if second.name == first.name {
                assert(net.connections[d].output == net.connections[e].output);
            } else {
                lemma_visited_feeds(net, second, first.name);
                let j = choose|j: int|
                    0 <= j < net.connections.len() && (#[trigger] net.connections[j]).output
                        == first.name && net.rank(net.connections[j].input) <= net.rank(
                        second.name,
                    );
                assert(j != d);
                assert(net.connections[j].output == net.connections[d].output);
            }
        }
    }
}

/// In a network in which every connection starts at a node and every node
/// is complete, the ports of a node from position `from` on can be
/// compiled.
pub proof fn lemma_inputs_of_a_whole_network_are_ready(
    net: NetworkModel,
    node: NodeModel,
    from: nat,
)
    requires
        net.acyclic(),
        net.resolved(),
        net.complete(),
        net.nodes.contains(node),
        node.kind != NodeKind::Switch,
    ensures
        net.inputs_are_ready(node, from),
    decreases net.rank(node.name), 1nat, node.kind.port_names().len() - from,
{
    if from < node.kind.port_names().len() {
        lemma_port_of_a_whole_network_is_ready(net, node, from as int);
        lemma_inputs_of_a_whole_network_are_ready(net, node, from + 1);
    }
}

/// In a network in which every connection starts at a node and every node
/// is complete, a port that is connected or read can be compiled.
pub proof fn lemma_port_of_a_whole_network_is_ready(net: NetworkModel, node: NodeModel, p: int)
    requires
        net.acyclic(),
        net.resolved(),
        net.complete(),
        net.nodes.contains(node),
        0 <= p < node.kind.port_names().len(),
    ensures
        net.driver(node.name, node.kind.port_names()[p]) is Some || node.kind != NodeKind::Switch
            || p == 0 ==> net.port_is_ready(node, node.kind.port_names()[p]),
    decreases net.rank(node.name), 0nat, 0nat,
{
    let port = node.kind.port_names()[p];
    let i = choose|i: int| 0 <= i < net.nodes.len() && net.nodes[i] == node;
    assert(net.node_is_complete(net.nodes[i]));
    net.lemma_driver_position(node.name, port, 0);
    net.lemma_driver_ranks_lower(node.name, port);
    if let Some(k) = net.driver_position_from(node.name, port, 0) {
        assert(net.find_node(net.connections[k].output) is Some);
        law_nodes_of_a_whole_network_are_visitable(net, net.source(node.name, port).unwrap());
    }
}

/// A network in which every connection starts at a node, no chain of
/// connections is circular and every node is complete can be compiled from
/// each of its nodes.
pub proof fn law_nodes_of_a_whole_network_are_visitable(net: NetworkModel, node: NodeModel)
    requires
        net.acyclic(),
        net.resolved(),
        net.complete(),
        net.nodes.contains(node),
    ensures
        net.visitable(node),
    decreases net.rank(node.name), 2nat, 0nat,
{
    if node.kind == NodeKind::Switch {
        lemma_port_of_a_whole_network_is_ready(net, node, 0);
        lemma_port_of_a_whole_network_is_ready(net, node, 1);
        lemma_port_of_a_whole_network_is_ready(net, node, 2);
        lemma_port_of_a_whole_network_is_ready(net, node, 3);
        lemma_port_of_a_whole_network_is_ready(net, node, 4);
    } else {
        lemma_inputs_of_a_whole_network_are_ready(net, node, 0);
    }
}

/// A network in which every connection starts at a node, no chain of
/// connections is circular and every node is complete can be compiled.
pub proof fn law_whole_networks_are_compilable(net: NetworkModel)
    requires
        net.acyclic(),
        net.resolved(),
        net.complete(),
    ensures
        net.compilable(),
{
    if let Some(node) = net.rendered() {
        net.lemma_find_node_name(net.rendered_node);
        law_nodes_of_a_whole_network_are_visitable(net, node);
    }
}

} // verus!
