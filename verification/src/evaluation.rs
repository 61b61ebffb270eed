//! What a network evaluates to, said without reference to bytecode.
//!
//! In a network without a switch every node has a value: what its kind
//! makes of the values of its ports, where the value of a port is that of
//! the node connected to it, or else its constant.
//!
//! A switch has no value in this sense: it leaves its selector on the stack
//! below the result of the candidate that it selects, and nothing where it
//! selects none. So the evaluation of a network with switches is said by
//! what it makes of a stack.

use crate::compiler::{candidate, compile_network, compile_spec, operands_fit};
use crate::correctness::{law_program_has_the_effect, machine_for};
use crate::laws::law_single_use_keeps_branches_apart;
use crate::network::{Network, NetworkModel, NodeKind, NodeModel};
use crate::value::{Value, ValueModel};
use crate::vm::{
    longer, negations, sums, MachineModel, RuntimeError, RuntimeErrorKind, Status, FRAME_NUMBER,
    STEP_LIMIT, VM,
};
use vstd::pervasive::unreached;
use vstd::prelude::*;

verus! {

/// What a node of kind `kind` makes of the values of its ports, which
/// `inputs` holds in port order.
pub open spec fn apply(kind: NodeKind, inputs: Seq<ValueModel>) -> Result<
    ValueModel,
    RuntimeErrorKind,
>
    recommends
        inputs.len() == kind.port_names().len(),
{
    match kind {
        NodeKind::Int => Ok(inputs[0]),
        NodeKind::Add => {
            if longer(inputs[0].len(), inputs[1].len()) > 0 && (!inputs[0].has_elements()
                || !inputs[1].has_elements()) {
                Err(RuntimeErrorKind::EmptyList)
            } else {
                Ok(ValueModel::IntList(sums(inputs[0], inputs[1])))
            }
        },
        NodeKind::Negate => Ok(ValueModel::IntList(negations(inputs[0]))),
        NodeKind::Switch => Err(RuntimeErrorKind::UnsupportedNode { kind }),
        NodeKind::Frame => Ok(ValueModel::Int(FRAME_NUMBER)),
    }
}

/// The value of the port called `port` of `node`: the value of the node that
/// feeds it, or else its constant.
pub open spec fn port_value(net: NetworkModel, node: NodeModel, port: Seq<char>) -> Result<
    ValueModel,
    RuntimeErrorKind,
>
    decreases net.rank(node.name), 0nat, 0nat,
    when net.acyclic()
{
    match net.source(node.name, port) {
        Some(source) => {
            proof {
                net.lemma_driver_ranks_lower(node.name, port);
            }
            node_value(net, source)
        },
        None => Ok(node.values[port]),
    }
}

/// The values of the ports of `node` from position `from` on, in port
/// order, or the first error among them.
pub open spec fn inputs_values(net: NetworkModel, node: NodeModel, from: nat) -> Result<
    Seq<ValueModel>,
    RuntimeErrorKind,
>
    decreases net.rank(node.name), 1nat, node.kind.port_names().len() - from,
    when net.acyclic()
{
    if from >= node.kind.port_names().len() {
        Ok(Seq::empty())
    } else {
        match port_value(net, node, node.kind.port_names()[from as int]) {
            Err(error) => Err(error),
            Ok(value) => match inputs_values(net, node, from + 1) {
                Err(error) => Err(error),
                Ok(rest) => Ok(seq![value] + rest),
            },
        }
    }
}

/// The value of `node`: what its kind makes of the values of its ports.
pub open spec fn node_value(net: NetworkModel, node: NodeModel) -> Result<
    ValueModel,
    RuntimeErrorKind,
>
    decreases net.rank(node.name), 2nat, 0nat,
    when net.acyclic()
{
    match inputs_values(net, node, 0) {
        Err(error) => Err(error),
        Ok(inputs) => apply(node.kind, inputs),
    }
}

/// Whether the network has no switch.
pub open spec fn has_no_switch(net: NetworkModel) -> bool {
    forall|i: int| 0 <= i < net.nodes.len() ==> (#[trigger] net.nodes[i]).kind != NodeKind::Switch
}

/// What a call of a node of kind `kind` makes of the stack: the stack after
/// it, or the error that it fails with.
pub open spec fn call(kind: NodeKind, stack: Seq<ValueModel>) -> Result<
    Seq<ValueModel>,
    RuntimeErrorKind,
> {
    let machine = MachineModel {
        bytecode: Seq::empty(),
        constant_pool: Seq::empty(),
        ip: 0,
        stack,
    };
    match machine.call_node(kind).1 {
        Status::Failed(error) => Err(error),
        _ => Ok(machine.call_node(kind).0.stack),
    }
}

/// What the evaluation of the port called `port` of `node` makes of the
/// stack: what the node that feeds the port makes of it, or else the stack
/// with the constant of the port on top.
pub open spec fn port_effect(
    net: NetworkModel,
    node: NodeModel,
    port: Seq<char>,
    stack: Seq<ValueModel>,
) -> Result<Seq<ValueModel>, RuntimeErrorKind>
    decreases net.rank(node.name), 0nat, 0nat,
    when net.acyclic()
{
    match net.source(node.name, port) {
        Some(source) => {
            proof {
                net.lemma_driver_ranks_lower(node.name, port);
            }
            node_effect(net, source, stack)
        },
        None => Ok(stack.push(node.values[port])),
    }
}

/// What the evaluation of the ports of `node` from position `from` on, in
/// port order, makes of the stack.
pub open spec fn inputs_effect(
    net: NetworkModel,
    node: NodeModel,
    from: nat,
    stack: Seq<ValueModel>,
) -> Result<Seq<ValueModel>, RuntimeErrorKind>
    decreases net.rank(node.name), 1nat, node.kind.port_names().len() - from,
    when net.acyclic()
{
    if from >= node.kind.port_names().len() {
        Ok(stack)
    } else {
        match port_effect(net, node, node.kind.port_names()[from as int], stack) {
            Err(error) => Err(error),
            Ok(pushed) => inputs_effect(net, node, from + 1, pushed),
        }
    }
}

/// What a switch makes of the stack once its selector is on top, the
/// candidates below position `from` having been passed over: the first
/// connected candidate whose ordinal the selector equals is evaluated on the
/// stack, selector included, and where there is none the selector is taken
/// off.
pub open spec fn select_effect(
    net: NetworkModel,
    node: NodeModel,
    from: nat,
    stack: Seq<ValueModel>,
) -> Result<Seq<ValueModel>, RuntimeErrorKind>
    decreases net.rank(node.name), 1nat, NodeKind::Switch.port_names().len() - from,
    when net.acyclic()
{
    if stack.len() == 0 {
        Err(RuntimeErrorKind::StackUnderflow)
    } else if from < 1 || from >= NodeKind::Switch.port_names().len() {
        Ok(stack.drop_last())
    } else {
        match candidate(net, node, from as int) {
            Some(source) => {
                if ValueModel::Int((from - 1) as i32).same(stack.last()) {
                    proof {
                        net.lemma_driver_ranks_lower(
                            node.name,
                            NodeKind::Switch.port_names()[from as int],
                        );
                    }
                    node_effect(net, source, stack)
                } else {
                    select_effect(net, node, from + 1, stack)
                }
            },
            None => select_effect(net, node, from + 1, stack),
        }
    }
}

/// What the evaluation of `node` makes of the stack. A switch evaluates its
/// selector and then the candidate that it selects; any other node
/// evaluates its ports in order and is then called.
pub open spec fn node_effect(net: NetworkModel, node: NodeModel, stack: Seq<ValueModel>) -> Result<
    Seq<ValueModel>,
    RuntimeErrorKind,
>
    decreases net.rank(node.name), 2nat, 0nat,
    when net.acyclic()
{
    if node.kind == NodeKind::Switch {
        match port_effect(net, node, NodeKind::Switch.port_names()[0], stack) {
            Err(error) => Err(error),
            Ok(selected) => select_effect(net, node, 1, selected),
        }
    } else {
        match inputs_effect(net, node, 0, stack) {
            Err(error) => Err(error),
            Ok(pushed) => call(node.kind, pushed),
        }
    }
}

/// Whether the evaluation of the port called `port` of `node` comes to the
/// node called `name`.
pub open spec fn port_visits(
    net: NetworkModel,
    node: NodeModel,
    port: Seq<char>,
    name: Seq<char>,
) -> bool
    decreases net.rank(node.name), 0nat, 0nat,
    when net.acyclic()
{
    match net.source(node.name, port) {
        Some(source) => {
            proof {
                net.lemma_driver_ranks_lower(node.name, port);
            }
            visits(net, source, name)
        },
        None => false,
    }
}

/// Whether the evaluation of a port of `node` at position `from` or behind
/// it comes to the node called `name`.
pub open spec fn inputs_visit(net: NetworkModel, node: NodeModel, from: nat, name: Seq<char>) -> bool
    decreases net.rank(node.name), 1nat, node.kind.port_names().len() - from,
    when net.acyclic()
{
    if from >= node.kind.port_names().len() {
        false
    } else {
        port_visits(net, node, node.kind.port_names()[from as int], name) || inputs_visit(
            net,
            node,
            from + 1,
            name,
        )
    }
}

/// Whether the evaluation of `node` comes to the node called `name`: it is
/// `node` itself, or the evaluation of a port of `node` comes to it.
pub open spec fn visits(net: NetworkModel, node: NodeModel, name: Seq<char>) -> bool
    decreases net.rank(node.name), 2nat, 0nat,
    when net.acyclic()
{
    node.name == name || inputs_visit(net, node, 0, name)
}

/// Whether the branches of every switch are apart: the node that feeds a
/// candidate does not occur again in the evaluation of a later candidate of
/// the same switch.
pub open spec fn branches_are_apart(net: NetworkModel) -> bool {
    forall|i: int, k: int, later: int|
        0 <= i < net.nodes.len() && net.nodes[i].kind == NodeKind::Switch && 1 <= k < later
            < NodeKind::Switch.port_names().len() && (#[trigger] candidate(net, net.nodes[i], k))
            is Some && (#[trigger] candidate(net, net.nodes[i], later)) is Some ==> !visits(
            net,
            candidate(net, net.nodes[i], later).unwrap(),
            candidate(net, net.nodes[i], k).unwrap().name,
        )
}

/// Why the evaluation of a network gave no result: the error that the
/// program of the network failed with, and the stack that it left behind.
#[derive(Debug)]
pub struct EvaluationError {
    pub error: RuntimeError,
    pub stack: Vec<Value>,
}

/// Whether `result` is what compiling `net` and running the program gives:
/// the stack that the program halts with, or the error that the program
/// fails with and the stack that it leaves.
pub open spec fn is_evaluation_of(result: Result<Vec<Value>, EvaluationError>, net: NetworkModel) -> bool {
    let (machine, status) = machine_for(compile_spec(net)).run(STEP_LIMIT as nat);
    match status {
        Status::Halted => result matches Ok(stack) && stack@.map_values(|v: Value| v@)
            == machine.stack,
        Status::Failed(kind) => result matches Err(failure) && failure.error.reports(kind)
            && failure.stack@.map_values(|v: Value| v@) == machine.stack,
        Status::Running => result matches Err(failure) && failure.error.reports(
            RuntimeErrorKind::StepLimitExceeded,
        ) && failure.stack@.map_values(|v: Value| v@) == machine.stack,
    }
}

/// Evaluates the network: compiles it and runs the program.
///
/// Where the network has a rendered node, every jump target and constant
/// pool index fits its operand, and the branches of its switches are
/// apart, as they are where the result of every node goes to one port at
/// most, the result is what the evaluation of that node makes of an empty
/// stack.
pub fn evaluate(network: &Network) -> (result: Result<Vec<Value>, EvaluationError>)
    requires
        network@.compilable(),
    ensures
        is_evaluation_of(result, network@),
        (branches_are_apart(network@) || network@.feeds_one_port_each()) && network@.rendered()
            is Some && operands_fit(network@) ==> match node_effect(
            network@,
            network@.rendered().unwrap(),
            Seq::empty(),
        ) {
            Ok(stack) => result matches Ok(values) && values@.map_values(|v: Value| v@) == stack,
            Err(kind) => result matches Err(failure) && failure.error.reports(kind),
        },
{
    let compiled = match compile_network(network) {
        Ok(compiled) => compiled,
        Err(_) => unreached(),
    };
    proof {
        if network@.feeds_one_port_each() && network@.rendered() is Some {
            law_single_use_keeps_branches_apart(network@);
        }
        if branches_are_apart(network@) && network@.rendered() is Some && operands_fit(network@) {
            assert(compiled.bytecode.len() <= STEP_LIMIT);
            law_program_has_the_effect(network@, STEP_LIMIT as nat);
        }
    }
    let mut vm = VM::new(compiled.bytecode, compiled.constant_pool);
    match vm.run() {
        Ok(_) => Ok(vm.stack),
        Err(error) => Err(EvaluationError { error, stack: vm.stack }),
    }
}

} // verus!
