//! Where the code of a node lies: code generation appends to what stands
//! already and, for a switch, overwrites the address operands of the
//! switch's own jumps, and nothing else.

use crate::bytecode::{u16_bytes, Instruction};
use crate::compiler::{
    emit_bodies, emit_input_port, emit_inputs, emit_node, emit_switch, emit_tests, patch_ends,
    patch_targets, CodeModel, FixupModel, MAX_ADDRESS, PLACEHOLDER_ADDRESS,
};
use crate::value::ValueModel;
use crate::evaluation::{inputs_visit, port_visits, visits};
use crate::network::{NetworkModel, NodeKind, NodeModel};
use vstd::prelude::*;

verus! {

/// The two bytes that an address operand holds for `address`.
pub open spec fn address_bytes(address: nat) -> Seq<u8> {
    u16_bytes((address % 0x1_0000) as u16)
}

/// Whether the two bytes at `offset` of `code` hold `address`.
pub open spec fn holds_address(code: Seq<u8>, offset: int, address: nat) -> bool {
    &&& 0 <= offset
    &&& offset + 2 <= code.len()
    &&& code[offset] == address_bytes(address)[0]
    &&& code[offset + 1] == address_bytes(address)[1]
}

/// Whether `offset` is one of the two bytes of the operand at `operand`.
pub open spec fn within_operand(offset: int, operand: int) -> bool {
    offset == operand || offset == operand + 1
}

/// Whether the operands at `offsets` lie between `low` and `high`, one
/// behind the other without overlap.
pub open spec fn operands_lie_in(offsets: Seq<int>, low: int, high: int) -> bool {
    &&& forall|j: int|
        0 <= j < offsets.len() ==> low <= (#[trigger] offsets[j]) && offsets[j] + 2 <= high
    &&& forall|i: int, j: int|
        0 <= i < j < offsets.len() ==> (#[trigger] offsets[i]) + 2 <= (#[trigger] offsets[j])
}

/// The offsets of fixups.
pub open spec fn offsets_of(fixups: Seq<FixupModel>) -> Seq<int> {
    fixups.map_values(|fixup: FixupModel| fixup.offset)
}

/// Overwriting an operand changes its two bytes and no other, and leaves
/// labels and constants as they are. It puts on record only an address
/// that does not fit.
pub proof fn lemma_patch(state: CodeModel, offset: int, address: nat)
    requires
        0 <= offset,
        offset + 2 <= state.bytecode.len(),
    ensures
        state.patch(offset, address).bytecode.len() == state.bytecode.len(),
        state.patch(offset, address).labels == state.labels,
        state.patch(offset, address).constant_pool == state.constant_pool,
        holds_address(state.patch(offset, address).bytecode, offset, address),
        forall|k: int|
            0 <= k < state.bytecode.len() && !within_operand(k, offset) ==> state.patch(
                offset,
                address,
            ).bytecode[k] == state.bytecode[k],
        state.patch(offset, address).overflow is None ==> state.overflow is None && address
            <= MAX_ADDRESS,
        state.overflow is Some ==> state.patch(offset, address).overflow == state.overflow,
{
}

/// Giving the jumps to the end their address changes their operands and
/// nothing else.
pub proof fn lemma_patch_ends(state: CodeModel, ends: Seq<int>, from: nat, end: nat)
    requires
        operands_lie_in(ends, 0, state.bytecode.len() as int),
    ensures
        patch_ends(state, ends, from, end).bytecode.len() == state.bytecode.len(),
        patch_ends(state, ends, from, end).labels == state.labels,
        patch_ends(state, ends, from, end).constant_pool == state.constant_pool,
        forall|j: int|
            from <= j < ends.len() ==> holds_address(
                patch_ends(state, ends, from, end).bytecode,
                #[trigger] ends[j],
                end,
            ),
        forall|k: int|
            0 <= k < state.bytecode.len() && (forall|j: int|
                from <= j < ends.len() ==> !within_operand(k, #[trigger] ends[j])) ==> patch_ends(
                state,
                ends,
                from,
                end,
            ).bytecode[k] == state.bytecode[k],
        patch_ends(state, ends, from, end).overflow is None ==> state.overflow is None && (from
            < ends.len() ==> end <= MAX_ADDRESS),
    decreases ends.len() - from,
{
    if from < ends.len() {
        let first = state.patch(ends[from as int], end);
        let last = patch_ends(first, ends, from + 1, end);
        lemma_patch(state, ends[from as int], end);
        lemma_patch_ends(first, ends, from + 1, end);
        assert(holds_address(last.bytecode, ends[from as int], end)) by {
            assert forall|j: int| from + 1 <= j < ends.len() implies !within_operand(
                ends[from as int],
                #[trigger] ends[j],
            ) && !within_operand(ends[from as int] + 1, ends[j]) by {}
        }
        assert forall|k: int|
            0 <= k < state.bytecode.len() && (forall|j: int|
                from <= j < ends.len() ==> !within_operand(k, #[trigger] ends[j])) implies last.bytecode[k]
            == state.bytecode[k] by {
            assert(!within_operand(k, ends[from as int]));
            assert forall|j: int| from + 1 <= j < ends.len() implies !within_operand(
                k,
                #[trigger] ends[j],
            ) by {}
        }
    }
}

/// Giving the conditional jumps the addresses of their targets changes
/// their operands and nothing else.
pub proof fn lemma_patch_targets(state: CodeModel, fixups: Seq<FixupModel>, from: nat)
    requires
        operands_lie_in(offsets_of(fixups), 0, state.bytecode.len() as int),
    ensures
        patch_targets(state, fixups, from).bytecode.len() == state.bytecode.len(),
        patch_targets(state, fixups, from).labels == state.labels,
        patch_targets(state, fixups, from).constant_pool == state.constant_pool,
        forall|j: int|
            from <= j < fixups.len() ==> holds_address(
                patch_targets(state, fixups, from).bytecode,
                (#[trigger] fixups[j]).offset,
                state.labels[fixups[j].target],
            ),
        forall|k: int|
            0 <= k < state.bytecode.len() && (forall|j: int|
                from <= j < fixups.len() ==> !within_operand(k, (#[trigger] fixups[j]).offset))
                ==> patch_targets(state, fixups, from).bytecode[k] == state.bytecode[k],
        patch_targets(state, fixups, from).overflow is None ==> state.overflow is None && forall|
            j: int,
        |
            from <= j < fixups.len() ==> state.labels[(#[trigger] fixups[j]).target]
                <= MAX_ADDRESS,
    decreases fixups.len() - from,
{
    let offsets = offsets_of(fixups);
    assert forall|j: int| 0 <= j < fixups.len() implies (#[trigger] fixups[j]).offset
        == offsets[j] by {}
    if from < fixups.len() {
        let fixup = fixups[from as int];
        let first = state.patch(fixup.offset, state.labels[fixup.target]);
        let last = patch_targets(first, fixups, from + 1);
        assert(0 <= offsets[from as int] && offsets[from as int] + 2 <= state.bytecode.len());
        lemma_patch(state, fixup.offset, state.labels[fixup.target]);
        lemma_patch_targets(first, fixups, from + 1);
        assert forall|j: int| from + 1 <= j < fixups.len() implies fixup.offset + 2 <= (
        #[trigger] fixups[j]).offset by {
            assert(offsets[from as int] + 2 <= offsets[j]);
        }
        assert(holds_address(last.bytecode, fixup.offset, state.labels[fixup.target])) by {
            assert forall|j: int| from + 1 <= j < fixups.len() implies !within_operand(
                fixup.offset,
                (#[trigger] fixups[j]).offset,
            ) && !within_operand(fixup.offset + 1, fixups[j].offset) by {}
        }
        assert forall|k: int|
            0 <= k < state.bytecode.len() && (forall|j: int|
                from <= j < fixups.len() ==> !within_operand(
                    k,
                    (#[trigger] fixups[j]).offset,
                )) implies last.bytecode[k] == state.bytecode[k] by {
            assert(!within_operand(k, fixups[from as int].offset));
            assert forall|j: int| from + 1 <= j < fixups.len() implies !within_operand(
                k,
                (#[trigger] fixups[j]).offset,
            ) by {}
        }
        assert forall|j: int| from <= j < fixups.len() implies state.labels[(
        #[trigger] fixups[j]).target] <= MAX_ADDRESS || last.overflow is Some by {}
    }
}

/// Whether `later` holds all the code and the constants of `earlier` at
/// their places, and has a value on record that did not fit if `earlier`
/// has one.
pub open spec fn continues(later: CodeModel, earlier: CodeModel) -> bool {
    &&& earlier.bytecode.len() <= later.bytecode.len()
    &&& later.bytecode.subrange(0, earlier.bytecode.len() as int) == earlier.bytecode
    &&& earlier.constant_pool.len() <= later.constant_pool.len()
    &&& later.constant_pool.subrange(0, earlier.constant_pool.len() as int)
        == earlier.constant_pool
    &&& later.overflow is None ==> earlier.overflow is None
}

/// Continuing is transitive.
pub proof fn lemma_continues_further(last: CodeModel, middle: CodeModel, first: CodeModel)
    requires
        continues(last, middle),
        continues(middle, first),
    ensures
        continues(last, first),
{
    assert(last.bytecode.subrange(0, first.bytecode.len() as int) =~= first.bytecode) by {
        assert forall|k: int| 0 <= k < first.bytecode.len() implies last.bytecode[k]
            == first.bytecode[k] by {
            assert(last.bytecode.subrange(0, middle.bytecode.len() as int)[k]
                == middle.bytecode[k]);
            assert(middle.bytecode.subrange(0, first.bytecode.len() as int)[k]
                == first.bytecode[k]);
        }
    }
    assert(last.constant_pool.subrange(0, first.constant_pool.len() as int)
        =~= first.constant_pool) by {
        assert forall|k: int| 0 <= k < first.constant_pool.len() implies last.constant_pool[k]
            == first.constant_pool[k] by {
            assert(last.constant_pool.subrange(0, middle.constant_pool.len() as int)[k]
                == middle.constant_pool[k]);
            assert(middle.constant_pool.subrange(0, first.constant_pool.len() as int)[k]
                == first.constant_pool[k]);
        }
    }
}

/// Appending an instruction continues the state.
pub proof fn lemma_emit_continues(state: CodeModel, instruction: Instruction)
    ensures
        continues(state.emit(instruction), state),
        state.emit(instruction).bytecode.len() == state.bytecode.len()
            + instruction.spec_size(),
{
    let after = state.emit(instruction);
    assert(after.bytecode.subrange(0, state.bytecode.len() as int) =~= state.bytecode);
    assert(after.constant_pool.subrange(0, state.constant_pool.len() as int)
        =~= state.constant_pool);
}

/// A state continues itself.
pub proof fn lemma_continues_itself(state: CodeModel)
    ensures
        continues(state, state),
{
    assert(state.bytecode.subrange(0, state.bytecode.len() as int) =~= state.bytecode);
    assert(state.constant_pool.subrange(0, state.constant_pool.len() as int)
        =~= state.constant_pool);
}

/// What continuing says of the single bytes and constants.
pub proof fn lemma_continues_keeps(later: CodeModel, earlier: CodeModel)
    requires
        continues(later, earlier),
    ensures
        forall|k: int|
            0 <= k < earlier.bytecode.len() ==> later.bytecode[k] == #[trigger] earlier.bytecode[k],
        forall|k: int|
            0 <= k < earlier.constant_pool.len() ==> later.constant_pool[k]
                == #[trigger] earlier.constant_pool[k],
{
    assert forall|k: int| 0 <= k < earlier.bytecode.len() implies later.bytecode[k]
        == #[trigger] earlier.bytecode[k] by {
        assert(later.bytecode.subrange(0, earlier.bytecode.len() as int)[k] == later.bytecode[k]);
    }
    assert forall|k: int| 0 <= k < earlier.constant_pool.len() implies later.constant_pool[k]
        == #[trigger] earlier.constant_pool[k] by {
        assert(later.constant_pool.subrange(0, earlier.constant_pool.len() as int)[k]
            == later.constant_pool[k]);
    }
}

/// A state that keeps the bytes and constants of an earlier one, and has a
/// value on record if the earlier one has, continues it.
pub proof fn lemma_keeping_continues(later: CodeModel, earlier: CodeModel)
    requires
        earlier.bytecode.len() <= later.bytecode.len(),
        earlier.constant_pool.len() <= later.constant_pool.len(),
        forall|k: int|
            0 <= k < earlier.bytecode.len() ==> later.bytecode[k] == #[trigger] earlier.bytecode[k],
        forall|k: int|
            0 <= k < earlier.constant_pool.len() ==> later.constant_pool[k]
                == #[trigger] earlier.constant_pool[k],
        later.overflow is None ==> earlier.overflow is None,
    ensures
        continues(later, earlier),
{
    assert(later.bytecode.subrange(0, earlier.bytecode.len() as int) =~= earlier.bytecode);
    assert(later.constant_pool.subrange(0, earlier.constant_pool.len() as int)
        =~= earlier.constant_pool);
}

/// Whether the label of `name` is in `after` what it is in `before`.
pub open spec fn keeps_label(after: CodeModel, before: CodeModel, name: Seq<char>) -> bool {
    &&& after.labels.contains_key(name) == before.labels.contains_key(name)
    &&& after.labels[name] == before.labels[name]
}

/// A node that the evaluation of a port comes to ranks below the node that
/// the port belongs to.
pub proof fn lemma_port_visits_lower(
    net: NetworkModel,
    node: NodeModel,
    port: Seq<char>,
    name: Seq<char>,
)
    requires
        net.acyclic(),
        port_visits(net, node, port, name),
    ensures
        net.rank(name) < net.rank(node.name),
    decreases net.rank(node.name), 0nat, 0nat,
{
    net.lemma_driver_ranks_lower(node.name, port);
    lemma_visits_no_higher(net, net.source(node.name, port).unwrap(), name);
}

/// A node that the evaluation of the ports of a node comes to ranks below
/// that node.
pub proof fn lemma_inputs_visit_lower(
    net: NetworkModel,
    node: NodeModel,
    from: nat,
    name: Seq<char>,
)
    requires
        net.acyclic(),
        inputs_visit(net, node, from, name),
    ensures
        net.rank(name) < net.rank(node.name),
    decreases net.rank(node.name), 1nat, node.kind.port_names().len() - from,
{
    if port_visits(net, node, node.kind.port_names()[from as int], name) {
        lemma_port_visits_lower(net, node, node.kind.port_names()[from as int], name);
    } else {
        lemma_inputs_visit_lower(net, node, from + 1, name);
    }
}

/// A node that the evaluation of a node comes to ranks no higher than it.
pub proof fn lemma_visits_no_higher(net: NetworkModel, node: NodeModel, name: Seq<char>)
    requires
        net.acyclic(),
        visits(net, node, name),
    ensures
        net.rank(name) <= net.rank(node.name),
    decreases net.rank(node.name), 2nat, 0nat,
{
    if node.name != name {
        lemma_inputs_visit_lower(net, node, 0, name);
    }
}

/// Loading a constant continues the state and leaves the labels.
pub proof fn lemma_constant_lies(state: CodeModel, value: ValueModel)
    ensures
        continues(state.load_constant(value), state),
        state.load_constant(value).labels == state.labels,
{
    match value {
        ValueModel::Int(v) => {
            lemma_emit_continues(state, Instruction::ConstI32(v));
        },
        ValueModel::Float(bits) => {
            lemma_emit_continues(state, Instruction::ConstF32(bits));
        },
        _ => {
            let pooled = CodeModel { constant_pool: state.constant_pool.push(value), ..state };
            let index = state.constant_pool.len();
            let checked = pooled.check_index(index);
            let pushed = checked.emit(Instruction::ConstI32(CodeModel::index_operand(index)));
            lemma_emit_continues(checked, Instruction::ConstI32(CodeModel::index_operand(index)));
            lemma_emit_continues(pushed, Instruction::ValueLoad);
            lemma_continues_itself(state);
            lemma_continues_keeps(state, state);
            lemma_keeping_continues(checked, state);
            lemma_continues_further(pushed, checked, state);
            lemma_continues_further(pushed.emit(Instruction::ValueLoad), pushed, state);
        },
    }
}

/// The code of a port continues the state, and leaves the label of every
/// node that the evaluation of the port does not come to.
pub proof fn lemma_port_lies(net: NetworkModel, node: NodeModel, port: Seq<char>, state: CodeModel)
    requires
        net.acyclic(),
    ensures
        continues(emit_input_port(net, node, port, state), state),
        forall|name: Seq<char>|
            !port_visits(net, node, port, name) ==> #[trigger] keeps_label(
                emit_input_port(net, node, port, state),
                state,
                name,
            ),
    decreases net.rank(node.name), 0nat, 0nat,
{
    net.lemma_driver_ranks_lower(node.name, port);
    match net.source(node.name, port) {
        Some(source) => {
            lemma_node_lies(net, source, state);
        },
        None => {
            lemma_constant_lies(state, node.values[port]);
        },
    }
}

/// The code of the ports from position `from` on continues the state, and
/// leaves the label of every node that their evaluation does not come to.
pub proof fn lemma_inputs_lie(net: NetworkModel, node: NodeModel, from: nat, state: CodeModel)
    requires
        net.acyclic(),
    ensures
        continues(emit_inputs(net, node, from, state), state),
        forall|name: Seq<char>|
            !inputs_visit(net, node, from, name) ==> #[trigger] keeps_label(
                emit_inputs(net, node, from, state),
                state,
                name,
            ),
    decreases net.rank(node.name), 1nat, node.kind.port_names().len() - from,
{
    if from < node.kind.port_names().len() {
        let port = node.kind.port_names()[from as int];
        let first = emit_input_port(net, node, port, state);
        let after = emit_inputs(net, node, from + 1, first);
        lemma_port_lies(net, node, port, state);
        lemma_inputs_lie(net, node, from + 1, first);
        lemma_continues_further(after, first, state);
        assert forall|name: Seq<char>| !inputs_visit(net, node, from, name) implies #[trigger] keeps_label(
            after,
            state,
            name,
        ) by {
            assert(keeps_label(first, state, name));
            assert(keeps_label(after, first, name));
        }
    } else {
        lemma_continues_itself(state);
    }
}

/// The tests of a switch are appended to the state, and the operands of
/// their jumps are added to the fixups.
pub proof fn lemma_tests_lie(
    net: NetworkModel,
    node: NodeModel,
    from: nat,
    state: CodeModel,
    fixups: Seq<FixupModel>,
    low: int,
)
    requires
        low <= state.bytecode.len(),
        operands_lie_in(offsets_of(fixups), low, state.bytecode.len() as int),
    ensures
        continues(emit_tests(net, node, from, state, fixups).0, state),
        emit_tests(net, node, from, state, fixups).0.labels == state.labels,
        emit_tests(net, node, from, state, fixups).0.constant_pool == state.constant_pool,
        emit_tests(net, node, from, state, fixups).0.overflow == state.overflow,
        fixups.len() <= emit_tests(net, node, from, state, fixups).1.len(),
        forall|j: int|
            0 <= j < fixups.len() ==> #[trigger] emit_tests(net, node, from, state, fixups).1[j]
                == fixups[j],
        forall|j: int|
            fixups.len() <= j < emit_tests(net, node, from, state, fixups).1.len()
                ==> state.bytecode.len() + 7 <= (#[trigger] emit_tests(
                net,
                node,
                from,
                state,
                fixups,
            ).1[j]).offset,
        operands_lie_in(
            offsets_of(emit_tests(net, node, from, state, fixups).1),
            low,
            emit_tests(net, node, from, state, fixups).0.bytecode.len() as int,
        ),
    decreases NodeKind::Switch.port_names().len() - from,
{
    let (tested, all) = emit_tests(net, node, from, state, fixups);
    if from < 1 || from >= NodeKind::Switch.port_names().len() {
        lemma_continues_itself(state);
    } else {
        match net.source(node.name, NodeKind::Switch.port_names()[from as int]) {
            Some(source) => {
                let dup = state.emit(Instruction::Dup);
                let ordinal = dup.emit(Instruction::ConstI32((from - 1) as i32));
                let test = ordinal.emit(Instruction::IfEqI32(PLACEHOLDER_ADDRESS));
                let more = fixups.push(
                    FixupModel { offset: test.bytecode.len() - 2, target: source.name },
                );
                lemma_emit_continues(state, Instruction::Dup);
                lemma_emit_continues(dup, Instruction::ConstI32((from - 1) as i32));
                lemma_emit_continues(ordinal, Instruction::IfEqI32(PLACEHOLDER_ADDRESS));
                lemma_continues_further(ordinal, dup, state);
                lemma_continues_further(test, ordinal, state);
                assert(operands_lie_in(offsets_of(more), low, test.bytecode.len() as int)) by {
                    assert forall|j: int| 0 <= j < more.len() implies low <= (#[trigger] offsets_of(
                        more,
                    )[j]) && offsets_of(more)[j] + 2 <= test.bytecode.len() by {
                        if j < fixups.len() {
                            assert(offsets_of(more)[j] == offsets_of(fixups)[j]);
                        }
                    }
                    assert forall|i: int, j: int| 0 <= i < j < more.len() implies (
                    #[trigger] offsets_of(more)[i]) + 2 <= (#[trigger] offsets_of(more)[j]) by {
                        assert(offsets_of(more)[i] == offsets_of(fixups)[i]);
                        if j < fixups.len() {
                            assert(offsets_of(more)[j] == offsets_of(fixups)[j]);
                        }
                    }
                }
                lemma_tests_lie(net, node, from + 1, test, more, low);
                lemma_continues_further(tested, test, state);
                assert forall|j: int| 0 <= j < fixups.len() implies #[trigger] all[j]
                    == fixups[j] by {
                    assert(all[j] == more[j]);
                }
                assert forall|j: int| fixups.len() <= j < all.len() implies state.bytecode.len()
                    + 7 <= (#[trigger] all[j]).offset by {
                    if j == fixups.len() {
                        assert(all[j] == more[j]);
                    }
                }
            },
            None => {
                lemma_tests_lie(net, node, from + 1, state, fixups, low);
            },
        }
    }
}

/// The branches of a switch continue the state, the operands of their
/// jumps to the end are added to `ends`, and the label of every node that
/// the evaluation of the candidates does not come to is left.
pub proof fn lemma_bodies_lie(
    net: NetworkModel,
    node: NodeModel,
    from: nat,
    state: CodeModel,
    ends: Seq<int>,
    low: int,
)
    requires
        net.acyclic(),
        node.kind == NodeKind::Switch,
        low <= state.bytecode.len(),
        operands_lie_in(ends, low, state.bytecode.len() as int),
    ensures
        continues(emit_bodies(net, node, from, state, ends).0, state),
        ends.len() <= emit_bodies(net, node, from, state, ends).1.len(),
        forall|j: int|
            0 <= j < ends.len() ==> #[trigger] emit_bodies(net, node, from, state, ends).1[j]
                == ends[j],
        forall|j: int|
            ends.len() <= j < emit_bodies(net, node, from, state, ends).1.len()
                ==> state.bytecode.len() + 1 <= #[trigger] emit_bodies(
                net,
                node,
                from,
                state,
                ends,
            ).1[j],
        operands_lie_in(
            emit_bodies(net, node, from, state, ends).1,
            low,
            emit_bodies(net, node, from, state, ends).0.bytecode.len() as int,
        ),
        forall|name: Seq<char>|
            !inputs_visit(net, node, from, name) ==> #[trigger] keeps_label(
                emit_bodies(net, node, from, state, ends).0,
                state,
                name,
            ),
    decreases net.rank(node.name), 1nat, NodeKind::Switch.port_names().len() - from,
{
    let (branched, all) = emit_bodies(net, node, from, state, ends);
    if from < 1 || from >= NodeKind::Switch.port_names().len() {
        lemma_continues_itself(state);
    } else {
        let port = NodeKind::Switch.port_names()[from as int];
        net.lemma_driver_ranks_lower(node.name, port);
        match net.source(node.name, port) {
            Some(source) => {
                let body = emit_node(net, source, state);
                let branch = body.emit(Instruction::Jmp(PLACEHOLDER_ADDRESS));
                let more = ends.push(branch.bytecode.len() - 2);
                lemma_node_lies(net, source, state);
                lemma_emit_continues(body, Instruction::Jmp(PLACEHOLDER_ADDRESS));
                lemma_continues_further(branch, body, state);
                assert(operands_lie_in(more, low, branch.bytecode.len() as int)) by {
                    assert forall|j: int| 0 <= j < more.len() implies low <= (#[trigger] more[j])
                        && more[j] + 2 <= branch.bytecode.len() by {
                        if j < ends.len() {
                            assert(more[j] == ends[j]);
                        }
                    }
                    assert forall|i: int, j: int| 0 <= i < j < more.len() implies (
                    #[trigger] more[i]) + 2 <= (#[trigger] more[j]) by {
                        assert(more[i] == ends[i]);
                        if j < ends.len() {
                            assert(more[j] == ends[j]);
                        }
                    }
                }
                lemma_bodies_lie(net, node, from + 1, branch, more, low);
                lemma_continues_further(branched, branch, state);
                assert forall|j: int| 0 <= j < ends.len() implies #[trigger] all[j] == ends[j] by {
                    assert(all[j] == more[j]);
                }
                assert forall|j: int| ends.len() <= j < all.len() implies state.bytecode.len() + 1
                    <= #[trigger] all[j] by {
                    if j == ends.len() {
                        assert(all[j] == more[j]);
                    }
                }
                assert forall|name: Seq<char>|
                    !inputs_visit(net, node, from, name) implies #[trigger] keeps_label(
                    branched,
                    state,
                    name,
                ) by {
                    assert(node.kind.port_names()[from as int] == port);
                    assert(!port_visits(net, node, port, name));
                    assert(!inputs_visit(net, node, from + 1, name));
                    assert(!visits(net, source, name));
                    assert(keeps_label(body, state, name));
                    assert(keeps_label(branched, branch, name));
                }
            },
            None => {
                lemma_bodies_lie(net, node, from + 1, state, ends, low);
                assert forall|name: Seq<char>|
                    !inputs_visit(net, node, from, name) implies #[trigger] keeps_label(
                    branched,
                    state,
                    name,
                ) by {
                    assert(keeps_label(branched, state, name));
                }
            },
        }
    }
}

/// The code of a switch continues the state, and leaves the label of every
/// node that the evaluation of its ports does not come to.
pub proof fn lemma_switch_lies(net: NetworkModel, node: NodeModel, state: CodeModel)
    requires
        net.acyclic(),
        node.kind == NodeKind::Switch,
    ensures
        continues(emit_switch(net, node, state), state),
        forall|name: Seq<char>|
            !inputs_visit(net, node, 0, name) ==> #[trigger] keeps_label(
                emit_switch(net, node, state),
                state,
                name,
            ),
    decreases net.rank(node.name), 2nat, 0nat,
{
    let selected = emit_input_port(net, node, NodeKind::Switch.port_names()[0], state);
    let (tested, fixups) = emit_tests(net, node, 1, selected, Seq::empty());
    let popped = tested.emit(Instruction::Pop);
    let skipped = popped.emit(Instruction::Jmp(PLACEHOLDER_ADDRESS));
    let first_end = seq![skipped.bytecode.len() - 2];
    let (branched, ends) = emit_bodies(net, node, 1, skipped, first_end);
    let end = branched.bytecode.len();
    let ended = patch_ends(branched, ends, 0, end);
    let after = patch_targets(ended, fixups, 0);
    let low = selected.bytecode.len() as int;
    assert(after == emit_switch(net, node, state));
    lemma_port_lies(net, node, NodeKind::Switch.port_names()[0], state);
    assert(operands_lie_in(offsets_of(Seq::<FixupModel>::empty()), low, low));
    lemma_tests_lie(net, node, 1, selected, Seq::empty(), low);
    lemma_emit_continues(tested, Instruction::Pop);
    lemma_emit_continues(popped, Instruction::Jmp(PLACEHOLDER_ADDRESS));
    assert(operands_lie_in(first_end, low, skipped.bytecode.len() as int));
    lemma_bodies_lie(net, node, 1, skipped, first_end, low);
    lemma_continues_further(skipped, popped, tested);
    lemma_continues_further(branched, skipped, tested);
    lemma_continues_further(popped, tested, selected);
    lemma_continues_further(skipped, popped, selected);
    lemma_continues_further(branched, skipped, selected);
    lemma_continues_further(branched, selected, state);
    lemma_continues_keeps(branched, state);
    lemma_continues_keeps(branched, tested);
    assert(operands_lie_in(ends, 0, branched.bytecode.len() as int));
    lemma_patch_ends(branched, ends, 0, end);
    assert(operands_lie_in(offsets_of(fixups), 0, ended.bytecode.len() as int)) by {
        assert(tested.bytecode.len() <= branched.bytecode.len());
    }
    lemma_patch_targets(ended, fixups, 0);
    assert forall|k: int| 0 <= k < state.bytecode.len() implies after.bytecode[k]
        == #[trigger] state.bytecode[k] by {
        assert forall|j: int| 0 <= j < ends.len() implies !within_operand(k, #[trigger] ends[j]) by {}
        assert forall|j: int| 0 <= j < fixups.len() implies !within_operand(
            k,
            (#[trigger] fixups[j]).offset,
        ) by {
            assert(offsets_of(fixups)[j] == fixups[j].offset);
        }
        assert(ended.bytecode[k] == branched.bytecode[k]);
    }
    lemma_keeping_continues(after, state);
    assert forall|name: Seq<char>| !inputs_visit(net, node, 0, name) implies #[trigger] keeps_label(
        after,
        state,
        name,
    ) by {
        assert(!inputs_visit(net, node, 1, name));
        assert(keeps_label(selected, state, name));
        assert(keeps_label(branched, skipped, name));
    }
}

/// The code of a node continues the state, its label is the offset at which
/// its code begins, and the label of every node that its evaluation does
/// not come to is left.
pub proof fn lemma_node_lies(net: NetworkModel, node: NodeModel, state: CodeModel)
    requires
        net.acyclic(),
    ensures
        continues(emit_node(net, node, state), state),
        emit_node(net, node, state).labels.contains_key(node.name),
        emit_node(net, node, state).labels[node.name] == state.bytecode.len(),
        forall|name: Seq<char>|
            !visits(net, node, name) ==> #[trigger] keeps_label(
                emit_node(net, node, state),
                state,
                name,
            ),
    decreases net.rank(node.name), 3nat, 0nat,
{
    let marked = state.mark_label(node.name);
    let after = emit_node(net, node, state);
    lemma_continues_itself(state);
    lemma_continues_keeps(state, state);
    lemma_keeping_continues(marked, state);
    if inputs_visit(net, node, 0, node.name) {
        lemma_inputs_visit_lower(net, node, 0, node.name);
    }
    if node.kind == NodeKind::Switch {
        lemma_switch_lies(net, node, marked);
        lemma_continues_further(after, marked, state);
        assert(keeps_label(after, marked, node.name));
        assert forall|name: Seq<char>| !visits(net, node, name) implies #[trigger] keeps_label(
            after,
            state,
            name,
        ) by {
            assert(keeps_label(after, marked, name));
        }
    } else {
        let pushed = emit_inputs(net, node, 0, marked);
        lemma_inputs_lie(net, node, 0, marked);
        lemma_emit_continues(pushed, Instruction::CallNode(node.kind));
        lemma_continues_further(after, pushed, marked);
        lemma_continues_further(after, marked, state);
        assert(keeps_label(pushed, marked, node.name));
        assert forall|name: Seq<char>| !visits(net, node, name) implies #[trigger] keeps_label(
            after,
            state,
            name,
        ) by {
            assert(keeps_label(pushed, marked, name));
        }
    }
}

} // verus!
