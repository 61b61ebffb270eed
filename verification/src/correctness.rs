//! Compiling preserves meaning, switches included: run on the stack, the
//! code of a node does to it what the evaluation of the node does.

use crate::bytecode::{lemma_decode_encoding, u16_bytes, Instruction, OP_JMP};
use crate::compiler::{
    candidate, compile_spec, operands_fit, emit_bodies, emit_input_port, emit_inputs, emit_node, emit_switch,
    emit_tests, patch_ends, patch_targets, CodeModel, CompiledModel, FixupModel, MAX_ADDRESS,
    MAX_POOL_INDEX, PLACEHOLDER_ADDRESS,
};
use crate::evaluation::{
    branches_are_apart, call, inputs_effect, inputs_visit, node_effect, port_effect, port_visits,
    select_effect, visits,
};
use crate::layout::{
    address_bytes, continues, holds_address, keeps_label, lemma_bodies_lie,
    lemma_continues_further, lemma_continues_keeps, lemma_emit_continues, lemma_inputs_lie,
    lemma_node_lies, lemma_patch_ends, lemma_patch_targets, lemma_port_lies, lemma_tests_lie,
    offsets_of, operands_lie_in, within_operand,
};
use crate::network::{NetworkModel, NodeKind, NodeModel};
use crate::value::ValueModel;
use crate::vm::{advanced, lemma_run_in_two_parts, MachineModel, RuntimeErrorKind, Status};
use vstd::prelude::*;

verus! {

/// The machine that is about to run `program`.
pub open spec fn machine_for(program: CompiledModel) -> MachineModel {
    MachineModel {
        bytecode: program.bytecode,
        constant_pool: program.constant_pool,
        ip: 0,
        stack: Seq::empty(),
    }
}

/// Whether the machine comes to `there` within `limit` instructions.
pub open spec fn reaches(m: MachineModel, limit: int, there: MachineModel) -> bool {
    exists|n: nat| n <= limit && #[trigger] m.run(n) == (there, Status::Running)
}

/// Whether the machine fails with `error` within `limit` instructions.
pub open spec fn fails(m: MachineModel, limit: int, error: RuntimeErrorKind) -> bool {
    exists|n: nat| n <= limit && (#[trigger] m.run(n)).1 == Status::Failed(error)
}

/// A machine is where it is.
pub proof fn lemma_reaches_itself(m: MachineModel)
    ensures
        reaches(m, 0, m),
{
    assert(m.run(0) == (m, Status::Running));
}

/// A machine that takes a step comes to where the step leads.
pub proof fn lemma_step_reaches(m: MachineModel, there: MachineModel)
    requires
        m.step() == (there, Status::Running),
    ensures
        reaches(m, 1, there),
{
    assert(m.run(1) == (there, Status::Running)) by {
        reveal_with_fuel(MachineModel::run, 2);
    }
}

/// A machine whose step fails fails.
pub proof fn lemma_step_fails(m: MachineModel, error: RuntimeErrorKind)
    requires
        m.step().1 == Status::Failed(error),
    ensures
        fails(m, 1, error),
{
    assert(m.run(1).1 == Status::Failed(error)) by {
        reveal_with_fuel(MachineModel::run, 2);
    }
}

/// Coming from one place to a second and from there to a third is coming
/// from the first to the third.
pub proof fn lemma_reaches_further(
    m: MachineModel,
    a: int,
    middle: MachineModel,
    b: int,
    there: MachineModel,
)
    requires
        reaches(m, a, middle),
        reaches(middle, b, there),
    ensures
        reaches(m, a + b, there),
{
    let first = choose|n: nat| n <= a && #[trigger] m.run(n) == (middle, Status::Running);
    let second = choose|n: nat| n <= b && #[trigger] middle.run(n) == (there, Status::Running);
    lemma_run_in_two_parts(m, first, second);
    assert(m.run(first + second) == (there, Status::Running));
}

/// Coming to a place and failing from there is failing.
pub proof fn lemma_reaches_and_fails(
    m: MachineModel,
    a: int,
    middle: MachineModel,
    b: int,
    error: RuntimeErrorKind,
)
    requires
        reaches(m, a, middle),
        fails(middle, b, error),
    ensures
        fails(m, a + b, error),
{
    let first = choose|n: nat| n <= a && #[trigger] m.run(n) == (middle, Status::Running);
    let second = choose|n: nat| n <= b && (#[trigger] middle.run(n)).1 == Status::Failed(error);
    lemma_run_in_two_parts(m, first, second);
    assert(m.run(first + second).1 == Status::Failed(error));
}

/// What is reached or failed within a limit is so within a higher one.
pub proof fn lemma_within_more(m: MachineModel, limit: int, more: int)
    requires
        limit <= more,
    ensures
        forall|there: MachineModel| reaches(m, limit, there) ==> reaches(m, more, there),
        forall|error: RuntimeErrorKind| fails(m, limit, error) ==> fails(m, more, error),
{
    assert forall|there: MachineModel| reaches(m, limit, there) implies reaches(
        m,
        more,
        there,
    ) by {
        let n = choose|n: nat| n <= limit && #[trigger] m.run(n) == (there, Status::Running);
        assert(m.run(n) == (there, Status::Running));
    }
    assert forall|error: RuntimeErrorKind| fails(m, limit, error) implies fails(
        m,
        more,
        error,
    ) by {
        let n = choose|n: nat| n <= limit && (#[trigger] m.run(n)).1 == Status::Failed(error);
        assert(m.run(n).1 == Status::Failed(error));
    }
}

/// Whether the machine holds `instruction` at offset `at`.
pub open spec fn holds_instruction(code: Seq<u8>, at: int, instruction: Instruction) -> bool {
    &&& 0 <= at
    &&& at + instruction.encoding().len() <= code.len()
    &&& forall|k: int|
        0 <= k < instruction.encoding().len() ==> code[at + k] == instruction.encoding()[k]
}

/// The machine that holds an instruction at its instruction pointer runs
/// that instruction.
pub proof fn lemma_step_at(m: MachineModel, instruction: Instruction)
    requires
        holds_instruction(m.bytecode, m.ip, instruction),
    ensures
        m.step() == m.jump(m.ip + instruction.spec_size()).execute(instruction),
{
    let size = instruction.encoding().len() as int;
    assert(m.bytecode.subrange(m.ip, m.ip + size) =~= instruction.encoding());
    lemma_decode_encoding(m.bytecode, m.ip, instruction);
}

/// Whether the machine holds the code that was generated between `before`
/// and `after`, and the constants of `after`.
pub open spec fn holds_segment(m: MachineModel, before: CodeModel, after: CodeModel) -> bool {
    &&& before.bytecode.len() <= after.bytecode.len() <= m.bytecode.len()
    &&& forall|k: int|
        before.bytecode.len() <= k < after.bytecode.len() ==> m.bytecode[k]
            == #[trigger] after.bytecode[k]
    &&& after.constant_pool.len() <= m.constant_pool.len()
    &&& forall|k: int|
        0 <= k < after.constant_pool.len() ==> m.constant_pool[k]
            == #[trigger] after.constant_pool[k]
}

/// A machine that holds the code up to a state holds the part of it up to a
/// state that the former continues.
pub proof fn lemma_holds_part(
    m: MachineModel,
    before: CodeModel,
    middle: CodeModel,
    after: CodeModel,
)
    requires
        holds_segment(m, before, after),
        continues(after, middle),
        before.bytecode.len() <= middle.bytecode.len(),
    ensures
        holds_segment(m, before, middle),
{
    lemma_continues_keeps(after, middle);
}

/// A machine that holds the code up to the state behind an instruction
/// holds the instruction.
pub proof fn lemma_holds_emitted(m: MachineModel, state: CodeModel, instruction: Instruction)
    requires
        holds_segment(m, state, state.emit(instruction)),
    ensures
        holds_instruction(m.bytecode, state.bytecode.len() as int, instruction),
{
    let after = state.emit(instruction);
    assert forall|k: int| 0 <= k < instruction.encoding().len() implies m.bytecode[
        state.bytecode.len() + k
    ] == instruction.encoding()[k] by {
        assert(m.bytecode[state.bytecode.len() + k] == after.bytecode[state.bytecode.len() + k]);
    }
}

/// The position of the candidate that a switch selects among those from
/// position `from` on, the selector being `top`: the first connected one
/// whose ordinal `top` equals. Where there is none, it is the number of the
/// switch's ports.
pub open spec fn chosen(net: NetworkModel, node: NodeModel, from: nat, top: ValueModel) -> nat
    decreases NodeKind::Switch.port_names().len() - from,
{
    if from < 1 || from >= NodeKind::Switch.port_names().len() {
        NodeKind::Switch.port_names().len()
    } else if candidate(net, node, from as int) is Some && ValueModel::Int((from - 1) as i32).same(
        top,
    ) {
        from
    } else {
        chosen(net, node, from + 1, top)
    }
}

/// What a switch makes of a stack that is not empty: it evaluates the
/// candidate that it selects, or takes the selector off where it selects
/// none.
pub proof fn lemma_select_is_chosen(
    net: NetworkModel,
    node: NodeModel,
    from: nat,
    stack: Seq<ValueModel>,
)
    requires
        net.acyclic(),
        stack.len() > 0,
        1 <= from,
    ensures
        from <= chosen(net, node, from, stack.last()) || chosen(net, node, from, stack.last())
            == NodeKind::Switch.port_names().len(),
        chosen(net, node, from, stack.last()) < NodeKind::Switch.port_names().len() ==> candidate(
            net,
            node,
            chosen(net, node, from, stack.last()) as int,
        ) is Some && select_effect(net, node, from, stack) == node_effect(
            net,
            candidate(net, node, chosen(net, node, from, stack.last()) as int).unwrap(),
            stack,
        ),
        chosen(net, node, from, stack.last()) >= NodeKind::Switch.port_names().len()
            ==> select_effect(net, node, from, stack) == Ok::<Seq<ValueModel>, RuntimeErrorKind>(
            stack.drop_last(),
        ),
    decreases NodeKind::Switch.port_names().len() - from,
{
    if from < NodeKind::Switch.port_names().len() {
        lemma_select_is_chosen(net, node, from + 1, stack);
    }
}

/// Whether the machine holds, between the offset `from` and the end of the
/// tests of a switch, the code that was generated for them, but for the
/// address operands, which hold the labels of their targets.
pub open spec fn holds_tests(
    m: MachineModel,
    from: int,
    tested: CodeModel,
    fixups: Seq<FixupModel>,
    labels: Map<Seq<char>, nat>,
) -> bool {
    &&& from <= tested.bytecode.len() <= m.bytecode.len()
    &&& forall|k: int|
        from <= k < tested.bytecode.len() && (forall|j: int|
            0 <= j < fixups.len() ==> !within_operand(k, (#[trigger] fixups[j]).offset))
            ==> m.bytecode[k] == #[trigger] tested.bytecode[k]
    &&& forall|j: int|
        0 <= j < fixups.len() ==> holds_address(
            m.bytecode,
            (#[trigger] fixups[j]).offset,
            labels[fixups[j].target],
        ) && labels[fixups[j].target] <= MAX_ADDRESS
}

/// What the first test that the state `state` is followed by looks like in
/// the machine: the copy, the ordinal and the jump to the label of the
/// candidate.
pub proof fn lemma_holds_test(
    net: NetworkModel,
    node: NodeModel,
    from: nat,
    state: CodeModel,
    fixups: Seq<FixupModel>,
    low: int,
    m: MachineModel,
    labels: Map<Seq<char>, nat>,
)
    requires
        1 <= from < NodeKind::Switch.port_names().len(),
        candidate(net, node, from as int) is Some,
        low <= state.bytecode.len(),
        operands_lie_in(offsets_of(fixups), low, state.bytecode.len() as int),
        holds_tests(
            m,
            state.bytecode.len() as int,
            emit_tests(net, node, from, state, fixups).0,
            emit_tests(net, node, from, state, fixups).1,
            labels,
        ),
    ensures
        holds_instruction(m.bytecode, state.bytecode.len() as int, Instruction::Dup),
        holds_instruction(
            m.bytecode,
            state.bytecode.len() as int + 1,
            Instruction::ConstI32((from - 1) as i32),
        ),
        labels[candidate(net, node, from as int).unwrap().name] <= MAX_ADDRESS,
        holds_instruction(
            m.bytecode,
            state.bytecode.len() as int + 6,
            Instruction::IfEqI32(labels[candidate(net, node, from as int).unwrap().name] as u16),
        ),
        state.bytecode.len() + 9 <= emit_tests(net, node, from, state, fixups).0.bytecode.len(),
{
    let source = candidate(net, node, from as int).unwrap();
    let (tested, all) = emit_tests(net, node, from, state, fixups);
    let dup = state.emit(Instruction::Dup);
    let ordinal = dup.emit(Instruction::ConstI32((from - 1) as i32));
    let test = ordinal.emit(Instruction::IfEqI32(PLACEHOLDER_ADDRESS));
    let more = fixups.push(FixupModel { offset: test.bytecode.len() - 2, target: source.name });
    let base = state.bytecode.len() as int;
    let operand = base + 7;
    assert((tested, all) == emit_tests(net, node, from + 1, test, more));
    assert(operands_lie_in(offsets_of(more), low, test.bytecode.len() as int)) by {
        assert forall|j: int| 0 <= j < more.len() implies low <= (#[trigger] offsets_of(more)[j])
            && offsets_of(more)[j] + 2 <= test.bytecode.len() by {
            if j < fixups.len() {
                assert(offsets_of(more)[j] == offsets_of(fixups)[j]);
            }
        }
        assert forall|i: int, j: int| 0 <= i < j < more.len() implies (#[trigger] offsets_of(
            more,
        )[i]) + 2 <= (#[trigger] offsets_of(more)[j]) by {
            assert(offsets_of(more)[i] == offsets_of(fixups)[i]);
            if j < fixups.len() {
                assert(offsets_of(more)[j] == offsets_of(fixups)[j]);
            }
        }
    }
    lemma_tests_lie(net, node, from + 1, test, more, low);
    lemma_continues_keeps(tested, test);
    assert(all[fixups.len() as int] == more[fixups.len() as int]);
    assert(all[fixups.len() as int].offset == operand);
    assert forall|k: int| base <= k < base + 9 && !within_operand(k, operand) implies (
    #[trigger] m.bytecode[k]) == test.bytecode[k] by {
        assert forall|j: int| 0 <= j < all.len() implies !within_operand(
            k,
            (#[trigger] all[j]).offset,
        ) by {
            if j < fixups.len() {
                assert(all[j] == more[j]);
                assert(offsets_of(fixups)[j] == fixups[j].offset);
            }
        }
        assert(m.bytecode[k] == tested.bytecode[k]);
    }
    assert(test.bytecode =~= state.bytecode + Instruction::Dup.encoding() + Instruction::ConstI32(
        (from - 1) as i32,
    ).encoding() + Instruction::IfEqI32(PLACEHOLDER_ADDRESS).encoding());
    let label = labels[source.name];
    assert(holds_address(m.bytecode, operand, label) && label <= MAX_ADDRESS) by {
        assert(all[fixups.len() as int].target == source.name);
    }
    assert(holds_instruction(m.bytecode, base, Instruction::Dup)) by {
        assert(m.bytecode[base] == test.bytecode[base]);
    }
    assert(holds_instruction(m.bytecode, base + 1, Instruction::ConstI32((from - 1) as i32))) by {
        let encoding = Instruction::ConstI32((from - 1) as i32).encoding();
        assert forall|k: int| 0 <= k < encoding.len() implies m.bytecode[base + 1 + k]
            == encoding[k] by {
            assert(m.bytecode[base + 1 + k] == test.bytecode[base + 1 + k]);
        }
    }
    assert(holds_instruction(m.bytecode, base + 6, Instruction::IfEqI32(label as u16))) by {
        let encoding = Instruction::IfEqI32(label as u16).encoding();
        assert(m.bytecode[base + 6] == test.bytecode[base + 6]);
        assert(address_bytes(label) == u16_bytes(label as u16));
        assert forall|k: int| 0 <= k < encoding.len() implies m.bytecode[base + 6 + k]
            == encoding[k] by {}
    }
}

/// One more operand behind those that lie in a range lies in the range
/// that ends behind it.
pub proof fn lemma_one_more_operand(offsets: Seq<int>, low: int, high: int, offset: int, end: int)
    requires
        operands_lie_in(offsets, low, high),
        low <= offset,
        high <= offset,
        offset + 2 <= end,
    ensures
        operands_lie_in(offsets.push(offset), low, end),
{
    let more = offsets.push(offset);
    assert forall|j: int| 0 <= j < more.len() implies low <= (#[trigger] more[j]) && more[j] + 2
        <= end by {
        if j < offsets.len() {
            assert(more[j] == offsets[j]);
        }
    }
    assert forall|i: int, j: int| 0 <= i < j < more.len() implies (#[trigger] more[i]) + 2 <= (
    #[trigger] more[j]) by {
        assert(more[i] == offsets[i]);
        if j < offsets.len() {
            assert(more[j] == offsets[j]);
        }
    }
}

/// One more fixup behind those that lie in a range lies in the range that
/// ends behind it.
pub proof fn lemma_one_more_fixup(
    fixups: Seq<FixupModel>,
    low: int,
    high: int,
    fixup: FixupModel,
    end: int,
)
    requires
        operands_lie_in(offsets_of(fixups), low, high),
        low <= fixup.offset,
        high <= fixup.offset,
        fixup.offset + 2 <= end,
    ensures
        operands_lie_in(offsets_of(fixups.push(fixup)), low, end),
{
    lemma_one_more_operand(offsets_of(fixups), low, high, fixup.offset, end);
    assert(offsets_of(fixups.push(fixup)) =~= offsets_of(fixups).push(fixup.offset));
}

/// The tests of a switch, run with the selector on top of the stack, lead
/// to the label of the candidate that the switch selects, or to their end
/// where it selects none, and leave the stack as it is.
pub proof fn lemma_tests_run(
    net: NetworkModel,
    node: NodeModel,
    from: nat,
    state: CodeModel,
    fixups: Seq<FixupModel>,
    low: int,
    m: MachineModel,
    labels: Map<Seq<char>, nat>,
)
    requires
        1 <= from,
        low <= state.bytecode.len(),
        operands_lie_in(offsets_of(fixups), low, state.bytecode.len() as int),
        holds_tests(
            m,
            state.bytecode.len() as int,
            emit_tests(net, node, from, state, fixups).0,
            emit_tests(net, node, from, state, fixups).1,
            labels,
        ),
        m.ip == state.bytecode.len(),
        m.stack.len() > 0,
    ensures
        chosen(net, node, from, m.stack.last()) < NodeKind::Switch.port_names().len() ==> reaches(
            m,
            emit_tests(net, node, from, state, fixups).0.bytecode.len() - state.bytecode.len(),
            advanced(
                m,
                labels[candidate(
                    net,
                    node,
                    chosen(net, node, from, m.stack.last()) as int,
                ).unwrap().name] as int,
                m.stack,
            ),
        ),
        chosen(net, node, from, m.stack.last()) >= NodeKind::Switch.port_names().len() ==> reaches(
            m,
            emit_tests(net, node, from, state, fixups).0.bytecode.len() - state.bytecode.len(),
            advanced(
                m,
                emit_tests(net, node, from, state, fixups).0.bytecode.len() as int,
                m.stack,
            ),
        ),
    decreases NodeKind::Switch.port_names().len() - from,
{
    let (tested, all) = emit_tests(net, node, from, state, fixups);
    let base = state.bytecode.len() as int;
    let top = m.stack.last();
    if from >= NodeKind::Switch.port_names().len() {
        lemma_reaches_itself(m);
        assert(advanced(m, base, m.stack) == m);
    } else {
        match candidate(net, node, from as int) {
            None => {
                lemma_tests_run(net, node, from + 1, state, fixups, low, m, labels);
            },
            Some(source) => {
                let ordinal = ValueModel::Int((from - 1) as i32);
                let label = labels[source.name];
                lemma_holds_test(net, node, from, state, fixups, low, m, labels);
                let copied = advanced(m, base + 1, m.stack.push(top));
                let compared = advanced(m, base + 6, m.stack.push(top).push(ordinal));
                lemma_step_at(m, Instruction::Dup);
                assert(m.step() == (copied, Status::Running));
                lemma_step_at(copied, Instruction::ConstI32((from - 1) as i32));
                assert(copied.step() == (compared, Status::Running));
                lemma_step_at(compared, Instruction::IfEqI32(label as u16));
                assert(compared.stack.last() == ordinal);
                assert(compared.stack.drop_last() =~= m.stack.push(top));
                assert(compared.stack.drop_last().drop_last() =~= m.stack);
                lemma_step_reaches(m, copied);
                lemma_step_reaches(copied, compared);
                lemma_reaches_further(m, 1, copied, 1, compared);
                if ordinal.same(top) {
                    let there = advanced(m, label as int, m.stack);
                    assert(compared.step() == (there, Status::Running));
                    lemma_step_reaches(compared, there);
                    lemma_reaches_further(m, 2, compared, 1, there);
                    lemma_within_more(m, 3, tested.bytecode.len() - base);
                } else {
                    let next = advanced(m, base + 9, m.stack);
                    let dup = state.emit(Instruction::Dup);
                    let second = dup.emit(Instruction::ConstI32((from - 1) as i32));
                    let test = second.emit(Instruction::IfEqI32(PLACEHOLDER_ADDRESS));
                    let fixup = FixupModel { offset: test.bytecode.len() - 2, target: source.name };
                    assert(compared.step() == (next, Status::Running));
                    lemma_step_reaches(compared, next);
                    lemma_reaches_further(m, 2, compared, 1, next);
                    lemma_one_more_fixup(fixups, low, base, fixup, test.bytecode.len() as int);
                    assert(test.bytecode.len() == base + 9);
                    lemma_tests_run(net, node, from + 1, test, fixups.push(fixup), low, next, labels);
                    let rest = tested.bytecode.len() - test.bytecode.len();
                    if chosen(net, node, from, top) < NodeKind::Switch.port_names().len() {
                        let there = advanced(
                            m,
                            labels[candidate(
                                net,
                                node,
                                chosen(net, node, from, top) as int,
                            ).unwrap().name] as int,
                            m.stack,
                        );
                        lemma_reaches_further(m, 3, next, rest, there);
                        lemma_within_more(m, 3 + rest, tested.bytecode.len() - base);
                    } else {
                        let there = advanced(m, tested.bytecode.len() as int, m.stack);
                        lemma_reaches_further(m, 3, next, rest, there);
                        lemma_within_more(m, 3 + rest, tested.bytecode.len() - base);
                    }
                }
            },
        }
    }
}

/// The tests of a switch and the pop behind them, run on an empty stack,
/// fail with an underflow.
pub proof fn lemma_tests_underflow(
    net: NetworkModel,
    node: NodeModel,
    from: nat,
    state: CodeModel,
    fixups: Seq<FixupModel>,
    low: int,
    m: MachineModel,
    labels: Map<Seq<char>, nat>,
)
    requires
        1 <= from,
        low <= state.bytecode.len(),
        operands_lie_in(offsets_of(fixups), low, state.bytecode.len() as int),
        holds_tests(
            m,
            state.bytecode.len() as int,
            emit_tests(net, node, from, state, fixups).0,
            emit_tests(net, node, from, state, fixups).1,
            labels,
        ),
        holds_instruction(
            m.bytecode,
            emit_tests(net, node, from, state, fixups).0.bytecode.len() as int,
            Instruction::Pop,
        ),
        m.ip == state.bytecode.len(),
        m.stack.len() == 0,
    ensures
        fails(m, 1, RuntimeErrorKind::StackUnderflow),
    decreases NodeKind::Switch.port_names().len() - from,
{
    if from >= NodeKind::Switch.port_names().len() {
        lemma_step_at(m, Instruction::Pop);
        lemma_step_fails(m, RuntimeErrorKind::StackUnderflow);
    } else {
        match candidate(net, node, from as int) {
            None => {
                lemma_tests_underflow(net, node, from + 1, state, fixups, low, m, labels);
            },
            Some(source) => {
                lemma_holds_test(net, node, from, state, fixups, low, m, labels);
                lemma_step_at(m, Instruction::Dup);
                lemma_step_fails(m, RuntimeErrorKind::StackUnderflow);
            },
        }
    }
}

/// The stages of the code generation for a switch.
pub struct SwitchParts {
    /// The state behind the code of the selector.
    pub selected: CodeModel,
    /// The state behind the tests.
    pub tested: CodeModel,
    /// The address operands of the tests.
    pub fixups: Seq<FixupModel>,
    /// The state behind the pop and the jump for the case that no test
    /// matches.
    pub skipped: CodeModel,
    /// The state behind the branches.
    pub branched: CodeModel,
    /// The address operands of the jumps to the end.
    pub ends: Seq<int>,
}

/// The stages of the code generation for the switch `node` from `state`.
pub open spec fn switch_parts(net: NetworkModel, node: NodeModel, state: CodeModel) -> SwitchParts {
    let selected = emit_input_port(net, node, NodeKind::Switch.port_names()[0], state);
    let (tested, fixups) = emit_tests(net, node, 1, selected, Seq::empty());
    let skipped = tested.emit(Instruction::Pop).emit(Instruction::Jmp(PLACEHOLDER_ADDRESS));
    let (branched, ends) = emit_bodies(net, node, 1, skipped, seq![skipped.bytecode.len() - 2]);
    SwitchParts { selected, tested, fixups, skipped, branched, ends }
}

/// Whether the machine holds, between the offset `from` and the end of the
/// branches of a switch, the code that was generated for them, but for the
/// address operands, which hold the end, and the constants.
pub open spec fn holds_bodies(m: MachineModel, from: int, branched: CodeModel, ends: Seq<int>) -> bool {
    &&& from <= branched.bytecode.len() <= m.bytecode.len()
    &&& branched.bytecode.len() <= MAX_ADDRESS
    &&& forall|k: int|
        from <= k < branched.bytecode.len() && (forall|j: int|
            0 <= j < ends.len() ==> !within_operand(k, #[trigger] ends[j])) ==> m.bytecode[k]
            == #[trigger] branched.bytecode[k]
    &&& forall|j: int|
        0 <= j < ends.len() ==> holds_address(
            m.bytecode,
            #[trigger] ends[j],
            branched.bytecode.len(),
        )
    &&& branched.constant_pool.len() <= m.constant_pool.len()
    &&& forall|k: int|
        0 <= k < branched.constant_pool.len() ==> m.constant_pool[k]
            == #[trigger] branched.constant_pool[k]
}

/// A machine that holds the code of a switch holds each of its parts.
pub proof fn lemma_switch_is_held(net: NetworkModel, node: NodeModel, state: CodeModel, m: MachineModel)
    requires
        net.acyclic(),
        node.kind == NodeKind::Switch,
        emit_switch(net, node, state).overflow is None,
        holds_segment(m, state, emit_switch(net, node, state)),
    ensures
        ({
            let parts = switch_parts(net, node, state);
            let end = parts.branched.bytecode.len();
            &&& emit_switch(net, node, state).bytecode.len() == end
            &&& state.bytecode.len() <= parts.selected.bytecode.len()
                <= parts.tested.bytecode.len()
            &&& parts.skipped.bytecode.len() == parts.tested.bytecode.len() + 4
            &&& parts.skipped.bytecode.len() <= end
            &&& parts.selected.overflow is None
            &&& parts.branched.overflow is None
            &&& holds_segment(m, state, parts.selected)
            &&& holds_tests(
                m,
                parts.selected.bytecode.len() as int,
                parts.tested,
                parts.fixups,
                parts.branched.labels,
            )
            &&& holds_instruction(m.bytecode, parts.tested.bytecode.len() as int, Instruction::Pop)
            &&& holds_instruction(
                m.bytecode,
                parts.tested.bytecode.len() as int + 1,
                Instruction::Jmp(end as u16),
            )
            &&& holds_bodies(m, parts.skipped.bytecode.len() as int, parts.branched, parts.ends)
            &&& operands_lie_in(
                seq![parts.skipped.bytecode.len() - 2],
                parts.selected.bytecode.len() as int,
                parts.skipped.bytecode.len() as int,
            )
        }),
{
    let parts = switch_parts(net, node, state);
    let selected = parts.selected;
    let tested = parts.tested;
    let fixups = parts.fixups;
    let popped = tested.emit(Instruction::Pop);
    let skipped = parts.skipped;
    let first_end = seq![skipped.bytecode.len() - 2];
    let branched = parts.branched;
    let ends = parts.ends;
    let end = branched.bytecode.len();
    let ended = patch_ends(branched, ends, 0, end);
    let after = patch_targets(ended, fixups, 0);
    let low = selected.bytecode.len() as int;
    assert(after == emit_switch(net, node, state));
    lemma_port_lies(net, node, NodeKind::Switch.port_names()[0], state);
    assert(operands_lie_in(offsets_of(Seq::<FixupModel>::empty()), low, low));
    lemma_tests_lie(net, node, 1, selected, Seq::empty(), low);
    lemma_emit_continues(tested, Instruction::Pop);
    lemma_emit_continues(popped, Instruction::Jmp(PLACEHOLDER_ADDRESS));
    assert(operands_lie_in(first_end, low, skipped.bytecode.len() as int));
    lemma_bodies_lie(net, node, 1, skipped, first_end, low);
    lemma_continues_further(skipped, popped, tested);
    lemma_continues_further(branched, skipped, tested);
    lemma_continues_further(branched, tested, selected);
    lemma_continues_further(branched, skipped, popped);
    lemma_continues_keeps(branched, selected);
    lemma_continues_keeps(branched, tested);
    lemma_continues_keeps(branched, popped);
    lemma_continues_keeps(branched, skipped);
    assert(operands_lie_in(ends, 0, end as int));
    lemma_patch_ends(branched, ends, 0, end);
    assert(operands_lie_in(offsets_of(fixups), 0, ended.bytecode.len() as int));
    lemma_patch_targets(ended, fixups, 0);
    assert(ends[0] == first_end[0]);
    assert(ends[0] == tested.bytecode.len() + 2);
    assert forall|j: int| 0 <= j < fixups.len() implies low + 7 <= (#[trigger] fixups[j]).offset
        && fixups[j].offset + 2 <= tested.bytecode.len() by {
        assert(offsets_of(fixups)[j] == fixups[j].offset);
    }
    assert forall|j: int| 0 <= j < ends.len() implies tested.bytecode.len() + 2 <= #[trigger] ends[j] by {
        if j > 0 {
            assert(ends[0] + 2 <= ends[j]);
        }
    }
    // What the machine holds is the code behind the branches wherever no
    // address was written.
    assert forall|k: int|
        state.bytecode.len() <= k < end && (forall|j: int|
            0 <= j < ends.len() ==> !within_operand(k, #[trigger] ends[j])) && (forall|j: int|
            0 <= j < fixups.len() ==> !within_operand(k, (#[trigger] fixups[j]).offset)) implies (
    #[trigger] m.bytecode[k]) == branched.bytecode[k] by {
        assert(m.bytecode[k] == after.bytecode[k]);
        assert(after.bytecode[k] == ended.bytecode[k]);
        assert(ended.bytecode[k] == branched.bytecode[k]);
    }
    assert(holds_segment(m, state, selected)) by {
        assert forall|k: int| state.bytecode.len() <= k < selected.bytecode.len() implies m.bytecode[k]
            == #[trigger] selected.bytecode[k] by {
            assert forall|j: int| 0 <= j < ends.len() implies !within_operand(k, #[trigger] ends[j]) by {}
            assert forall|j: int| 0 <= j < fixups.len() implies !within_operand(
                k,
                (#[trigger] fixups[j]).offset,
            ) by {}
            assert(m.bytecode[k] == branched.bytecode[k]);
        }
    }
    assert(holds_tests(m, low, tested, fixups, branched.labels)) by {
        assert forall|k: int|
            low <= k < tested.bytecode.len() && (forall|j: int|
                0 <= j < fixups.len() ==> !within_operand(k, (#[trigger] fixups[j]).offset)) implies m.bytecode[k]
            == #[trigger] tested.bytecode[k] by {
            assert forall|j: int| 0 <= j < ends.len() implies !within_operand(k, #[trigger] ends[j]) by {}
            assert(m.bytecode[k] == branched.bytecode[k]);
        }
        assert forall|j: int| 0 <= j < fixups.len() implies holds_address(
            m.bytecode,
            (#[trigger] fixups[j]).offset,
            branched.labels[fixups[j].target],
        ) && branched.labels[fixups[j].target] <= MAX_ADDRESS by {
            let offset = fixups[j].offset;
            assert(holds_address(after.bytecode, offset, ended.labels[fixups[j].target]));
            assert(m.bytecode[offset] == after.bytecode[offset]);
            assert(m.bytecode[offset + 1] == after.bytecode[offset + 1]);
        }
    }
    assert(holds_instruction(m.bytecode, tested.bytecode.len() as int, Instruction::Pop)) by {
        let k = tested.bytecode.len() as int;
        assert forall|j: int| 0 <= j < ends.len() implies !within_operand(k, #[trigger] ends[j]) by {}
        assert forall|j: int| 0 <= j < fixups.len() implies !within_operand(
            k,
            (#[trigger] fixups[j]).offset,
        ) by {}
        assert(m.bytecode[k] == branched.bytecode[k]);
        assert(branched.bytecode[k] == popped.bytecode[k]);
    }
    assert(holds_instruction(
        m.bytecode,
        tested.bytecode.len() as int + 1,
        Instruction::Jmp(end as u16),
    )) by {
        let k = tested.bytecode.len() as int + 1;
        assert forall|j: int| 0 <= j < ends.len() implies !within_operand(k, #[trigger] ends[j]) by {}
        assert forall|j: int| 0 <= j < fixups.len() implies !within_operand(
            k,
            (#[trigger] fixups[j]).offset,
        ) by {}
        assert(m.bytecode[k] == branched.bytecode[k]);
        assert(branched.bytecode[k] == skipped.bytecode[k]);
        assert(skipped.bytecode[k] == OP_JMP);
        assert(holds_address(ended.bytecode, ends[0], end));
        assert forall|j: int| 0 <= j < fixups.len() implies !within_operand(
            k + 1,
            (#[trigger] fixups[j]).offset,
        ) && !within_operand(k + 2, fixups[j].offset) by {}
        assert(m.bytecode[k + 1] == after.bytecode[k + 1]);
        assert(m.bytecode[k + 2] == after.bytecode[k + 2]);
        assert(address_bytes(end) == u16_bytes(end as u16));
        let encoding = Instruction::Jmp(end as u16).encoding();
        assert forall|i: int| 0 <= i < encoding.len() implies m.bytecode[k + i] == encoding[i] by {}
    }
    assert(holds_bodies(m, skipped.bytecode.len() as int, branched, ends)) by {
        assert forall|k: int|
            skipped.bytecode.len() <= k < end && (forall|j: int|
                0 <= j < ends.len() ==> !within_operand(k, #[trigger] ends[j])) implies m.bytecode[k]
            == #[trigger] branched.bytecode[k] by {
            assert forall|j: int| 0 <= j < fixups.len() implies !within_operand(
                k,
                (#[trigger] fixups[j]).offset,
            ) by {}
        }
        assert forall|j: int| 0 <= j < ends.len() implies holds_address(
            m.bytecode,
            #[trigger] ends[j],
            end,
        ) by {
            let offset = ends[j];
            assert(holds_address(ended.bytecode, offset, end));
            assert forall|i: int| 0 <= i < fixups.len() implies !within_operand(
                offset,
                (#[trigger] fixups[i]).offset,
            ) && !within_operand(offset + 1, fixups[i].offset) by {}
            assert(m.bytecode[offset] == after.bytecode[offset]);
            assert(m.bytecode[offset + 1] == after.bytecode[offset + 1]);
        }
    }
}

/// A call of a node does to the stack of the machine what it does to a
/// stack, and leaves the rest of the machine.
pub proof fn lemma_call_has_effect(m: MachineModel, kind: NodeKind)
    ensures
        match call(kind, m.stack) {
            Ok(stack) => m.call_node(kind) == (MachineModel { stack, ..m }, Status::Running),
            Err(error) => m.call_node(kind).1 == Status::Failed(error),
        },
{
    let bare = MachineModel {
        bytecode: Seq::empty(),
        constant_pool: Seq::empty(),
        ip: 0,
        stack: m.stack,
    };
    match kind {
        NodeKind::Int => {
            assert(m == MachineModel { stack: m.stack, ..m });
        },
        NodeKind::Add => {
            assert(bare.pop_value().1 == m.pop_value().1);
            assert(bare.pop_value().0.pop_value().1 == m.pop_value().0.pop_value().1);
        },
        NodeKind::Negate => {
            assert(bare.pop_value().1 == m.pop_value().1);
        },
        NodeKind::Switch => {},
        NodeKind::Frame => {},
    }
}

/// The code that loads a constant pushes the constant.
pub proof fn lemma_constant_has_effect(state: CodeModel, value: ValueModel, m: MachineModel)
    requires
        state.load_constant(value).overflow is None,
        holds_segment(m, state, state.load_constant(value)),
        m.ip == state.bytecode.len(),
    ensures
        reaches(
            m,
            state.load_constant(value).bytecode.len() - state.bytecode.len(),
            advanced(m, state.load_constant(value).bytecode.len() as int, m.stack.push(value)),
        ),
{
    match value {
        ValueModel::Int(v) => {
            lemma_holds_emitted(m, state, Instruction::ConstI32(v));
            lemma_step_at(m, Instruction::ConstI32(v));
            let there = advanced(m, m.ip + 5, m.stack.push(value));
            assert(m.step() == (there, Status::Running));
            lemma_step_reaches(m, there);
            lemma_within_more(m, 1, 5);
        },
        ValueModel::Float(bits) => {
            lemma_holds_emitted(m, state, Instruction::ConstF32(bits));
            lemma_step_at(m, Instruction::ConstF32(bits));
            let there = advanced(m, m.ip + 5, m.stack.push(value));
            assert(m.step() == (there, Status::Running));
            lemma_step_reaches(m, there);
            lemma_within_more(m, 1, 5);
        },
        _ => {
            let pooled = CodeModel { constant_pool: state.constant_pool.push(value), ..state };
            let index = state.constant_pool.len();
            let checked = pooled.check_index(index);
            let operand = CodeModel::index_operand(index);
            let pushed = checked.emit(Instruction::ConstI32(operand));
            let after = pushed.emit(Instruction::ValueLoad);
            assert(after == state.load_constant(value));
            assert(index <= MAX_POOL_INDEX);
            assert(operand == index);
            lemma_emit_continues(checked, Instruction::ConstI32(operand));
            lemma_emit_continues(pushed, Instruction::ValueLoad);
            lemma_holds_part(m, state, pushed, after);
            assert(holds_segment(m, checked, pushed));
            lemma_holds_emitted(m, checked, Instruction::ConstI32(operand));
            lemma_step_at(m, Instruction::ConstI32(operand));
            let second = advanced(m, m.ip + 5, m.stack.push(ValueModel::Int(operand)));
            assert(m.step() == (second, Status::Running));
            assert(holds_segment(second, pushed, after));
            lemma_holds_emitted(second, pushed, Instruction::ValueLoad);
            lemma_step_at(second, Instruction::ValueLoad);
            assert(second.stack.last() == ValueModel::Int(operand));
            assert(second.stack.drop_last() =~= m.stack);
            assert(m.constant_pool[index as int] == after.constant_pool[index as int]);
            let third = advanced(m, after.bytecode.len() as int, m.stack.push(value));
            assert(second.step() == (third, Status::Running));
            lemma_step_reaches(m, second);
            lemma_step_reaches(second, third);
            lemma_reaches_further(m, 1, second, 1, third);
            lemma_within_more(m, 2, 6);
        },
    }
}

/// Where the branches of the switches are apart, the evaluation of the
/// candidates behind a connected one does not come to the node that feeds
/// it.
pub proof fn lemma_later_branches_are_apart(
    net: NetworkModel,
    node: NodeModel,
    target: nat,
    from: nat,
)
    requires
        net.acyclic(),
        branches_are_apart(net),
        net.nodes.contains(node),
        node.kind == NodeKind::Switch,
        1 <= target < from,
        candidate(net, node, target as int) is Some,
    ensures
        !inputs_visit(net, node, from, candidate(net, node, target as int).unwrap().name),
    decreases NodeKind::Switch.port_names().len() - from,
{
    if from < NodeKind::Switch.port_names().len() {
        let i = choose|i: int| 0 <= i < net.nodes.len() && net.nodes[i] == node;
        let name = candidate(net, node, target as int).unwrap().name;
        lemma_later_branches_are_apart(net, node, target, from + 1);
        if candidate(net, node, from as int) is Some {
            assert(!visits(net, candidate(net, net.nodes[i], from as int).unwrap(), name));
        }
        assert(!port_visits(net, node, node.kind.port_names()[from as int], name));
    }
}

/// The code of a port does to the stack what the evaluation of the port
/// does.
pub proof fn lemma_port_has_effect(
    net: NetworkModel,
    node: NodeModel,
    port: Seq<char>,
    state: CodeModel,
    m: MachineModel,
)
    requires
        net.acyclic(),
        branches_are_apart(net),
        net.nodes.contains(node),
        emit_input_port(net, node, port, state).overflow is None,
        holds_segment(m, state, emit_input_port(net, node, port, state)),
        m.ip == state.bytecode.len(),
    ensures
        match port_effect(net, node, port, m.stack) {
            Ok(stack) => reaches(
                m,
                emit_input_port(net, node, port, state).bytecode.len() - state.bytecode.len(),
                advanced(m, emit_input_port(net, node, port, state).bytecode.len() as int, stack),
            ),
            Err(error) => fails(
                m,
                emit_input_port(net, node, port, state).bytecode.len() - state.bytecode.len(),
                error,
            ),
        },
    decreases net.rank(node.name), 0nat, 0nat,
{
    net.lemma_driver_ranks_lower(node.name, port);
    match net.source(node.name, port) {
        Some(source) => {
            lemma_node_has_effect(net, source, state, m);
        },
        None => {
            lemma_constant_has_effect(state, node.values[port], m);
        },
    }
}

/// The code of the ports from position `from` on does to the stack what
/// their evaluation does.
pub proof fn lemma_inputs_have_effect(
    net: NetworkModel,
    node: NodeModel,
    from: nat,
    state: CodeModel,
    m: MachineModel,
)
    requires
        net.acyclic(),
        branches_are_apart(net),
        net.nodes.contains(node),
        node.kind != NodeKind::Switch,
        emit_inputs(net, node, from, state).overflow is None,
        holds_segment(m, state, emit_inputs(net, node, from, state)),
        m.ip == state.bytecode.len(),
    ensures
        match inputs_effect(net, node, from, m.stack) {
            Ok(stack) => reaches(
                m,
                emit_inputs(net, node, from, state).bytecode.len() - state.bytecode.len(),
                advanced(m, emit_inputs(net, node, from, state).bytecode.len() as int, stack),
            ),
            Err(error) => fails(
                m,
                emit_inputs(net, node, from, state).bytecode.len() - state.bytecode.len(),
                error,
            ),
        },
    decreases net.rank(node.name), 1nat, node.kind.port_names().len() - from,
{
    let after = emit_inputs(net, node, from, state);
    let whole = after.bytecode.len() - state.bytecode.len();
    if from >= node.kind.port_names().len() {
        lemma_reaches_itself(m);
        assert(advanced(m, state.bytecode.len() as int, m.stack) == m);
    } else {
        let port = node.kind.port_names()[from as int];
        let first = emit_input_port(net, node, port, state);
        let part = first.bytecode.len() - state.bytecode.len();
        lemma_port_lies(net, node, port, state);
        lemma_inputs_lie(net, node, from + 1, first);
        lemma_holds_part(m, state, first, after);
        lemma_port_has_effect(net, node, port, state, m);
        match port_effect(net, node, port, m.stack) {
            Err(error) => {
                lemma_within_more(m, part, whole);
            },
            Ok(pushed) => {
                let second = advanced(m, first.bytecode.len() as int, pushed);
                assert(holds_segment(second, first, after));
                lemma_inputs_have_effect(net, node, from + 1, first, second);
                match inputs_effect(net, node, from + 1, pushed) {
                    Err(error) => {
                        lemma_reaches_and_fails(m, part, second, whole - part, error);
                    },
                    Ok(stack) => {
                        lemma_reaches_further(
                            m,
                            part,
                            second,
                            whole - part,
                            advanced(m, after.bytecode.len() as int, stack),
                        );
                    },
                }
            },
        }
    }
}

/// The branch of a switch for the candidate at position `target`, run from
/// the label of the node that feeds the candidate, does to the stack what
/// the evaluation of that node does, and leads to the end of the switch.
pub proof fn lemma_branch_has_effect(
    net: NetworkModel,
    node: NodeModel,
    from: nat,
    state: CodeModel,
    ends: Seq<int>,
    low: int,
    target: nat,
    m: MachineModel,
)
    requires
        net.acyclic(),
        branches_are_apart(net),
        net.nodes.contains(node),
        node.kind == NodeKind::Switch,
        1 <= from <= target < NodeKind::Switch.port_names().len(),
        candidate(net, node, target as int) is Some,
        low <= state.bytecode.len(),
        operands_lie_in(ends, low, state.bytecode.len() as int),
        emit_bodies(net, node, from, state, ends).0.overflow is None,
        holds_bodies(
            m,
            state.bytecode.len() as int,
            emit_bodies(net, node, from, state, ends).0,
            emit_bodies(net, node, from, state, ends).1,
        ),
        m.ip == emit_bodies(net, node, from, state, ends).0.labels[candidate(
            net,
            node,
            target as int,
        ).unwrap().name],
    ensures
        match node_effect(net, candidate(net, node, target as int).unwrap(), m.stack) {
            Ok(stack) => reaches(
                m,
                emit_bodies(net, node, from, state, ends).0.bytecode.len() - state.bytecode.len(),
                advanced(
                    m,
                    emit_bodies(net, node, from, state, ends).0.bytecode.len() as int,
                    stack,
                ),
            ),
            Err(error) => fails(
                m,
                emit_bodies(net, node, from, state, ends).0.bytecode.len() - state.bytecode.len(),
                error,
            ),
        },
    decreases net.rank(node.name), 1nat, NodeKind::Switch.port_names().len() - from,
{
    let (branched, all) = emit_bodies(net, node, from, state, ends);
    let end = branched.bytecode.len();
    let whole = end - state.bytecode.len();
    let port = NodeKind::Switch.port_names()[from as int];
    net.lemma_driver_ranks_lower(node.name, port);
    match candidate(net, node, from as int) {
        None => {
            lemma_branch_has_effect(net, node, from + 1, state, ends, low, target, m);
        },
        Some(source) => {
            let body = emit_node(net, source, state);
            let branch = body.emit(Instruction::Jmp(PLACEHOLDER_ADDRESS));
            let operand = body.bytecode.len() as int + 1;
            let more = ends.push(branch.bytecode.len() - 2);
            lemma_node_lies(net, source, state);
            lemma_emit_continues(body, Instruction::Jmp(PLACEHOLDER_ADDRESS));
            lemma_one_more_operand(
                ends,
                low,
                state.bytecode.len() as int,
                operand,
                branch.bytecode.len() as int,
            );
            lemma_bodies_lie(net, node, from + 1, branch, more, low);
            lemma_continues_further(branched, branch, body);
            lemma_continues_keeps(branched, body);
            lemma_continues_keeps(branched, branch);
            if from < target {
                lemma_branch_has_effect(net, node, from + 1, branch, more, low, target, m);
                lemma_within_more(m, end - branch.bytecode.len(), whole);
            } else {
                lemma_later_branches_are_apart(net, node, target, from + 1);
                assert(keeps_label(branched, branch, source.name));
                assert(m.ip == state.bytecode.len());
                assert(all[ends.len() as int] == more[ends.len() as int]);
                assert forall|j: int| 0 <= j < all.len() implies (#[trigger] all[j]) + 2
                    <= state.bytecode.len() || body.bytecode.len() + 1 <= all[j] by {
                    if j < ends.len() {
                        assert(all[j] == more[j]);
                        assert(more[j] == ends[j]);
                    } else if j > ends.len() {
                        assert(all[ends.len() as int] + 2 <= all[j]);
                    }
                }
                assert(holds_segment(m, state, body)) by {
                    assert forall|k: int|
                        state.bytecode.len() <= k < body.bytecode.len() implies m.bytecode[k]
                        == #[trigger] body.bytecode[k] by {
                        assert forall|j: int| 0 <= j < all.len() implies !within_operand(
                            k,
                            #[trigger] all[j],
                        ) by {}
                        assert(m.bytecode[k] == branched.bytecode[k]);
                    }
                }
                lemma_node_has_effect(net, source, state, m);
                let part = body.bytecode.len() - state.bytecode.len();
                match node_effect(net, source, m.stack) {
                    Err(error) => {
                        lemma_within_more(m, part, whole);
                    },
                    Ok(stack) => {
                        let done = advanced(m, body.bytecode.len() as int, stack);
                        let there = advanced(m, end as int, stack);
                        assert(holds_instruction(
                            m.bytecode,
                            body.bytecode.len() as int,
                            Instruction::Jmp(end as u16),
                        )) by {
                            let k = body.bytecode.len() as int;
                            assert forall|j: int| 0 <= j < all.len() implies !within_operand(
                                k,
                                #[trigger] all[j],
                            ) by {}
                            assert(m.bytecode[k] == branched.bytecode[k]);
                            assert(branched.bytecode[k] == branch.bytecode[k]);
                            assert(branch.bytecode[k] == OP_JMP);
                            assert(holds_address(m.bytecode, all[ends.len() as int], end));
                            assert(address_bytes(end) == u16_bytes(end as u16));
                            let encoding = Instruction::Jmp(end as u16).encoding();
                            assert forall|i: int| 0 <= i < encoding.len() implies m.bytecode[k + i]
                                == encoding[i] by {}
                        }
                        lemma_step_at(done, Instruction::Jmp(end as u16));
                        assert(done.step() == (there, Status::Running));
                        lemma_step_reaches(done, there);
                        lemma_reaches_further(m, part, done, 1, there);
                        lemma_within_more(m, part + 1, whole);
                    },
                }
            }
        },
    }
}

/// The code of a switch, its label being recorded already, does to the
/// stack what the evaluation of the switch does.
pub proof fn lemma_switch_has_effect(
    net: NetworkModel,
    node: NodeModel,
    state: CodeModel,
    m: MachineModel,
)
    requires
        net.acyclic(),
        branches_are_apart(net),
        net.nodes.contains(node),
        node.kind == NodeKind::Switch,
        emit_switch(net, node, state).overflow is None,
        holds_segment(m, state, emit_switch(net, node, state)),
        m.ip == state.bytecode.len(),
    ensures
        match node_effect(net, node, m.stack) {
            Ok(stack) => reaches(
                m,
                emit_switch(net, node, state).bytecode.len() - state.bytecode.len(),
                advanced(m, emit_switch(net, node, state).bytecode.len() as int, stack),
            ),
            Err(error) => fails(
                m,
                emit_switch(net, node, state).bytecode.len() - state.bytecode.len(),
                error,
            ),
        },
    decreases net.rank(node.name), 2nat, 0nat,
{
    let parts = switch_parts(net, node, state);
    let end = parts.branched.bytecode.len();
    let whole = end - state.bytecode.len();
    let port = NodeKind::Switch.port_names()[0];
    let first_end = seq![parts.skipped.bytecode.len() - 2];
    let low = parts.selected.bytecode.len() as int;
    lemma_switch_is_held(net, node, state, m);
    lemma_port_has_effect(net, node, port, state, m);
    let part = parts.selected.bytecode.len() - state.bytecode.len();
    let tests = parts.tested.bytecode.len() - parts.selected.bytecode.len();
    match port_effect(net, node, port, m.stack) {
        Err(error) => {
            lemma_within_more(m, part, whole);
        },
        Ok(selected) => {
            let second = advanced(m, parts.selected.bytecode.len() as int, selected);
            assert(operands_lie_in(offsets_of(Seq::<FixupModel>::empty()), low, low));
            if selected.len() == 0 {
                lemma_tests_underflow(
                    net,
                    node,
                    1,
                    parts.selected,
                    Seq::empty(),
                    low,
                    second,
                    parts.branched.labels,
                );
                lemma_reaches_and_fails(m, part, second, 1, RuntimeErrorKind::StackUnderflow);
                lemma_within_more(m, part + 1, whole);
            } else {
                lemma_tests_run(
                    net,
                    node,
                    1,
                    parts.selected,
                    Seq::empty(),
                    low,
                    second,
                    parts.branched.labels,
                );
                lemma_select_is_chosen(net, node, 1, selected);
                let q = chosen(net, node, 1, selected.last());
                if q >= NodeKind::Switch.port_names().len() {
                    let third = advanced(m, parts.tested.bytecode.len() as int, selected);
                    let fourth = advanced(
                        m,
                        parts.tested.bytecode.len() as int + 1,
                        selected.drop_last(),
                    );
                    let there = advanced(m, end as int, selected.drop_last());
                    lemma_step_at(third, Instruction::Pop);
                    assert(third.step() == (fourth, Status::Running));
                    lemma_step_at(fourth, Instruction::Jmp(end as u16));
                    assert(fourth.step() == (there, Status::Running));
                    lemma_step_reaches(third, fourth);
                    lemma_step_reaches(fourth, there);
                    lemma_reaches_further(m, part, second, tests, third);
                    lemma_reaches_further(m, part + tests, third, 1, fourth);
                    lemma_reaches_further(m, part + tests + 1, fourth, 1, there);
                    lemma_within_more(m, part + tests + 2, whole);
                } else {
                    let source = candidate(net, node, q as int).unwrap();
                    let third = advanced(m, parts.branched.labels[source.name] as int, selected);
                    lemma_branch_has_effect(net, node, 1, parts.skipped, first_end, low, q, third);
                    let rest = end - parts.skipped.bytecode.len();
                    lemma_reaches_further(m, part, second, tests, third);
                    match node_effect(net, source, selected) {
                        Err(error) => {
                            lemma_reaches_and_fails(m, part + tests, third, rest, error);
                            lemma_within_more(m, part + tests + rest, whole);
                        },
                        Ok(stack) => {
                            lemma_reaches_further(
                                m,
                                part + tests,
                                third,
                                rest,
                                advanced(m, end as int, stack),
                            );
                            lemma_within_more(m, part + tests + rest, whole);
                        },
                    }
                }
            }
        },
    }
}

/// The code of a node does to the stack what the evaluation of the node
/// does.
pub proof fn lemma_node_has_effect(
    net: NetworkModel,
    node: NodeModel,
    state: CodeModel,
    m: MachineModel,
)
    requires
        net.acyclic(),
        branches_are_apart(net),
        net.nodes.contains(node),
        emit_node(net, node, state).overflow is None,
        holds_segment(m, state, emit_node(net, node, state)),
        m.ip == state.bytecode.len(),
    ensures
        match node_effect(net, node, m.stack) {
            Ok(stack) => reaches(
                m,
                emit_node(net, node, state).bytecode.len() - state.bytecode.len(),
                advanced(m, emit_node(net, node, state).bytecode.len() as int, stack),
            ),
            Err(error) => fails(
                m,
                emit_node(net, node, state).bytecode.len() - state.bytecode.len(),
                error,
            ),
        },
    decreases net.rank(node.name), 3nat, 0nat,
{
    let marked = state.mark_label(node.name);
    let after = emit_node(net, node, state);
    let whole = after.bytecode.len() - state.bytecode.len();
    if node.kind == NodeKind::Switch {
        assert(holds_segment(m, marked, after));
        lemma_switch_has_effect(net, node, marked, m);
    } else {
        let pushed = emit_inputs(net, node, 0, marked);
        let call_node = Instruction::CallNode(node.kind);
        let part = pushed.bytecode.len() - state.bytecode.len();
        lemma_emit_continues(pushed, call_node);
        lemma_inputs_lie(net, node, 0, marked);
        assert(holds_segment(m, marked, after));
        lemma_holds_part(m, marked, pushed, after);
        lemma_inputs_have_effect(net, node, 0, marked, m);
        match inputs_effect(net, node, 0, m.stack) {
            Err(error) => {
                lemma_within_more(m, part, whole);
            },
            Ok(ready) => {
                let second = advanced(m, pushed.bytecode.len() as int, ready);
                assert(holds_segment(second, pushed, after));
                lemma_holds_emitted(second, pushed, call_node);
                lemma_step_at(second, call_node);
                let called = second.jump(second.ip + call_node.spec_size());
                lemma_call_has_effect(called, node.kind);
                match call(node.kind, ready) {
                    Err(error) => {
                        lemma_step_fails(second, error);
                        lemma_reaches_and_fails(m, part, second, 1, error);
                        lemma_within_more(m, part + 1, whole);
                    },
                    Ok(stack) => {
                        let there = advanced(m, after.bytecode.len() as int, stack);
                        assert(second.step() == (there, Status::Running));
                        lemma_step_reaches(second, there);
                        lemma_reaches_further(m, part, second, 1, there);
                        lemma_within_more(m, part + 1, whole);
                    },
                }
            },
        }
    }
}

/// The program of a network computes what the evaluation of the rendered
/// node makes of an empty stack, provided that the branches of every switch
/// are apart: run for at least as many instructions as it has bytes, the
/// program halts at its end with that stack, or else fails as the
/// evaluation fails.
pub proof fn law_program_has_the_effect(net: NetworkModel, fuel: nat)
    requires
        net.acyclic(),
        branches_are_apart(net),
        net.rendered() is Some,
        operands_fit(net),
        fuel >= compile_spec(net).bytecode.len(),
    ensures
        match node_effect(net, net.rendered().unwrap(), Seq::empty()) {
            Ok(stack) => machine_for(compile_spec(net)).run(fuel) == (
                advanced(
                    machine_for(compile_spec(net)),
                    compile_spec(net).bytecode.len() as int,
                    stack,
                ),
                Status::Halted,
            ),
            Err(error) => machine_for(compile_spec(net)).run(fuel).1 == Status::Failed(
                error,
            ),
        },
{
    let node = net.rendered().unwrap();
    let program = compile_spec(net);
    let start = machine_for(program);
    let body = emit_node(net, node, CodeModel::empty());
    let done = body.emit(Instruction::End);
    net.lemma_find_node_name(net.rendered_node);
    lemma_node_lies(net, node, CodeModel::empty());
    lemma_emit_continues(body, Instruction::End);
    lemma_continues_keeps(done, body);
    assert(holds_segment(start, CodeModel::empty(), body));
    lemma_node_has_effect(net, node, CodeModel::empty(), start);
    match node_effect(net, node, Seq::empty()) {
        Err(error) => {
            let n = choose|n: nat|
                n <= body.bytecode.len() && (#[trigger] start.run(n)).1 == Status::Failed(error);
            lemma_run_in_two_parts(start, n, (fuel - n) as nat);
        },
        Ok(stack) => {
            let ready = advanced(start, body.bytecode.len() as int, stack);
            let end = advanced(start, done.bytecode.len() as int, stack);
            let n = choose|n: nat|
                n <= body.bytecode.len() && #[trigger] start.run(n) == (ready, Status::Running);
            assert(holds_instruction(
                ready.bytecode,
                body.bytecode.len() as int,
                Instruction::End,
            )) by {
                assert(done.bytecode[body.bytecode.len() as int] == Instruction::End.encoding()[0]);
            }
            lemma_step_at(ready, Instruction::End);
            assert(ready.step() == (end, Status::Halted));
            assert(ready.run(1) == (end, Status::Halted)) by {
                reveal_with_fuel(MachineModel::run, 2);
            }
            lemma_run_in_two_parts(start, n, 1);
            lemma_run_in_two_parts(start, n + 1, (fuel - n - 1) as nat);
        },
    }
}

} // verus!
