//! Compiles the network to bytecode.

use crate::bytecode::{i32_from_bits, i32_of_bits, u16_bytes, Instruction};
use crate::network::{Network, NetworkModel, Node, NodeKind, NodeModel};
use crate::text::same_text;
use crate::value::{Value, ValueModel};
use vstd::hash_map::StringHashMap;
use vstd::prelude::*;

verus! {

/// The address that a jump carries until its target is known.
pub const PLACEHOLDER_ADDRESS: u16 = 0xcccc;

/// The highest address that a jump can carry.
pub const MAX_ADDRESS: usize = 0xFFFF;

/// The highest index that a load from the constant pool can carry.
pub const MAX_POOL_INDEX: usize = 0x7FFF_FFFF;

/// What can go wrong in compiling a network.
///
/// Compiling does not fail for either: a value that does not fit its
/// operand is written with its low bits, and the code generator records the
/// first such value.
#[derive(Debug, Clone, Copy, PartialEq, Eq, Structural)]
pub enum CompileErrorKind {
    /// A jump target lies beyond the highest address.
    AddressOverflow,
    /// The constant pool has more entries than an index can name.
    ConstantPoolOverflow,
}

/// A value that did not fit its operand, with the place in the output where
/// it was written.
#[derive(Debug, Clone, Copy, PartialEq, Eq)]
pub struct CompileError {
    /// The bytecode offset at which the value was written, and the value
    /// that did not fit.
    pub location: (usize, usize),
    pub kind: CompileErrorKind,
}

/// What the compiler works on.
pub struct CompilerContext<'a> {
    pub network: &'a Network,
}

/// A compiled network: the program and the constants that it loads.
pub struct CompiledNetwork {
    pub bytecode: Vec<u8>,
    pub constant_pool: Vec<Value>,
}

/// The mathematical content of a [`CompiledNetwork`].
pub struct CompiledModel {
    pub bytecode: Seq<u8>,
    pub constant_pool: Seq<ValueModel>,
}

impl View for CompiledNetwork {
    type V = CompiledModel;

    open spec fn view(&self) -> CompiledModel {
        CompiledModel {
            bytecode: self.bytecode@,
            constant_pool: self.constant_pool@.map_values(|v: Value| v@),
        }
    }
}

impl CompiledNetwork {
    pub fn new() -> (compiled: CompiledNetwork)
        ensures
            compiled@ == (CompiledModel { bytecode: Seq::empty(), constant_pool: Seq::empty() }),
    {
        let compiled = CompiledNetwork { bytecode: Vec::new(), constant_pool: Vec::new() };
        assert(compiled@.constant_pool =~= Seq::empty());
        compiled
    }
}

/// The state of code generation: the output so far, the offset at which the
/// code of each node visited so far begins, and the first value that did not
/// fit its operand, if there was one.
pub struct CodeModel {
    pub bytecode: Seq<u8>,
    pub labels: Map<Seq<char>, nat>,
    pub constant_pool: Seq<ValueModel>,
    pub overflow: Option<CompileError>,
}

impl CodeModel {
    /// The state before anything is generated.
    pub open spec fn empty() -> CodeModel {
        CodeModel {
            bytecode: Seq::empty(),
            labels: Map::empty(),
            constant_pool: Seq::empty(),
            overflow: None,
        }
    }

    /// The state after `instruction` is appended.
    pub open spec fn emit(self, instruction: Instruction) -> CodeModel {
        CodeModel { bytecode: self.bytecode + instruction.encoding(), ..self }
    }

    /// The state after the current offset is recorded for `label`.
    pub open spec fn mark_label(self, label: Seq<char>) -> CodeModel {
        CodeModel { labels: self.labels.insert(label, self.bytecode.len()), ..self }
    }

    /// The state with `error` recorded, unless an earlier one is.
    pub open spec fn record(self, error: CompileError) -> CodeModel {
        if self.overflow is Some {
            self
        } else {
            CodeModel { overflow: Some(error), ..self }
        }
    }

    /// The operand that stands for position `index` of the constant pool: the
    /// index itself up to the highest one, and its low 32 bits beyond.
    pub open spec fn index_operand(index: nat) -> i32 {
        i32_of_bits((index % 0x1_0000_0000) as u32)
    }

    /// The state after position `index` of the constant pool is turned into
    /// an operand: an index beyond the highest one is recorded.
    pub open spec fn check_index(self, index: nat) -> CodeModel {
        if index > MAX_POOL_INDEX {
            self.record(
                CompileError {
                    location: (self.bytecode.len() as usize, index as usize),
                    kind: CompileErrorKind::ConstantPoolOverflow,
                },
            )
        } else {
            self
        }
    }

    /// The state after the operand for position `index` of the constant pool
    /// is pushed.
    pub open spec fn emit_index(self, index: nat) -> CodeModel {
        self.check_index(index).emit(Instruction::ConstI32(Self::index_operand(index)))
    }

    /// The position of the first string equal to `text` at or after `start`
    /// in the constant pool.
    pub open spec fn string_position_from(self, text: Seq<char>, start: int) -> Option<int>
        decreases self.constant_pool.len() - start,
    {
        if start < 0 || start >= self.constant_pool.len() {
            None
        } else if self.constant_pool[start] == ValueModel::String(text) {
            Some(start)
        } else {
            self.string_position_from(text, start + 1)
        }
    }

    /// The state after `text` is interned: unchanged where the constant pool
    /// holds it already, and with the string appended where it does not.
    pub open spec fn intern_string(self, text: Seq<char>) -> CodeModel {
        match self.string_position_from(text, 0) {
            Some(position) => self.check_index(position as nat),
            None => CodeModel {
                constant_pool: self.constant_pool.push(ValueModel::String(text)),
                ..self
            }.check_index(self.constant_pool.len()),
        }
    }

    /// The position at which `text` stands once it is interned.
    pub open spec fn interned_position(self, text: Seq<char>) -> nat {
        match self.string_position_from(text, 0) {
            Some(position) => position as nat,
            None => self.constant_pool.len(),
        }
    }

    /// Whether this state continues `earlier`: the code is no shorter and
    /// every label of `earlier` is still known.
    pub open spec fn extends(self, earlier: CodeModel) -> bool {
        &&& self.bytecode.len() >= earlier.bytecode.len()
        &&& forall|name: Seq<char>|
            earlier.labels.contains_key(name) ==> #[trigger] self.labels.contains_key(name)
    }

    /// The state after code is generated that pushes the constant `value`: an
    /// integer or a float is an immediate operand, and any other value goes
    /// to the constant pool and is loaded by its index.
    pub open spec fn load_constant(self, value: ValueModel) -> CodeModel {
        match value {
            ValueModel::Int(v) => self.emit(Instruction::ConstI32(v)),
            ValueModel::Float(bits) => self.emit(Instruction::ConstF32(bits)),
            _ => {
                let pooled = CodeModel { constant_pool: self.constant_pool.push(value), ..self };
                pooled.emit_index(self.constant_pool.len()).emit(Instruction::ValueLoad)
            },
        }
    }

    /// The state after the address operand at `offset` is overwritten with
    /// `address`: its low 16 bits are written, and an address beyond the
    /// highest one is recorded.
    pub open spec fn patch(self, offset: int, address: nat) -> CodeModel {
        if 0 <= offset && offset + 2 <= self.bytecode.len() {
            let operand = u16_bytes((address % 0x1_0000) as u16);
            let patched = CodeModel {
                bytecode: self.bytecode.update(offset, operand[0]).update(offset + 1, operand[1]),
                ..self
            };
            if address > MAX_ADDRESS {
                patched.record(
                    CompileError {
                        location: (offset as usize, address as usize),
                        kind: CompileErrorKind::AddressOverflow,
                    },
                )
            } else {
                patched
            }
        } else {
            self
        }
    }
}

/// A jump whose address is written once the offset of its target is known.
pub struct FixupModel {
    /// The offset of the address operand.
    pub offset: int,
    /// The name of the node at whose code the jump is aimed.
    pub target: Seq<char>,
}

/// The state after the code of `node` is generated: its label is recorded,
/// then a switch is laid out as a chain of tests and branches, and any other
/// node as the code of its inputs followed by a call of its kind.
pub open spec fn emit_node(net: NetworkModel, node: NodeModel, state: CodeModel) -> CodeModel
    decreases net.rank(node.name), 3nat, 0nat,
    when net.acyclic()
{
    let marked = state.mark_label(node.name);
    if node.kind == NodeKind::Switch {
        emit_switch(net, node, marked)
    } else {
        emit_inputs(net, node, 0, marked).emit(Instruction::CallNode(node.kind))
    }
}

/// The state after the code of the ports of `node` from position `from` on
/// is generated, in port order.
pub open spec fn emit_inputs(net: NetworkModel, node: NodeModel, from: nat, state: CodeModel)
    -> CodeModel
    decreases net.rank(node.name), 1nat, node.kind.port_names().len() - from,
    when net.acyclic()
{
    if from >= node.kind.port_names().len() {
        state
    } else {
        emit_inputs(
            net,
            node,
            from + 1,
            emit_input_port(net, node, node.kind.port_names()[from as int], state),
        )
    }
}

/// The state after the code of one port is generated: the code of the node
/// that feeds it, or else a load of its constant.
pub open spec fn emit_input_port(
    net: NetworkModel,
    node: NodeModel,
    port: Seq<char>,
    state: CodeModel,
) -> CodeModel
    decreases net.rank(node.name), 0nat, 0nat,
    when net.acyclic()
{
    match net.source(node.name, port) {
        Some(source) => {
            proof {
                net.lemma_driver_ranks_lower(node.name, port);
            }
            emit_node(net, source, state)
        },
        None => state.load_constant(node.values[port]),
    }
}

/// The state and the fixups after the tests of a switch are generated for
/// the candidates from position `from` on: for each connected candidate a
/// copy of the selector, the candidate's ordinal and a jump taken if they
/// are equal, whose address is a fixup aimed at the candidate.
pub open spec fn emit_tests(
    net: NetworkModel,
    node: NodeModel,
    from: nat,
    state: CodeModel,
    fixups: Seq<FixupModel>,
) -> (CodeModel, Seq<FixupModel>)
    decreases NodeKind::Switch.port_names().len() - from,
{
    if from < 1 || from >= NodeKind::Switch.port_names().len() {
        (state, fixups)
    } else {
        match net.source(node.name, NodeKind::Switch.port_names()[from as int]) {
            Some(source) => {
                let tested = state.emit(Instruction::Dup).emit(
                    Instruction::ConstI32((from - 1) as i32),
                ).emit(Instruction::IfEqI32(PLACEHOLDER_ADDRESS));
                emit_tests(
                    net,
                    node,
                    from + 1,
                    tested,
                    fixups.push(
                        FixupModel { offset: tested.bytecode.len() - 2, target: source.name },
                    ),
                )
            },
            None => emit_tests(net, node, from + 1, state, fixups),
        }
    }
}

/// The state and the end fixups after the branches of a switch are generated
/// for the candidates from position `from` on: for each connected candidate
/// its code and a jump to the end of the switch.
pub open spec fn emit_bodies(
    net: NetworkModel,
    node: NodeModel,
    from: nat,
    state: CodeModel,
    ends: Seq<int>,
) -> (CodeModel, Seq<int>)
    decreases net.rank(node.name), 1nat, NodeKind::Switch.port_names().len() - from,
    when net.acyclic()
{
    if from < 1 || from >= NodeKind::Switch.port_names().len() {
        (state, ends)
    } else {
        match net.source(node.name, NodeKind::Switch.port_names()[from as int]) {
            Some(source) => {
                proof {
                    net.lemma_driver_ranks_lower(
                        node.name,
                        NodeKind::Switch.port_names()[from as int],
                    );
                }
                let branch = emit_node(net, source, state).emit(
                    Instruction::Jmp(PLACEHOLDER_ADDRESS),
                );
                emit_bodies(net, node, from + 1, branch, ends.push(branch.bytecode.len() - 2))
            },
            None => emit_bodies(net, node, from + 1, state, ends),
        }
    }
}

/// The state after each of the operands at `ends`, from position `from` on,
/// is overwritten with `end`.
pub open spec fn patch_ends(state: CodeModel, ends: Seq<int>, from: nat, end: nat) -> CodeModel
    decreases ends.len() - from,
{
    if from >= ends.len() {
        state
    } else {
        patch_ends(state.patch(ends[from as int], end), ends, from + 1, end)
    }
}

/// The state after each of `fixups`, from position `from` on, is overwritten
/// with the label of its target.
pub open spec fn patch_targets(state: CodeModel, fixups: Seq<FixupModel>, from: nat) -> CodeModel
    decreases fixups.len() - from,
{
    if from >= fixups.len() {
        state
    } else {
        let fixup = fixups[from as int];
        patch_targets(state.patch(fixup.offset, state.labels[fixup.target]), fixups, from + 1)
    }
}

/// The state after the code of the switch `node` is generated, its label
/// being recorded already: the code of the selector; the tests; for the case
/// that none matches, a pop of the selector and a jump to the end; the
/// branches; and then every jump gets its address.
pub open spec fn emit_switch(net: NetworkModel, node: NodeModel, state: CodeModel) -> CodeModel
    decreases net.rank(node.name), 2nat, 0nat,
    when net.acyclic()
{
    let selected = emit_input_port(net, node, NodeKind::Switch.port_names()[0], state);
    let (tested, fixups) = emit_tests(net, node, 1, selected, Seq::empty());
    let skipped = tested.emit(Instruction::Pop).emit(Instruction::Jmp(PLACEHOLDER_ADDRESS));
    let (branched, ends) = emit_bodies(net, node, 1, skipped, seq![skipped.bytecode.len() - 2]);
    patch_targets(patch_ends(branched, ends, 0, branched.bytecode.len()), fixups, 0)
}

/// What compiling `net` gives: a program that only halts where no node is to
/// be evaluated, and else the code of that node followed by a halt.
pub open spec fn compile_spec(net: NetworkModel) -> CompiledModel {
    match net.rendered() {
        None => CompiledModel {
            bytecode: Instruction::End.encoding(),
            constant_pool: Seq::empty(),
        },
        Some(node) => {
            let done = emit_node(net, node, CodeModel::empty()).emit(Instruction::End);
            CompiledModel { bytecode: done.bytecode, constant_pool: done.constant_pool }
        },
    }
}

/// Whether every jump target and every constant pool index of the program
/// of `net` fits its operand. Where one does not, the program holds its low
/// bits.
pub open spec fn operands_fit(net: NetworkModel) -> bool {
    match net.rendered() {
        None => true,
        Some(node) => emit_node(net, node, CodeModel::empty()).overflow is None,
    }
}

/// A jump whose address is written once the offset of its target is known.
pub struct Fixup {
    /// The offset of the address operand.
    pub offset: usize,
    /// The name of the node at whose code the jump is aimed.
    pub target: String,
}

impl View for Fixup {
    type V = FixupModel;

    open spec fn view(&self) -> FixupModel {
        FixupModel { offset: self.offset as int, target: self.target@ }
    }
}

/// The code generator: it walks the network from a node and appends the code
/// of each node that it visits.
pub struct CodeGenVisitor {
    pub bytecode: Vec<u8>,
    pub labels: StringHashMap<usize>,
    pub constant_pool: Vec<Value>,
    /// The first value that did not fit its operand, if there was one.
    pub overflow: Option<CompileError>,
}

impl View for CodeGenVisitor {
    type V = CodeModel;

    open spec fn view(&self) -> CodeModel {
        CodeModel {
            bytecode: self.bytecode@,
            labels: self.labels@.map_values(|offset: usize| offset as nat),
            constant_pool: self.constant_pool@.map_values(|v: Value| v@),
            overflow: self.overflow,
        }
    }
}

impl CodeGenVisitor {
    pub fn new() -> (visitor: CodeGenVisitor)
        ensures
            visitor@ == CodeModel::empty(),
    {
        let visitor = CodeGenVisitor {
            bytecode: Vec::new(),
            labels: StringHashMap::new(),
            constant_pool: Vec::new(),
            overflow: None,
        };
        assert(visitor@.labels =~= Map::empty());
        assert(visitor@.constant_pool =~= Seq::empty());
        visitor
    }

    /// Records the current offset for `label`, in place of an earlier one.
    pub fn mark_label(&mut self, label: String)
        ensures
            final(self)@ == old(self)@.mark_label(label@),
    {
        self.labels.insert(label, self.bytecode.len());
        assert(self@.labels =~= old(self)@.labels.insert(label@, self.bytecode@.len()));
    }

    /// The offset recorded for `label`, if one is.
    pub fn find_label(&self, label: &str) -> (offset: Option<usize>)
        ensures
            match offset {
                Some(o) => self@.labels.contains_key(label@) && self@.labels[label@] == o,
                None => !self@.labels.contains_key(label@),
            },
    {
        match self.labels.get(label) {
            Some(pos) => Some(*pos),
            None => None,
        }
    }

    /// Records `error`, unless an earlier one is recorded.
    fn record(&mut self, error: CompileError)
        ensures
            final(self)@ == old(self)@.record(error),
    {
        if self.overflow.is_none() {
            self.overflow = Some(error);
        }
    }

    /// The operand that stands for position `index` of the constant pool.
    fn index_operand(&mut self, index: usize) -> (operand: i32)
        ensures
            final(self)@ == old(self)@.check_index(index as nat),
            operand == CodeModel::index_operand(index as nat),
    {
        if index > MAX_POOL_INDEX {
            self.record(
                CompileError {
                    location: (self.bytecode.len(), index),
                    kind: CompileErrorKind::ConstantPoolOverflow,
                },
            );
            i32_from_bits((index as u64 % 0x1_0000_0000) as u32)
        } else {
            index as i32
        }
    }

    /// The position of `s` in the constant pool, to which it is appended
    /// unless the pool holds it already.
    // We don't use usize since the constant pool can only take the size that we specify, which is bounded.
    pub fn intern_string(&mut self, s: &str) -> (index: i32)
        ensures
            final(self)@ == old(self)@.intern_string(s@),
            index == CodeModel::index_operand(old(self)@.interned_position(s@)),
    {
        // Check if string is in the pool
        let mut pos: usize = 0;
        while pos < self.constant_pool.len()
            invariant
                pos <= self.constant_pool.len(),
                *self == *old(self),
                self@.string_position_from(s@, 0) == self@.string_position_from(s@, pos as int),
            decreases self.constant_pool.len() - pos,
        {
            let found = match &self.constant_pool[pos] {
                Value::String(vs) => same_text(vs.as_str(), s),
                _ => false,
            };
            assert(found == (self@.constant_pool[pos as int] == ValueModel::String(s@)));
            // If it is, return its position.
            if found {
                return self.index_operand(pos);
            }
            pos += 1;
        }
        // If not, place a copy in the constant pool.
        self.constant_pool.push(Value::String(s.to_owned()));
        assert(self@.constant_pool =~= old(self)@.constant_pool.push(ValueModel::String(s@)));
        self.index_operand(self.constant_pool.len() - 1)
    }

    /// Appends `instruction`.
    fn push(&mut self, instruction: Instruction)
        ensures
            final(self)@ == old(self)@.emit(instruction),
    {
        instruction.write_to(&mut self.bytecode);
    }

    pub fn push_const_i32(&mut self, v: i32)
        ensures
            final(self)@ == old(self)@.emit(Instruction::ConstI32(v)),
    {
        self.push(Instruction::ConstI32(v));
    }

    /// Appends a push of the float whose bit pattern is `bits`.
    pub fn push_const_f32(&mut self, bits: u32)
        ensures
            final(self)@ == old(self)@.emit(Instruction::ConstF32(bits)),
    {
        self.push(Instruction::ConstF32(bits));
    }

    pub fn push_dup(&mut self)
        ensures
            final(self)@ == old(self)@.emit(Instruction::Dup),
    {
        self.push(Instruction::Dup);
    }

    pub fn push_pop(&mut self)
        ensures
            final(self)@ == old(self)@.emit(Instruction::Pop),
    {
        self.push(Instruction::Pop);
    }

    pub fn push_jmp(&mut self, addr: u16)
        ensures
            final(self)@ == old(self)@.emit(Instruction::Jmp(addr)),
    {
        self.push(Instruction::Jmp(addr));
    }

    pub fn push_if_eq_i32(&mut self, addr: u16)
        ensures
            final(self)@ == old(self)@.emit(Instruction::IfEqI32(addr)),
    {
        self.push(Instruction::IfEqI32(addr));
    }

    /// Overwrites the address operand at `offset` with `address`.
    fn patch(&mut self, offset: usize, address: usize)
        requires
            offset + 2 <= old(self).bytecode.len(),
        ensures
            final(self)@ == old(self)@.patch(offset as int, address as nat),
    {
        let low: u8 = (address % 256) as u8;
        let high: u8 = ((address / 256) % 256) as u8;
        proof {
            let operand = u16_bytes((address as nat % 0x1_0000) as u16);
            assert(operand[0] == low) by {
                assert((address as nat % 0x1_0000) % 256 == address as nat % 256);
            }
            assert(operand[1] == high) by {
                assert((address as nat % 0x1_0000) / 256 == (address as nat / 256) % 256);
            }
        }
        self.bytecode.set(offset, low);
        self.bytecode.set(offset + 1, high);
        assert(self.bytecode@ == old(self).bytecode@.update(offset as int, low).update(
            offset + 1,
            high,
        ));
        if address > MAX_ADDRESS {
            self.record(
                CompileError { location: (offset, address), kind: CompileErrorKind::AddressOverflow },
            );
        }
    }

    /// Appends code that pushes the constant `value`.
    fn visit_value(&mut self, value: &Value)
        ensures
            final(self)@ == old(self)@.load_constant(value@),
    {
        match value {
            Value::Int(v) => self.push_const_i32(*v),
            Value::Float(v) => self.push_const_f32(*v),
            _ => {
                self.constant_pool.push(value.clone());
                assert(self@.constant_pool =~= old(self)@.constant_pool.push(value@));
                let index = self.constant_pool.len() - 1;
                let operand = self.index_operand(index);
                self.push_const_i32(operand);
                self.push(Instruction::ValueLoad);
            },
        }
    }
}

/// The node that feeds the candidate at position `q` of the switch `node`.
pub open spec fn candidate(net: NetworkModel, node: NodeModel, q: int) -> Option<NodeModel> {
    net.source(node.name, NodeKind::Switch.port_names()[q])
}

/// Whether every candidate of the switch `node` can be compiled.
pub open spec fn candidates_are_ready(net: NetworkModel, node: NodeModel) -> bool {
    forall|q: int|
        1 <= q < NodeKind::Switch.port_names().len() ==> #[trigger] net.candidate_is_ready(
            node,
            NodeKind::Switch.port_names()[q],
        )
}

/// Whether a connected candidate of the switch `node`, at a position below
/// `below`, is fed by the node called `name`.
pub open spec fn feeds_candidate(net: NetworkModel, node: NodeModel, below: int, name: Seq<char>)
    -> bool {
    exists|q: int|
        1 <= q < below && q < NodeKind::Switch.port_names().len() && (#[trigger] candidate(
            net,
            node,
            q,
        )) is Some && candidate(net, node, q).unwrap().name == name
}

impl CodeGenVisitor {
    /// Appends the code of one port of `node`: the code of the node that
    /// feeds it, or else a load of its constant.
    fn visit_input_port(&mut self, node: &Node, input_port: &str, context: &CompilerContext)
        requires
            context.network@.acyclic(),
            context.network@.port_is_ready(node@, input_port@),
        ensures
            final(self)@ == emit_input_port(context.network@, node@, input_port@, old(self)@),
            final(self)@.extends(old(self)@),
        decreases context.network@.rank(node.name@), 0nat, 0nat,
    {
        proof {
            context.network@.lemma_driver_ranks_lower(node.name@, input_port@);
        }
        match context.network.find_output_node(node, input_port) {
            Some(output_node) => {
                self.visit(output_node, context);
            },
            None => {
                match node.value(input_port) {
                    Some(value) => self.visit_value(value),
                    None => {},
                }
            },
        }
    }

    /// Appends the tests of the switch `node`: for each connected candidate
    /// a copy of the selector, the candidate's ordinal and a jump taken if
    /// they are equal. The addresses of these jumps are returned as fixups.
    fn visit_tests(&mut self, node: &Node, context: &CompilerContext) -> (fixups: Vec<Fixup>)
        requires
            context.network@.acyclic(),
            candidates_are_ready(context.network@, node@),
        ensures
            (final(self)@, fixups@.map_values(|f: Fixup| f@)) == emit_tests(
                context.network@,
                node@,
                1,
                old(self)@,
                Seq::empty(),
            ),
            final(self)@.extends(old(self)@),
            final(self)@.labels == old(self)@.labels,
            forall|j: int|
                0 <= j < fixups.len() ==> (#[trigger] fixups[j]).offset + 2 <= final(self).bytecode.len() && feeds_candidate(
                    context.network@,
                    node@,
                    NodeKind::Switch.port_names().len() as int,
                    fixups[j].target@,
                ),
    {
        let ports = NodeKind::Switch.inputs();
        let mut fixups: Vec<Fixup> = Vec::new();
        let ghost net = context.network@;
        let ghost names = NodeKind::Switch.port_names();
        let mut port_index: i32 = 0;
        let mut p: usize = 1;
        assert(names.len() == 5);
        assert(fixups@.map_values(|f: Fixup| f@) =~= Seq::empty());
        while p < ports.len()
            invariant
                1 <= p <= ports.len(),
                ports.len() == 5,
                port_index == p - 1,
                net == context.network@,
                net.acyclic(),
                candidates_are_ready(net, node@),
                names == NodeKind::Switch.port_names(),
                ports@.map_values(|s: String| s@) == names,
                emit_tests(net, node@, p as nat, self@, fixups@.map_values(|f: Fixup| f@))
                    == emit_tests(net, node@, 1, old(self)@, Seq::empty()),
                self@.extends(old(self)@),
                self@.labels == old(self)@.labels,
                forall|j: int|
                    0 <= j < fixups.len() ==> (#[trigger] fixups[j]).offset + 2
                        <= self.bytecode.len() && feeds_candidate(
                        net,
                        node@,
                        p as int,
                        fixups[j].target@,
                    ),
            decreases ports.len() - p,
        {
            let port = ports[p].as_str();
            assert(port@ == names[p as int]) by {
                assert(ports@.map_values(|s: String| s@)[p as int] == ports@[p as int]@);
            }
            proof {
                assert(net.candidate_is_ready(node@, names[p as int]));
                net.lemma_driver_ranks_lower(node.name@, port@);
            }
            let ghost before = fixups@.map_values(|f: Fixup| f@);
            if let Some(output_node) = context.network.find_output_node(node, port) {
                // Duplicate the index value.
                self.push_dup();
                self.push_const_i32(port_index);
                self.push_if_eq_i32(PLACEHOLDER_ADDRESS);
                let fixup = Fixup {
                    offset: self.bytecode.len() - 2,
                    target: output_node.name.clone(),
                };
                fixups.push(fixup);
                assert(fixups@.map_values(|f: Fixup| f@) =~= before.push(
                    FixupModel { offset: self.bytecode.len() - 2, target: output_node.name@ },
                ));
                assert(candidate(net, node@, p as int) == Some(output_node@));
            }
            assert forall|j: int| 0 <= j < fixups.len() implies feeds_candidate(
                net,
                node@,
                p + 1,
                (#[trigger] fixups[j]).target@,
            ) by {
                if j < before.len() {
                    assert(feeds_candidate(net, node@, p as int, fixups[j].target@));
                }
            }
            port_index += 1;
            p += 1;
        }
        fixups
    }

    /// Appends the branches of the switch `node`: for each connected
    /// candidate its code and a jump to the end of the switch. The addresses
    /// of these jumps are appended to `ends`.
    fn visit_bodies(&mut self, node: &Node, context: &CompilerContext, ends: &mut Vec<usize>)
        requires
            context.network@.acyclic(),
            candidates_are_ready(context.network@, node@),
            forall|j: int|
                0 <= j < old(ends).len() ==> (#[trigger] old(ends)[j]) + 2 <= old(self).bytecode.len(),
        ensures
            (final(self)@, final(ends)@.map_values(|o: usize| o as int)) == emit_bodies(
                context.network@,
                node@,
                1,
                old(self)@,
                old(ends)@.map_values(|o: usize| o as int),
            ),
            final(self)@.extends(old(self)@),
            forall|j: int|
                0 <= j < final(ends).len() ==> (#[trigger] final(ends)[j]) + 2 <= final(self).bytecode.len(),
            forall|name: Seq<char>|
                feeds_candidate(
                    context.network@,
                    node@,
                    NodeKind::Switch.port_names().len() as int,
                    name,
                ) ==> #[trigger] final(self)@.labels.contains_key(name),
        decreases context.network@.rank(node.name@), 1nat, 0nat,
    {
        let ports = NodeKind::Switch.inputs();
        let ghost net = context.network@;
        let ghost names = NodeKind::Switch.port_names();
        let mut p: usize = 1;
        assert(names.len() == 5);
        while p < ports.len()
            invariant
                1 <= p <= ports.len(),
                ports.len() == 5,
                net == context.network@,
                net.acyclic(),
                candidates_are_ready(net, node@),
                names == NodeKind::Switch.port_names(),
                ports@.map_values(|s: String| s@) == names,
                emit_bodies(net, node@, p as nat, self@, ends@.map_values(|o: usize| o as int))
                    == emit_bodies(
                    net,
                    node@,
                    1,
                    old(self)@,
                    old(ends)@.map_values(|o: usize| o as int),
                ),
                self@.extends(old(self)@),
                forall|j: int|
                    0 <= j < ends.len() ==> (#[trigger] ends[j]) + 2 <= self.bytecode.len(),
                forall|name: Seq<char>|
                    feeds_candidate(net, node@, p as int, name)
                        ==> #[trigger] self@.labels.contains_key(name),
            decreases ports.len() - p,
        {
            let port = ports[p].as_str();
            assert(port@ == names[p as int]) by {
                assert(ports@.map_values(|s: String| s@)[p as int] == ports@[p as int]@);
            }
            proof {
                assert(net.candidate_is_ready(node@, names[p as int]));
                net.lemma_driver_ranks_lower(node.name@, port@);
            }
            let ghost before = ends@.map_values(|o: usize| o as int);
            let ghost earlier = self@;
            if let Some(output_node) = context.network.find_output_node(node, port) {
                // Visiting the node also has the side effect that we write out the label
                // (bytecode position) for that node. We need this position to jump to it
                // from the switch node.
                self.visit(output_node, context);
                self.push_jmp(PLACEHOLDER_ADDRESS);
                ends.push(self.bytecode.len() - 2);
                assert(ends@.map_values(|o: usize| o as int) =~= before.push(
                    self.bytecode.len() - 2,
                ));
                assert(candidate(net, node@, p as int) == Some(output_node@));
            }
            assert(self@.extends(earlier));
            assert forall|name: Seq<char>| feeds_candidate(net, node@, p + 1, name) implies (
            #[trigger] self@.labels.contains_key(name)) by {
                let q = choose|q: int|
                    1 <= q < p + 1 && q < names.len() && (#[trigger] candidate(net, node@, q))
                        is Some && candidate(net, node@, q).unwrap().name == name;
                if q < p {
                    assert(feeds_candidate(net, node@, p as int, name));
                    assert(earlier.labels.contains_key(name));
                }
            }
            p += 1;
        }
    }

    /// Gives each jump to the end of a switch its address.
    fn patch_ends(&mut self, ends: &Vec<usize>, end: usize)
        requires
            forall|j: int|
                0 <= j < ends.len() ==> (#[trigger] ends[j]) + 2 <= old(self).bytecode.len(),
        ensures
            final(self)@ == patch_ends(
                old(self)@,
                ends@.map_values(|o: usize| o as int),
                0,
                end as nat,
            ),
            final(self)@.labels == old(self)@.labels,
            final(self).bytecode.len() == old(self).bytecode.len(),
    {
        let ghost offsets = ends@.map_values(|o: usize| o as int);
        let mut j: usize = 0;
        while j < ends.len()
            invariant
                j <= ends.len(),
                offsets == ends@.map_values(|o: usize| o as int),
                forall|j: int|
                    0 <= j < ends.len() ==> (#[trigger] ends[j]) + 2 <= self.bytecode.len(),
                patch_ends(self@, offsets, j as nat, end as nat) == patch_ends(
                    old(self)@,
                    offsets,
                    0,
                    end as nat,
                ),
                self@.labels == old(self)@.labels,
                self.bytecode.len() == old(self).bytecode.len(),
            decreases ends.len() - j,
        {
            self.patch(ends[j], end);
            j += 1;
        }
    }

    /// Gives each conditional jump of a switch the address of its target.
    fn patch_targets(&mut self, fixups: &Vec<Fixup>)
        requires
            forall|j: int|
                0 <= j < fixups.len() ==> (#[trigger] fixups[j]).offset + 2 <= old(self).bytecode.len() && old(self)@.labels.contains_key(fixups[j].target@),
        ensures
            final(self)@ == patch_targets(old(self)@, fixups@.map_values(|f: Fixup| f@), 0),
            final(self)@.labels == old(self)@.labels,
            final(self).bytecode.len() == old(self).bytecode.len(),
    {
        let ghost models = fixups@.map_values(|f: Fixup| f@);
        let mut j: usize = 0;
        while j < fixups.len()
            invariant
                j <= fixups.len(),
                models == fixups@.map_values(|f: Fixup| f@),
                forall|j: int|
                    0 <= j < fixups.len() ==> (#[trigger] fixups[j]).offset + 2
                        <= self.bytecode.len() && self@.labels.contains_key(fixups[j].target@),
                patch_targets(self@, models, j as nat) == patch_targets(old(self)@, models, 0),
                self@.labels == old(self)@.labels,
                self.bytecode.len() == old(self).bytecode.len(),
            decreases fixups.len() - j,
        {
            let fixup = &fixups[j];
            assert(models[j as int] == fixup@);
            match self.find_label(fixup.target.as_str()) {
                Some(node_addr) => self.patch(fixup.offset, node_addr),
                None => {},
            }
            j += 1;
        }
    }

    /// Appends the code of the switch `node`, whose label is recorded
    /// already.
    fn visit_switch(&mut self, node: &Node, context: &CompilerContext)
        requires
            context.network@.acyclic(),
            context.network@.visitable(node@),
            node.kind == NodeKind::Switch,
        ensures
            final(self)@ == emit_switch(context.network@, node@, old(self)@),
            final(self)@.extends(old(self)@),
        decreases context.network@.rank(node.name@), 2nat, 0nat,
    {
        let ports = node.kind.inputs();
        assert(ports@.map_values(|s: String| s@)[0] == ports@[0]@);
        assert(context.network@.port_is_ready(node@, NodeKind::Switch.port_names()[0]));
        assert(candidates_are_ready(context.network@, node@));
        self.visit_input_port(node, ports[0].as_str(), context);
        // Now we have the index value of the input to select on the stack.
        let node_fixups = self.visit_tests(node, context);
        // Discard (pop) the index value from the stack.
        self.push_pop();
        // Jump to the end of the node.
        self.push_jmp(PLACEHOLDER_ADDRESS);
        let mut jmp_fixups: Vec<usize> = Vec::new();
        jmp_fixups.push(self.bytecode.len() - 2);
        assert(jmp_fixups@.map_values(|o: usize| o as int) =~= seq![self.bytecode.len() - 2]);
        self.visit_bodies(node, context, &mut jmp_fixups);
        let end_addr = self.bytecode.len();
        self.patch_ends(&jmp_fixups, end_addr);
        self.patch_targets(&node_fixups);
    }

    /// Appends the code of `node`.
    pub fn visit(&mut self, node: &Node, context: &CompilerContext)
        requires
            context.network@.acyclic(),
            context.network@.visitable(node@),
        ensures
            final(self)@ == emit_node(context.network@, node@, old(self)@),
            final(self)@.extends(old(self)@),
            final(self)@.labels.contains_key(node.name@),
        decreases context.network@.rank(node.name@), 3nat, 0nat,
    {
        self.mark_label(node.name.clone());
        match node.kind {
            NodeKind::Switch => {
                self.visit_switch(node, context);
            },
            _ => {
                // Prepare arguments
                let ghost net = context.network@;
                let ghost marked = self@;
                let input_ports = node.kind.inputs();
                let mut i: usize = 0;
                while i < input_ports.len()
                    invariant
                        i <= input_ports.len(),
                        net == context.network@,
                        net.acyclic(),
                        net.inputs_are_ready(node@, i as nat),
                        node.kind != NodeKind::Switch,
                        input_ports@.map_values(|s: String| s@) == node.kind.port_names(),
                        emit_inputs(net, node@, i as nat, self@) == emit_inputs(
                            net,
                            node@,
                            0,
                            marked,
                        ),
                        self@.extends(marked),
                    decreases input_ports.len() - i,
                {
                    assert(input_ports@.map_values(|s: String| s@)[i as int] == input_ports@[i as int]@);
                    self.visit_input_port(node, input_ports[i].as_str(), context);
                    i += 1;
                }
                self.push(Instruction::CallNode(node.kind));
            },
        }
    }
}

/// Whether `result` is what compiling `net` gives: the program of `net`,
/// and never an error.
pub open spec fn is_compilation_of(
    result: Result<CompiledNetwork, CompileError>,
    net: NetworkModel,
) -> bool {
    result matches Ok(program) && program@ == compile_spec(net)
}

/// Compiles the network into a program that evaluates its rendered node.
///
/// A network without such a node gives a program that only halts. Compiling
/// does not fail: a jump target or a constant pool index that does not fit
/// its operand is written with its low bits.
pub fn compile_network(network: &Network) -> (compiled: Result<CompiledNetwork, CompileError>)
    requires
        network@.compilable(),
    ensures
        is_compilation_of(compiled, network@),
{
    let context = CompilerContext { network };
    let rendered_node = network.rendered_node();
    match rendered_node {
        None => {
            let mut result = CompiledNetwork::new();
            Instruction::End.write_to(&mut result.bytecode);
            Ok(result)
        },
        Some(rendered_node) => {
            let mut code_gen_visitor = CodeGenVisitor::new();
            code_gen_visitor.visit(rendered_node, &context);
            code_gen_visitor.push(Instruction::End);
            Ok(
                CompiledNetwork {
                    bytecode: code_gen_visitor.bytecode,
                    constant_pool: code_gen_visitor.constant_pool,
                },
            )
        },
    }
}

} // verus!
