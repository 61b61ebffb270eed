//! The virtual machine: a stack machine that runs compiled bytecode.

use crate::bytecode::{decode, decode_spec, DecodeError, Instruction};
use crate::network::NodeKind;
use crate::value::{Value, ValueKind, ValueModel};
use vstd::prelude::*;

verus! {

/// The number of instructions after which `run` gives up.
pub const STEP_LIMIT: u64 = 0xFFFF_FFFF_FFFF_FFFF;

/// What the `Frame` node pushes.
pub const FRAME_NUMBER: i32 = 42;

/// Why a program stopped without reaching its end.
#[derive(Debug, Clone, Copy, PartialEq, Eq, Structural)]
pub enum RuntimeErrorKind {
    /// A value was taken from an empty stack.
    StackUnderflow,
    /// A scalar of kind `expected` was needed and another value was found.
    TypeMismatch { expected: ValueKind, actual: ValueKind, actual_is_list: bool },
    /// A load named a position outside the constant pool.
    InvalidConstantIndex { index: i32 },
    /// The byte at the instruction pointer is no opcode.
    UnknownOpcode { opcode: u8 },
    /// The operand of a node call names no node kind.
    UnknownNodeKind { tag: u8 },
    /// The instruction pointer left the program, or an operand runs past
    /// its end.
    UnexpectedEnd,
    /// A node call named a kind that is compiled to branches and never
    /// called.
    UnsupportedNode { kind: NodeKind },
    /// An empty list of numbers was combined with a value that has elements.
    EmptyList,
    /// The program ran for as many instructions as it was allowed without
    /// halting.
    StepLimitExceeded,
}

impl RuntimeErrorKind {
    /// The message that describes the error.
    pub open spec fn message(self) -> Seq<char> {
        match self {
            RuntimeErrorKind::StackUnderflow => "Stack underflow"@,
            RuntimeErrorKind::TypeMismatch { .. } => "Value is not an int"@,
            RuntimeErrorKind::InvalidConstantIndex { .. } => "Invalid constant pool index"@,
            RuntimeErrorKind::UnknownOpcode { .. } => "Invalid instruction"@,
            RuntimeErrorKind::UnknownNodeKind { .. } => "Unknown node kind"@,
            RuntimeErrorKind::UnexpectedEnd => "Unexpected end of bytecode"@,
            RuntimeErrorKind::UnsupportedNode { .. } => "Node kind cannot be called"@,
            RuntimeErrorKind::EmptyList => "Empty list"@,
            RuntimeErrorKind::StepLimitExceeded => "Step limit exceeded"@,
        }
    }

    /// The message that describes the error.
    pub fn describe(&self) -> (text: String)
        ensures
            text@ == self.message(),
    {
        match self {
            RuntimeErrorKind::StackUnderflow => "Stack underflow".to_owned(),
            RuntimeErrorKind::TypeMismatch { .. } => "Value is not an int".to_owned(),
            RuntimeErrorKind::InvalidConstantIndex { .. } => "Invalid constant pool index".to_owned(),
            RuntimeErrorKind::UnknownOpcode { .. } => "Invalid instruction".to_owned(),
            RuntimeErrorKind::UnknownNodeKind { .. } => "Unknown node kind".to_owned(),
            RuntimeErrorKind::UnexpectedEnd => "Unexpected end of bytecode".to_owned(),
            RuntimeErrorKind::UnsupportedNode { .. } => "Node kind cannot be called".to_owned(),
            RuntimeErrorKind::EmptyList => "Empty list".to_owned(),
            RuntimeErrorKind::StepLimitExceeded => "Step limit exceeded".to_owned(),
        }
    }

    /// The error that reading an instruction failed with.
    pub open spec fn of_decode_error(error: DecodeError) -> RuntimeErrorKind {
        match error {
            DecodeError::UnexpectedEnd => RuntimeErrorKind::UnexpectedEnd,
            DecodeError::UnknownOpcode(opcode) => RuntimeErrorKind::UnknownOpcode { opcode },
            DecodeError::UnknownNodeKind(tag) => RuntimeErrorKind::UnknownNodeKind { tag },
        }
    }

    /// The error that reading an instruction failed with.
    pub fn from_decode_error(error: DecodeError) -> (kind: RuntimeErrorKind)
        ensures
            kind == RuntimeErrorKind::of_decode_error(error),
    {
        match error {
            DecodeError::UnexpectedEnd => RuntimeErrorKind::UnexpectedEnd,
            DecodeError::UnknownOpcode(opcode) => RuntimeErrorKind::UnknownOpcode { opcode },
            DecodeError::UnknownNodeKind(tag) => RuntimeErrorKind::UnknownNodeKind { tag },
        }
    }
}

/// An error of the virtual machine.
#[derive(Debug)]
pub struct RuntimeError {
    pub kind: RuntimeErrorKind,
    pub message: String,
}

impl RuntimeError {
    pub fn new(kind: RuntimeErrorKind, message: String) -> (error: RuntimeError)
        ensures
            error.kind == kind,
            error.message == message,
    {
        RuntimeError { kind, message }
    }

    /// Whether this is the error of kind `kind` with the message of that kind.
    pub open spec fn reports(self, kind: RuntimeErrorKind) -> bool {
        self.kind == kind && self.message@ == kind.message()
    }

    /// The error of kind `kind` with the message of that kind.
    pub fn of_kind(kind: RuntimeErrorKind) -> (error: RuntimeError)
        ensures
            error.reports(kind),
    {
        RuntimeError::new(kind, kind.describe())
    }
}

/// The integer that a sum, a difference or a negation of 32-bit integers
/// wraps around to.
pub open spec fn wrap_i32(n: int) -> i32
    recommends
        -0x1_0000_0000 <= n < 0x1_0000_0000,
{
    if n > i32::MAX {
        (n - 0x1_0000_0000) as i32
    } else if n < i32::MIN {
        (n + 0x1_0000_0000) as i32
    } else {
        n as i32
    }
}

/// The sum of two integers, wrapped around.
pub fn wrapping_sum(a: i32, b: i32) -> (sum: i32)
    ensures
        sum == wrap_i32(a + b),
{
    let wide: i64 = a as i64 + b as i64;
    if wide > i32::MAX as i64 {
        (wide - 0x1_0000_0000) as i32
    } else if wide < i32::MIN as i64 {
        (wide + 0x1_0000_0000) as i32
    } else {
        wide as i32
    }
}

/// The negation of an integer, wrapped around.
pub fn wrapping_negation(a: i32) -> (negated: i32)
    ensures
        negated == wrap_i32(-a),
{
    if a == i32::MIN {
        i32::MIN
    } else {
        -a
    }
}

/// The larger of two lengths.
pub open spec fn longer(a: nat, b: nat) -> nat {
    if a >= b {
        a
    } else {
        b
    }
}

/// The element-wise sums of two values, the shorter one being repeated.
pub open spec fn sums(a: ValueModel, b: ValueModel) -> Seq<i32> {
    Seq::new(longer(a.len(), b.len()), |i: int| wrap_i32(a.get_int(i as nat) + b.get_int(i as nat)))
}

/// The element-wise negations of a value.
pub open spec fn negations(a: ValueModel) -> Seq<i32> {
    Seq::new(a.len(), |i: int| wrap_i32(-a.get_int(i as nat)))
}

/// How far a machine has come.
pub enum Status {
    /// The next instruction can be run.
    Running,
    /// The program has reached its end.
    Halted,
    /// An instruction has failed.
    Failed(RuntimeErrorKind),
}

/// The mathematical content of a [`VM`].
pub struct MachineModel {
    pub bytecode: Seq<u8>,
    pub constant_pool: Seq<ValueModel>,
    pub ip: int,
    pub stack: Seq<ValueModel>,
}

impl MachineModel {
    /// The machine with `value` on top of its stack.
    pub open spec fn push(self, value: ValueModel) -> MachineModel {
        MachineModel { stack: self.stack.push(value), ..self }
    }

    /// The machine at the instruction at `address`.
    pub open spec fn jump(self, address: int) -> MachineModel {
        MachineModel { ip: address, ..self }
    }

    /// Takes the top of the stack.
    pub open spec fn pop_value(self) -> (MachineModel, Result<ValueModel, RuntimeErrorKind>) {
        if self.stack.len() == 0 {
            (self, Err(RuntimeErrorKind::StackUnderflow))
        } else {
            (MachineModel { stack: self.stack.drop_last(), ..self }, Ok(self.stack.last()))
        }
    }

    /// The integer that `value` is, if it is a scalar integer.
    pub open spec fn check_int_value(value: ValueModel) -> Result<i32, RuntimeErrorKind> {
        match value {
            ValueModel::Int(v) => Ok(v),
            _ => Err(
                RuntimeErrorKind::TypeMismatch {
                    expected: ValueKind::Int,
                    actual: value.kind(),
                    actual_is_list: value.is_list(),
                },
            ),
        }
    }

    /// Takes the top of the stack, which must be a scalar integer.
    pub open spec fn pop_int_value(self) -> (MachineModel, Result<i32, RuntimeErrorKind>) {
        match self.pop_value().1 {
            Ok(value) => (self.pop_value().0, Self::check_int_value(value)),
            Err(kind) => (self.pop_value().0, Err(kind)),
        }
    }

    /// Evaluates a node of kind `kind` on the values on top of the stack.
    pub open spec fn call_node(self, kind: NodeKind) -> (MachineModel, Status) {
        match kind {
            NodeKind::Int => (self, Status::Running),
            NodeKind::Add => {
                let (first, a) = self.pop_value();
                match a {
                    Err(error) => (first, Status::Failed(error)),
                    Ok(a) => {
                        let (second, b) = first.pop_value();
                        match b {
                            Err(error) => (second, Status::Failed(error)),
                            Ok(b) => {
                                if longer(a.len(), b.len()) > 0 && (!a.has_elements()
                                    || !b.has_elements()) {
                                    (second, Status::Failed(RuntimeErrorKind::EmptyList))
                                } else {
                                    (second.push(ValueModel::IntList(sums(a, b))), Status::Running)
                                }
                            },
                        }
                    },
                }
            },
            NodeKind::Negate => {
                let (first, a) = self.pop_value();
                match a {
                    Err(error) => (first, Status::Failed(error)),
                    Ok(a) => (first.push(ValueModel::IntList(negations(a))), Status::Running),
                }
            },
            NodeKind::Switch => (self, Status::Failed(RuntimeErrorKind::UnsupportedNode { kind })),
            NodeKind::Frame => (self.push(ValueModel::Int(FRAME_NUMBER)), Status::Running),
        }
    }

    /// Runs `instruction`, the instruction pointer being past it already.
    pub open spec fn execute(self, instruction: Instruction) -> (MachineModel, Status) {
        match instruction {
            Instruction::ConstI32(v) => (self.push(ValueModel::Int(v)), Status::Running),
            Instruction::ConstF32(bits) => (self.push(ValueModel::Float(bits)), Status::Running),
            Instruction::Dup => {
                if self.stack.len() == 0 {
                    (self, Status::Failed(RuntimeErrorKind::StackUnderflow))
                } else {
                    (self.push(self.stack.last()), Status::Running)
                }
            },
            Instruction::Pop => {
                let (popped, value) = self.pop_value();
                match value {
                    Err(error) => (popped, Status::Failed(error)),
                    Ok(_) => (popped, Status::Running),
                }
            },
            Instruction::Jmp(address) => (self.jump(address as int), Status::Running),
            Instruction::IfEqI32(address) => {
                let (first, v1) = self.pop_value();
                match v1 {
                    Err(error) => (first, Status::Failed(error)),
                    Ok(v1) => {
                        let (second, v2) = first.pop_value();
                        match v2 {
                            Err(error) => (second, Status::Failed(error)),
                            Ok(v2) => if v1.same(v2) {
                                (second.jump(address as int), Status::Running)
                            } else {
                                (second, Status::Running)
                            },
                        }
                    },
                }
            },
            Instruction::ValueLoad => {
                let (popped, index) = self.pop_int_value();
                match index {
                    Err(error) => (popped, Status::Failed(error)),
                    Ok(index) => if 0 <= index < popped.constant_pool.len() {
                        (popped.push(popped.constant_pool[index as int]), Status::Running)
                    } else {
                        (popped, Status::Failed(RuntimeErrorKind::InvalidConstantIndex { index }))
                    },
                }
            },
            Instruction::CallNode(kind) => self.call_node(kind),
            Instruction::End => (self, Status::Halted),
        }
    }

    /// Runs the instruction at the instruction pointer. Where none can be
    /// read there the machine stays as it is.
    pub open spec fn step(self) -> (MachineModel, Status) {
        match decode_spec(self.bytecode, self.ip) {
            Err(error) => (self, Status::Failed(RuntimeErrorKind::of_decode_error(error))),
            Ok(instruction) => self.jump(self.ip + instruction.spec_size()).execute(instruction),
        }
    }

    /// Runs at most `fuel` instructions. The machine is still `Running`
    /// where that many did not bring it to a halt or an error.
    pub open spec fn run(self, fuel: nat) -> (MachineModel, Status)
        decreases fuel,
    {
        if fuel == 0 {
            (self, Status::Running)
        } else {
            let (next, status) = self.step();
            match status {
                Status::Running => next.run((fuel - 1) as nat),
                _ => (next, status),
            }
        }
    }
}

/// The machine `m` at offset `ip` with `stack`.
pub open spec fn advanced(m: MachineModel, ip: int, stack: Seq<ValueModel>) -> MachineModel {
    MachineModel { ip, stack, ..m }
}

/// Running for `a + b` instructions is running for `a` and then, unless
/// that ended the run, for `b` more.
pub proof fn lemma_run_in_two_parts(m: MachineModel, a: nat, b: nat)
    ensures
        m.run(a + b) == if m.run(a).1 is Running {
            m.run(a).0.run(b)
        } else {
            m.run(a)
        },
    decreases a,
{
    if a > 0 {
        let (next, status) = m.step();
        if status is Running {
            lemma_run_in_two_parts(next, (a - 1) as nat, b);
            assert((a + b - 1) as nat == (a - 1) as nat + b);
        }
    }
}

/// The virtual machine.
pub struct VM {
    pub bytecode: Vec<u8>,
    pub constant_pool: Vec<Value>,
    pub ip: usize,
    pub stack: Vec<Value>,
}

impl View for VM {
    type V = MachineModel;

    open spec fn view(&self) -> MachineModel {
        MachineModel {
            bytecode: self.bytecode@,
            constant_pool: self.constant_pool@.map_values(|v: Value| v@),
            ip: self.ip as int,
            stack: self.stack@.map_values(|v: Value| v@),
        }
    }
}

impl VM {
    pub fn new(bytecode: Vec<u8>, constant_pool: Vec<Value>) -> (vm: VM)
        ensures
            vm@ == (MachineModel {
                bytecode: bytecode@,
                constant_pool: constant_pool@.map_values(|v: Value| v@),
                ip: 0,
                stack: Seq::empty(),
            }),
    {
        let vm = VM { bytecode, constant_pool, ip: 0, stack: Vec::new() };
        assert(vm@.stack =~= Seq::empty());
        vm
    }

    /// The integer that `value` is, if it is a scalar integer.
    pub fn check_int_value(&self, value: Value) -> (checked: Result<i32, RuntimeError>)
        ensures
            match checked {
                Ok(v) => MachineModel::check_int_value(value@) == Ok::<i32, RuntimeErrorKind>(v),
                Err(error) => MachineModel::check_int_value(value@) == Err::<
                    i32,
                    RuntimeErrorKind,
                >(error.kind) && error.reports(error.kind),
            },
    {
        match value {
            Value::Int(v) => Ok(v),
            x => Err(
                RuntimeError::of_kind(
                    RuntimeErrorKind::TypeMismatch {
                        expected: ValueKind::Int,
                        actual: x.kind(),
                        actual_is_list: x.is_list(),
                    },
                ),
            ),
        }
    }

    /// Pushes `value`.
    fn push(&mut self, value: Value)
        ensures
            final(self)@ == old(self)@.push(value@),
    {
        self.stack.push(value);
        assert(self@.stack =~= old(self)@.stack.push(value@));
    }

    /// Takes the top of the stack, which must be a scalar integer.
    pub fn pop_int_value(&mut self) -> (popped: Result<i32, RuntimeError>)
        ensures
            final(self)@ == old(self)@.pop_int_value().0,
            match popped {
                Ok(v) => old(self)@.pop_int_value().1 == Ok::<i32, RuntimeErrorKind>(v),
                Err(error) => old(self)@.pop_int_value().1 == Err::<i32, RuntimeErrorKind>(
                    error.kind,
                ) && error.reports(error.kind),
            },
    {
        let value = self.pop_value();
        match value {
            Ok(value) => self.check_int_value(value),
            Err(error) => Err(error),
        }
    }

    /// Takes the top of the stack.
    pub fn pop_value(&mut self) -> (popped: Result<Value, RuntimeError>)
        ensures
            final(self)@ == old(self)@.pop_value().0,
            match popped {
                Ok(value) => old(self)@.pop_value().1 == Ok::<ValueModel, RuntimeErrorKind>(
                    value@,
                ),
                Err(error) => old(self)@.pop_value().1 == Err::<ValueModel, RuntimeErrorKind>(
                    error.kind,
                ) && error.reports(error.kind),
            },
    {
        let value = self.stack.pop();
        match value {
            Some(value) => {
                assert(self@.stack =~= old(self)@.stack.drop_last());
                assert(old(self)@.stack.last() == value@);
                Ok(value)
            },
            None => Err(RuntimeError::of_kind(RuntimeErrorKind::StackUnderflow)),
        }
    }
}

/// The element-wise sums of two values, the shorter one being repeated.
fn add_values(a: &Value, b: &Value) -> (results: Vec<i32>)
    requires
        longer(a@.len(), b@.len()) > 0 ==> a@.has_elements() && b@.has_elements(),
    ensures
        results@ == sums(a@, b@),
{
    let max_size = if a.len() >= b.len() {
        a.len()
    } else {
        b.len()
    };
    let mut results = Vec::with_capacity(max_size);
    let mut i: usize = 0;
    while i < max_size
        invariant
            i <= max_size,
            max_size == longer(a@.len(), b@.len()),
            max_size > 0 ==> a@.has_elements() && b@.has_elements(),
            results@.len() == i,
            forall|j: int|
                0 <= j < i ==> results@[j] == wrap_i32(
                    a@.get_int(j as nat) + b@.get_int(j as nat),
                ),
        decreases max_size - i,
    {
        let va = a.get_int(i);
        let vb = b.get_int(i);
        results.push(wrapping_sum(va, vb));
        i += 1;
    }
    assert(results@ =~= sums(a@, b@));
    results
}

/// The element-wise negations of a value.
fn negate_value(a: &Value) -> (results: Vec<i32>)
    ensures
        results@ == negations(a@),
{
    let max_size = a.len();
    let mut results = Vec::with_capacity(max_size);
    let mut i: usize = 0;
    while i < max_size
        invariant
            i <= max_size,
            max_size == a@.len(),
            results@.len() == i,
            forall|j: int| 0 <= j < i ==> results@[j] == wrap_i32(-a@.get_int(j as nat)),
        decreases max_size - i,
    {
        results.push(wrapping_negation(a.get_int(i)));
        i += 1;
    }
    assert(results@ =~= negations(a@));
    results
}

impl VM {
    /// Evaluates a node of kind `kind` on the values on top of the stack,
    /// which it takes, and pushes the result.
    pub fn call_node(&mut self, kind: NodeKind) -> (result: Result<(), RuntimeError>)
        ensures
            final(self)@ == old(self)@.call_node(kind).0,
            match result {
                Ok(_) => old(self)@.call_node(kind).1 == Status::Running,
                Err(error) => old(self)@.call_node(kind).1 == Status::Failed(error.kind)
                    && error.reports(error.kind),
            },
    {
        match kind {
            NodeKind::Int => Ok(()),
            NodeKind::Add => {
                let a = match self.pop_value() {
                    Ok(a) => a,
                    Err(error) => {
                        return Err(error);
                    },
                };
                let b = match self.pop_value() {
                    Ok(b) => b,
                    Err(error) => {
                        return Err(error);
                    },
                };
                if (a.len() > 0 || b.len() > 0) && (Self::lacks_elements(&a)
                    || Self::lacks_elements(&b)) {
                    return Err(RuntimeError::of_kind(RuntimeErrorKind::EmptyList));
                }
                let results = add_values(&a, &b);
                self.push(Value::IntList(results));
                Ok(())
            },
            NodeKind::Negate => {
                let a = match self.pop_value() {
                    Ok(a) => a,
                    Err(error) => {
                        return Err(error);
                    },
                };
                let results = negate_value(&a);
                self.push(Value::IntList(results));
                Ok(())
            },
            NodeKind::Switch => Err(
                RuntimeError::of_kind(RuntimeErrorKind::UnsupportedNode { kind }),
            ),
            NodeKind::Frame => {
                self.push(Value::Int(FRAME_NUMBER));
                Ok(())
            },
        }
    }

    /// Whether `value` is an empty list of numbers.
    fn lacks_elements(value: &Value) -> (lacking: bool)
        ensures
            lacking == !value@.has_elements(),
    {
        match value {
            Value::IntList(items) => items.len() == 0,
            Value::FloatList(items) => items.len() == 0,
            _ => false,
        }
    }

    /// Runs `instruction`, the instruction pointer being past it already.
    /// Returns whether the program has reached its end.
    fn execute(&mut self, instruction: Instruction) -> (result: Result<bool, RuntimeError>)
        ensures
            final(self)@ == old(self)@.execute(instruction).0,
            match result {
                Ok(halted) => old(self)@.execute(instruction).1 == if halted {
                    Status::Halted
                } else {
                    Status::Running
                },
                Err(error) => old(self)@.execute(instruction).1 == Status::Failed(error.kind)
                    && error.reports(error.kind),
            },
    {
        match instruction {
            Instruction::ConstI32(value) => {
                self.push(Value::Int(value));
                Ok(false)
            },
            Instruction::ConstF32(bits) => {
                self.push(Value::Float(bits));
                Ok(false)
            },
            Instruction::Dup => {
                if self.stack.len() == 0 {
                    return Err(RuntimeError::of_kind(RuntimeErrorKind::StackUnderflow));
                }
                let v = self.stack[self.stack.len() - 1].clone();
                assert(self@.stack.last() == self.stack@.last()@);
                self.push(v);
                Ok(false)
            },
            Instruction::Pop => {
                match self.pop_value() {
                    Ok(_) => Ok(false),
                    Err(error) => Err(error),
                }
            },
            Instruction::Jmp(addr) => {
                self.ip = addr as usize;
                Ok(false)
            },
            Instruction::IfEqI32(addr) => {
                let v1 = match self.pop_value() {
                    Ok(v1) => v1,
                    Err(error) => {
                        return Err(error);
                    },
                };
                let v2 = match self.pop_value() {
                    Ok(v2) => v2,
                    Err(error) => {
                        return Err(error);
                    },
                };
                if v1 == v2 {
                    self.ip = addr as usize;
                }
                Ok(false)
            },
            Instruction::ValueLoad => {
                let index = match self.pop_int_value() {
                    Ok(index) => index,
                    Err(error) => {
                        return Err(error);
                    },
                };
                if index < 0 || index as usize >= self.constant_pool.len() {
                    return Err(
                        RuntimeError::of_kind(RuntimeErrorKind::InvalidConstantIndex { index }),
                    );
                }
                let spread = self.constant_pool[index as usize].clone();
                assert(self@.constant_pool[index as int] == self.constant_pool@[index as int]@);
                self.push(spread);
                Ok(false)
            },
            Instruction::CallNode(kind) => {
                match self.call_node(kind) {
                    Ok(_) => Ok(false),
                    Err(error) => Err(error),
                }
            },
            Instruction::End => Ok(true),
        }
    }

    /// Runs the instruction at the instruction pointer. Returns whether the
    /// program has reached its end.
    pub fn step(&mut self) -> (result: Result<bool, RuntimeError>)
        ensures
            final(self)@ == old(self)@.step().0,
            match result {
                Ok(halted) => old(self)@.step().1 == if halted {
                    Status::Halted
                } else {
                    Status::Running
                },
                Err(error) => old(self)@.step().1 == Status::Failed(error.kind) && error.reports(
                    error.kind,
                ),
            },
    {
        match decode(&self.bytecode, self.ip) {
            Err(error) => Err(RuntimeError::of_kind(RuntimeErrorKind::from_decode_error(error))),
            Ok(instruction) => {
                self.ip = self.ip + instruction.size();
                self.execute(instruction)
            },
        }
    }

    /// Runs the program from the instruction pointer on, until it reaches its
    /// end or an instruction fails, for `limit` instructions at most.
    pub fn run_for(&mut self, limit: u64) -> (result: Result<(), RuntimeError>)
        ensures
            final(self)@ == old(self)@.run(limit as nat).0,
            match result {
                Ok(_) => old(self)@.run(limit as nat).1 == Status::Halted,
                Err(error) => error.reports(error.kind) && match old(self)@.run(limit as nat).1 {
                    Status::Failed(kind) => error.kind == kind,
                    Status::Running => error.kind == RuntimeErrorKind::StepLimitExceeded,
                    Status::Halted => false,
                },
            },
    {
        let mut steps: u64 = 0;
        while steps < limit
            invariant
                steps <= limit,
                self@.run((limit - steps) as nat) == old(self)@.run(limit as nat),
            decreases limit - steps,
        {
            match self.step() {
                Ok(true) => {
                    return Ok(());
                },
                Ok(false) => {},
                Err(error) => {
                    return Err(error);
                },
            }
            steps += 1;
        }
        Err(RuntimeError::of_kind(RuntimeErrorKind::StepLimitExceeded))
    }

    /// Runs the program from the instruction pointer on, until it reaches its
    /// end or an instruction fails, for `STEP_LIMIT` instructions at most.
    pub fn run(&mut self) -> (result: Result<(), RuntimeError>)
        ensures
            final(self)@ == old(self)@.run(STEP_LIMIT as nat).0,
            match result {
                Ok(_) => old(self)@.run(STEP_LIMIT as nat).1 == Status::Halted,
                Err(error) => error.reports(error.kind) && match old(self)@.run(
                    STEP_LIMIT as nat,
                ).1 {
                    Status::Failed(kind) => error.kind == kind,
                    Status::Running => error.kind == RuntimeErrorKind::StepLimitExceeded,
                    Status::Halted => false,
                },
            },
    {
        self.run_for(STEP_LIMIT)
    }
}

} // verus!
