//! The instruction set shared by the compiler and the virtual machine.
//!
//! An instruction is a one-byte opcode followed by its operand, if it has one.
//! Every operand of more than one byte is written least significant byte
//! first: the four-byte immediates of `CONST_I32` and `CONST_F32` and the
//! two-byte addresses of `JMP` and `IF_EQ_I32`.

use crate::network::NodeKind;
use vstd::prelude::*;

verus! {

/// Push an i32 value onto the stack.
/// Stack: -> Value
pub const OP_CONST_I32: u8 = 0x01;

/// Push a float value onto the stack.
/// Stack: -> Value
pub const OP_CONST_F32: u8 = 0x02;

/// Duplicate the Value on top of the stack.
/// Stack: Value -> Value, Value
pub const OP_DUP: u8 = 0x03;

/// Discard the Value on top of the stack.
/// Stack: Value ->
pub const OP_POP: u8 = 0x04;

/// Unconditional jump.
/// Stack: ->
/// Instruction bytes: 1: low address byte, 2: high address byte
pub const OP_JMP: u8 = 0x99;

/// Compare two values on the stack and jump to the given address if they are
/// equal.
/// Stack: Value, Value ->
/// Instruction bytes: 1: low address byte, 2: high address byte
pub const OP_IF_EQ_I32: u8 = 0x9F;

/// Load a Value with given index from the constant pool and push it onto the stack.
/// Stack: index -> Value
pub const OP_VALUE_LOAD: u8 = 0x06;

/// Evaluate a node on the values on top of the stack.
/// Stack: inputs -> Value
/// Instruction bytes: 1: node kind
pub const OP_CALL_NODE: u8 = 0x10;

/// Halt.
pub const OP_END: u8 = 0xFF;

/// One decoded instruction.
#[derive(Debug, Clone, Copy, PartialEq, Eq, Structural)]
pub enum Instruction {
    ConstI32(i32),
    /// The operand is the bit pattern of the float.
    ConstF32(u32),
    Dup,
    Pop,
    Jmp(u16),
    IfEqI32(u16),
    ValueLoad,
    CallNode(NodeKind),
    End,
}

/// Why no instruction could be read at an offset.
#[derive(Debug, Clone, Copy, PartialEq, Eq, Structural)]
pub enum DecodeError {
    /// The offset lies outside the code, or the operand runs past its end.
    UnexpectedEnd,
    /// The byte at the offset is no opcode.
    UnknownOpcode(u8),
    /// The operand of `CALL_NODE` names no node kind.
    UnknownNodeKind(u8),
}

/// The two's complement bit pattern of `v`.
pub open spec fn i32_bits(v: i32) -> u32 {
    if v >= 0 {
        v as u32
    } else {
        (v + 0x1_0000_0000) as u32
    }
}

/// The integer whose two's complement bit pattern is `bits`.
pub open spec fn i32_of_bits(bits: u32) -> i32 {
    if bits < 0x8000_0000 {
        bits as i32
    } else {
        (bits - 0x1_0000_0000) as i32
    }
}

/// The four bytes of `x`, least significant first.
pub open spec fn u32_bytes(x: u32) -> Seq<u8> {
    seq![
        (x % 256) as u8,
        ((x / 0x100) % 256) as u8,
        ((x / 0x1_0000) % 256) as u8,
        (x / 0x100_0000) as u8,
    ]
}

/// The number whose bytes, least significant first, are `b0` to `b3`.
pub open spec fn u32_of_bytes(b0: u8, b1: u8, b2: u8, b3: u8) -> u32 {
    (b0 + 0x100 * b1 + 0x1_0000 * b2 + 0x100_0000 * b3) as u32
}

/// The two bytes of `x`, least significant first.
pub open spec fn u16_bytes(x: u16) -> Seq<u8> {
    seq![(x % 256) as u8, (x / 256) as u8]
}

/// The number whose bytes, least significant first, are `b0` and `b1`.
pub open spec fn u16_of_bytes(b0: u8, b1: u8) -> u16 {
    (b0 + 0x100 * b1) as u16
}

impl Instruction {
    /// The bytes that stand for the instruction.
    pub open spec fn encoding(self) -> Seq<u8> {
        match self {
            Instruction::ConstI32(v) => seq![OP_CONST_I32] + u32_bytes(i32_bits(v)),
            Instruction::ConstF32(bits) => seq![OP_CONST_F32] + u32_bytes(bits),
            Instruction::Dup => seq![OP_DUP],
            Instruction::Pop => seq![OP_POP],
            Instruction::Jmp(address) => seq![OP_JMP] + u16_bytes(address),
            Instruction::IfEqI32(address) => seq![OP_IF_EQ_I32] + u16_bytes(address),
            Instruction::ValueLoad => seq![OP_VALUE_LOAD],
            Instruction::CallNode(kind) => seq![OP_CALL_NODE, kind.spec_tag()],
            Instruction::End => seq![OP_END],
        }
    }

    /// The number of bytes that the instruction takes.
    pub open spec fn spec_size(self) -> nat {
        match self {
            Instruction::ConstI32(_) | Instruction::ConstF32(_) => 5,
            Instruction::Jmp(_) | Instruction::IfEqI32(_) => 3,
            Instruction::CallNode(_) => 2,
            _ => 1,
        }
    }

    /// The number of bytes that the instruction takes.
    pub fn size(&self) -> (n: usize)
        ensures
            n == self.spec_size(),
            n == self.encoding().len(),
    {
        match self {
            Instruction::ConstI32(_) | Instruction::ConstF32(_) => 5,
            Instruction::Jmp(_) | Instruction::IfEqI32(_) => 3,
            Instruction::CallNode(_) => 2,
            _ => 1,
        }
    }
}

/// The instruction that starts at offset `at` of `code`.
pub open spec fn decode_spec(code: Seq<u8>, at: int) -> Result<Instruction, DecodeError> {
    if at < 0 || at >= code.len() {
        Err(DecodeError::UnexpectedEnd)
    } else {
        let op = code[at];
        if op == OP_CONST_I32 || op == OP_CONST_F32 {
            if at + 5 > code.len() {
                Err(DecodeError::UnexpectedEnd)
            } else {
                let bits = u32_of_bytes(
                    code[at + 1],
                    code[at + 2],
                    code[at + 3],
                    code[at + 4],
                );
                if op == OP_CONST_I32 {
                    Ok(Instruction::ConstI32(i32_of_bits(bits)))
                } else {
                    Ok(Instruction::ConstF32(bits))
                }
            }
        } else if op == OP_JMP || op == OP_IF_EQ_I32 {
            if at + 3 > code.len() {
                Err(DecodeError::UnexpectedEnd)
            } else {
                let address = u16_of_bytes(code[at + 1], code[at + 2]);
                if op == OP_JMP {
                    Ok(Instruction::Jmp(address))
                } else {
                    Ok(Instruction::IfEqI32(address))
                }
            }
        } else if op == OP_CALL_NODE {
            if at + 2 > code.len() {
                Err(DecodeError::UnexpectedEnd)
            } else {
                match NodeKind::of_tag(code[at + 1]) {
                    Some(kind) => Ok(Instruction::CallNode(kind)),
                    None => Err(DecodeError::UnknownNodeKind(code[at + 1])),
                }
            }
        } else if op == OP_DUP {
            Ok(Instruction::Dup)
        } else if op == OP_POP {
            Ok(Instruction::Pop)
        } else if op == OP_VALUE_LOAD {
            Ok(Instruction::ValueLoad)
        } else if op == OP_END {
            Ok(Instruction::End)
        } else {
            Err(DecodeError::UnknownOpcode(op))
        }
    }
}

/// The two's complement bit pattern of `v`.
pub fn i32_to_bits(v: i32) -> (bits: u32)
    ensures
        bits == i32_bits(v),
        i32_of_bits(bits) == v,
{
    if v >= 0 {
        v as u32
    } else {
        (v as i64 + 0x1_0000_0000) as u32
    }
}

/// The integer whose two's complement bit pattern is `bits`.
pub fn i32_from_bits(bits: u32) -> (v: i32)
    ensures
        v == i32_of_bits(bits),
        i32_bits(v) == bits,
{
    if bits < 0x8000_0000 {
        bits as i32
    } else {
        (bits as i64 - 0x1_0000_0000) as i32
    }
}

/// Appends the four bytes of `x`, least significant first.
pub fn push_u32(code: &mut Vec<u8>, x: u32)
    ensures
        final(code)@ == old(code)@ + u32_bytes(x),
{
    code.push((x % 256) as u8);
    code.push(((x / 0x100) % 256) as u8);
    code.push(((x / 0x1_0000) % 256) as u8);
    code.push((x / 0x100_0000) as u8);
    assert(code@ =~= old(code)@ + u32_bytes(x));
}

/// Appends the two bytes of `x`, least significant first.
pub fn push_u16(code: &mut Vec<u8>, x: u16)
    ensures
        final(code)@ == old(code)@ + u16_bytes(x),
{
    code.push((x % 256) as u8);
    code.push((x / 256) as u8);
    assert(code@ =~= old(code)@ + u16_bytes(x));
}

/// Reading back the bytes of a number gives the number.
pub proof fn lemma_u32_bytes_round_trip(x: u32)
    ensures
        u32_bytes(x).len() == 4,
        u32_of_bytes(u32_bytes(x)[0], u32_bytes(x)[1], u32_bytes(x)[2], u32_bytes(x)[3]) == x,
{
}

/// Reading back the bytes of an address gives the address.
pub proof fn lemma_u16_bytes_round_trip(x: u16)
    ensures
        u16_bytes(x).len() == 2,
        u16_of_bytes(u16_bytes(x)[0], u16_bytes(x)[1]) == x,
{
}

impl Instruction {
    /// Appends the instruction's bytes to `code`.
    pub fn write_to(&self, code: &mut Vec<u8>)
        ensures
            final(code)@ == old(code)@ + self.encoding(),
    {
        match self {
            Instruction::ConstI32(v) => {
                code.push(OP_CONST_I32);
                push_u32(code, i32_to_bits(*v));
            },
            Instruction::ConstF32(bits) => {
                code.push(OP_CONST_F32);
                push_u32(code, *bits);
            },
            Instruction::Dup => code.push(OP_DUP),
            Instruction::Pop => code.push(OP_POP),
            Instruction::Jmp(address) => {
                code.push(OP_JMP);
                push_u16(code, *address);
            },
            Instruction::IfEqI32(address) => {
                code.push(OP_IF_EQ_I32);
                push_u16(code, *address);
            },
            Instruction::ValueLoad => code.push(OP_VALUE_LOAD),
            Instruction::CallNode(kind) => {
                code.push(OP_CALL_NODE);
                code.push(kind.tag());
            },
            Instruction::End => code.push(OP_END),
        }
        assert(code@ =~= old(code)@ + self.encoding());
    }
}

/// Reads the instruction that starts at offset `at` of `code`.
pub fn decode(code: &Vec<u8>, at: usize) -> (decoded: Result<Instruction, DecodeError>)
    ensures
        decoded == decode_spec(code@, at as int),
        decoded matches Ok(instruction) ==> at + instruction.spec_size() <= code.len(),
{
    if at >= code.len() {
        return Err(DecodeError::UnexpectedEnd);
    }
    let op = code[at];
    let rest: usize = code.len() - at;
    if op == OP_CONST_I32 || op == OP_CONST_F32 {
        if rest < 5 {
            return Err(DecodeError::UnexpectedEnd);
        }
        let bits: u32 = code[at + 1] as u32 + 0x100 * (code[at + 2] as u32) + 0x1_0000 * (code[at
            + 3] as u32) + 0x100_0000 * (code[at + 4] as u32);
        if op == OP_CONST_I32 {
            Ok(Instruction::ConstI32(i32_from_bits(bits)))
        } else {
            Ok(Instruction::ConstF32(bits))
        }
    } else if op == OP_JMP || op == OP_IF_EQ_I32 {
        if rest < 3 {
            return Err(DecodeError::UnexpectedEnd);
        }
        let address: u16 = code[at + 1] as u16 + 0x100 * (code[at + 2] as u16);
        if op == OP_JMP {
            Ok(Instruction::Jmp(address))
        } else {
            Ok(Instruction::IfEqI32(address))
        }
    } else if op == OP_CALL_NODE {
        if rest < 2 {
            return Err(DecodeError::UnexpectedEnd);
        }
        match NodeKind::from_tag(code[at + 1]) {
            Some(kind) => Ok(Instruction::CallNode(kind)),
            None => Err(DecodeError::UnknownNodeKind(code[at + 1])),
        }
    } else if op == OP_DUP {
        Ok(Instruction::Dup)
    } else if op == OP_POP {
        Ok(Instruction::Pop)
    } else if op == OP_VALUE_LOAD {
        Ok(Instruction::ValueLoad)
    } else if op == OP_END {
        Ok(Instruction::End)
    } else {
        Err(DecodeError::UnknownOpcode(op))
    }
}

/// Whatever instruction was written at an offset is the one read there:
/// where `code` holds the bytes of `instruction` from offset `at` on,
/// decoding at `at` gives `instruction`.
pub proof fn lemma_decode_encoding(code: Seq<u8>, at: int, instruction: Instruction)
    requires
        0 <= at,
        at + instruction.encoding().len() <= code.len(),
        code.subrange(at, at + instruction.encoding().len()) == instruction.encoding(),
    ensures
        decode_spec(code, at) == Ok::<Instruction, DecodeError>(instruction),
{
    let bytes = instruction.encoding();
    assert forall|k: int| 0 <= k < bytes.len() implies code[at + k] == bytes[k] by {
        assert(code.subrange(at, at + bytes.len())[k] == code[at + k]);
    }
    assert(code[at] == bytes[0]);
    match instruction {
        Instruction::ConstI32(v) => {
            lemma_u32_bytes_round_trip(i32_bits(v));
            assert(code[at + 1] == bytes[1]);
            assert(code[at + 2] == bytes[2]);
            assert(code[at + 3] == bytes[3]);
            assert(code[at + 4] == bytes[4]);
        },
        Instruction::ConstF32(bits) => {
            lemma_u32_bytes_round_trip(bits);
            assert(code[at + 1] == bytes[1]);
            assert(code[at + 2] == bytes[2]);
            assert(code[at + 3] == bytes[3]);
            assert(code[at + 4] == bytes[4]);
        },
        Instruction::Jmp(address) => {
            lemma_u16_bytes_round_trip(address);
            assert(code[at + 1] == bytes[1]);
            assert(code[at + 2] == bytes[2]);
        },
        Instruction::IfEqI32(address) => {
            lemma_u16_bytes_round_trip(address);
            assert(code[at + 1] == bytes[1]);
            assert(code[at + 2] == bytes[2]);
        },
        Instruction::CallNode(kind) => {
            assert(code[at + 1] == bytes[1]);
        },
        _ => {},
    }
}

/// One line of a listing: what was read at an offset.
#[derive(Debug, Clone, Copy, PartialEq, Eq)]
pub struct Listed {
    pub offset: usize,
    pub decoded: Result<Instruction, DecodeError>,
}

/// The listing of `code` from offset `at` on: one line for each instruction
/// in turn, up to and including the first `END` or the first offset at which
/// no instruction can be read.
pub open spec fn listing_from(code: Seq<u8>, at: int) -> Seq<Listed>
    decreases code.len() - at,
{
    let line = Listed { offset: at as usize, decoded: decode_spec(code, at) };
    match decode_spec(code, at) {
        Ok(instruction) => {
            if instruction == Instruction::End || at + instruction.spec_size() > code.len() {
                seq![line]
            } else {
                seq![line] + listing_from(code, at + instruction.spec_size())
            }
        },
        Err(_) => seq![line],
    }
}

/// Lists the instructions of `bytecode` from its start, up to and including
/// the first `END` or the first offset at which no instruction can be read.
pub fn disassemble(bytecode: &Vec<u8>) -> (lines: Vec<Listed>)
    ensures
        lines@ == listing_from(bytecode@, 0),
{
    let mut lines: Vec<Listed> = Vec::new();
    let mut index: usize = 0;
    loop
        invariant_except_break
            lines@ + listing_from(bytecode@, index as int) == listing_from(bytecode@, 0),
        invariant
            index <= bytecode.len(),
        ensures
            lines@ == listing_from(bytecode@, 0),
        decreases bytecode.len() - index,
    {
        let decoded = decode(bytecode, index);
        let ghost before = lines@;
        lines.push(Listed { offset: index, decoded });
        match decoded {
            Ok(Instruction::End) => {
                assert(lines@ =~= before + listing_from(bytecode@, index as int));
                break ;
            },
            Ok(instruction) => {
                assert(lines@ + listing_from(bytecode@, index + instruction.spec_size())
                    =~= before + listing_from(bytecode@, index as int));
                index += instruction.size();
            },
            Err(_) => {
                assert(lines@ =~= before + listing_from(bytecode@, index as int));
                break ;
            },
        }
    }
    lines
}

} // verus!
