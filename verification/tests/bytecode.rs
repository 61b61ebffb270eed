use graph::bytecode::{
    decode, disassemble, i32_from_bits, i32_to_bits, push_u16, push_u32, DecodeError, Instruction,
    Listed, OP_CALL_NODE, OP_CONST_F32, OP_CONST_I32, OP_DUP, OP_END, OP_IF_EQ_I32, OP_JMP,
    OP_POP, OP_VALUE_LOAD,
};
use graph::network::NodeKind;

fn encode(instruction: Instruction) -> Vec<u8> {
    let mut code = Vec::new();
    instruction.write_to(&mut code);
    code
}

#[test]
fn opcodes_have_their_values() {
    assert_eq!(OP_CONST_I32, 0x01);
    assert_eq!(OP_CONST_F32, 0x02);
    assert_eq!(OP_DUP, 0x03);
    assert_eq!(OP_POP, 0x04);
    assert_eq!(OP_VALUE_LOAD, 0x06);
    assert_eq!(OP_CALL_NODE, 0x10);
    assert_eq!(OP_JMP, 0x99);
    assert_eq!(OP_IF_EQ_I32, 0x9F);
    assert_eq!(OP_END, 0xFF);
}

#[test]
fn integers_are_two_s_complement() {
    assert_eq!(i32_to_bits(0), 0);
    assert_eq!(i32_to_bits(1), 1);
    assert_eq!(i32_to_bits(-1), 0xFFFF_FFFF);
    assert_eq!(i32_to_bits(i32::MIN), 0x8000_0000);
    assert_eq!(i32_to_bits(i32::MAX), 0x7FFF_FFFF);
    assert_eq!(i32_from_bits(0xFFFF_FFFE), -2);
    assert_eq!(i32_from_bits(0x8000_0000), i32::MIN);
    assert_eq!(i32_from_bits(0x7FFF_FFFF), i32::MAX);
}

#[test]
fn operands_are_little_endian() {
    let mut code = vec![7];
    push_u32(&mut code, 0x1234_5678);
    assert_eq!(code, vec![7, 0x78, 0x56, 0x34, 0x12]);
    let mut code = vec![7];
    push_u16(&mut code, 0x1234);
    assert_eq!(code, vec![7, 0x34, 0x12]);
    assert_eq!(encode(Instruction::ConstI32(-2)), vec![0x01, 0xFE, 0xFF, 0xFF, 0xFF]);
    assert_eq!(encode(Instruction::ConstI32(258)), 258i32.to_le_bytes().iter().fold(vec![0x01], |mut v, b| { v.push(*b); v }));
    assert_eq!(encode(Instruction::ConstF32(1.0f32.to_bits())), vec![0x02, 0x00, 0x00, 0x80, 0x3F]);
    assert_eq!(encode(Instruction::Jmp(0x1234)), vec![0x99, 0x34, 0x12]);
    assert_eq!(encode(Instruction::IfEqI32(0xcccc)), vec![0x9F, 0xcc, 0xcc]);
}

#[test]
fn instructions_without_operand_are_one_byte() {
    assert_eq!(encode(Instruction::Dup), vec![0x03]);
    assert_eq!(encode(Instruction::Pop), vec![0x04]);
    assert_eq!(encode(Instruction::ValueLoad), vec![0x06]);
    assert_eq!(encode(Instruction::End), vec![0xFF]);
}

#[test]
fn node_calls_carry_the_kind() {
    assert_eq!(encode(Instruction::CallNode(NodeKind::Int)), vec![0x10, 1]);
    assert_eq!(encode(Instruction::CallNode(NodeKind::Add)), vec![0x10, 2]);
    assert_eq!(encode(Instruction::CallNode(NodeKind::Negate)), vec![0x10, 3]);
    assert_eq!(encode(Instruction::CallNode(NodeKind::Switch)), vec![0x10, 4]);
    assert_eq!(encode(Instruction::CallNode(NodeKind::Frame)), vec![0x10, 5]);
}

#[test]
fn what_is_written_is_read_back() {
    let instructions = vec![
        Instruction::ConstI32(0),
        Instruction::ConstI32(i32::MIN),
        Instruction::ConstI32(i32::MAX),
        Instruction::ConstI32(-123456),
        Instruction::ConstF32(0xDEAD_BEEF),
        Instruction::Dup,
        Instruction::Pop,
        Instruction::Jmp(0),
        Instruction::Jmp(0xFFFF),
        Instruction::IfEqI32(0x0102),
        Instruction::ValueLoad,
        Instruction::CallNode(NodeKind::Negate),
        Instruction::End,
    ];
    let mut code = vec![0xAA, 0xBB];
    let mut offsets = Vec::new();
    for instruction in &instructions {
        offsets.push(code.len());
        instruction.write_to(&mut code);
        assert_eq!(code.len(), offsets[offsets.len() - 1] + instruction.size());
    }
    code.push(0xAA);
    for (instruction, offset) in instructions.iter().zip(offsets) {
        assert_eq!(decode(&code, offset), Ok(*instruction));
    }
}

#[test]
fn sizes_of_instructions() {
    assert_eq!(Instruction::ConstI32(1).size(), 5);
    assert_eq!(Instruction::ConstF32(1).size(), 5);
    assert_eq!(Instruction::Jmp(1).size(), 3);
    assert_eq!(Instruction::IfEqI32(1).size(), 3);
    assert_eq!(Instruction::CallNode(NodeKind::Add).size(), 2);
    assert_eq!(Instruction::Dup.size(), 1);
    assert_eq!(Instruction::Pop.size(), 1);
    assert_eq!(Instruction::ValueLoad.size(), 1);
    assert_eq!(Instruction::End.size(), 1);
}

#[test]
fn decoding_outside_the_code_fails() {
    assert_eq!(decode(&vec![], 0), Err(DecodeError::UnexpectedEnd));
    assert_eq!(decode(&vec![0xFF], 1), Err(DecodeError::UnexpectedEnd));
    assert_eq!(decode(&vec![0xFF], usize::MAX), Err(DecodeError::UnexpectedEnd));
}

#[test]
fn decoding_a_cut_operand_fails() {
    assert_eq!(decode(&vec![0x01, 1, 2, 3], 0), Err(DecodeError::UnexpectedEnd));
    assert_eq!(decode(&vec![0x02], 0), Err(DecodeError::UnexpectedEnd));
    assert_eq!(decode(&vec![0x99, 1], 0), Err(DecodeError::UnexpectedEnd));
    assert_eq!(decode(&vec![0x9F], 0), Err(DecodeError::UnexpectedEnd));
    assert_eq!(decode(&vec![0x10], 0), Err(DecodeError::UnexpectedEnd));
    assert_eq!(decode(&vec![0x01, 1, 2, 3, 4], 0), Ok(Instruction::ConstI32(0x04030201)));
}

#[test]
fn decoding_an_unknown_byte_fails() {
    assert_eq!(decode(&vec![0x00], 0), Err(DecodeError::UnknownOpcode(0x00)));
    assert_eq!(decode(&vec![0x05], 0), Err(DecodeError::UnknownOpcode(0x05)));
    assert_eq!(decode(&vec![0x10, 0], 0), Err(DecodeError::UnknownNodeKind(0)));
    assert_eq!(decode(&vec![0x10, 6], 0), Err(DecodeError::UnknownNodeKind(6)));
}

#[test]
fn a_listing_ends_with_the_first_end() {
    let code = vec![0x01, 5, 0, 0, 0, 0x03, 0x10, 0x02, 0xFF, 0x04, 0xFF];
    assert_eq!(
        disassemble(&code),
        vec![
            Listed { offset: 0, decoded: Ok(Instruction::ConstI32(5)) },
            Listed { offset: 5, decoded: Ok(Instruction::Dup) },
            Listed { offset: 6, decoded: Ok(Instruction::CallNode(NodeKind::Add)) },
            Listed { offset: 8, decoded: Ok(Instruction::End) },
        ]
    );
}

#[test]
fn a_listing_ends_with_the_first_error() {
    assert_eq!(
        disassemble(&vec![0x04, 0x77, 0xFF]),
        vec![
            Listed { offset: 0, decoded: Ok(Instruction::Pop) },
            Listed { offset: 1, decoded: Err(DecodeError::UnknownOpcode(0x77)) },
        ]
    );
    assert_eq!(
        disassemble(&vec![0x04]),
        vec![
            Listed { offset: 0, decoded: Ok(Instruction::Pop) },
            Listed { offset: 1, decoded: Err(DecodeError::UnexpectedEnd) },
        ]
    );
    assert_eq!(
        disassemble(&vec![]),
        vec![Listed { offset: 0, decoded: Err(DecodeError::UnexpectedEnd) }]
    );
}

#[test]
fn a_listing_does_not_follow_jumps() {
    assert_eq!(
        disassemble(&vec![0x99, 0, 0, 0xFF]),
        vec![
            Listed { offset: 0, decoded: Ok(Instruction::Jmp(0)) },
            Listed { offset: 3, decoded: Ok(Instruction::End) },
        ]
    );
}
