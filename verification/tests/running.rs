use graph::network::NodeKind;
use graph::value::{Value, ValueKind};
use graph::vm::{wrapping_negation, wrapping_sum, RuntimeError, RuntimeErrorKind, VM};

fn machine(bytecode: Vec<u8>, stack: Vec<Value>) -> VM {
    let mut vm = VM::new(bytecode, vec![]);
    vm.stack = stack;
    vm
}

fn failure(bytecode: Vec<u8>, pool: Vec<Value>) -> (RuntimeError, VM) {
    let mut vm = VM::new(bytecode, pool);
    let error = vm.run().unwrap_err();
    (error, vm)
}

#[test]
fn a_new_machine_starts_at_the_beginning() {
    let vm = VM::new(vec![1, 2, 3], vec![Value::Int(4)]);
    assert_eq!(vm.bytecode, vec![1, 2, 3]);
    assert_eq!(vm.constant_pool, vec![Value::Int(4)]);
    assert_eq!(vm.ip, 0);
    assert!(vm.stack.is_empty());
}

#[test]
fn an_error_keeps_what_it_was_given() {
    let error = RuntimeError::new(RuntimeErrorKind::EmptyList, "no elements".to_string());
    assert_eq!(error.kind, RuntimeErrorKind::EmptyList);
    assert_eq!(error.message, "no elements");
}

#[test]
fn each_kind_of_error_has_its_message() {
    let kinds = vec![
        (RuntimeErrorKind::StackUnderflow, "Stack underflow"),
        (
            RuntimeErrorKind::TypeMismatch {
                expected: ValueKind::Int,
                actual: ValueKind::Float,
                actual_is_list: false,
            },
            "Value is not an int",
        ),
        (RuntimeErrorKind::InvalidConstantIndex { index: 3 }, "Invalid constant pool index"),
        (RuntimeErrorKind::UnknownOpcode { opcode: 9 }, "Invalid instruction"),
        (RuntimeErrorKind::UnknownNodeKind { tag: 9 }, "Unknown node kind"),
        (RuntimeErrorKind::UnexpectedEnd, "Unexpected end of bytecode"),
        (
            RuntimeErrorKind::UnsupportedNode { kind: NodeKind::Switch },
            "Node kind cannot be called",
        ),
        (RuntimeErrorKind::EmptyList, "Empty list"),
        (RuntimeErrorKind::StepLimitExceeded, "Step limit exceeded"),
    ];
    for (kind, message) in kinds {
        assert_eq!(kind.describe(), message);
        let error = RuntimeError::of_kind(kind);
        assert_eq!(error.kind, kind);
        assert_eq!(error.message, message);
    }
}

#[test]
fn sums_and_negations_wrap_around() {
    assert_eq!(wrapping_sum(2, 3), 5);
    assert_eq!(wrapping_sum(-2, -3), -5);
    assert_eq!(wrapping_sum(i32::MAX, 1), i32::MIN);
    assert_eq!(wrapping_sum(i32::MIN, -1), i32::MAX);
    assert_eq!(wrapping_sum(i32::MAX, i32::MAX), -2);
    assert_eq!(wrapping_sum(i32::MIN, i32::MIN), 0);
    assert_eq!(wrapping_negation(5), -5);
    assert_eq!(wrapping_negation(-5), 5);
    assert_eq!(wrapping_negation(0), 0);
    assert_eq!(wrapping_negation(i32::MIN), i32::MIN);
    assert_eq!(wrapping_negation(i32::MAX), i32::MIN + 1);
}

#[test]
fn constants_are_pushed() {
    let mut vm = VM::new(vec![0x01, 0xFE, 0xFF, 0xFF, 0xFF, 0x02, 0, 0, 0x80, 0x3F, 0xFF], vec![]);
    assert!(vm.run().is_ok());
    assert_eq!(vm.stack.len(), 2);
    assert_eq!(vm.stack[0], Value::Int(-2));
    assert!(matches!(vm.stack[1], Value::Float(bits) if bits == 1.0f32.to_bits()));
    assert_eq!(vm.ip, 11);
}

#[test]
fn dup_copies_the_top() {
    let mut vm = machine(vec![0x03, 0xFF], vec![Value::Int(1), Value::IntList(vec![2, 3])]);
    assert!(vm.run().is_ok());
    assert_eq!(
        vm.stack,
        vec![Value::Int(1), Value::IntList(vec![2, 3]), Value::IntList(vec![2, 3])]
    );
}

#[test]
fn pop_drops_the_top() {
    let mut vm = machine(vec![0x04, 0xFF], vec![Value::Int(1), Value::Int(2)]);
    assert!(vm.run().is_ok());
    assert_eq!(vm.stack, vec![Value::Int(1)]);
}

#[test]
fn jmp_goes_to_its_address() {
    let mut vm = VM::new(vec![0x99, 9, 0, 0x01, 1, 0, 0, 0, 0xFF, 0x01, 2, 0, 0, 0, 0xFF], vec![]);
    assert!(vm.run().is_ok());
    assert_eq!(vm.stack, vec![Value::Int(2)]);
    assert_eq!(vm.ip, 15);
}

#[test]
fn jmp_reads_its_address_low_byte_first() {
    let mut code = vec![0x99, 0x02, 0x01];
    code.resize(0x0102, 0x00);
    code.push(0xFF);
    let mut vm = VM::new(code, vec![]);
    assert!(vm.run().is_ok());
    assert_eq!(vm.ip, 0x0103);
}

#[test]
fn if_eq_jumps_on_equal_values() {
    let code = vec![0x9F, 9, 0, 0x01, 1, 0, 0, 0, 0xFF, 0x01, 2, 0, 0, 0, 0xFF];
    let mut vm = machine(code.clone(), vec![Value::Int(0), Value::Int(5), Value::Int(5)]);
    assert!(vm.run().is_ok());
    assert_eq!(vm.stack, vec![Value::Int(0), Value::Int(2)]);
    let mut vm = machine(code.clone(), vec![Value::Int(0), Value::Int(5), Value::Int(6)]);
    assert!(vm.run().is_ok());
    assert_eq!(vm.stack, vec![Value::Int(0), Value::Int(1)]);
    let mut vm = machine(code, vec![Value::Int(5), Value::IntList(vec![5])]);
    assert!(vm.run().is_ok());
    assert_eq!(vm.stack, vec![Value::Int(1)]);
}

#[test]
fn value_load_pushes_the_constant() {
    let pool = vec![Value::Int(10), Value::StringList(vec!["a".to_string()])];
    let mut vm = VM::new(vec![0x01, 1, 0, 0, 0, 0x06, 0xFF], pool.clone());
    assert!(vm.run().is_ok());
    assert_eq!(vm.stack, vec![Value::StringList(vec!["a".to_string()])]);
    assert_eq!(vm.constant_pool, pool);
}

#[test]
fn calling_int_changes_nothing() {
    let mut vm = machine(vec![0x10, 0x01, 0xFF], vec![Value::Int(3)]);
    assert!(vm.run().is_ok());
    assert_eq!(vm.stack, vec![Value::Int(3)]);
    let mut vm = machine(vec![0x10, 0x01, 0xFF], vec![]);
    assert!(vm.run().is_ok());
    assert!(vm.stack.is_empty());
}

#[test]
fn calling_frame_pushes_the_frame_number() {
    let mut vm = VM::new(vec![0x10, 0x05, 0xFF], vec![]);
    assert!(vm.run().is_ok());
    assert_eq!(vm.stack, vec![Value::Int(42)]);
}

#[test]
fn calling_add_sums_element_by_element() {
    let mut vm = machine(vec![], vec![Value::Int(9), Value::IntList(vec![1, 2, 3]), Value::Int(100)]);
    assert!(vm.call_node(NodeKind::Add).is_ok());
    assert_eq!(vm.stack, vec![Value::Int(9), Value::IntList(vec![101, 102, 103])]);
    let mut vm = machine(vec![], vec![Value::IntList(vec![100, 200]), Value::IntList(vec![1, 2, 3])]);
    assert!(vm.call_node(NodeKind::Add).is_ok());
    assert_eq!(vm.stack, vec![Value::IntList(vec![101, 202, 103])]);
    let mut vm = machine(
        vec![],
        vec![Value::FloatList(vec![1.5f32.to_bits(), (-2.5f32).to_bits()]), Value::String("x".to_string())],
    );
    assert!(vm.call_node(NodeKind::Add).is_ok());
    assert_eq!(vm.stack, vec![Value::IntList(vec![1, -2])]);
}

#[test]
fn calling_add_on_two_empty_lists_gives_an_empty_list() {
    let mut vm = machine(vec![], vec![Value::IntList(vec![]), Value::FloatList(vec![])]);
    assert!(vm.call_node(NodeKind::Add).is_ok());
    assert_eq!(vm.stack, vec![Value::IntList(vec![])]);
    let mut vm = machine(vec![], vec![Value::StringList(vec![]), Value::Int(4)]);
    assert!(vm.call_node(NodeKind::Add).is_ok());
    assert_eq!(vm.stack, vec![Value::IntList(vec![4])]);
}

#[test]
fn calling_negate_negates_each_element() {
    let mut vm = machine(vec![], vec![Value::IntList(vec![1, -2, 0, i32::MIN])]);
    assert!(vm.call_node(NodeKind::Negate).is_ok());
    assert_eq!(vm.stack, vec![Value::IntList(vec![-1, 2, 0, i32::MIN])]);
    let mut vm = machine(vec![], vec![Value::Int(7)]);
    assert!(vm.call_node(NodeKind::Negate).is_ok());
    assert_eq!(vm.stack, vec![Value::IntList(vec![-7])]);
    let mut vm = machine(vec![], vec![Value::IntList(vec![])]);
    assert!(vm.call_node(NodeKind::Negate).is_ok());
    assert_eq!(vm.stack, vec![Value::IntList(vec![])]);
}

#[test]
fn popping_takes_the_top() {
    let mut vm = machine(vec![], vec![Value::Int(1), Value::Int(2)]);
    assert_eq!(vm.pop_value().unwrap(), Value::Int(2));
    assert_eq!(vm.pop_int_value().unwrap(), 1);
    assert_eq!(vm.pop_value().unwrap_err().kind, RuntimeErrorKind::StackUnderflow);
    assert_eq!(vm.pop_int_value().unwrap_err().kind, RuntimeErrorKind::StackUnderflow);
    assert!(vm.stack.is_empty());
}

#[test]
fn only_a_scalar_integer_is_an_int() {
    let vm = VM::new(vec![], vec![]);
    assert_eq!(vm.check_int_value(Value::Int(-4)).unwrap(), -4);
    let cases = vec![
        (Value::Float(0), ValueKind::Float, false),
        (Value::String("1".to_string()), ValueKind::String, false),
        (Value::IntList(vec![1]), ValueKind::Int, true),
        (Value::FloatList(vec![]), ValueKind::Float, true),
        (Value::StringList(vec![]), ValueKind::String, true),
    ];
    for (value, actual, actual_is_list) in cases {
        let error = vm.check_int_value(value).unwrap_err();
        assert_eq!(
            error.kind,
            RuntimeErrorKind::TypeMismatch { expected: ValueKind::Int, actual, actual_is_list }
        );
        assert_eq!(error.message, "Value is not an int");
    }
}

#[test]
fn popping_an_int_takes_the_value_even_if_it_is_none() {
    let mut vm = machine(vec![], vec![Value::Int(1), Value::IntList(vec![2])]);
    let error = vm.pop_int_value().unwrap_err();
    assert_eq!(
        error.kind,
        RuntimeErrorKind::TypeMismatch {
            expected: ValueKind::Int,
            actual: ValueKind::Int,
            actual_is_list: true
        }
    );
    assert_eq!(vm.stack, vec![Value::Int(1)]);
}

#[test]
fn every_instruction_that_takes_a_value_can_underflow() {
    for code in [
        vec![0x03, 0xFF],
        vec![0x04, 0xFF],
        vec![0x9F, 0, 0, 0xFF],
        vec![0x06, 0xFF],
        vec![0x10, 0x02, 0xFF],
        vec![0x10, 0x03, 0xFF],
        vec![0x01, 1, 0, 0, 0, 0x9F, 0, 0, 0xFF],
        vec![0x01, 1, 0, 0, 0, 0x10, 0x02, 0xFF],
    ] {
        let (error, vm) = failure(code, vec![]);
        assert_eq!(error.kind, RuntimeErrorKind::StackUnderflow);
        assert_eq!(error.message, "Stack underflow");
        assert!(vm.stack.is_empty());
    }
}

#[test]
fn loading_by_a_value_that_is_no_int_is_a_type_mismatch() {
    let (error, vm) = failure(vec![0x02, 0, 0, 0, 0, 0x06, 0xFF], vec![Value::Int(1)]);
    assert_eq!(
        error.kind,
        RuntimeErrorKind::TypeMismatch {
            expected: ValueKind::Int,
            actual: ValueKind::Float,
            actual_is_list: false
        }
    );
    assert!(vm.stack.is_empty());
    assert_eq!(vm.ip, 6);
}

#[test]
fn loading_from_outside_the_pool_is_an_error() {
    let (error, vm) = failure(vec![0x01, 1, 0, 0, 0, 0x06, 0xFF], vec![Value::Int(1)]);
    assert_eq!(error.kind, RuntimeErrorKind::InvalidConstantIndex { index: 1 });
    assert_eq!(error.message, "Invalid constant pool index");
    assert!(vm.stack.is_empty());
    let (error, _) = failure(vec![0x01, 0xFF, 0xFF, 0xFF, 0xFF, 0x06, 0xFF], vec![Value::Int(1)]);
    assert_eq!(error.kind, RuntimeErrorKind::InvalidConstantIndex { index: -1 });
    let (error, _) = failure(vec![0x01, 0, 0, 0, 0, 0x06, 0xFF], vec![]);
    assert_eq!(error.kind, RuntimeErrorKind::InvalidConstantIndex { index: 0 });
}

#[test]
fn an_unknown_opcode_is_an_error() {
    let (error, vm) = failure(vec![0x01, 1, 0, 0, 0, 0x55, 0xFF], vec![]);
    assert_eq!(error.kind, RuntimeErrorKind::UnknownOpcode { opcode: 0x55 });
    assert_eq!(vm.ip, 5);
    assert_eq!(vm.stack, vec![Value::Int(1)]);
}

#[test]
fn an_unknown_node_kind_is_an_error() {
    let (error, vm) = failure(vec![0x10, 0x09, 0xFF], vec![]);
    assert_eq!(error.kind, RuntimeErrorKind::UnknownNodeKind { tag: 9 });
    assert_eq!(vm.ip, 0);
}

#[test]
fn calling_a_switch_is_an_error() {
    let (error, vm) = failure(vec![0x10, 0x04, 0xFF], vec![]);
    assert_eq!(error.kind, RuntimeErrorKind::UnsupportedNode { kind: NodeKind::Switch });
    assert_eq!(vm.ip, 2);
    let mut vm = machine(vec![], vec![Value::Int(1)]);
    let error = vm.call_node(NodeKind::Switch).unwrap_err();
    assert_eq!(error.kind, RuntimeErrorKind::UnsupportedNode { kind: NodeKind::Switch });
    assert_eq!(vm.stack, vec![Value::Int(1)]);
}

#[test]
fn running_off_the_end_is_an_error() {
    let (error, vm) = failure(vec![], vec![]);
    assert_eq!(error.kind, RuntimeErrorKind::UnexpectedEnd);
    assert_eq!(vm.ip, 0);
    let (error, vm) = failure(vec![0x10, 0x05], vec![]);
    assert_eq!(error.kind, RuntimeErrorKind::UnexpectedEnd);
    assert_eq!(vm.ip, 2);
    assert_eq!(vm.stack, vec![Value::Int(42)]);
    let (error, vm) = failure(vec![0x01, 1, 0], vec![]);
    assert_eq!(error.kind, RuntimeErrorKind::UnexpectedEnd);
    assert_eq!(vm.ip, 0);
    let (error, vm) = failure(vec![0x99, 0x00, 0x10], vec![]);
    assert_eq!(error.kind, RuntimeErrorKind::UnexpectedEnd);
    assert_eq!(vm.ip, 0x1000);
}

#[test]
fn adding_an_empty_list_to_a_value_with_elements_is_an_error() {
    let mut vm = machine(vec![], vec![Value::Int(8), Value::IntList(vec![]), Value::Int(1)]);
    let error = vm.call_node(NodeKind::Add).unwrap_err();
    assert_eq!(error.kind, RuntimeErrorKind::EmptyList);
    assert_eq!(vm.stack, vec![Value::Int(8)]);
    let mut vm = machine(vec![], vec![Value::IntList(vec![1, 2]), Value::FloatList(vec![])]);
    let error = vm.call_node(NodeKind::Add).unwrap_err();
    assert_eq!(error.kind, RuntimeErrorKind::EmptyList);
    assert!(vm.stack.is_empty());
}

#[test]
fn a_program_that_never_halts_runs_out_of_steps() {
    let mut vm = VM::new(vec![0x99, 0, 0], vec![]);
    let error = vm.run_for(1000).unwrap_err();
    assert_eq!(error.kind, RuntimeErrorKind::StepLimitExceeded);
    assert_eq!(error.message, "Step limit exceeded");
    assert_eq!(vm.ip, 0);
    let mut vm = VM::new(vec![0x10, 0x05, 0x99, 0, 0], vec![]);
    let error = vm.run_for(5).unwrap_err();
    assert_eq!(error.kind, RuntimeErrorKind::StepLimitExceeded);
    assert_eq!(vm.stack, vec![Value::Int(42), Value::Int(42), Value::Int(42)]);
    assert_eq!(vm.ip, 2);
}

#[test]
fn the_limit_counts_the_halt() {
    let mut vm = VM::new(vec![0x10, 0x05, 0xFF], vec![]);
    assert_eq!(vm.run_for(1).unwrap_err().kind, RuntimeErrorKind::StepLimitExceeded);
    assert_eq!(vm.ip, 2);
    assert!(vm.run_for(1).is_ok());
    assert_eq!(vm.ip, 3);
    let mut vm = VM::new(vec![0xFF], vec![]);
    assert_eq!(vm.run_for(0).unwrap_err().kind, RuntimeErrorKind::StepLimitExceeded);
    assert_eq!(vm.ip, 0);
}

#[test]
fn a_step_runs_one_instruction() {
    let mut vm = VM::new(vec![0x01, 5, 0, 0, 0, 0x03, 0xFF], vec![]);
    assert_eq!(vm.step().unwrap(), false);
    assert_eq!(vm.ip, 5);
    assert_eq!(vm.stack, vec![Value::Int(5)]);
    assert_eq!(vm.step().unwrap(), false);
    assert_eq!(vm.ip, 6);
    assert_eq!(vm.stack, vec![Value::Int(5), Value::Int(5)]);
    assert_eq!(vm.step().unwrap(), true);
    assert_eq!(vm.ip, 7);
    assert_eq!(vm.step().unwrap_err().kind, RuntimeErrorKind::UnexpectedEnd);
    assert_eq!(vm.ip, 7);
}
