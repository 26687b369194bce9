//! Bytes of single statements, and the places of labels in them.

use fox32asm::ast::{
    AstNode, Condition, InstructionOne, InstructionTwo, InstructionZero, OperationOne,
    OperationTwo, OperationZero, Size,
};
use fox32asm::backpatch::{perform_backpatching, AssembledInstruction, BackpatchTarget};
use fox32asm::bytes::{push_half, push_word, word_bytes};
use fox32asm::emit::{assemble_node, generate_backpatch_immediate, is_assemblable_node};
use fox32asm::encode::{
    condition_source_destination_to_byte, condition_to_bits, instruction_to_byte, size_to_byte,
};
use fox32asm::labels::{format_address_table, precedes, LabelTable, LabelTargets};
use fox32asm::output::{join_code, write_binary};

fn jump(name: &str, is_relative: bool) -> AstNode {
    AstNode::OperationOne(OperationOne {
        size: Size::Word,
        condition: Condition::GreaterThan,
        instruction: InstructionOne::Jmp,
        operand: Box::new(AstNode::LabelOperand {
            name: name.to_string(),
            size: Size::Word,
            is_relative,
        }),
    })
}

#[test]
fn words_have_their_low_byte_first() {
    assert_eq!(word_bytes(0x01020304), vec![4, 3, 2, 1]);
    let mut bytes = vec![9];
    push_half(&mut bytes, 0x0102);
    push_word(&mut bytes, 0xFFFFFFFE);
    assert_eq!(bytes, vec![9, 2, 1, 0xFE, 0xFF, 0xFF, 0xFF]);
}

#[test]
fn fields_of_the_first_two_bytes() {
    assert_eq!(size_to_byte(Size::Byte), 0x00);
    assert_eq!(size_to_byte(Size::Half), 0x40);
    assert_eq!(size_to_byte(Size::Word), 0x80);
    assert_eq!(condition_to_bits(&Condition::Always), 0x00);
    assert_eq!(condition_to_bits(&Condition::LessThanEqualTo), 0x60);
    let node = AstNode::OperationTwo(OperationTwo {
        size: Size::Half,
        condition: Condition::NotCarry,
        instruction: InstructionTwo::Out,
        lhs: Box::new(AstNode::RegisterPointerOffset(1, 2)),
        rhs: Box::new(AstNode::ImmediatePointer(3)),
    });
    assert_eq!(instruction_to_byte(&node), 0x5B);
    assert_eq!(condition_source_destination_to_byte(&node), 0x40 | 0x84 | 0x03);
}

#[test]
fn statements_with_bytes_of_their_own() {
    assert!(is_assemblable_node(&AstNode::DataByte(1)));
    assert!(is_assemblable_node(&jump("x", false)));
    assert!(!is_assemblable_node(&AstNode::Origin(1)));
    assert!(!is_assemblable_node(&AstNode::Immediate8(1)));
    let nested = AstNode::OperationOne(OperationOne {
        size: Size::Word,
        condition: Condition::Always,
        instruction: InstructionOne::Push,
        operand: Box::new(AstNode::DataByte(1)),
    });
    assert!(!is_assemblable_node(&nested));
}

#[test]
fn a_label_leaves_a_placeholder() {
    let mut targets = LabelTargets::new();
    let code = assemble_node(jump("there", true), 7, &mut targets);
    assert_eq!(code.value, vec![0x52, 0x88, 0xAB, 0xAB, 0xAB, 0xAB]);
    assert_eq!(code.address, 0);
    assert_eq!(targets.entries.len(), 1);
    assert_eq!(targets.entries[0].name, "there");
    assert_eq!(targets.entries[0].targets, vec![BackpatchTarget::new(7, 2, Size::Word, true)]);
}

#[test]
fn targets_are_kept_by_name() {
    let mut targets = LabelTargets::new();
    let mut code = AssembledInstruction::new();
    for (name, size) in [("b", Size::Byte), ("a", Size::Half), ("b", Size::Word)] {
        generate_backpatch_immediate(&name.to_string(), size, &mut code, false, 3, &mut targets);
    }
    assert_eq!(code.value, vec![0xAB; 7]);
    assert_eq!(targets.entries.len(), 2);
    assert_eq!(targets.entries[0].name, "a");
    assert_eq!(targets.entries[0].targets, vec![BackpatchTarget::new(3, 1, Size::Half, false)]);
    assert_eq!(targets.entries[1].targets, vec![
        BackpatchTarget::new(3, 0, Size::Byte, false),
        BackpatchTarget::new(3, 3, Size::Word, false),
    ]);
}

#[test]
fn names_are_ordered_as_in_a_dictionary() {
    assert!(precedes(&"a".to_string(), &"b".to_string()));
    assert!(precedes(&"a".to_string(), &"ab".to_string()));
    assert!(precedes(&"B".to_string(), &"a".to_string()));
    assert!(!precedes(&"a".to_string(), &"a".to_string()));
    assert!(!precedes(&"ab".to_string(), &"a".to_string()));
}

#[test]
fn addresses_are_written_into_instructions() {
    let mut code = AssembledInstruction::from(vec![0; 6]);
    code.set_address(0x100);
    assert_eq!(code.get_address(), 0x100);
    let target = BackpatchTarget::new(0, 1, Size::Word, true);
    target.write(&mut code, Size::Word, 0x80);
    assert_eq!(code.value, vec![0, 0x80, 0xFF, 0xFF, 0xFF, 0]);
    assert_eq!(target.get_backpatch_location(&code), 0x101);
    let target = BackpatchTarget::new(0, 4, Size::Half, false);
    target.write(&mut code, Size::Half, 0x12345678);
    assert_eq!(code.value, vec![0, 0x80, 0xFF, 0xFF, 0x78, 0x56]);
}

#[test]
fn absolute_addresses_are_listed_for_relocation() {
    let targets = vec![
        BackpatchTarget::new(0, 0, Size::Byte, false),
        BackpatchTarget::new(1, 1, Size::Byte, true),
        BackpatchTarget::new(1, 0, Size::Byte, false),
    ];
    let fresh = || {
        let mut second = AssembledInstruction::from(vec![0, 0]);
        second.set_address(0x20);
        vec![AssembledInstruction::from(vec![0]), second]
    };
    let mut relocs = vec![99];
    let mut code = fresh();
    perform_backpatching(&targets, (0x25, false), &mut code, &mut relocs);
    assert_eq!(code[0].value, vec![0x25]);
    assert_eq!(code[1].value, vec![0x25, 0x05]);
    assert_eq!(relocs, vec![99, 0, 0x20]);
    // constants are not listed
    let mut relocs = vec![];
    let mut code = fresh();
    perform_backpatching(&targets, (0x25, true), &mut code, &mut relocs);
    assert_eq!(code[1].value, vec![0x25, 0x05]);
    assert_eq!(relocs, Vec::<u32>::new());
}

#[test]
fn label_table_gives_back_the_last_address() {
    let mut table = LabelTable::new();
    table.insert("a".to_string(), 1, false);
    table.insert("b".to_string(), 2, true);
    table.insert("a".to_string(), 3, true);
    assert_eq!(table.get(&"a".to_string()), Some((3, true)));
    assert_eq!(table.get(&"b".to_string()), Some((2, true)));
    assert_eq!(table.get(&"c".to_string()), None);
    assert_eq!(format_address_table(&table), "0x00000002 :: b\n0x00000003 :: a");
    assert_eq!(format_address_table(&LabelTable::new()), "");
}

#[test]
fn bytes_of_the_output_file() {
    let code = vec![
        AssembledInstruction::from(vec![1, 2]),
        AssembledInstruction::from(vec![]),
        AssembledInstruction::from(vec![3]),
    ];
    assert_eq!(join_code(&code), vec![1, 2, 3]);
    assert_eq!(write_binary(&code, &vec![7], false), vec![1, 2, 3]);
    assert_eq!(write_binary(&code, &vec![7], true), vec![
        b'F', b'X', b'F', 0, 3, 0, 0, 0, 0x14, 0, 0, 0, 4, 0, 0, 0, 0x17, 0, 0, 0, 1, 2, 3, 7, 0,
        0, 0
    ]);
}

#[test]
fn different_instructions_have_different_bytes() {
    let mut seen: Vec<Vec<u8>> = vec![];
    let operands = |n: usize| match n {
        0 => AstNode::Register(1),
        1 => AstNode::RegisterPointer(1),
        2 => AstNode::RegisterPointerOffset(1, 1),
        3 => AstNode::Immediate32(1),
        _ => AstNode::ImmediatePointer(1),
    };
    for instruction in [InstructionTwo::Add, InstructionTwo::Xor, InstructionTwo::Mov] {
        for condition in [Condition::Always, Condition::Carry] {
            for lhs in 0..5 {
                for rhs in 0..5 {
                    let mut targets = LabelTargets::new();
                    let node = AstNode::OperationTwo(OperationTwo {
                        size: Size::Word,
                        condition,
                        instruction,
                        lhs: Box::new(operands(lhs)),
                        rhs: Box::new(operands(rhs)),
                    });
                    let bytes = assemble_node(node, 0, &mut targets).value;
                    assert!(!seen.contains(&bytes));
                    seen.push(bytes);
                }
            }
        }
    }
    assert_eq!(seen.len(), 150);
    let mut targets = LabelTargets::new();
    let node = AstNode::OperationZero(OperationZero {
        size: Size::Word,
        condition: Condition::Zero,
        instruction: InstructionZero::Nop,
    });
    assert_eq!(assemble_node(node, 0, &mut targets).value, vec![0x10, 0x80]);
}
