//! Instructions that shorter ones stand for.

use fox32asm::assembler::assemble;
use fox32asm::ast::{
    AstNode, Condition, InstructionIncDec, InstructionTwo, OperationIncDec, OperationTwo, Size,
};
use fox32asm::optimize::{node_value, optimize_node};
use fox32asm::program::parse;

fn raw(source: &str) -> Vec<u8> {
    assemble(parse(source).unwrap(), false).unwrap()
}

fn two(instruction: InstructionTwo, size: Size, rhs: AstNode) -> AstNode {
    AstNode::OperationTwo(OperationTwo {
        size,
        condition: Condition::Zero,
        instruction,
        lhs: Box::new(AstNode::Register(4)),
        rhs: Box::new(rhs),
    })
}

#[test]
fn switches_turn_optimization_on_and_off() {
    let source = "add r0, 1 opton add r0, 1 optoff add r0, 1";
    assert_eq!(raw(source), vec![
        0x02, 0x81, 1, 0, 0, 0, 0,
        0x00, 0x91, 0,
        0x02, 0x81, 1, 0, 0, 0, 0,
    ]);
    let mut enabled = false;
    assert_eq!(optimize_node(AstNode::Optimize(true), &mut enabled), AstNode::Optimize(true));
    assert!(enabled);
    assert_eq!(optimize_node(AstNode::Optimize(false), &mut enabled), AstNode::Optimize(false));
    assert!(!enabled);
}

#[test]
fn small_additions_become_increments() {
    for (value, step) in [(1, 0), (2, 1), (4, 2), (8, 3)] {
        let mut enabled = true;
        let node = two(InstructionTwo::Add, Size::Half, AstNode::Immediate16(value));
        assert_eq!(
            optimize_node(node, &mut enabled),
            AstNode::OperationIncDec(OperationIncDec {
                size: Size::Half,
                condition: Condition::Zero,
                instruction: InstructionIncDec::Inc,
                lhs: Box::new(AstNode::Register(4)),
                rhs: Box::new(AstNode::Immediate8(step)),
            })
        );
    }
    assert_eq!(raw("opton add r0, 16"), vec![0x02, 0x81, 16, 0, 0, 0, 0]);
    assert_eq!(raw("opton add r0, 3"), vec![0x02, 0x81, 3, 0, 0, 0, 0]);
    assert_eq!(raw("opton add r0, 0"), vec![0x02, 0x81, 0, 0, 0, 0, 0]);
}

#[test]
fn small_subtractions_become_decrements() {
    assert_eq!(raw("opton sub.8 r0, 8"), vec![0x0C, 0x31, 0]);
    assert_eq!(raw("opton ifc sub [r1+2], 2"), vec![0xB5, 0xB1, 1, 2]);
}

#[test]
fn small_words_are_moved_with_zero_extension() {
    assert_eq!(raw("opton mov r1, 0xFF"), vec![0x02, 0x27, 0xFF, 1]);
    assert_eq!(raw("opton mov r1, 0x100"), vec![0x02, 0x67, 0x00, 0x01, 1]);
    assert_eq!(raw("opton mov r1, 0xFFFF"), vec![0x02, 0x67, 0xFF, 0xFF, 1]);
    assert_eq!(raw("opton mov r1, 0x10000"), vec![0x02, 0x97, 0, 0, 1, 0, 1]);
    assert_eq!(raw("opton mov.16 r1, 1"), vec![0x02, 0x57, 1, 0, 1]);
    assert_eq!(raw("opton mov [r1], 1"), vec![0x06, 0x97, 1, 0, 0, 0, 1]);
}

#[test]
fn powers_of_two_become_shifts() {
    assert_eq!(raw("opton mul r1, 8"), vec![0x02, 0x84, 3, 1]);
    assert_eq!(raw("opton div r1, 0x80000000"), vec![0x02, 0x95, 31, 1]);
    assert_eq!(raw("opton idiv r1, 1"), vec![0x02, 0x85, 0, 1]);
    assert_eq!(raw("opton mul r1, 6"), vec![0x02, 0x82, 6, 0, 0, 0, 1]);
    assert_eq!(raw("opton mul r1, 0"), vec![0x02, 0x82, 0, 0, 0, 0, 1]);
    assert_eq!(raw("opton mul.8 r1, 8"), vec![0x02, 0x02, 8, 1]);
    assert_eq!(raw("opton imul r1, 8"), vec![0x02, 0x94, 8, 0, 0, 0, 1]);
}

#[test]
fn labels_are_not_optimized() {
    assert_eq!(raw("opton const ONE: 1 add r0, ONE"), vec![0x02, 0x81, 1, 0, 0, 0, 0]);
}

#[test]
fn optimizing_twice_changes_nothing_more() {
    for instruction in [
        InstructionTwo::Add,
        InstructionTwo::Sub,
        InstructionTwo::Mov,
        InstructionTwo::Mul,
        InstructionTwo::Div,
        InstructionTwo::Idiv,
    ] {
        for value in [0, 1, 2, 3, 8, 16, 255, 256, 65536] {
            let mut enabled = true;
            let node = two(instruction, Size::Word, AstNode::Immediate32(value));
            let once = optimize_node(node, &mut enabled);
            let node = two(instruction, Size::Word, AstNode::Immediate32(value));
            let first = optimize_node(node, &mut enabled);
            let twice = optimize_node(first, &mut enabled);
            assert_eq!(once, twice);
        }
    }
}

#[test]
fn optimized_programs_are_not_longer() {
    let source = "add r0, 4 mov r1, 9 mul r2, 64 sub [r3+1], 1 push 7";
    let optimized = format!("opton {}", source);
    assert!(raw(&optimized).len() < raw(source).len());
    assert_eq!(raw(&optimized).len(), 3 + 4 + 4 + 4 + 6);
}

#[test]
fn values_of_immediate_operands() {
    assert_eq!(node_value(&AstNode::Immediate8(7)), Some(7));
    assert_eq!(node_value(&AstNode::Immediate16(700)), Some(700));
    assert_eq!(node_value(&AstNode::Immediate32(70000)), Some(70000));
    assert_eq!(node_value(&AstNode::Register(7)), None);
    assert_eq!(node_value(&AstNode::ImmediatePointer(7)), None);
}
