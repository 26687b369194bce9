//! The first two bytes of an encoded instruction: the control byte, with the condition
//! and the kinds of the operands, and the instruction byte, with the operation code and
//! the size.

use crate::ast::{
    AstNode, Condition, InstructionIncDec, InstructionOne, InstructionTwo, InstructionZero,
    NodeView, OperationIncDec, OperationOne, OperationTwo, OperationZero, Size,
};
use vstd::prelude::*;

verus! {

/// The size field of an instruction byte.
pub open spec fn size_bits(size: Size) -> u8 {
    match size {
        Size::Byte => 0x00,
        Size::Half => 0x40,
        Size::Word => 0x80,
    }
}

/// The operation code of an instruction without operands.
pub open spec fn zero_opcode(instruction: InstructionZero) -> u8 {
    match instruction {
        InstructionZero::Nop => 0x00,
        InstructionZero::Halt => 0x10,
        InstructionZero::Brk => 0x20,
        InstructionZero::Ret => 0x2A,
        InstructionZero::Reti => 0x3A,
        InstructionZero::Ise => 0x0C,
        InstructionZero::Icl => 0x1C,
        InstructionZero::Mse => 0x0D,
        InstructionZero::Mcl => 0x1D,
    }
}

/// The operation code of an instruction with one operand.
pub open spec fn one_opcode(instruction: InstructionOne) -> u8 {
    match instruction {
        InstructionOne::Not => 0x33,
        InstructionOne::Jmp => 0x08,
        InstructionOne::Call => 0x18,
        InstructionOne::Loop => 0x28,
        InstructionOne::Rjmp => 0x09,
        InstructionOne::Rcall => 0x19,
        InstructionOne::Rloop => 0x29,
        InstructionOne::Push => 0x0A,
        InstructionOne::Pop => 0x1A,
        InstructionOne::Int => 0x2C,
        InstructionOne::Tlb => 0x2D,
        InstructionOne::Flp => 0x3D,
    }
}

/// The operation code of an increment or decrement.
pub open spec fn incdec_opcode(instruction: InstructionIncDec) -> u8 {
    match instruction {
        InstructionIncDec::Inc => 0x11,
        InstructionIncDec::Dec => 0x31,
    }
}

/// The operation code of an instruction with two operands.
pub open spec fn two_opcode(instruction: InstructionTwo) -> u8 {
    match instruction {
        InstructionTwo::Add => 0x01,
        InstructionTwo::Sub => 0x21,
        InstructionTwo::Mul => 0x02,
        InstructionTwo::Imul => 0x14,
        InstructionTwo::Div => 0x22,
        InstructionTwo::Idiv => 0x34,
        InstructionTwo::Rem => 0x32,
        InstructionTwo::Irem => 0x35,
        InstructionTwo::And => 0x03,
        InstructionTwo::Or => 0x13,
        InstructionTwo::Xor => 0x23,
        InstructionTwo::Sla => 0x04,
        InstructionTwo::Sra => 0x05,
        InstructionTwo::Srl => 0x15,
        InstructionTwo::Rol => 0x24,
        InstructionTwo::Ror => 0x25,
        InstructionTwo::Bse => 0x06,
        InstructionTwo::Bcl => 0x16,
        InstructionTwo::Bts => 0x26,
        InstructionTwo::Cmp => 0x07,
        InstructionTwo::Mov => 0x17,
        InstructionTwo::Movz => 0x27,
        InstructionTwo::Rta => 0x39,
        InstructionTwo::In => 0x0B,
        InstructionTwo::Out => 0x1B,
    }
}

/// Whether a node is an instruction.
pub open spec fn is_operation(node: NodeView) -> bool {
    node is OperationZero || node is OperationOne || node is OperationIncDec || node is OperationTwo
}

/// The operation code of an instruction.
pub open spec fn opcode(node: NodeView) -> u8
    recommends
        is_operation(node),
{
    match node {
        NodeView::OperationZero(op) => zero_opcode(op.instruction),
        NodeView::OperationOne(op) => one_opcode(op.instruction),
        NodeView::OperationIncDec(op) => incdec_opcode(op.instruction),
        NodeView::OperationTwo(op) => two_opcode(op.instruction),
        _ => 0,
    }
}

/// The width of the values that an instruction works on.
pub open spec fn operation_size(node: NodeView) -> Size
    recommends
        is_operation(node),
{
    match node {
        NodeView::OperationZero(op) => op.size,
        NodeView::OperationOne(op) => op.size,
        NodeView::OperationIncDec(op) => op.size,
        NodeView::OperationTwo(op) => op.size,
        _ => Size::Word,
    }
}

/// The condition of an instruction.
pub open spec fn operation_condition(node: NodeView) -> Condition
    recommends
        is_operation(node),
{
    match node {
        NodeView::OperationZero(op) => op.condition,
        NodeView::OperationOne(op) => op.condition,
        NodeView::OperationIncDec(op) => op.condition,
        NodeView::OperationTwo(op) => op.condition,
        _ => Condition::Always,
    }
}

/// The second byte of an encoded instruction: operation code and size.
pub open spec fn instruction_byte(node: NodeView) -> u8 {
    opcode(node) | size_bits(operation_size(node))
}

/// The condition field of a control byte.
pub open spec fn condition_bits(condition: Condition) -> u8 {
    match condition {
        Condition::Always => 0x00,
        Condition::Zero => 0x10,
        Condition::NotZero => 0x20,
        Condition::Carry => 0x30,
        Condition::NotCarry => 0x40,
        Condition::GreaterThan => 0x50,
        Condition::LessThanEqualTo => 0x60,
    }
}

/// Whether a node can stand as an operand of an instruction.
pub open spec fn is_operand(node: NodeView) -> bool {
    match node {
        NodeView::Register(_)
        | NodeView::RegisterPointer(_)
        | NodeView::RegisterPointerOffset(_, _)
        | NodeView::Immediate8(_)
        | NodeView::Immediate16(_)
        | NodeView::Immediate32(_)
        | NodeView::ImmediatePointer(_)
        | NodeView::LabelOperand { .. }
        | NodeView::LabelOperandPointer { .. } => true,
        _ => false,
    }
}

/// The addressing mode of an operand: register, memory at a register, immediate,
/// or memory at an immediate address.
pub open spec fn addressing_mode(operand: NodeView) -> u8
    recommends
        is_operand(operand),
{
    match operand {
        NodeView::Register(_) => 0,
        NodeView::RegisterPointer(_) | NodeView::RegisterPointerOffset(_, _) => 1,
        NodeView::ImmediatePointer(_) | NodeView::LabelOperandPointer { .. } => 3,
        _ => 2,
    }
}

/// The source field of a control byte; the top bit says that pointers to registers
/// carry an offset.
pub open spec fn source_bits(operand: NodeView) -> u8 {
    if operand is RegisterPointerOffset {
        0x81
    } else {
        addressing_mode(operand)
    }
}

/// The destination field of a control byte, with the same top bit.
pub open spec fn destination_bits(operand: NodeView) -> u8 {
    if operand is RegisterPointerOffset {
        0x84
    } else {
        (addressing_mode(operand) * 4) as u8
    }
}

/// Whether a node is an instruction whose operands can be encoded.
pub open spec fn is_encodable(node: NodeView) -> bool {
    match node {
        NodeView::OperationZero(_) => true,
        NodeView::OperationOne(op) => is_operand(*op.operand),
        NodeView::OperationIncDec(op) => is_operand(*op.lhs) && *op.rhs is Immediate8,
        NodeView::OperationTwo(op) => is_operand(*op.lhs) && is_operand(*op.rhs),
        _ => false,
    }
}

/// The first byte of an encoded instruction.
pub open spec fn control_byte(node: NodeView) -> u8
    recommends
        is_encodable(node),
{
    let source = match node {
        NodeView::OperationOne(op) => source_bits(*op.operand),
        NodeView::OperationIncDec(op) => source_bits(*op.lhs),
        NodeView::OperationTwo(op) => source_bits(*op.rhs),
        _ => 0,
    };
    let destination = match node {
        NodeView::OperationIncDec(op) => (*op.rhs)->Immediate8_0 << 2,
        NodeView::OperationTwo(op) => destination_bits(*op.lhs),
        _ => 0,
    };
    condition_bits(operation_condition(node)) | source | destination
}

/// The size field of an instruction byte.
pub fn size_to_byte(size: Size) -> (bits: u8)
    ensures
        bits == size_bits(size),
{
    match size {
        Size::Byte => 0x00,
        Size::Half => 0x40,
        Size::Word => 0x80,
    }
}

/// The second byte of an encoded instruction: its operation code and its size.
pub fn instruction_to_byte(node: &AstNode) -> (byte: u8)
    requires
        is_operation(node@),
    ensures
        byte == instruction_byte(node@),
{
    match node {
        AstNode::OperationZero(OperationZero { size, instruction, .. }) => {
            match instruction {
                InstructionZero::Nop => 0x00 | size_to_byte(*size),
                InstructionZero::Halt => 0x10 | size_to_byte(*size),
                InstructionZero::Brk => 0x20 | size_to_byte(*size),
                InstructionZero::Ret => 0x2A | size_to_byte(*size),
                InstructionZero::Reti => 0x3A | size_to_byte(*size),
                InstructionZero::Ise => 0x0C | size_to_byte(*size),
                InstructionZero::Icl => 0x1C | size_to_byte(*size),
                InstructionZero::Mse => 0x0D | size_to_byte(*size),
                InstructionZero::Mcl => 0x1D | size_to_byte(*size),
            }
        },
        AstNode::OperationOne(OperationOne { size, instruction, .. }) => {
            match instruction {
                InstructionOne::Not => 0x33 | size_to_byte(*size),
                InstructionOne::Jmp => 0x08 | size_to_byte(*size),
                InstructionOne::Call => 0x18 | size_to_byte(*size),
                InstructionOne::Loop => 0x28 | size_to_byte(*size),
                InstructionOne::Rjmp => 0x09 | size_to_byte(*size),
                InstructionOne::Rcall => 0x19 | size_to_byte(*size),
                InstructionOne::Rloop => 0x29 | size_to_byte(*size),
                InstructionOne::Push => 0x0A | size_to_byte(*size),
                InstructionOne::Pop => 0x1A | size_to_byte(*size),
                InstructionOne::Int => 0x2C | size_to_byte(*size),
                InstructionOne::Tlb => 0x2D | size_to_byte(*size),
                InstructionOne::Flp => 0x3D | size_to_byte(*size),
            }
        },
        AstNode::OperationIncDec(OperationIncDec { size, instruction, .. }) => {
            match instruction {
                InstructionIncDec::Inc => 0x11 | size_to_byte(*size),
                InstructionIncDec::Dec => 0x31 | size_to_byte(*size),
            }
        },
        AstNode::OperationTwo(OperationTwo { size, instruction, .. }) => {
            match instruction {
                InstructionTwo::Add => 0x01 | size_to_byte(*size),
                InstructionTwo::Sub => 0x21 | size_to_byte(*size),
                InstructionTwo::Mul => 0x02 | size_to_byte(*size),
                InstructionTwo::Imul => 0x14 | size_to_byte(*size),
                InstructionTwo::Div => 0x22 | size_to_byte(*size),
                InstructionTwo::Idiv => 0x34 | size_to_byte(*size),
                InstructionTwo::Rem => 0x32 | size_to_byte(*size),
                InstructionTwo::Irem => 0x35 | size_to_byte(*size),
                InstructionTwo::And => 0x03 | size_to_byte(*size),
                InstructionTwo::Or => 0x13 | size_to_byte(*size),
                InstructionTwo::Xor => 0x23 | size_to_byte(*size),
                InstructionTwo::Sla => 0x04 | size_to_byte(*size),
                InstructionTwo::Sra => 0x05 | size_to_byte(*size),
                InstructionTwo::Srl => 0x15 | size_to_byte(*size),
                InstructionTwo::Rol => 0x24 | size_to_byte(*size),
                InstructionTwo::Ror => 0x25 | size_to_byte(*size),
                InstructionTwo::Bse => 0x06 | size_to_byte(*size),
                InstructionTwo::Bcl => 0x16 | size_to_byte(*size),
                InstructionTwo::Bts => 0x26 | size_to_byte(*size),
                InstructionTwo::Cmp => 0x07 | size_to_byte(*size),
                InstructionTwo::Mov => 0x17 | size_to_byte(*size),
                InstructionTwo::Movz => 0x27 | size_to_byte(*size),
                InstructionTwo::Rta => 0x39 | size_to_byte(*size),
                InstructionTwo::In => 0x0B | size_to_byte(*size),
                InstructionTwo::Out => 0x1B | size_to_byte(*size),
            }
        },
        _ => 0,
    }
}

/// The condition field of a control byte.
pub fn condition_to_bits(condition: &Condition) -> (bits: u8)
    ensures
        bits == condition_bits(*condition),
{
    match condition {
        Condition::Always => 0x00,
        Condition::Zero => 0x10,
        Condition::NotZero => 0x20,
        Condition::Carry => 0x30,
        Condition::NotCarry => 0x40,
        Condition::GreaterThan => 0x50,
        Condition::LessThanEqualTo => 0x60,
    }
}

/// The source field of a control byte.
fn source_to_bits(operand: &AstNode) -> (bits: u8)
    requires
        is_operand(operand@),
    ensures
        bits == source_bits(operand@),
{
    match operand {
        AstNode::Register(_) => 0x00,
        AstNode::RegisterPointer(_) => 0x01,
        AstNode::RegisterPointerOffset(_, _) => 0x81,
        AstNode::ImmediatePointer(_) | AstNode::LabelOperandPointer { .. } => 0x03,
        _ => 0x02,
    }
}

/// The destination field of a control byte.
fn destination_to_bits(operand: &AstNode) -> (bits: u8)
    requires
        is_operand(operand@),
    ensures
        bits == destination_bits(operand@),
{
    match operand {
        AstNode::Register(_) => 0x00,
        AstNode::RegisterPointer(_) => 0x04,
        AstNode::RegisterPointerOffset(_, _) => 0x84,
        AstNode::ImmediatePointer(_) | AstNode::LabelOperandPointer { .. } => 0x0C,
        _ => 0x08,
    }
}

/// The step field of an increment or decrement.
fn step_to_bits(amount: &AstNode) -> (bits: u8)
    requires
        amount@ is Immediate8,
    ensures
        bits == amount@->Immediate8_0 << 2,
{
    match amount {
        AstNode::Immediate8(n) => *n << 2,
        _ => 0,
    }
}

/// The first byte of an encoded instruction: condition, source and destination.
pub fn condition_source_destination_to_byte(node: &AstNode) -> (byte: u8)
    requires
        is_encodable(node@),
    ensures
        byte == control_byte(node@),
{
    let source: u8 = match node {
        AstNode::OperationOne(OperationOne { operand, .. }) => source_to_bits(operand),
        AstNode::OperationIncDec(OperationIncDec { lhs, .. }) => source_to_bits(lhs),
        AstNode::OperationTwo(OperationTwo { rhs, .. }) => source_to_bits(rhs),
        _ => 0x00,
    };
    let destination: u8 = match node {
        AstNode::OperationIncDec(OperationIncDec { rhs, .. }) => step_to_bits(rhs),
        AstNode::OperationTwo(OperationTwo { lhs, .. }) => destination_to_bits(lhs),
        _ => 0x00,
    };
    let condition: u8 = match node {
        AstNode::OperationZero(OperationZero { condition, .. }) => condition_to_bits(condition),
        AstNode::OperationOne(OperationOne { condition, .. }) => condition_to_bits(condition),
        AstNode::OperationIncDec(OperationIncDec { condition, .. }) => condition_to_bits(condition),
        AstNode::OperationTwo(OperationTwo { condition, .. }) => condition_to_bits(condition),
        _ => 0x00,
    };
    condition | source | destination
}

} // verus!
