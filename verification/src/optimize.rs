//! Replacing instructions by shorter ones.

use crate::ast::{
    AstNode, IncDecView, InstructionIncDec, InstructionTwo, NodeView, OperationIncDec,
    OperationTwo, Size, TwoView,
};
use vstd::arithmetic::power2::*;
use vstd::prelude::*;

verus! {

/// The value of an immediate operand.
pub open spec fn immediate_value(node: NodeView) -> Option<u32> {
    match node {
        NodeView::Immediate8(n) => Some(n as u32),
        NodeView::Immediate16(n) => Some(n as u32),
        NodeView::Immediate32(n) => Some(n),
        _ => None,
    }
}

/// The number `k` for which `v` is 2 to the power of `k`, where there is one.
pub open spec fn exact_log2(v: nat) -> Option<nat>
    decreases v,
{
    if v == 0 {
        None
    } else if v == 1 {
        Some(0)
    } else if v % 2 == 0 {
        match exact_log2(v / 2) {
            Some(k) => Some(k + 1),
            None => None,
        }
    } else {
        None
    }
}

/// The encoded step of an increment or decrement by `v`: steps of 1, 2, 4 and 8 are
/// possible.
pub open spec fn incdec_step(v: u32) -> Option<u8> {
    match exact_log2(v as nat) {
        Some(k) => if k <= 3 {
            Some(k as u8)
        } else {
            None
        },
        None => None,
    }
}

/// An increment or decrement in place of an addition or subtraction of `v`.
pub open spec fn as_incdec(op: TwoView, instruction: InstructionIncDec, v: u32) -> NodeView {
    match incdec_step(v) {
        Some(step) => NodeView::OperationIncDec(
            IncDecView {
                size: op.size,
                condition: op.condition,
                instruction,
                lhs: op.lhs,
                rhs: Box::new(NodeView::Immediate8(step)),
            },
        ),
        None => NodeView::OperationTwo(op),
    }
}

/// A shift in place of a multiplication with, or division by, `v`.
pub open spec fn as_shift(op: TwoView, instruction: InstructionTwo, v: u32) -> NodeView {
    match exact_log2(v as nat) {
        Some(k) => if op.size == Size::Word {
            NodeView::OperationTwo(
                TwoView { instruction, rhs: Box::new(NodeView::Immediate8(k as u8)), ..op },
            )
        } else {
            NodeView::OperationTwo(op)
        },
        None => NodeView::OperationTwo(op),
    }
}

/// A move with zero extension in place of a move of the word `v` to a register.
pub open spec fn as_zero_extension(op: TwoView, v: u32) -> NodeView {
    if op.size == Size::Word && *op.lhs is Register && v <= 0xff {
        NodeView::OperationTwo(
            TwoView {
                size: Size::Byte,
                instruction: InstructionTwo::Movz,
                rhs: Box::new(NodeView::Immediate8(v as u8)),
                ..op
            },
        )
    } else if op.size == Size::Word && *op.lhs is Register && v <= 0xffff {
        NodeView::OperationTwo(
            TwoView {
                size: Size::Half,
                instruction: InstructionTwo::Movz,
                rhs: Box::new(NodeView::Immediate16(v as u16)),
                ..op
            },
        )
    } else {
        NodeView::OperationTwo(op)
    }
}

/// The instruction that stands for `node` while optimizing.
pub open spec fn optimized(node: NodeView) -> NodeView {
    match node {
        NodeView::OperationTwo(op) => match immediate_value(*op.rhs) {
            Some(v) => match op.instruction {
                InstructionTwo::Add => as_incdec(op, InstructionIncDec::Inc, v),
                InstructionTwo::Sub => as_incdec(op, InstructionIncDec::Dec, v),
                InstructionTwo::Mov => as_zero_extension(op, v),
                InstructionTwo::Mul => as_shift(op, InstructionTwo::Sla, v),
                InstructionTwo::Idiv => as_shift(op, InstructionTwo::Sra, v),
                InstructionTwo::Div => as_shift(op, InstructionTwo::Srl, v),
                _ => node,
            },
            None => node,
        },
        _ => node,
    }
}

/// Whether optimization is on after `node`.
pub open spec fn optimizing_after(node: NodeView, enabled: bool) -> bool {
    match node {
        NodeView::Optimize(value) => value,
        _ => enabled,
    }
}

/// The value of an immediate operand.
pub fn node_value(node: &AstNode) -> (value: Option<u32>)
    ensures
        value == immediate_value(node@),
{
    match node {
        AstNode::Immediate16(n) => Some(*n as u32),
        AstNode::Immediate32(n) => Some(*n),
        AstNode::Immediate8(n) => Some(*n as u32),
        _ => None,
    }
}

/// [`exact_log2`] is the inverse of raising 2 to a power.
pub proof fn law_exact_log2(v: nat, k: nat)
    ensures
        exact_log2(v) == Some(k) <==> v == pow2(k),
    decreases v,
{
    broadcast use lemma_pow2_pos;

    lemma2_to64();
    if v > 1 && v % 2 == 0 {
        if k == 0 {
            assert(exact_log2(v) != Some(0nat));
        } else {
            law_exact_log2(v / 2, (k - 1) as nat);
            lemma_pow2_unfold(k);
            assert(exact_log2(v) == Some(k) <==> exact_log2(v / 2) == Some((k - 1) as nat));
        }
    } else if v > 1 {
        if k > 0 {
            lemma_pow2_unfold(k);
        }
    } else if v == 1 {
        if k > 0 {
            lemma_pow2_unfold(k);
        }
    }
}

/// The exponent of a power of two in a word.
pub proof fn lemma_exponent_of_word(v: u32, k: nat)
    requires
        exact_log2(v as nat) == Some(k),
    ensures
        k < 32,
{
    law_exact_log2(v as nat, k);
    lemma2_to64();
    if k > 32 {
        lemma_pow2_strictly_increases(32, k);
    }
}

/// The number `k` for which `v` is 2 to the power of `k`, where there is one.
fn power_of_two_exponent(v: u32) -> (exponent: Option<u8>)
    ensures
        match exponent {
            Some(k) => exact_log2(v as nat) == Some(k as nat),
            None => exact_log2(v as nat) is None,
        },
    decreases v,
{
    if v == 0 {
        None
    } else if v == 1 {
        Some(0)
    } else if v % 2 == 0 {
        match power_of_two_exponent(v / 2) {
            Some(k) => {
                proof {
                    lemma_exponent_of_word(v / 2, k as nat);
                }
                Some(k + 1)
            },
            None => None,
        }
    } else {
        None
    }
}

fn is_register(node: &AstNode) -> (answer: bool)
    ensures
        answer == (node@ is Register),
{
    match node {
        AstNode::Register(_) => true,
        _ => false,
    }
}

fn boxed_byte(n: u8) -> (node: Box<AstNode>)
    ensures
        node@ == NodeView::Immediate8(n),
{
    Box::new(AstNode::Immediate8(n))
}

fn boxed_half(n: u16) -> (node: Box<AstNode>)
    ensures
        node@ == NodeView::Immediate16(n),
{
    Box::new(AstNode::Immediate16(n))
}

fn to_incdec(op: OperationTwo, instruction: InstructionIncDec, v: u32) -> (node: AstNode)
    ensures
        AstNode::OperationTwo(op)@ matches NodeView::OperationTwo(view) && node@ == as_incdec(
            view,
            instruction,
            v,
        ),
{
    match power_of_two_exponent(v) {
        Some(step) if step <= 3 => AstNode::OperationIncDec(
            OperationIncDec {
                size: op.size,
                condition: op.condition,
                instruction,
                lhs: op.lhs,
                rhs: boxed_byte(step),
            },
        ),
        _ => AstNode::OperationTwo(op),
    }
}

fn to_shift(op: OperationTwo, instruction: InstructionTwo, v: u32) -> (node: AstNode)
    ensures
        AstNode::OperationTwo(op)@ matches NodeView::OperationTwo(view) && node@ == as_shift(
            view,
            instruction,
            v,
        ),
{
    if op.size == Size::Word {
        if let Some(shift) = power_of_two_exponent(v) {
            return AstNode::OperationTwo(
                OperationTwo {
                    size: op.size,
                    condition: op.condition,
                    instruction,
                    lhs: op.lhs,
                    rhs: boxed_byte(shift),
                },
            );
        }
    }
    AstNode::OperationTwo(op)
}

fn to_zero_extension(op: OperationTwo, v: u32) -> (node: AstNode)
    ensures
        AstNode::OperationTwo(op)@ matches NodeView::OperationTwo(view) && node@
            == as_zero_extension(view, v),
{
    if op.size == Size::Word && is_register(&op.lhs) {
        if v <= 0xff {
            return AstNode::OperationTwo(
                OperationTwo {
                    size: Size::Byte,
                    condition: op.condition,
                    instruction: InstructionTwo::Movz,
                    lhs: op.lhs,
                    rhs: boxed_byte(v as u8),
                },
            );
        } else if v <= 0xffff {
            return AstNode::OperationTwo(
                OperationTwo {
                    size: Size::Half,
                    condition: op.condition,
                    instruction: InstructionTwo::Movz,
                    lhs: op.lhs,
                    rhs: boxed_half(v as u16),
                },
            );
        }
    }
    AstNode::OperationTwo(op)
}

/// Notes whether optimization is switched on or off, and while it is on replaces an
/// instruction by a shorter one.
pub fn optimize_node(node: AstNode, enabled: &mut bool) -> (result: AstNode)
    ensures
        *final(enabled) == optimizing_after(node@, *old(enabled)),
        result@ == if *final(enabled) {
            optimized(node@)
        } else {
            node@
        },
{
    if let AstNode::Optimize(value) = &node {
        *enabled = *value;
    }
    if !*enabled {
        return node;
    }
    match node {
        AstNode::OperationTwo(op) => match node_value(&op.rhs) {
            Some(v) => match op.instruction {
                InstructionTwo::Add => to_incdec(op, InstructionIncDec::Inc, v),
                InstructionTwo::Sub => to_incdec(op, InstructionIncDec::Dec, v),
                InstructionTwo::Mov => to_zero_extension(op, v),
                InstructionTwo::Mul => to_shift(op, InstructionTwo::Sla, v),
                InstructionTwo::Idiv => to_shift(op, InstructionTwo::Sra, v),
                InstructionTwo::Div => to_shift(op, InstructionTwo::Srl, v),
                _ => AstNode::OperationTwo(op),
            },
            None => AstNode::OperationTwo(op),
        },
        other => other,
    }
}

/// Optimizing an instruction twice changes nothing more.
pub proof fn law_optimizing_is_idempotent(node: NodeView)
    ensures
        optimized(optimized(node)) == optimized(node),
{
}

/// What optimization keeps: the condition of an instruction and its destination.
pub proof fn law_optimizing_keeps_destination(node: NodeView)
    requires
        node is OperationTwo,
    ensures
        match optimized(node) {
            NodeView::OperationTwo(op) => {
                &&& op.lhs == node->OperationTwo_0.lhs
                &&& op.condition == node->OperationTwo_0.condition
            },
            NodeView::OperationIncDec(op) => {
                &&& op.lhs == node->OperationTwo_0.lhs
                &&& op.condition == node->OperationTwo_0.condition
                &&& op.size == node->OperationTwo_0.size
            },
            _ => false,
        },
{
}

/// The shift that stands for a multiplication with, or a division by, a power of two.
pub open spec fn shift_of(instruction: InstructionTwo) -> Option<InstructionTwo> {
    match instruction {
        InstructionTwo::Mul => Some(InstructionTwo::Sla),
        InstructionTwo::Idiv => Some(InstructionTwo::Sra),
        InstructionTwo::Div => Some(InstructionTwo::Srl),
        _ => None,
    }
}

/// An optimized instruction works with the value that the instruction had before: an
/// increment or decrement moves by the same amount, a shift is by the exponent of the
/// same power of two, and a zero-extended value is the same word.
pub proof fn law_optimizing_keeps_the_value(node: NodeView, v: u32)
    requires
        node is OperationTwo,
        immediate_value(*node->OperationTwo_0.rhs) == Some(v),
        optimized(node) != node,
    ensures
        ({
            let before = node->OperationTwo_0;
            match optimized(node) {
                NodeView::OperationIncDec(op) => {
                    &&& *op.rhs matches NodeView::Immediate8(step) && v == pow2(step as nat)
                    &&& op.instruction == InstructionIncDec::Inc <==> before.instruction
                        == InstructionTwo::Add
                    &&& op.instruction == InstructionIncDec::Dec <==> before.instruction
                        == InstructionTwo::Sub
                },
                NodeView::OperationTwo(op) => {
                    ||| op.instruction == InstructionTwo::Movz && before.instruction
                        == InstructionTwo::Mov && immediate_value(*op.rhs) == Some(v)
                    ||| {
                        &&& *op.rhs matches NodeView::Immediate8(shift)
                        &&& v == pow2(shift as nat)
                        &&& op.size == before.size
                        &&& shift_of(before.instruction) == Some(op.instruction)
                    }
                },
                _ => false,
            }
        }),
{
    if let Some(k) = exact_log2(v as nat) {
        law_exact_log2(v as nat, k);
        lemma_exponent_of_word(v, k);
    }
}

} // verus!
