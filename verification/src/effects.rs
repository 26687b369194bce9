//! What instructions do to their destination, and that optimizing does not change it.

use crate::ast::{InstructionIncDec, InstructionTwo, NodeView, Size};
use crate::optimize;
use vstd::arithmetic::power2::*;
use vstd::prelude::*;

verus! {

/// The number of values of the given size.
pub open spec fn range(size: Size) -> int {
    match size {
        Size::Byte => 0x100,
        Size::Half => 0x1_0000,
        Size::Word => 0x1_0000_0000,
    }
}

/// A destination of 32 bits after a value of the given size has been written to it: the
/// bits above that size stay as they are.
#[verifier::opaque]
pub open spec fn written(old_value: int, value: int, size: Size) -> int {
    old_value - old_value % range(size) + value % range(size)
}

/// A number of 32 bits as a signed one.
pub open spec fn signed(value: int) -> int {
    if value < 0x8000_0000 {
        value
    } else {
        value - 0x1_0000_0000
    }
}

/// Division that rounds towards zero.
pub open spec fn truncated_quotient(a: int, b: int) -> int {
    if a >= 0 && b > 0 {
        a / b
    } else if a >= 0 {
        -(a / -b)
    } else if b > 0 {
        -(-a / b)
    } else {
        -a / -b
    }
}

/// What an instruction with an immediate value on its right leaves in its destination of
/// 32 bits. Given are the instructions that the optimizer knows.
pub open spec fn effect(node: NodeView, old_value: int) -> Option<int> {
    match node {
        NodeView::OperationTwo(op) => match right_value(node) {
            Some(v) => two_effect(op.instruction, op.size, old_value, v as int),
            None => None,
        },
        NodeView::OperationIncDec(op) => match *op.rhs {
            NodeView::Immediate8(step) => match op.instruction {
                InstructionIncDec::Inc => Some(
                    written(old_value, old_value + pow2(step as nat), op.size),
                ),
                InstructionIncDec::Dec => Some(
                    written(old_value, old_value - pow2(step as nat), op.size),
                ),
            },
            _ => None,
        },
        _ => None,
    }
}

/// What an instruction with two operands leaves in its destination.
pub open spec fn two_effect(
    instruction: InstructionTwo,
    size: Size,
    old_value: int,
    v: int,
) -> Option<int> {
    let low = old_value % range(size);
    match instruction {
        InstructionTwo::Add => Some(written(old_value, old_value + v, size)),
        InstructionTwo::Sub => Some(written(old_value, old_value - v, size)),
        InstructionTwo::Mov => Some(written(old_value, v, size)),
        InstructionTwo::Movz => Some(v % range(size)),
        InstructionTwo::Mul => Some(written(old_value, old_value * v, size)),
        InstructionTwo::Sla => Some(written(old_value, old_value * pow2(v as nat), size)),
        InstructionTwo::Div => if v == 0 {
            None
        } else {
            Some(written(old_value, low / v, size))
        },
        InstructionTwo::Srl => Some(written(old_value, low / pow2(v as nat) as int, size)),
        InstructionTwo::Idiv => if size is Word && v != 0 {
            Some(written(old_value, truncated_quotient(signed(low), signed(v)), size))
        } else {
            None
        },
        InstructionTwo::Sra => if size is Word {
            Some(written(old_value, signed(low) / pow2(v as nat) as int, size))
        } else {
            None
        },
        _ => None,
    }
}

/// The value on the right of an instruction with two operands.
pub open spec fn right_value(node: NodeView) -> Option<u32> {
    match node {
        NodeView::OperationTwo(op) => match *op.rhs {
            NodeView::Immediate8(n) => Some(n as u32),
            NodeView::Immediate16(n) => Some(n as u32),
            NodeView::Immediate32(n) => Some(n),
            _ => None,
        },
        _ => None,
    }
}

/// Optimizing an instruction does not change what it leaves in its destination, in all 32
/// bits of it. A signed division is left out, for which see
/// [`law_optimized_signed_division`].
pub proof fn law_optimizing_keeps_the_effect(node: NodeView, old_value: u32)
    requires
        !(node matches NodeView::OperationTwo(op) && op.instruction is Idiv),
    ensures
        effect(optimize::optimized(node), old_value as int) == effect(node, old_value as int),
{
    if let NodeView::OperationTwo(op) = node {
        if let Some(v) = right_value(node) {
            if let Some(k) = optimize::exact_log2(v as nat) {
                optimize::law_exact_log2(v as nat, k);
                optimize::lemma_exponent_of_word(v, k);
            }
            match op.instruction {
                InstructionTwo::Mov => {
                    assert(written(old_value as int, v as int, Size::Word) == v) by {
                        reveal(written);
                    }
                },
                _ => {},
            }
        }
    }
}

/// A signed division by a power of two is a shift of the sign: the result is the same
/// for a dividend that is not negative, and for one that is divisible where the divisor
/// is positive.
pub proof fn law_optimized_signed_division(node: NodeView, old_value: u32)
    requires
        node matches NodeView::OperationTwo(op) && op.instruction is Idiv,
        right_value(node) matches Some(v) && (signed(old_value as int) >= 0 || (v > 0 && v
            < 0x8000_0000 && signed(old_value as int) % (v as int) == 0)),
    ensures
        effect(optimize::optimized(node), old_value as int) == effect(node, old_value as int),
{
    let v = right_value(node)->0;
    if let Some(k) = optimize::exact_log2(v as nat) {
        optimize::law_exact_log2(v as nat, k);
        optimize::lemma_exponent_of_word(v, k);
        let a = signed(old_value as int);
        let d = v as int;
        assert(old_value as int % range(Size::Word) == old_value);
        if v == 0x8000_0000 {
            assert(signed(d) == -0x8000_0000);
            assert(a / 0x8000_0000 == 0);
        } else {
            lemma_word_is_positive(v, k);
            if a < 0 {
                assert(a / d == -(-a / d)) by (nonlinear_arith)
                    requires
                        d > 0,
                        a % d == 0,
                ;
            }
        }
        assert(truncated_quotient(a, signed(d)) == a / d);
    }
}

proof fn lemma_word_is_positive(v: u32, k: nat)
    requires
        v == pow2(k),
        k < 32,
        v != 0x8000_0000,
    ensures
        v < 0x8000_0000,
{
    lemma2_to64();
    if k < 31 {
        lemma_pow2_strictly_increases(k, 31);
    }
}

/// Which instructions are replaced by optimizing, and by which: an addition or
/// subtraction of 1, 2, 4 or 8; a move of a word of at most 16 bits to a register; a
/// multiplication or division of words by a power of two. All others stay as they are.
pub proof fn law_which_instructions_are_optimized(node: NodeView)
    ensures
        !(node is OperationTwo) || right_value(node) is None ==> optimize::optimized(node) == node,
        node matches NodeView::OperationTwo(op) ==> (right_value(node) matches Some(v) ==> {
            let small = v == 1 || v == 2 || v == 4 || v == 8;
            let word = op.size is Word;
            let power = exists|k: nat| v == #[trigger] pow2(k);
            match optimize::optimized(node) {
                NodeView::OperationIncDec(short) => {
                    &&& small
                    &&& short.instruction is Inc && op.instruction is Add || (
                    short.instruction is Dec && op.instruction is Sub)
                    &&& short.size == op.size && short.condition == op.condition && short.lhs
                        == op.lhs
                    &&& *short.rhs is Immediate8
                },
                NodeView::OperationTwo(short) => {
                    &&& short.condition == op.condition && short.lhs == op.lhs
                    &&& !(small && (op.instruction is Add || op.instruction is Sub))
                    &&& match op.instruction {
                        InstructionTwo::Mov => if word && *op.lhs is Register && v <= 0xffff {
                            &&& short.instruction is Movz
                            &&& short.size == (if v <= 0xff {
                                Size::Byte
                            } else {
                                Size::Half
                            })
                        } else {
                            optimize::optimized(node) == node
                        },
                        InstructionTwo::Mul => if word && power {
                            short.instruction is Sla && short.size is Word && *short.rhs is Immediate8
                        } else {
                            optimize::optimized(node) == node
                        },
                        InstructionTwo::Div => if word && power {
                            short.instruction is Srl && short.size is Word && *short.rhs is Immediate8
                        } else {
                            optimize::optimized(node) == node
                        },
                        InstructionTwo::Idiv => if word && power {
                            short.instruction is Sra && short.size is Word && *short.rhs is Immediate8
                        } else {
                            optimize::optimized(node) == node
                        },
                        _ => optimize::optimized(node) == node,
                    }
                },
                _ => false,
            }
        }),
{
    if let Some(v) = right_value(node) {
        lemma2_to64();
        optimize::law_exact_log2(v as nat, 0);
        optimize::law_exact_log2(v as nat, 1);
        optimize::law_exact_log2(v as nat, 2);
        optimize::law_exact_log2(v as nat, 3);
        match optimize::exact_log2(v as nat) {
            Some(k) => {
                optimize::law_exact_log2(v as nat, k);
            },
            None => {
                assert forall|k: nat| v != #[trigger] pow2(k) by {
                    optimize::law_exact_log2(v as nat, k);
                }
            },
        }
    }
}

} // verus!
