//! What the bytes of an encoded instruction say of it.

use crate::ast::{Condition, NodeView, Size, TwoView};
use crate::{builder, bytes, emit, encode, optimize};
use vstd::prelude::*;

verus! {

/// Whether two nodes are the same instruction, whatever their operands.
pub open spec fn same_instruction(a: NodeView, b: NodeView) -> bool {
    match (a, b) {
        (NodeView::OperationZero(x), NodeView::OperationZero(y)) => x.instruction
            == y.instruction,
        (NodeView::OperationOne(x), NodeView::OperationOne(y)) => x.instruction == y.instruction,
        (NodeView::OperationIncDec(x), NodeView::OperationIncDec(y)) => x.instruction
            == y.instruction,
        (NodeView::OperationTwo(x), NodeView::OperationTwo(y)) => x.instruction == y.instruction,
        _ => false,
    }
}

/// Different instructions have different operation codes, of six bits.
pub proof fn law_operation_codes_are_distinct(a: NodeView, b: NodeView)
    requires
        encode::is_operation(a),
        encode::is_operation(b),
    ensures
        encode::opcode(a) < 0x40,
        encode::opcode(a) == encode::opcode(b) <==> same_instruction(a, b),
{
}

/// The instruction and its size can be told from the instruction byte.
pub proof fn law_instruction_byte_decodes(a: NodeView, b: NodeView)
    requires
        encode::is_operation(a),
        encode::is_operation(b),
    ensures
        encode::instruction_byte(a) & 0x3F == encode::opcode(a),
        encode::instruction_byte(a) & 0xC0 == encode::size_bits(encode::operation_size(a)),
        encode::instruction_byte(a) == encode::instruction_byte(b) <==> same_instruction(a, b)
            && encode::operation_size(a) == encode::operation_size(b),
{
    law_operation_codes_are_distinct(a, b);
    law_operation_codes_are_distinct(b, a);
    lemma_instruction_byte(encode::opcode(a), encode::size_bits(encode::operation_size(a)));
    lemma_instruction_byte(encode::opcode(b), encode::size_bits(encode::operation_size(b)));
}

proof fn lemma_instruction_byte(code: u8, size: u8)
    requires
        code < 0x40,
        size == 0x00 || size == 0x40 || size == 0x80,
    ensures
        (code | size) & 0x3F == code,
        (code | size) & 0xC0 == size,
{
    assert((code | size) & 0x3F == code && (code | size) & 0xC0 == size) by (bit_vector)
        requires
            code < 0x40,
            size == 0x00 || size == 0x40 || size == 0x80,
    ;
}

/// The operand that is read, where there is one.
pub open spec fn source(node: NodeView) -> Option<NodeView> {
    match node {
        NodeView::OperationOne(op) => Some(*op.operand),
        NodeView::OperationIncDec(op) => Some(*op.lhs),
        NodeView::OperationTwo(op) => Some(*op.rhs),
        _ => None,
    }
}

/// The operand that is written, where it is not also the one that is read.
pub open spec fn destination(node: NodeView) -> Option<NodeView> {
    match node {
        NodeView::OperationTwo(op) => Some(*op.lhs),
        _ => None,
    }
}

/// Whether an operand is memory at a register with an offset.
pub open spec fn is_offset_pointer(operand: Option<NodeView>) -> bool {
    match operand {
        Some(node) => node is RegisterPointerOffset,
        None => false,
    }
}

/// Whether the step of an increment or decrement is one of the four that there are.
pub open spec fn has_valid_step(node: NodeView) -> bool {
    match node {
        NodeView::OperationIncDec(op) => *op.rhs matches NodeView::Immediate8(step) && step <= 3,
        _ => true,
    }
}

/// The control byte holds the condition, the addressing modes of the operands or the
/// step of an increment or decrement, and whether pointers to registers have offsets.
pub proof fn law_control_byte_decodes(node: NodeView)
    requires
        encode::is_encodable(node),
        has_valid_step(node),
    ensures
        encode::control_byte(node) & 0x70 == encode::condition_bits(
            encode::operation_condition(node),
        ),
        source(node) matches Some(operand) ==> encode::control_byte(node) & 0x03
            == encode::addressing_mode(operand),
        destination(node) matches Some(operand) ==> (encode::control_byte(node) & 0x0C) >> 2
            == encode::addressing_mode(operand),
        node matches NodeView::OperationIncDec(op) ==> NodeView::Immediate8(
            (encode::control_byte(node) & 0x0C) >> 2,
        ) == *op.rhs,
        emit::has_offsets(node) <==> is_offset_pointer(source(node)) || is_offset_pointer(
            destination(node),
        ),
{
    let condition = encode::condition_bits(encode::operation_condition(node));
    let from = match source(node) {
        Some(operand) => encode::source_bits(operand),
        None => 0,
    };
    let to = match node {
        NodeView::OperationIncDec(op) => (*op.rhs)->Immediate8_0 << 2,
        NodeView::OperationTwo(op) => encode::destination_bits(*op.lhs),
        _ => 0,
    };
    if let NodeView::OperationIncDec(op) = node {
        lemma_step((*op.rhs)->Immediate8_0);
    }
    lemma_control_byte(condition, from, to);
    lemma_mode_of_source(from);
    lemma_mode_of_destination(to);
}

proof fn lemma_step(step: u8)
    requires
        step <= 3,
    ensures
        step << 2 == 4 * step,
{
    assert(step << 2 == 4 * step) by (bit_vector)
        requires
            step <= 3,
    ;
}

proof fn lemma_mode_of_source(from: u8)
    requires
        from <= 3 || from == 0x81,
    ensures
        from & 0x03 == if from == 0x81 {
            1
        } else {
            from
        },
        from & 0x80 == 0x80 <==> from == 0x81,
{
    assert((from <= 3 ==> from & 0x03 == from && from & 0x80 == 0) && 0x81u8 & 0x03 == 1 && 0x81u8
        & 0x80 == 0x80) by (bit_vector);
}

proof fn lemma_mode_of_destination(to: u8)
    requires
        to == 0 || to == 4 || to == 8 || to == 12 || to == 0x84,
    ensures
        (to & 0x0C) >> 2 == if to == 0x84 {
            1
        } else {
            to / 4
        },
        to & 0x80 == 0x80 <==> to == 0x84,
{
    assert((to & 0x0C) >> 2 == (if to == 0x84 {
        1u8
    } else {
        to / 4
    }) && (to & 0x80 == 0x80 <==> to == 0x84)) by (bit_vector)
        requires
            to == 0 || to == 4 || to == 8 || to == 12 || to == 0x84,
    ;
}

/// The fields of a control byte do not overlap.
proof fn lemma_control_byte(condition: u8, from: u8, to: u8)
    requires
        condition == 0x00 || condition == 0x10 || condition == 0x20 || condition == 0x30
            || condition == 0x40 || condition == 0x50 || condition == 0x60,
        from <= 3 || from == 0x81,
        to == 0 || to == 4 || to == 8 || to == 12 || to == 0x84,
    ensures
        (condition | from | to) & 0x70 == condition,
        (condition | from | to) & 0x03 == from & 0x03,
        (condition | from | to) & 0x0C == to & 0x0C,
        (condition | from | to) & 0x80 != 0 <==> from & 0x80 == 0x80 || to & 0x80 == 0x80,
{
    let byte = condition | from | to;
    assert(byte & 0x70 == condition && byte & 0x03 == from & 0x03 && byte & 0x0C == to & 0x0C && (
    byte & 0x80 != 0 <==> from & 0x80 == 0x80 || to & 0x80 == 0x80)) by (bit_vector)
        requires
            byte == condition | from | to,
            condition == 0x00 || condition == 0x10 || condition == 0x20 || condition == 0x30
                || condition == 0x40 || condition == 0x50 || condition == 0x60,
            from <= 3 || from == 0x81,
            to == 0 || to == 4 || to == 8 || to == 12 || to == 0x84,
    ;
}

/// Different conditions have different fields in the control byte.
pub proof fn law_conditions_are_distinct(a: Condition, b: Condition)
    ensures
        encode::condition_bits(a) == encode::condition_bits(b) <==> a == b,
{
}

/// Whether an operand holds no label and fits an instruction that takes immediate
/// values of the given size. Memory at a register without an offset is no offset of 0.
pub open spec fn is_plain_operand(operand: NodeView, size: Size) -> bool {
    match operand {
        NodeView::Register(_)
        | NodeView::RegisterPointer(_)
        | NodeView::ImmediatePointer(_) => true,
        NodeView::RegisterPointerOffset(_, offset) => offset != 0,
        NodeView::Immediate8(_) => size == Size::Byte,
        NodeView::Immediate16(_) => size == Size::Half,
        NodeView::Immediate32(_) => size == Size::Word,
        _ => false,
    }
}

/// The size of an immediate value on the right of an instruction with two operands: a
/// number of bits or of a bit is always a byte.
pub open spec fn right_size(op: TwoView) -> Size {
    if builder::counts_bits(op.instruction) {
        Size::Byte
    } else {
        op.size
    }
}

/// Whether a node is an instruction whose operands hold no label and fit its size.
pub open spec fn is_plain(node: NodeView) -> bool {
    match node {
        NodeView::OperationZero(_) => true,
        NodeView::OperationOne(op) => is_plain_operand(*op.operand, op.size),
        NodeView::OperationIncDec(op) => is_plain_operand(*op.lhs, op.size) && has_valid_step(node),
        NodeView::OperationTwo(op) => is_plain_operand(*op.lhs, op.size) && is_plain_operand(
            *op.rhs,
            right_size(op),
        ),
        _ => false,
    }
}

/// An operand can be told from the bytes that start with it, once its addressing mode
/// is known, and whether pointers have offsets.
proof fn lemma_operand_decodes(
    a: NodeView,
    b: NodeView,
    size: Size,
    offsets: bool,
    after_a: Seq<u8>,
    after_b: Seq<u8>,
)
    requires
        is_plain_operand(a, size),
        is_plain_operand(b, size),
        encode::addressing_mode(a) == encode::addressing_mode(b),
        a is RegisterPointerOffset ==> offsets,
        b is RegisterPointerOffset ==> offsets,
        emit::operand_bytes(a, offsets) + after_a == emit::operand_bytes(b, offsets) + after_b,
    ensures
        a == b,
        after_a == after_b,
{
    let x = emit::operand_bytes(a, offsets);
    let y = emit::operand_bytes(b, offsets);
    match (a, b) {
        (NodeView::Immediate16(m), NodeView::Immediate16(n)) => {
            bytes::law_half_reads_back(m);
            bytes::law_half_reads_back(n);
        },
        (NodeView::Immediate32(m), NodeView::Immediate32(n)) => {
            bytes::law_word_reads_back(m);
            bytes::law_word_reads_back(n);
        },
        (NodeView::ImmediatePointer(m), NodeView::ImmediatePointer(n)) => {
            bytes::law_word_reads_back(m);
            bytes::law_word_reads_back(n);
        },
        _ => {},
    }
    assert(x.len() == y.len());
    assert(x =~= (x + after_a).take(x.len() as int));
    assert(y =~= (y + after_b).take(y.len() as int));
    assert(after_a =~= (x + after_a).skip(x.len() as int));
    assert(after_b =~= (y + after_b).skip(y.len() as int));
    assert(x == y);
    match (a, b) {
        (NodeView::Register(m), NodeView::Register(n)) => {
            assert(x[0] == m && y[0] == n);
        },
        (NodeView::RegisterPointer(m), NodeView::RegisterPointer(n)) => {
            assert(x[0] == m && y[0] == n);
        },
        (NodeView::RegisterPointerOffset(m, p), NodeView::RegisterPointerOffset(n, q)) => {
            assert(x[0] == m && y[0] == n && x[1] == p && y[1] == q);
        },
        (NodeView::RegisterPointerOffset(_, p), NodeView::RegisterPointer(_)) => {
            assert(x[1] == p && y[1] == 0);
        },
        (NodeView::RegisterPointer(_), NodeView::RegisterPointerOffset(_, q)) => {
            assert(x[1] == 0 && y[1] == q);
        },
        (NodeView::Immediate8(m), NodeView::Immediate8(n)) => {
            assert(x[0] == m && y[0] == n);
        },
        _ => {},
    }
}

/// An instruction without labels can be told from its bytes: no two different ones are
/// encoded alike.
pub proof fn law_encoding_is_unambiguous(a: NodeView, b: NodeView)
    requires
        is_plain(a),
        is_plain(b),
        emit::statement_bytes(a) == emit::statement_bytes(b),
    ensures
        a == b,
{
    let x = emit::operation_bytes(a);
    let y = emit::operation_bytes(b);
    let offsets = emit::has_offsets(a);
    assert(x[0] == encode::control_byte(a) && y[0] == encode::control_byte(b));
    assert(x[1] == encode::instruction_byte(a) && y[1] == encode::instruction_byte(b));
    law_instruction_byte_decodes(a, b);
    law_control_byte_decodes(a);
    law_control_byte_decodes(b);
    law_conditions_are_distinct(encode::operation_condition(a), encode::operation_condition(b));
    let rest_a = emit::operands_bytes(emit::operands(a), offsets);
    let rest_b = emit::operands_bytes(emit::operands(b), offsets);
    assert(x.skip(2) =~= rest_a);
    assert(y.skip(2) =~= rest_b);
    match (a, b) {
        (NodeView::OperationOne(p), NodeView::OperationOne(q)) => {
            lemma_one_operand(*p.operand, offsets);
            lemma_one_operand(*q.operand, offsets);
            lemma_operand_decodes(*p.operand, *q.operand, p.size, offsets, seq![], seq![]);
        },
        (NodeView::OperationIncDec(p), NodeView::OperationIncDec(q)) => {
            lemma_one_operand(*p.lhs, offsets);
            lemma_one_operand(*q.lhs, offsets);
            lemma_operand_decodes(*p.lhs, *q.lhs, p.size, offsets, seq![], seq![]);
        },
        (NodeView::OperationTwo(p), NodeView::OperationTwo(q)) => {
            lemma_two_operands(*p.rhs, *p.lhs, offsets);
            lemma_two_operands(*q.rhs, *q.lhs, offsets);
            let left_a = emit::operand_bytes(*p.lhs, offsets);
            let left_b = emit::operand_bytes(*q.lhs, offsets);
            lemma_operand_decodes(*p.rhs, *q.rhs, right_size(p), offsets, left_a, left_b);
            assert(left_a + seq![] =~= left_a);
            assert(left_b + seq![] =~= left_b);
            lemma_operand_decodes(*p.lhs, *q.lhs, p.size, offsets, seq![], seq![]);
        },
        _ => {},
    }
}

/// The bytes of a single operand.
pub proof fn lemma_one_operand(operand: NodeView, offsets: bool)
    ensures
        emit::operands_bytes(seq![operand], offsets) == emit::operand_bytes(operand, offsets)
            + seq![],
{
    reveal_with_fuel(emit::operands_bytes, 2);
    assert(seq![operand].drop_last() =~= seq![]);
    assert(emit::operands_bytes(seq![operand], offsets) =~= emit::operand_bytes(operand, offsets)
        + seq![]);
}

/// The bytes of two operands.
pub proof fn lemma_two_operands(first: NodeView, second: NodeView, offsets: bool)
    ensures
        emit::operands_bytes(seq![first, second], offsets) == emit::operand_bytes(first, offsets)
            + emit::operand_bytes(second, offsets),
{
    lemma_one_operand(first, offsets);
    assert(seq![first, second].drop_last() =~= seq![first]);
    assert(emit::operands_bytes(seq![first, second], offsets) =~= emit::operand_bytes(
        first,
        offsets,
    ) + emit::operand_bytes(second, offsets));
}

/// Optimizing an instruction gives an instruction whose operands fit its size again.
pub proof fn law_optimizing_keeps_instructions_plain(node: NodeView)
    requires
        is_plain(node),
    ensures
        is_plain(optimize::optimized(node)),
{
    if let NodeView::OperationTwo(op) = node {
        if let Some(v) = optimize::immediate_value(*op.rhs) {
            assert(optimize::incdec_step(v) matches Some(step) ==> step <= 3);
        }
    }
}

/// Optimizing an instruction never makes its encoding longer, and keeps its condition.
pub proof fn law_optimizing_does_not_lengthen(node: NodeView)
    requires
        encode::is_encodable(node),
        has_valid_step(node),
    ensures
        encode::is_encodable(optimize::optimized(node)),
        emit::statement_bytes(optimize::optimized(node)).len() <= emit::statement_bytes(
            node,
        ).len(),
        encode::operation_condition(optimize::optimized(node)) == encode::operation_condition(node),
{
    let other = optimize::optimized(node);
    if let NodeView::OperationTwo(op) = node {
        if let Some(v) = optimize::immediate_value(*op.rhs) {
            assert(optimize::incdec_step(v) matches Some(step) ==> step <= 3);
            law_control_byte_decodes(node);
            law_control_byte_decodes(other);
            let offsets = emit::has_offsets(node);
            assert(emit::has_offsets(other) == offsets);
            lemma_two_operands(*op.rhs, *op.lhs, offsets);
            lemma_immediate_length(*op.rhs, offsets);
            match other {
                NodeView::OperationIncDec(short) => {
                    lemma_one_operand(*short.lhs, offsets);
                },
                NodeView::OperationTwo(short) => {
                    lemma_two_operands(*short.rhs, *short.lhs, offsets);
                    lemma_immediate_length(*short.rhs, offsets);
                },
                _ => {},
            }
        }
    }
}

proof fn lemma_immediate_length(operand: NodeView, offsets: bool)
    ensures
        emit::operand_bytes(operand, offsets).len() == match operand {
            NodeView::Immediate8(_) => 1,
            NodeView::Immediate16(_) => 2,
            NodeView::Immediate32(_) => 4,
            _ => emit::operand_bytes(operand, offsets).len(),
        },
{
    match operand {
        NodeView::Immediate16(n) => bytes::law_half_reads_back(n),
        NodeView::Immediate32(n) => bytes::law_word_reads_back(n),
        _ => {},
    }
}

} // verus!
