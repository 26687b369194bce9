//! How the processor reads an instruction from memory, and that it reads what was
//! written in the program.

use crate::ast::{
    Condition, IncDecView, InstructionIncDec, InstructionOne, InstructionTwo, InstructionZero,
    NodeView, OneView, OperationZero, Size, TwoView,
};
use crate::{bytes, decoding, emit, encode};
use vstd::prelude::*;

verus! {

/// The instructions by the number of their operands.
pub enum Operation {
    Zero(InstructionZero),
    One(InstructionOne),
    IncDec(InstructionIncDec),
    Two(InstructionTwo),
}

/// The instruction with this operation code.
#[verifier::opaque]
pub open spec fn read_operation(code: int) -> Option<Operation> {
    if code == 0x00 {
        Some(Operation::Zero(InstructionZero::Nop))
    } else if code == 0x01 {
        Some(Operation::Two(InstructionTwo::Add))
    } else if code == 0x02 {
        Some(Operation::Two(InstructionTwo::Mul))
    } else if code == 0x03 {
        Some(Operation::Two(InstructionTwo::And))
    } else if code == 0x04 {
        Some(Operation::Two(InstructionTwo::Sla))
    } else if code == 0x05 {
        Some(Operation::Two(InstructionTwo::Sra))
    } else if code == 0x06 {
        Some(Operation::Two(InstructionTwo::Bse))
    } else if code == 0x07 {
        Some(Operation::Two(InstructionTwo::Cmp))
    } else if code == 0x08 {
        Some(Operation::One(InstructionOne::Jmp))
    } else if code == 0x09 {
        Some(Operation::One(InstructionOne::Rjmp))
    } else if code == 0x0A {
        Some(Operation::One(InstructionOne::Push))
    } else if code == 0x0B {
        Some(Operation::Two(InstructionTwo::In))
    } else if code == 0x0C {
        Some(Operation::Zero(InstructionZero::Ise))
    } else if code == 0x0D {
        Some(Operation::Zero(InstructionZero::Mse))
    } else if code == 0x10 {
        Some(Operation::Zero(InstructionZero::Halt))
    } else if code == 0x11 {
        Some(Operation::IncDec(InstructionIncDec::Inc))
    } else if code == 0x13 {
        Some(Operation::Two(InstructionTwo::Or))
    } else if code == 0x14 {
        Some(Operation::Two(InstructionTwo::Imul))
    } else if code == 0x15 {
        Some(Operation::Two(InstructionTwo::Srl))
    } else if code == 0x16 {
        Some(Operation::Two(InstructionTwo::Bcl))
    } else if code == 0x17 {
        Some(Operation::Two(InstructionTwo::Mov))
    } else if code == 0x18 {
        Some(Operation::One(InstructionOne::Call))
    } else if code == 0x19 {
        Some(Operation::One(InstructionOne::Rcall))
    } else if code == 0x1A {
        Some(Operation::One(InstructionOne::Pop))
    } else if code == 0x1B {
        Some(Operation::Two(InstructionTwo::Out))
    } else if code == 0x1C {
        Some(Operation::Zero(InstructionZero::Icl))
    } else if code == 0x1D {
        Some(Operation::Zero(InstructionZero::Mcl))
    } else if code == 0x20 {
        Some(Operation::Zero(InstructionZero::Brk))
    } else if code == 0x21 {
        Some(Operation::Two(InstructionTwo::Sub))
    } else if code == 0x22 {
        Some(Operation::Two(InstructionTwo::Div))
    } else if code == 0x23 {
        Some(Operation::Two(InstructionTwo::Xor))
    } else if code == 0x24 {
        Some(Operation::Two(InstructionTwo::Rol))
    } else if code == 0x25 {
        Some(Operation::Two(InstructionTwo::Ror))
    } else if code == 0x26 {
        Some(Operation::Two(InstructionTwo::Bts))
    } else if code == 0x27 {
        Some(Operation::Two(InstructionTwo::Movz))
    } else if code == 0x28 {
        Some(Operation::One(InstructionOne::Loop))
    } else if code == 0x29 {
        Some(Operation::One(InstructionOne::Rloop))
    } else if code == 0x2A {
        Some(Operation::Zero(InstructionZero::Ret))
    } else if code == 0x2C {
        Some(Operation::One(InstructionOne::Int))
    } else if code == 0x2D {
        Some(Operation::One(InstructionOne::Tlb))
    } else if code == 0x31 {
        Some(Operation::IncDec(InstructionIncDec::Dec))
    } else if code == 0x32 {
        Some(Operation::Two(InstructionTwo::Rem))
    } else if code == 0x33 {
        Some(Operation::One(InstructionOne::Not))
    } else if code == 0x34 {
        Some(Operation::Two(InstructionTwo::Idiv))
    } else if code == 0x35 {
        Some(Operation::Two(InstructionTwo::Irem))
    } else if code == 0x39 {
        Some(Operation::Two(InstructionTwo::Rta))
    } else if code == 0x3A {
        Some(Operation::Zero(InstructionZero::Reti))
    } else if code == 0x3D {
        Some(Operation::One(InstructionOne::Flp))
    } else {
        None
    }
}

/// The size in the top two bits of the second byte.
pub open spec fn read_size(field: int) -> Option<Size> {
    if field == 0 {
        Some(Size::Byte)
    } else if field == 1 {
        Some(Size::Half)
    } else if field == 2 {
        Some(Size::Word)
    } else {
        None
    }
}

/// The condition in bits 4 to 6 of the first byte.
pub open spec fn read_condition(field: int) -> Option<Condition> {
    if field == 0 {
        Some(Condition::Always)
    } else if field == 1 {
        Some(Condition::Zero)
    } else if field == 2 {
        Some(Condition::NotZero)
    } else if field == 3 {
        Some(Condition::Carry)
    } else if field == 4 {
        Some(Condition::NotCarry)
    } else if field == 5 {
        Some(Condition::GreaterThan)
    } else if field == 6 {
        Some(Condition::LessThanEqualTo)
    } else {
        None
    }
}

/// The half word at a place, low byte first.
pub open spec fn read_half(memory: Seq<u8>, at: int) -> u16 {
    (memory[at] + 256 * memory[at + 1]) as u16
}

/// The word at a place, low byte first.
pub open spec fn read_word(memory: Seq<u8>, at: int) -> u32 {
    (memory[at] + 256 * memory[at + 1] + 65536 * memory[at + 2] + 16777216 * memory[at
        + 3]) as u32
}

/// The operand at a place and the place behind it. Its mode is 0 for a register, 1 for
/// memory at a register, 2 for an immediate value of the given size and 3 for memory at
/// an address. Where offsets are present, every pointer to a register has one.
pub open spec fn read_operand(
    memory: Seq<u8>,
    at: int,
    mode: int,
    offsets: bool,
    size: Size,
) -> (NodeView, int) {
    if mode == 0 {
        (NodeView::Register(memory[at]), at + 1)
    } else if mode == 1 {
        if offsets {
            if memory[at + 1] == 0 {
                (NodeView::RegisterPointer(memory[at]), at + 2)
            } else {
                (NodeView::RegisterPointerOffset(memory[at], memory[at + 1]), at + 2)
            }
        } else {
            (NodeView::RegisterPointer(memory[at]), at + 1)
        }
    } else if mode == 2 {
        match size {
            Size::Byte => (NodeView::Immediate8(memory[at]), at + 1),
            Size::Half => (NodeView::Immediate16(read_half(memory, at)), at + 2),
            Size::Word => (NodeView::Immediate32(read_word(memory, at)), at + 4),
        }
    } else {
        (NodeView::ImmediatePointer(read_word(memory, at)), at + 4)
    }
}

/// The size of an immediate value on the right of an instruction with two operands:
/// shifts, rotations and instructions on single bits take a byte there.
pub open spec fn right_width(instruction: InstructionTwo, size: Size) -> Size {
    if instruction is Sla || instruction is Sra || instruction is Srl || instruction is Rol
        || instruction is Ror || instruction is Bse || instruction is Bcl || instruction is Bts {
        Size::Byte
    } else {
        size
    }
}

/// The instruction at the start of a memory, and its length.
pub open spec fn read_instruction(memory: Seq<u8>) -> Option<(NodeView, int)> {
    let control = memory[0] as int;
    let code = memory[1] as int;
    let offsets = control >= 128;
    match (read_operation(code % 64), read_size(code / 64), read_condition(control / 16 % 8)) {
        (Some(operation), Some(size), Some(condition)) => match operation {
            Operation::Zero(instruction) => Some(
                (NodeView::OperationZero(OperationZero { size, condition, instruction }), 2),
            ),
            Operation::One(instruction) => {
                let (operand, end) = read_operand(memory, 2, control % 4, offsets, size);
                Some(
                    (
                        NodeView::OperationOne(
                            OneView { size, condition, instruction, operand: Box::new(operand) },
                        ),
                        end,
                    ),
                )
            },
            Operation::IncDec(instruction) => {
                let (operand, end) = read_operand(memory, 2, control % 4, offsets, size);
                Some(
                    (
                        NodeView::OperationIncDec(
                            IncDecView {
                                size,
                                condition,
                                instruction,
                                lhs: Box::new(operand),
                                rhs: Box::new(NodeView::Immediate8((control / 4 % 4) as u8)),
                            },
                        ),
                        end,
                    ),
                )
            },
            Operation::Two(instruction) => {
                let (source, middle) = read_operand(
                    memory,
                    2,
                    control % 4,
                    offsets,
                    right_width(instruction, size),
                );
                let (destination, end) = read_operand(
                    memory,
                    middle,
                    control / 4 % 4,
                    offsets,
                    size,
                );
                Some(
                    (
                        NodeView::OperationTwo(
                            TwoView {
                                size,
                                condition,
                                instruction,
                                lhs: Box::new(destination),
                                rhs: Box::new(source),
                            },
                        ),
                        end,
                    ),
                )
            },
        },
        _ => None,
    }
}

/// Whether an operand holds no label, and is of the given size where it is an immediate
/// value.
pub open spec fn is_readable_operand(operand: NodeView, size: Size) -> bool {
    match operand {
        NodeView::Register(_)
        | NodeView::RegisterPointer(_)
        | NodeView::RegisterPointerOffset(_, _)
        | NodeView::ImmediatePointer(_) => true,
        NodeView::Immediate8(_) => size is Byte,
        NodeView::Immediate16(_) => size is Half,
        NodeView::Immediate32(_) => size is Word,
        _ => false,
    }
}

/// Whether a node is an instruction without labels, whose operands have the sizes that
/// the processor reads.
pub open spec fn is_readable(node: NodeView) -> bool {
    match node {
        NodeView::OperationZero(_) => true,
        NodeView::OperationOne(op) => is_readable_operand(*op.operand, op.size),
        NodeView::OperationIncDec(op) => is_readable_operand(*op.lhs, op.size) && (
        *op.rhs matches NodeView::Immediate8(step) && step <= 3),
        NodeView::OperationTwo(op) => is_readable_operand(*op.lhs, op.size)
            && is_readable_operand(*op.rhs, right_width(op.instruction, op.size)),
        _ => false,
    }
}

/// An operand as the processor understands it: an offset of 0 is none.
pub open spec fn understood_operand(operand: NodeView) -> NodeView {
    match operand {
        NodeView::RegisterPointerOffset(register, offset) => if offset == 0 {
            NodeView::RegisterPointer(register)
        } else {
            operand
        },
        _ => operand,
    }
}

/// An instruction as the processor understands it.
pub open spec fn understood(node: NodeView) -> NodeView {
    match node {
        NodeView::OperationOne(op) => NodeView::OperationOne(
            OneView { operand: Box::new(understood_operand(*op.operand)), ..op },
        ),
        NodeView::OperationIncDec(op) => NodeView::OperationIncDec(
            IncDecView { lhs: Box::new(understood_operand(*op.lhs)), ..op },
        ),
        NodeView::OperationTwo(op) => NodeView::OperationTwo(
            TwoView {
                lhs: Box::new(understood_operand(*op.lhs)),
                rhs: Box::new(understood_operand(*op.rhs)),
                ..op
            },
        ),
        _ => node,
    }
}

proof fn lemma_fields(control: u8, code: u8)
    ensures
        control & 0x70 == (control / 16 % 8) * 16,
        control & 0x03 == control % 4,
        (control & 0x0C) >> 2 == control / 4 % 4,
        control & 0x80 != 0 <==> control >= 128,
        code & 0x3F == code % 64,
        code & 0xC0 == code / 64 * 64,
{
    assert(control & 0x70 == (control / 16 % 8) * 16 && control & 0x03 == control % 4 && (control
        & 0x0C) >> 2 == control / 4 % 4 && (control & 0x80 != 0 <==> control >= 128) && code & 0x3F
        == code % 64 && code & 0xC0 == code / 64 * 64) by (bit_vector);
}

proof fn lemma_words(memory: Seq<u8>, at: int, half: u16, word: u32)
    requires
        0 <= at,
    ensures
        at + 2 <= memory.len() && memory.subrange(at, at + 2) == bytes::le16(half) ==> read_half(
            memory,
            at,
        ) == half,
        at + 4 <= memory.len() && memory.subrange(at, at + 4) == bytes::le32(word) ==> read_word(
            memory,
            at,
        ) == word,
{
    reveal(bytes::le16);
    reveal(bytes::le32);
    if at + 2 <= memory.len() {
        let part = memory.subrange(at, at + 2);
        assert(part[0] == memory[at] && part[1] == memory[at + 1]);
    }
    if at + 4 <= memory.len() {
        let part = memory.subrange(at, at + 4);
        assert(part[0] == memory[at] && part[1] == memory[at + 1] && part[2] == memory[at + 2]
            && part[3] == memory[at + 3]);
    }
}

/// An operand is read back from its bytes.
proof fn lemma_operand(memory: Seq<u8>, at: int, operand: NodeView, size: Size, offsets: bool)
    requires
        is_readable_operand(operand, size),
        operand is RegisterPointerOffset ==> offsets,
        0 <= at,
        at + emit::operand_bytes(operand, offsets).len() <= memory.len(),
        memory.subrange(at, at + emit::operand_bytes(operand, offsets).len())
            == emit::operand_bytes(operand, offsets),
    ensures
        read_operand(memory, at, encode::addressing_mode(operand) as int, offsets, size) == (
            understood_operand(operand),
            at + emit::operand_bytes(operand, offsets).len(),
        ),
{
    let part = emit::operand_bytes(operand, offsets);
    match operand {
        NodeView::Immediate16(n) => {
            bytes::law_half_reads_back(n);
            lemma_words(memory, at, n, 0);
        },
        NodeView::Immediate32(n) => {
            bytes::law_word_reads_back(n);
            lemma_words(memory, at, 0, n);
        },
        NodeView::ImmediatePointer(n) => {
            bytes::law_word_reads_back(n);
            lemma_words(memory, at, 0, n);
        },
        _ => {
            assert(part[0] == memory[at]);
            if part.len() > 1 {
                assert(part[1] == memory[at + 1]);
            }
        },
    }
}

/// The instruction that a node is, whatever its operands.
pub open spec fn operation_of(node: NodeView) -> Option<Operation> {
    match node {
        NodeView::OperationZero(op) => Some(Operation::Zero(op.instruction)),
        NodeView::OperationOne(op) => Some(Operation::One(op.instruction)),
        NodeView::OperationIncDec(op) => Some(Operation::IncDec(op.instruction)),
        NodeView::OperationTwo(op) => Some(Operation::Two(op.instruction)),
        _ => None,
    }
}

proof fn lemma_operation(node: NodeView)
    requires
        encode::is_operation(node),
    ensures
        read_operation(encode::opcode(node) as int) == operation_of(node),
{
    reveal(read_operation);
}

/// The fields of the first two bytes.
proof fn lemma_header(node: NodeView, memory: Seq<u8>)
    requires
        is_readable(node),
        memory.len() >= 2,
        memory[0] == encode::control_byte(node),
        memory[1] == encode::instruction_byte(node),
    ensures
        read_operation(memory[1] as int % 64) == operation_of(node),
        read_size(memory[1] as int / 64) == Some(encode::operation_size(node)),
        read_condition(memory[0] as int / 16 % 8) == Some(encode::operation_condition(node)),
        decoding::source(node) matches Some(operand) ==> memory[0] as int % 4
            == encode::addressing_mode(operand),
        decoding::destination(node) matches Some(operand) ==> memory[0] as int / 4 % 4
            == encode::addressing_mode(operand),
        node matches NodeView::OperationIncDec(op) ==> NodeView::Immediate8(
            (memory[0] as int / 4 % 4) as u8,
        ) == *op.rhs,
        emit::has_offsets(node) <==> memory[0] >= 128,
        decoding::is_offset_pointer(decoding::source(node)) ==> emit::has_offsets(node),
        decoding::is_offset_pointer(decoding::destination(node)) ==> emit::has_offsets(node),
{
    decoding::law_instruction_byte_decodes(node, node);
    decoding::law_control_byte_decodes(node);
    lemma_fields(memory[0], memory[1]);
    lemma_operation(node);
}

/// The processor reads from the bytes of an instruction the instruction that was
/// assembled, and finds its end, whatever stands behind it in memory.
pub proof fn law_processor_reads_what_was_assembled(node: NodeView, behind: Seq<u8>)
    requires
        is_readable(node),
    ensures
        read_instruction(emit::statement_bytes(node) + behind) == Some(
            (understood(node), emit::statement_bytes(node).len() as int),
        ),
{
    let own = emit::statement_bytes(node);
    let memory = own + behind;
    let offsets = emit::has_offsets(node);
    let rest = emit::operands_bytes(emit::operands(node), offsets);
    assert(own.len() == 2 + rest.len());
    assert(memory[0] == encode::control_byte(node));
    assert(memory[1] == encode::instruction_byte(node));
    assert(own.skip(2) =~= rest);
    lemma_header(node, memory);
    match node {
        NodeView::OperationOne(op) => {
            lemma_reads_one(memory, *op.operand, op.size, offsets, own);
        },
        NodeView::OperationIncDec(op) => {
            lemma_reads_one(memory, *op.lhs, op.size, offsets, own);
        },
        NodeView::OperationTwo(op) => {
            decoding::lemma_two_operands(*op.rhs, *op.lhs, offsets);
            let first = emit::operand_bytes(*op.rhs, offsets);
            let second = emit::operand_bytes(*op.lhs, offsets);
            let middle = 2 + first.len() as int;
            assert(rest == first + second);
            assert(memory.subrange(2, middle) =~= first) by {
                assert(own.skip(2).take(first.len() as int) =~= first);
            }
            assert(memory.subrange(middle, middle + second.len()) =~= second) by {
                assert(own.skip(2).skip(first.len() as int) =~= second);
            }
            lemma_operand(memory, 2, *op.rhs, right_width(op.instruction, op.size), offsets);
            lemma_operand(memory, middle, *op.lhs, op.size, offsets);
        },
        _ => {},
    }
}

proof fn lemma_reads_one(
    memory: Seq<u8>,
    operand: NodeView,
    size: Size,
    offsets: bool,
    own: Seq<u8>,
)
    requires
        is_readable_operand(operand, size),
        operand is RegisterPointerOffset ==> offsets,
        own.len() >= 2,
        own.skip(2) == emit::operands_bytes(seq![operand], offsets),
        own.is_prefix_of(memory),
    ensures
        read_operand(memory, 2, encode::addressing_mode(operand) as int, offsets, size) == (
            understood_operand(operand),
            own.len() as int,
        ),
{
    decoding::lemma_one_operand(operand, offsets);
    let part = emit::operand_bytes(operand, offsets);
    assert(part + seq![] =~= part);
    assert(memory.subrange(2, 2 + part.len() as int) =~= part) by {
        assert(own =~= memory.subrange(0, own.len() as int));
        assert forall|i: int| 0 <= i < part.len() implies memory[2 + i] == part[i] by {
            assert(own.skip(2)[i] == own[2 + i]);
            assert(memory.subrange(0, own.len() as int)[2 + i] == memory[2 + i]);
        }
    }
    lemma_operand(memory, 2, operand, size, offsets);
}

} // verus!
