//! The bytes of a statement. Where a statement uses a label, its bytes hold a
//! placeholder, and the table of targets says where.

use crate::ast::{AstNode, NodeView, OperationIncDec, OperationOne, OperationTwo, Size};
use crate::backpatch::{AssembledInstruction, BackpatchTarget, CodeView};
use crate::bytes::{push_half, push_word};
use crate::encode::{
    condition_source_destination_to_byte, instruction_to_byte,
};
use crate::labels::LabelTargets;
use crate::{backpatch, bytes, encode, labels};
use vstd::prelude::*;

verus! {

/// The value of every byte of a placeholder.
pub const PLACEHOLDER: u8 = 0xAB;

/// The bytes that stand for a label until its address is known.
pub open spec fn placeholder(size: Size) -> Seq<u8> {
    Seq::new(backpatch::width(size) as nat, |i: int| PLACEHOLDER)
}

/// The use of a label in a statement: a value of the given size, from `index` on.
#[verifier::ext_equal]
pub struct LabelUse {
    pub name: Seq<char>,
    pub index: int,
    pub size: Size,
    pub is_relative: bool,
}

/// The operands of an instruction, in the order in which they are encoded: the
/// source comes before the destination.
pub open spec fn operands(node: NodeView) -> Seq<NodeView> {
    match node {
        NodeView::OperationOne(op) => seq![*op.operand],
        NodeView::OperationIncDec(op) => seq![*op.lhs],
        NodeView::OperationTwo(op) => seq![*op.rhs, *op.lhs],
        _ => seq![],
    }
}

/// The bytes of an operand. Where offsets are present, every pointer to a register
/// has one.
pub open spec fn operand_bytes(operand: NodeView, offsets: bool) -> Seq<u8> {
    match operand {
        NodeView::Register(register) => seq![register],
        NodeView::RegisterPointer(register) => if offsets {
            seq![register, 0u8]
        } else {
            seq![register]
        },
        NodeView::RegisterPointerOffset(register, offset) => if offsets {
            seq![register, offset]
        } else {
            seq![register]
        },
        NodeView::Immediate8(immediate) => seq![immediate],
        NodeView::Immediate16(immediate) => bytes::le16(immediate),
        NodeView::Immediate32(immediate) => bytes::le32(immediate),
        NodeView::ImmediatePointer(immediate) => bytes::le32(immediate),
        NodeView::LabelOperand { size, .. } => placeholder(size),
        NodeView::LabelOperandPointer { .. } => placeholder(Size::Word),
        _ => seq![],
    }
}

/// The label that an operand uses, where it uses one; its bytes start at `index`.
pub open spec fn operand_uses(operand: NodeView, index: int) -> Seq<LabelUse> {
    match operand {
        NodeView::LabelOperand { name, size, is_relative } => seq![
            LabelUse { name, index, size, is_relative },
        ],
        NodeView::LabelOperandPointer { name, is_relative } => seq![
            LabelUse { name, index, size: Size::Word, is_relative },
        ],
        _ => seq![],
    }
}

/// The bytes of a sequence of operands.
pub open spec fn operands_bytes(operands: Seq<NodeView>, offsets: bool) -> Seq<u8>
    decreases operands.len(),
{
    if operands.len() == 0 {
        seq![]
    } else {
        operands_bytes(operands.drop_last(), offsets) + operand_bytes(operands.last(), offsets)
    }
}

/// The labels that a sequence of operands uses; its bytes start at `index`.
pub open spec fn operands_uses(operands: Seq<NodeView>, offsets: bool, index: int) -> Seq<LabelUse>
    decreases operands.len(),
{
    if operands.len() == 0 {
        seq![]
    } else {
        operands_uses(operands.drop_last(), offsets, index) + operand_uses(
            operands.last(),
            index + operands_bytes(operands.drop_last(), offsets).len(),
        )
    }
}

/// Whether the pointers to registers of an instruction are encoded with an offset.
pub open spec fn has_offsets(node: NodeView) -> bool {
    encode::control_byte(node) & 0x80 != 0
}

/// The bytes of an instruction.
pub open spec fn operation_bytes(node: NodeView) -> Seq<u8> {
    seq![encode::control_byte(node), encode::instruction_byte(node)] + operands_bytes(
        operands(node),
        has_offsets(node),
    )
}

/// Whether a node is a statement that has bytes of its own: an instruction, or data
/// other than a fill or a file.
pub open spec fn is_assemblable(node: NodeView) -> bool {
    match node {
        NodeView::DataByte(_)
        | NodeView::DataHalf(_)
        | NodeView::DataWord(_)
        | NodeView::DataStr(_)
        | NodeView::DataStrZero(_)
        | NodeView::LabelOperand { .. } => true,
        _ => encode::is_encodable(node),
    }
}

/// The bytes of a statement.
pub open spec fn statement_bytes(node: NodeView) -> Seq<u8>
    recommends
        is_assemblable(node),
{
    match node {
        NodeView::DataByte(byte) => seq![byte],
        NodeView::DataHalf(half) => bytes::le16(half),
        NodeView::DataWord(word) => bytes::le32(word),
        NodeView::DataStr(text) => vstd::utf8::encode_utf8(text),
        NodeView::DataStrZero(text) => vstd::utf8::encode_utf8(text).push(0),
        NodeView::LabelOperand { size, .. } => placeholder(size),
        _ => operation_bytes(node),
    }
}

/// The labels that a statement uses.
pub open spec fn statement_uses(node: NodeView) -> Seq<LabelUse>
    recommends
        is_assemblable(node),
{
    match node {
        NodeView::DataByte(_)
        | NodeView::DataHalf(_)
        | NodeView::DataWord(_)
        | NodeView::DataStr(_)
        | NodeView::DataStrZero(_) => seq![],
        NodeView::LabelOperand { .. } => operand_uses(node, 0),
        _ => operands_uses(operands(node), has_offsets(node), 2),
    }
}

/// The target for the use of a label in the instruction with the number `slot`.
pub open spec fn use_target(slot: usize, label_use: LabelUse) -> BackpatchTarget {
    BackpatchTarget {
        index: label_use.index as usize,
        size: label_use.size,
        is_relative: label_use.is_relative,
        instruction: slot,
    }
}

/// `table` with a target for each of `uses`, in order.
pub open spec fn add_uses(
    table: Seq<labels::EntryView>,
    slot: usize,
    uses: Seq<LabelUse>,
) -> Seq<labels::EntryView>
    decreases uses.len(),
{
    if uses.len() == 0 {
        table
    } else {
        labels::add_target(
            add_uses(table, slot, uses.drop_last()),
            uses.last().name,
            use_target(slot, uses.last()),
        )
    }
}

/// Appends a placeholder for the label `name`, and adds its place to the targets of
/// that label. `slot` is the number of the instruction.
pub fn generate_backpatch_immediate(
    name: &String,
    size: Size,
    instruction: &mut AssembledInstruction,
    is_relative: bool,
    slot: usize,
    targets: &mut LabelTargets,
)
    ensures
        final(instruction)@ == (CodeView {
            value: old(instruction)@.value + placeholder(size),
            address: old(instruction)@.address,
        }),
        final(targets)@ == labels::add_target(
            old(targets)@,
            name@,
            BackpatchTarget {
                index: old(instruction)@.value.len() as usize,
                size,
                is_relative,
                instruction: slot,
            },
        ),
{
    let index = instruction.value.len();
    let count: usize = match size {
        Size::Byte => 1,
        Size::Half => 2,
        Size::Word => 4,
    };
    let mut i: usize = 0;
    while i < count
        invariant
            i <= count,
            instruction.address == old(instruction).address,
            instruction.value@ == old(instruction)@.value + Seq::new(
                i as nat,
                |k: int| PLACEHOLDER,
            ),
        decreases count - i,
    {
        instruction.value.push(PLACEHOLDER);
        i = i + 1;
        assert(instruction.value@ =~= old(instruction)@.value + Seq::new(
            i as nat,
            |k: int| PLACEHOLDER,
        ));
    }
    assert(instruction.value@ =~= old(instruction)@.value + placeholder(size));
    targets.insert(name, BackpatchTarget::new(slot, index, size, is_relative));
}

proof fn lemma_add_one(
    table: Seq<labels::EntryView>,
    slot: usize,
    label_use: LabelUse,
)
    ensures
        add_uses(table, slot, seq![label_use]) == labels::add_target(
            table,
            label_use.name,
            use_target(slot, label_use),
        ),
{
    reveal_with_fuel(add_uses, 2);
    assert(seq![label_use].drop_last() =~= Seq::empty());
}

/// Appends the bytes of an operand.
pub fn operand_to_immediate_value(
    instruction: &mut AssembledInstruction,
    node: &AstNode,
    pointer_offset: bool,
    slot: usize,
    targets: &mut LabelTargets,
)
    requires
        encode::is_operand(node@),
    ensures
        final(instruction)@ == (CodeView {
            value: old(instruction)@.value + operand_bytes(node@, pointer_offset),
            address: old(instruction)@.address,
        }),
        final(targets)@ == add_uses(
            old(targets)@,
            slot,
            operand_uses(node@, old(instruction)@.value.len() as int),
        ),
{
    let ghost before = instruction@.value;
    match node {
        AstNode::Register(register) => instruction.value.push(*register),
        AstNode::RegisterPointer(register) => {
            instruction.value.push(*register);
            if pointer_offset {
                instruction.value.push(0);
            }
        },
        AstNode::RegisterPointerOffset(register, offset) => {
            instruction.value.push(*register);
            if pointer_offset {
                instruction.value.push(*offset);
            }
        },
        AstNode::Immediate8(immediate) => instruction.value.push(*immediate),
        AstNode::Immediate16(immediate) => push_half(&mut instruction.value, *immediate),
        AstNode::Immediate32(immediate) => push_word(&mut instruction.value, *immediate),
        AstNode::ImmediatePointer(immediate) => push_word(&mut instruction.value, *immediate),
        AstNode::LabelOperand { name, size, is_relative } => {
            proof {
                lemma_add_one(
                    targets@,
                    slot,
                    LabelUse {
                        name: name@,
                        index: before.len() as int,
                        size: *size,
                        is_relative: *is_relative,
                    },
                );
            }
            generate_backpatch_immediate(name, *size, instruction, *is_relative, slot, targets);
        },
        AstNode::LabelOperandPointer { name, is_relative } => {
            proof {
                lemma_add_one(
                    targets@,
                    slot,
                    LabelUse {
                        name: name@,
                        index: before.len() as int,
                        size: Size::Word,
                        is_relative: *is_relative,
                    },
                );
            }
            generate_backpatch_immediate(
                name,
                Size::Word,
                instruction,
                *is_relative,
                slot,
                targets,
            );
        },
        _ => {},
    }
    assert(instruction@.value =~= before + operand_bytes(node@, pointer_offset));
}

proof fn lemma_add_uses_concat(
    table: Seq<labels::EntryView>,
    slot: usize,
    first: Seq<LabelUse>,
    second: Seq<LabelUse>,
)
    ensures
        add_uses(table, slot, first + second) == add_uses(
            add_uses(table, slot, first),
            slot,
            second,
        ),
    decreases second.len(),
{
    if second.len() == 0 {
        assert(first + second =~= first);
    } else {
        lemma_add_uses_concat(table, slot, first, second.drop_last());
        assert((first + second).drop_last() =~= first + second.drop_last());
    }
}

/// The bytes and the uses of a single operand.
pub proof fn lemma_one_operand(operand: NodeView, offsets: bool, index: int)
    ensures
        operands_bytes(seq![operand], offsets) == operand_bytes(operand, offsets),
        operands_uses(seq![operand], offsets, index) == operand_uses(operand, index),
{
    reveal_with_fuel(operands_bytes, 2);
    reveal_with_fuel(operands_uses, 2);
    assert(seq![operand].drop_last() =~= Seq::empty());
    assert(operands_bytes(seq![operand], offsets) =~= operand_bytes(operand, offsets));
    assert(operands_uses(seq![operand], offsets, index) =~= operand_uses(operand, index));
}

/// Appends the bytes of the operands of an instruction: first those of the source,
/// then those of the destination.
pub fn node_to_immediate_values(
    node: &AstNode,
    instruction: &mut AssembledInstruction,
    pointer_offset: bool,
    slot: usize,
    targets: &mut LabelTargets,
)
    requires
        encode::is_encodable(node@),
    ensures
        final(instruction)@ == (CodeView {
            value: old(instruction)@.value + operands_bytes(operands(node@), pointer_offset),
            address: old(instruction)@.address,
        }),
        final(targets)@ == add_uses(
            old(targets)@,
            slot,
            operands_uses(
                operands(node@),
                pointer_offset,
                old(instruction)@.value.len() as int,
            ),
        ),
{
    let ghost before = instruction@.value;
    let ghost table = targets@;
    let ghost index = before.len() as int;
    match node {
        AstNode::OperationOne(OperationOne { operand, .. }) => {
            operand_to_immediate_value(instruction, operand, pointer_offset, slot, targets);
            proof {
                lemma_one_operand(operand@, pointer_offset, index);
            }
        },
        AstNode::OperationIncDec(OperationIncDec { lhs, .. }) => {
            operand_to_immediate_value(instruction, lhs, pointer_offset, slot, targets);
            proof {
                lemma_one_operand(lhs@, pointer_offset, index);
            }
        },
        AstNode::OperationTwo(OperationTwo { lhs, rhs, .. }) => {
            operand_to_immediate_value(instruction, rhs, pointer_offset, slot, targets);
            let ghost middle = instruction@.value;
            operand_to_immediate_value(instruction, lhs, pointer_offset, slot, targets);
            proof {
                lemma_one_operand(rhs@, pointer_offset, index);
                assert(operands(node@).drop_last() =~= seq![rhs@]);
                lemma_add_uses_concat(
                    table,
                    slot,
                    operand_uses(rhs@, index),
                    operand_uses(lhs@, middle.len() as int),
                );
                assert(instruction@.value =~= before + operands_bytes(
                    operands(node@),
                    pointer_offset,
                ));
            }
        },
        _ => {
            assert(before + operands_bytes(operands(node@), pointer_offset) =~= before);
        },
    }
}

/// Whether a node can stand as an operand of an instruction.
fn is_operand_node(node: &AstNode) -> (answer: bool)
    ensures
        answer == encode::is_operand(node@),
{
    match node {
        AstNode::Register(_)
        | AstNode::RegisterPointer(_)
        | AstNode::RegisterPointerOffset(_, _)
        | AstNode::Immediate8(_)
        | AstNode::Immediate16(_)
        | AstNode::Immediate32(_)
        | AstNode::ImmediatePointer(_)
        | AstNode::LabelOperand { .. }
        | AstNode::LabelOperandPointer { .. } => true,
        _ => false,
    }
}

fn is_step_node(node: &AstNode) -> (answer: bool)
    ensures
        answer == (node@ is Immediate8),
{
    match node {
        AstNode::Immediate8(_) => true,
        _ => false,
    }
}

/// Whether a node is a statement that has bytes of its own.
pub fn is_assemblable_node(node: &AstNode) -> (answer: bool)
    ensures
        answer == is_assemblable(node@),
{
    match node {
        AstNode::DataByte(_)
        | AstNode::DataHalf(_)
        | AstNode::DataWord(_)
        | AstNode::DataStr(_)
        | AstNode::DataStrZero(_)
        | AstNode::LabelOperand { .. } => true,
        AstNode::OperationZero(_) => true,
        AstNode::OperationOne(OperationOne { operand, .. }) => is_operand_node(operand),
        AstNode::OperationIncDec(OperationIncDec { lhs, rhs, .. }) => is_operand_node(lhs)
            && is_step_node(rhs),
        AstNode::OperationTwo(OperationTwo { lhs, rhs, .. }) => is_operand_node(lhs)
            && is_operand_node(rhs),
        _ => false,
    }
}

/// Assembles a statement. Every use of a label is added to the table of targets,
/// under the number `slot` of the statement.
pub fn assemble_node(node: AstNode, slot: usize, targets: &mut LabelTargets) -> (instruction:
    AssembledInstruction)
    requires
        is_assemblable(node@),
    ensures
        instruction@ == (CodeView { value: statement_bytes(node@), address: 0 }),
        final(targets)@ == add_uses(old(targets)@, slot, statement_uses(node@)),
{
    match &node {
        AstNode::DataByte(byte) => {
            let mut bytes: Vec<u8> = Vec::new();
            bytes.push(*byte);
            assert(bytes@ =~= seq![*byte]);
            return AssembledInstruction::from(bytes);
        },
        AstNode::DataHalf(half) => {
            let mut bytes: Vec<u8> = Vec::new();
            push_half(&mut bytes, *half);
            assert(bytes@ =~= bytes::le16(*half));
            return AssembledInstruction::from(bytes);
        },
        AstNode::DataWord(word) => {
            let mut bytes: Vec<u8> = Vec::new();
            push_word(&mut bytes, *word);
            assert(bytes@ =~= bytes::le32(*word));
            return AssembledInstruction::from(bytes);
        },
        AstNode::DataStr(text) => {
            return AssembledInstruction::from(text.as_str().as_bytes_vec());
        },
        AstNode::DataStrZero(text) => {
            let mut bytes: Vec<u8> = text.as_str().as_bytes_vec();
            bytes.push(0);
            return AssembledInstruction::from(bytes);
        },
        AstNode::LabelOperand { name, size, is_relative } => {
            let mut instruction = AssembledInstruction::new();
            proof {
                lemma_add_one(
                    targets@,
                    slot,
                    LabelUse {
                        name: name@,
                        index: 0,
                        size: *size,
                        is_relative: *is_relative,
                    },
                );
            }
            generate_backpatch_immediate(
                name,
                *size,
                &mut instruction,
                *is_relative,
                slot,
                targets,
            );
            assert(instruction@.value =~= placeholder(*size));
            return instruction;
        },
        _ => {},
    }
    let mut instruction_data: Vec<u8> = Vec::new();
    let control = condition_source_destination_to_byte(&node);
    instruction_data.push(control);
    instruction_data.push(instruction_to_byte(&node));
    let mut instruction = AssembledInstruction::from(instruction_data);
    assert(instruction@.value =~= seq![
        encode::control_byte(node@),
        encode::instruction_byte(node@),
    ]);
    // the top bit of the control byte says whether pointers have offsets
    node_to_immediate_values(&node, &mut instruction, control & 0x80 != 0, slot, targets);
    instruction
}

} // verus!
