//! From the parse tree of a program to its statements.

use crate::ast::{
    AstNode, Condition, IncDecView, InstructionIncDec, InstructionOne, InstructionTwo,
    InstructionZero, NodeView, OneView, OperationIncDec, OperationOne, OperationTwo,
    OperationZero, Size, TwoView,
};
use crate::numbers::{parse_number, remove_underscores};
use crate::optimize::node_value;
use crate::text::{chars_of, text_is};
use crate::tree::{Pair, Rule, Tree};
use crate::{numbers, optimize};
use vstd::prelude::*;

verus! {

/// Why a text is no program.
#[derive(Debug, PartialEq, Eq, Clone, Copy, Structural)]
pub enum ParseError {
    /// No statement matches the characters from this place on.
    Syntax(usize),
    /// A part of the parse tree is missing, or is not of the kind that belongs there.
    Malformed,
    /// A name of an instruction, a condition, a size or the like is not known.
    Unsupported,
    /// A number has no digits, or is too large.
    InvalidNumber,
    /// There is no register with this number.
    RegisterOutOfRange,
    /// The value of a constant is not an immediate value.
    ConstantNotImmediate,
    /// The value of a piece of data is neither an immediate value nor a label.
    DataNotImmediate,
    /// An origin is not an immediate word.
    OriginNotImmediate,
}

/// The mathematical form of what parsing a part of a program gives.
pub open spec fn result_view(result: Result<AstNode, ParseError>) -> Result<NodeView, ParseError> {
    match result {
        Ok(node) => Ok(node@),
        Err(error) => Err(error),
    }
}

/// The highest register: the frame pointer.
pub const LAST_REGISTER: u8 = 34;

/// The size of this name.
pub open spec fn size_named(text: Seq<char>) -> Option<Size> {
    if text == ".8"@ {
        Some(Size::Byte)
    } else if text == ".16"@ {
        Some(Size::Half)
    } else if text == ".32"@ {
        Some(Size::Word)
    } else {
        None
    }
}

/// The encoded step of an increment or decrement by 1, 2, 4 or 8.
pub open spec fn step_named(text: Seq<char>) -> Option<u8> {
    if text == "1"@ {
        Some(0)
    } else if text == "2"@ {
        Some(1)
    } else if text == "4"@ {
        Some(2)
    } else if text == "8"@ {
        Some(3)
    } else {
        None
    }
}

/// The step of an increment or decrement.
pub open spec fn step_of(tree: Tree) -> Result<NodeView, ParseError> {
    match step_named(tree.text) {
        Some(step) => Ok(NodeView::Immediate8(step)),
        None => Err(ParseError::Unsupported),
    }
}

/// The condition of this name. Some have two names.
pub open spec fn condition_named(text: Seq<char>) -> Option<Condition> {
    if text == "ifz"@ {
        Some(Condition::Zero)
    } else if text == "ifnz"@ {
        Some(Condition::NotZero)
    } else if text == "ifc"@ {
        Some(Condition::Carry)
    } else if text == "ifnc"@ {
        Some(Condition::NotCarry)
    } else if text == "ifgt"@ {
        Some(Condition::GreaterThan)
    } else if text == "ifgteq"@ {
        Some(Condition::NotCarry)
    } else if text == "iflt"@ {
        Some(Condition::Carry)
    } else if text == "iflteq"@ {
        Some(Condition::LessThanEqualTo)
    } else {
        None
    }
}

/// The instruction without operands of this name.
pub open spec fn zero_named(text: Seq<char>) -> Option<InstructionZero> {
    if text == "nop"@ {
        Some(InstructionZero::Nop)
    } else if text == "halt"@ {
        Some(InstructionZero::Halt)
    } else if text == "brk"@ {
        Some(InstructionZero::Brk)
    } else if text == "ret"@ {
        Some(InstructionZero::Ret)
    } else if text == "reti"@ {
        Some(InstructionZero::Reti)
    } else if text == "ise"@ {
        Some(InstructionZero::Ise)
    } else if text == "icl"@ {
        Some(InstructionZero::Icl)
    } else if text == "mse"@ {
        Some(InstructionZero::Mse)
    } else if text == "mcl"@ {
        Some(InstructionZero::Mcl)
    } else {
        None
    }
}

/// The instruction with one operand of this name.
pub open spec fn one_named(text: Seq<char>) -> Option<InstructionOne> {
    if text == "not"@ {
        Some(InstructionOne::Not)
    } else if text == "jmp"@ {
        Some(InstructionOne::Jmp)
    } else if text == "call"@ {
        Some(InstructionOne::Call)
    } else if text == "loop"@ {
        Some(InstructionOne::Loop)
    } else if text == "rjmp"@ {
        Some(InstructionOne::Rjmp)
    } else if text == "rcall"@ {
        Some(InstructionOne::Rcall)
    } else if text == "rloop"@ {
        Some(InstructionOne::Rloop)
    } else if text == "push"@ {
        Some(InstructionOne::Push)
    } else if text == "pop"@ {
        Some(InstructionOne::Pop)
    } else if text == "int"@ {
        Some(InstructionOne::Int)
    } else if text == "tlb"@ {
        Some(InstructionOne::Tlb)
    } else if text == "flp"@ {
        Some(InstructionOne::Flp)
    } else {
        None
    }
}

/// The increment or decrement of this name.
pub open spec fn incdec_named(text: Seq<char>) -> Option<InstructionIncDec> {
    if text == "inc"@ {
        Some(InstructionIncDec::Inc)
    } else if text == "dec"@ {
        Some(InstructionIncDec::Dec)
    } else {
        None
    }
}

/// The instruction with two operands of this name.
pub open spec fn two_named(text: Seq<char>) -> Option<InstructionTwo> {
    if text == "add"@ {
        Some(InstructionTwo::Add)
    } else if text == "sub"@ {
        Some(InstructionTwo::Sub)
    } else if text == "mul"@ {
        Some(InstructionTwo::Mul)
    } else if text == "imul"@ {
        Some(InstructionTwo::Imul)
    } else if text == "div"@ {
        Some(InstructionTwo::Div)
    } else if text == "idiv"@ {
        Some(InstructionTwo::Idiv)
    } else if text == "rem"@ {
        Some(InstructionTwo::Rem)
    } else if text == "irem"@ {
        Some(InstructionTwo::Irem)
    } else if text == "and"@ {
        Some(InstructionTwo::And)
    } else if text == "or"@ {
        Some(InstructionTwo::Or)
    } else if text == "xor"@ {
        Some(InstructionTwo::Xor)
    } else if text == "sla"@ {
        Some(InstructionTwo::Sla)
    } else if text == "sra"@ {
        Some(InstructionTwo::Sra)
    } else if text == "srl"@ {
        Some(InstructionTwo::Srl)
    } else if text == "rol"@ {
        Some(InstructionTwo::Rol)
    } else if text == "ror"@ {
        Some(InstructionTwo::Ror)
    } else if text == "bse"@ {
        Some(InstructionTwo::Bse)
    } else if text == "bcl"@ {
        Some(InstructionTwo::Bcl)
    } else if text == "bts"@ {
        Some(InstructionTwo::Bts)
    } else if text == "cmp"@ {
        Some(InstructionTwo::Cmp)
    } else if text == "mov"@ {
        Some(InstructionTwo::Mov)
    } else if text == "movz"@ {
        Some(InstructionTwo::Movz)
    } else if text == "rta"@ {
        Some(InstructionTwo::Rta)
    } else if text == "in"@ {
        Some(InstructionTwo::In)
    } else if text == "out"@ {
        Some(InstructionTwo::Out)
    } else {
        None
    }
}

/// An immediate value of the given size, or memory at an immediate address.
pub open spec fn immediate_node(immediate: u32, size: Size, is_pointer: bool) -> NodeView {
    if is_pointer {
        NodeView::ImmediatePointer(immediate)
    } else {
        match size {
            Size::Byte => NodeView::Immediate8((immediate % 256) as u8),
            Size::Half => NodeView::Immediate16((immediate % 65536) as u16),
            Size::Word => NodeView::Immediate32(immediate),
        }
    }
}

/// A number in the given base, with underscores between its digits.
pub open spec fn word_written(text: Seq<char>, radix: nat) -> Result<u32, ParseError> {
    match numbers::number(numbers::without_underscores(text), radix, u32::MAX as nat) {
        Some(value) => Ok(value as u32),
        None => Err(ParseError::InvalidNumber),
    }
}

/// The value of an immediate.
pub open spec fn immediate_of(tree: Tree) -> Result<u32, ParseError> {
    match tree.rule {
        Rule::ImmediateBin => match tree.child(0) {
            Some(body) => word_written(body.text, 2),
            None => Err(ParseError::Malformed),
        },
        Rule::ImmediateHex => match tree.child(0) {
            Some(body) => word_written(body.text, 16),
            None => Err(ParseError::Malformed),
        },
        Rule::ImmediateDec => word_written(tree.text, 10),
        Rule::ImmediateChar => match tree.child(0) {
            Some(body) => if body.text.len() > 0 {
                Ok((body.text[0] as u32 % 256) as u32)
            } else {
                Err(ParseError::Malformed)
            },
            None => Err(ParseError::Malformed),
        },
        _ => Err(ParseError::Malformed),
    }
}

/// The number of a register: those above 31 are the stack pointer, the exception
/// stack pointer and the frame pointer.
pub open spec fn register_of(tree: Tree) -> Result<u8, ParseError> {
    match tree.child(0) {
        None => Err(ParseError::Malformed),
        Some(num) => if num.text == "sp"@ {
            Ok(32)
        } else if num.text == "esp"@ {
            Ok(33)
        } else if num.text == "fp"@ {
            Ok(34)
        } else {
            match numbers::number(num.text, 10, 255) {
                None => Err(ParseError::InvalidNumber),
                Some(value) => if value > LAST_REGISTER {
                    Err(ParseError::RegisterOutOfRange)
                } else {
                    Ok(value as u8)
                },
            }
        },
    }
}

/// The operand that a value stands for.
pub open spec fn value_of(tree: Tree, is_pointer: bool, size: Size) -> Result<
    NodeView,
    ParseError,
> {
    match tree.rule {
        Rule::ImmediateBin
        | Rule::ImmediateHex
        | Rule::ImmediateDec
        | Rule::ImmediateChar => match immediate_of(tree) {
            Ok(immediate) => Ok(immediate_node(immediate, size, is_pointer)),
            Err(error) => Err(error),
        },
        Rule::Register => match register_of(tree) {
            Ok(register) => if is_pointer {
                Ok(NodeView::RegisterPointer(register))
            } else {
                Ok(NodeView::Register(register))
            },
            Err(error) => Err(error),
        },
        Rule::LabelName => if is_pointer {
            Ok(NodeView::LabelOperandPointer { name: tree.text, is_relative: false })
        } else {
            Ok(NodeView::LabelOperand { name: tree.text, size, is_relative: false })
        },
        _ => Err(ParseError::Malformed),
    }
}

/// Memory at a register, with an offset where there is one that is not 0.
pub open spec fn register_pointer_of(tree: Tree, offset: Option<Tree>) -> Result<
    NodeView,
    ParseError,
> {
    match register_of(tree) {
        Err(error) => Err(error),
        Ok(register) => match offset {
            None => Ok(NodeView::RegisterPointer(register)),
            Some(part) => match part.child(0) {
                None => Err(ParseError::Malformed),
                Some(immediate) => match immediate_of(immediate) {
                    Err(error) => Err(error),
                    Ok(value) => if value == 0 {
                        Ok(NodeView::RegisterPointer(register))
                    } else {
                        Ok(NodeView::RegisterPointerOffset(register, (value % 256) as u8))
                    },
                },
            },
        },
    }
}

/// The operand that a part of a parse tree stands for.
pub open spec fn operand_of(tree: Tree, is_pointer: bool, size: Size) -> Result<
    NodeView,
    ParseError,
> {
    let actual = if is_pointer {
        tree.child(0)
    } else {
        Some(tree)
    };
    let offset = if is_pointer {
        tree.child(1)
    } else {
        None
    };
    match actual {
        None => Err(ParseError::Malformed),
        Some(part) => match part.rule {
            Rule::OperandValue => match part.child(0) {
                None => Err(ParseError::Malformed),
                Some(value) => value_of(value, is_pointer, size),
            },
            Rule::Register => register_pointer_of(part, offset),
            _ => Err(ParseError::Malformed),
        },
    }
}

/// The size of this name.
pub fn size_name(name: &String) -> (size: Option<Size>)
    ensures
        size == size_named(name@),
{
    if text_is(name, ".8") {
        Some(Size::Byte)
    } else if text_is(name, ".16") {
        Some(Size::Half)
    } else if text_is(name, ".32") {
        Some(Size::Word)
    } else {
        None
    }
}

/// Parses the size of an instruction.
pub fn parse_size(pair: &Pair) -> (result: Result<Size, ParseError>)
    ensures
        result == match size_named(pair@.text) {
            Some(size) => Ok::<Size, ParseError>(size),
            None => Err(ParseError::Unsupported),
        },
{
    match size_name(pair.as_str()) {
        Some(size) => Ok(size),
        None => Err(ParseError::Unsupported),
    }
}

/// The encoded step of an increment or decrement by 1, 2, 4 or 8.
pub fn step_name(name: &String) -> (step: Option<u8>)
    ensures
        step == step_named(name@),
{
    if text_is(name, "1") {
        Some(0)
    } else if text_is(name, "2") {
        Some(1)
    } else if text_is(name, "4") {
        Some(2)
    } else if text_is(name, "8") {
        Some(3)
    } else {
        None
    }
}

/// Parses the step of an increment or decrement.
pub fn parse_incdec_amount(pair: &Pair) -> (result: Result<AstNode, ParseError>)
    ensures
        result_view(result) == step_of(pair@),
{
    match step_name(pair.as_str()) {
        Some(step) => Ok(AstNode::Immediate8(step)),
        None => Err(ParseError::Unsupported),
    }
}

/// The condition of this name.
pub fn condition_name(name: &String) -> (condition: Option<Condition>)
    ensures
        condition == condition_named(name@),
{
    if text_is(name, "ifz") {
        Some(Condition::Zero)
    } else if text_is(name, "ifnz") {
        Some(Condition::NotZero)
    } else if text_is(name, "ifc") {
        Some(Condition::Carry)
    } else if text_is(name, "ifnc") {
        Some(Condition::NotCarry)
    } else if text_is(name, "ifgt") {
        Some(Condition::GreaterThan)
    } else if text_is(name, "ifgteq") {
        Some(Condition::NotCarry)
    } else if text_is(name, "iflt") {
        Some(Condition::Carry)
    } else if text_is(name, "iflteq") {
        Some(Condition::LessThanEqualTo)
    } else {
        None
    }
}

/// Parses the condition of an instruction.
pub fn parse_condition(pair: &Pair) -> (result: Result<Condition, ParseError>)
    ensures
        result == match condition_named(pair@.text) {
            Some(condition) => Ok::<Condition, ParseError>(condition),
            None => Err(ParseError::Unsupported),
        },
{
    match condition_name(pair.as_str()) {
        Some(condition) => Ok(condition),
        None => Err(ParseError::Unsupported),
    }
}

/// An immediate value of the given size, or memory at an immediate address.
pub fn immediate_to_astnode(immediate: u32, size: Size, is_pointer: bool) -> (node: AstNode)
    ensures
        node@ == immediate_node(immediate, size, is_pointer),
{
    if is_pointer {
        AstNode::ImmediatePointer(immediate)
    } else {
        match size {
            Size::Byte => AstNode::Immediate8((immediate % 256) as u8),
            Size::Half => AstNode::Immediate16((immediate % 65536) as u16),
            Size::Word => AstNode::Immediate32(immediate),
        }
    }
}

/// A number in the given base, with underscores between its digits.
fn parse_word(text: &String, radix: u32) -> (result: Result<u32, ParseError>)
    requires
        0 < radix <= 36,
    ensures
        result == word_written(text@, radix as nat),
{
    let digits = remove_underscores(text.as_str());
    match parse_number(&digits, radix, u32::MAX) {
        Some(value) => Ok(value),
        None => Err(ParseError::InvalidNumber),
    }
}

/// The value of an immediate.
pub fn parse_immediate(pair: &Pair) -> (result: Result<u32, ParseError>)
    ensures
        result == immediate_of(pair@),
{
    match pair.as_rule() {
        Rule::ImmediateBin => match pair.child(0) {
            Some(body) => parse_word(body.as_str(), 2),
            None => Err(ParseError::Malformed),
        },
        Rule::ImmediateHex => match pair.child(0) {
            Some(body) => parse_word(body.as_str(), 16),
            None => Err(ParseError::Malformed),
        },
        Rule::ImmediateDec => parse_word(pair.as_str(), 10),
        Rule::ImmediateChar => match pair.child(0) {
            Some(body) => {
                let chars = chars_of(body.as_str().as_str());
                if chars.len() > 0 {
                    Ok(chars[0] as u32 % 256)
                } else {
                    Err(ParseError::Malformed)
                }
            },
            None => Err(ParseError::Malformed),
        },
        _ => Err(ParseError::Malformed),
    }
}

/// The number of a register.
pub fn parse_register(pair: &Pair) -> (result: Result<u8, ParseError>)
    ensures
        result == register_of(pair@),
{
    match pair.child(0) {
        None => Err(ParseError::Malformed),
        Some(num) => {
            let name = num.as_str();
            if text_is(name, "sp") {
                Ok(32)
            } else if text_is(name, "esp") {
                Ok(33)
            } else if text_is(name, "fp") {
                Ok(34)
            } else {
                match parse_number(name, 10, 255) {
                    None => Err(ParseError::InvalidNumber),
                    Some(value) => {
                        if value > LAST_REGISTER as u32 {
                            Err(ParseError::RegisterOutOfRange)
                        } else {
                            Ok(value as u8)
                        }
                    },
                }
            }
        },
    }
}

/// The operand that a value stands for.
fn parse_operand_value(pair: &Pair, is_pointer: bool, size: Size) -> (result: Result<
    AstNode,
    ParseError,
>)
    ensures
        result_view(result) == value_of(pair@, is_pointer, size),
{
    match pair.as_rule() {
        Rule::ImmediateBin | Rule::ImmediateHex | Rule::ImmediateDec | Rule::ImmediateChar => {
            match parse_immediate(pair) {
                Ok(immediate) => Ok(immediate_to_astnode(immediate, size, is_pointer)),
                Err(error) => Err(error),
            }
        },
        Rule::Register => match parse_register(pair) {
            Ok(register) => if is_pointer {
                Ok(AstNode::RegisterPointer(register))
            } else {
                Ok(AstNode::Register(register))
            },
            Err(error) => Err(error),
        },
        Rule::LabelName => {
            let name = pair.as_str().clone();
            if is_pointer {
                Ok(AstNode::LabelOperandPointer { name, is_relative: false })
            } else {
                Ok(AstNode::LabelOperand { name, size, is_relative: false })
            }
        },
        _ => Err(ParseError::Malformed),
    }
}

/// Memory at a register, with an offset where there is one that is not 0.
fn parse_register_pointer(pair: &Pair, pointer_offset: Option<&Pair>) -> (result: Result<
    AstNode,
    ParseError,
>)
    ensures
        ({
            let offset = match pointer_offset {
                Some(part) => Some(part@),
                None => None,
            };
            result_view(result) == register_pointer_of(pair@, offset)
        }),
{
    let register = match parse_register(pair) {
        Ok(register) => register,
        Err(error) => {
            return Err(error);
        },
    };
    let offset: u32 = match pointer_offset {
        None => 0,
        Some(part) => match part.child(0) {
            None => {
                return Err(ParseError::Malformed);
            },
            Some(immediate) => match parse_immediate(immediate) {
                Ok(value) => value,
                Err(error) => {
                    return Err(error);
                },
            },
        },
    };
    if offset == 0 {
        Ok(AstNode::RegisterPointer(register))
    } else {
        Ok(AstNode::RegisterPointerOffset(register, (offset % 256) as u8))
    }
}

/// The operand that a part of a parse tree stands for; an immediate value has the
/// size `size`.
pub fn parse_operand(pair: &Pair, is_pointer: bool, size: Size) -> (result: Result<
    AstNode,
    ParseError,
>)
    ensures
        result_view(result) == operand_of(pair@, is_pointer, size),
{
    let actual = if is_pointer {
        pair.child(0)
    } else {
        Some(pair)
    };
    let pointer_offset = if is_pointer {
        pair.child(1)
    } else {
        None
    };
    match actual {
        None => Err(ParseError::Malformed),
        Some(part) => match part.as_rule() {
            Rule::OperandValue => match part.child(0) {
                None => Err(ParseError::Malformed),
                Some(value) => parse_operand_value(value, is_pointer, size),
            },
            Rule::Register => parse_register_pointer(part, pointer_offset),
            _ => Err(ParseError::Malformed),
        },
    }
}

/// The operand, where it is a label with an address relative to the instruction.
pub open spec fn relative(operand: NodeView) -> NodeView {
    match operand {
        NodeView::LabelOperand { name, size, .. } => NodeView::LabelOperand {
            name,
            size,
            is_relative: true,
        },
        NodeView::LabelOperandPointer { name, .. } => NodeView::LabelOperandPointer {
            name,
            is_relative: true,
        },
        _ => operand,
    }
}

/// Whether the instruction takes its operand relative to its own address.
pub open spec fn jumps_relative(instruction: InstructionOne) -> bool {
    instruction is Rjmp || instruction is Rcall || instruction is Rloop
}

/// Whether the right operand counts or numbers bits: an immediate value is then a
/// single byte, whatever the size of the instruction.
pub open spec fn counts_bits(instruction: InstructionTwo) -> bool {
    match instruction {
        InstructionTwo::Sla
        | InstructionTwo::Sra
        | InstructionTwo::Srl
        | InstructionTwo::Rol
        | InstructionTwo::Ror
        | InstructionTwo::Bse
        | InstructionTwo::Bcl
        | InstructionTwo::Bts => true,
        _ => false,
    }
}

/// The instruction without operands of this name.
pub open spec fn zero_node(name: Seq<char>, size: Size, condition: Condition) -> Result<
    NodeView,
    ParseError,
> {
    match zero_named(name) {
        Some(instruction) => Ok(
            NodeView::OperationZero(OperationZero { size, condition, instruction }),
        ),
        None => Err(ParseError::Unsupported),
    }
}

/// The instruction of this name with one operand.
pub open spec fn one_node(
    name: Seq<char>,
    operand: NodeView,
    size: Size,
    condition: Condition,
) -> Result<NodeView, ParseError> {
    match one_named(name) {
        Some(instruction) => Ok(
            NodeView::OperationOne(
                OneView {
                    size,
                    condition,
                    instruction,
                    operand: Box::new(
                        if jumps_relative(instruction) {
                            relative(operand)
                        } else {
                            operand
                        },
                    ),
                },
            ),
        ),
        None => Err(ParseError::Unsupported),
    }
}

/// The increment or decrement of this name.
pub open spec fn incdec_node(
    name: Seq<char>,
    lhs: NodeView,
    rhs: NodeView,
    size: Size,
    condition: Condition,
) -> Result<NodeView, ParseError> {
    match incdec_named(name) {
        Some(instruction) => Ok(
            NodeView::OperationIncDec(
                IncDecView {
                    size,
                    condition,
                    instruction,
                    lhs: Box::new(lhs),
                    rhs: Box::new(rhs),
                },
            ),
        ),
        None => Err(ParseError::Unsupported),
    }
}

/// The right operand of an instruction with two operands, as it is encoded.
pub open spec fn right_operand(instruction: InstructionTwo, rhs: NodeView) -> NodeView {
    if instruction is Rta {
        relative(rhs)
    } else if counts_bits(instruction) {
        match optimize::immediate_value(rhs) {
            Some(value) => NodeView::Immediate8((value % 256) as u8),
            None => rhs,
        }
    } else {
        rhs
    }
}

/// The instruction of this name with two operands.
pub open spec fn two_node(
    name: Seq<char>,
    lhs: NodeView,
    rhs: NodeView,
    size: Size,
    condition: Condition,
) -> Result<NodeView, ParseError> {
    match two_named(name) {
        Some(instruction) => Ok(
            NodeView::OperationTwo(
                TwoView {
                    size,
                    condition,
                    instruction,
                    lhs: Box::new(
                        if instruction is Rta {
                            relative(lhs)
                        } else {
                            lhs
                        },
                    ),
                    rhs: Box::new(right_operand(instruction, rhs)),
                },
            ),
        ),
        None => Err(ParseError::Unsupported),
    }
}

/// The instruction without operands of this name.
pub fn instruction_zero(name: &String) -> (instruction: Option<InstructionZero>)
    ensures
        instruction == zero_named(name@),
{
    if text_is(name, "nop") {
        Some(InstructionZero::Nop)
    } else if text_is(name, "halt") {
        Some(InstructionZero::Halt)
    } else if text_is(name, "brk") {
        Some(InstructionZero::Brk)
    } else if text_is(name, "ret") {
        Some(InstructionZero::Ret)
    } else if text_is(name, "reti") {
        Some(InstructionZero::Reti)
    } else if text_is(name, "ise") {
        Some(InstructionZero::Ise)
    } else if text_is(name, "icl") {
        Some(InstructionZero::Icl)
    } else if text_is(name, "mse") {
        Some(InstructionZero::Mse)
    } else if text_is(name, "mcl") {
        Some(InstructionZero::Mcl)
    } else {
        None
    }
}

/// The instruction without operands that is named.
pub fn parse_instruction_zero(pair: &Pair, size: Size, condition: Condition) -> (result: Result<
    AstNode,
    ParseError,
>)
    ensures
        result_view(result) == zero_node(pair@.text, size, condition),
{
    let instruction = match instruction_zero(pair.as_str()) {
        Some(instruction) => instruction,
        None => {
            return Err(ParseError::Unsupported);
        },
    };
    Ok(AstNode::OperationZero(OperationZero { size, condition, instruction }))
}

/// The operand, where it is a label with an address relative to the instruction.
fn make_relative(operand: AstNode) -> (result: AstNode)
    ensures
        result@ == relative(operand@),
{
    match operand {
        AstNode::LabelOperand { name, size, .. } => AstNode::LabelOperand {
            name,
            size,
            is_relative: true,
        },
        AstNode::LabelOperandPointer { name, .. } => AstNode::LabelOperandPointer {
            name,
            is_relative: true,
        },
        other => other,
    }
}

/// The instruction with one operand of this name.
pub fn instruction_one(name: &String) -> (instruction: Option<InstructionOne>)
    ensures
        instruction == one_named(name@),
{
    if text_is(name, "not") {
        Some(InstructionOne::Not)
    } else if text_is(name, "jmp") {
        Some(InstructionOne::Jmp)
    } else if text_is(name, "call") {
        Some(InstructionOne::Call)
    } else if text_is(name, "loop") {
        Some(InstructionOne::Loop)
    } else if text_is(name, "rjmp") {
        Some(InstructionOne::Rjmp)
    } else if text_is(name, "rcall") {
        Some(InstructionOne::Rcall)
    } else if text_is(name, "rloop") {
        Some(InstructionOne::Rloop)
    } else if text_is(name, "push") {
        Some(InstructionOne::Push)
    } else if text_is(name, "pop") {
        Some(InstructionOne::Pop)
    } else if text_is(name, "int") {
        Some(InstructionOne::Int)
    } else if text_is(name, "tlb") {
        Some(InstructionOne::Tlb)
    } else if text_is(name, "flp") {
        Some(InstructionOne::Flp)
    } else {
        None
    }
}

/// The instruction with the given operand that is named.
pub fn parse_instruction_one(
    pair: &Pair,
    operand: AstNode,
    size: Size,
    condition: Condition,
) -> (result: Result<AstNode, ParseError>)
    ensures
        result_view(result) == one_node(pair@.text, operand@, size, condition),
{
    let instruction = match instruction_one(pair.as_str()) {
        Some(instruction) => instruction,
        None => {
            return Err(ParseError::Unsupported);
        },
    };
    let target = match instruction {
        InstructionOne::Rjmp | InstructionOne::Rcall | InstructionOne::Rloop => make_relative(
            operand,
        ),
        _ => operand,
    };
    Ok(
        AstNode::OperationOne(
            OperationOne { size, condition, instruction, operand: Box::new(target) },
        ),
    )
}

/// The increment or decrement of this name.
pub fn instruction_incdec(name: &String) -> (instruction: Option<InstructionIncDec>)
    ensures
        instruction == incdec_named(name@),
{
    if text_is(name, "inc") {
        Some(InstructionIncDec::Inc)
    } else if text_is(name, "dec") {
        Some(InstructionIncDec::Dec)
    } else {
        None
    }
}

/// The increment or decrement that is named, by the step `rhs`.
pub fn parse_instruction_incdec(
    pair: &Pair,
    lhs: AstNode,
    rhs: AstNode,
    size: Size,
    condition: Condition,
) -> (result: Result<AstNode, ParseError>)
    ensures
        result_view(result) == incdec_node(pair@.text, lhs@, rhs@, size, condition),
{
    let instruction = match instruction_incdec(pair.as_str()) {
        Some(instruction) => instruction,
        None => {
            return Err(ParseError::Unsupported);
        },
    };
    Ok(
        AstNode::OperationIncDec(
            OperationIncDec {
                size,
                condition,
                instruction,
                lhs: Box::new(lhs),
                rhs: Box::new(rhs),
            },
        ),
    )
}

/// The instruction with two operands of this name.
pub fn instruction_two(name: &String) -> (instruction: Option<InstructionTwo>)
    ensures
        instruction == two_named(name@),
{
    if text_is(name, "add") {
        Some(InstructionTwo::Add)
    } else if text_is(name, "sub") {
        Some(InstructionTwo::Sub)
    } else if text_is(name, "mul") {
        Some(InstructionTwo::Mul)
    } else if text_is(name, "imul") {
        Some(InstructionTwo::Imul)
    } else if text_is(name, "div") {
        Some(InstructionTwo::Div)
    } else if text_is(name, "idiv") {
        Some(InstructionTwo::Idiv)
    } else if text_is(name, "rem") {
        Some(InstructionTwo::Rem)
    } else if text_is(name, "irem") {
        Some(InstructionTwo::Irem)
    } else if text_is(name, "and") {
        Some(InstructionTwo::And)
    } else if text_is(name, "or") {
        Some(InstructionTwo::Or)
    } else if text_is(name, "xor") {
        Some(InstructionTwo::Xor)
    } else if text_is(name, "sla") {
        Some(InstructionTwo::Sla)
    } else if text_is(name, "sra") {
        Some(InstructionTwo::Sra)
    } else if text_is(name, "srl") {
        Some(InstructionTwo::Srl)
    } else if text_is(name, "rol") {
        Some(InstructionTwo::Rol)
    } else if text_is(name, "ror") {
        Some(InstructionTwo::Ror)
    } else if text_is(name, "bse") {
        Some(InstructionTwo::Bse)
    } else if text_is(name, "bcl") {
        Some(InstructionTwo::Bcl)
    } else if text_is(name, "bts") {
        Some(InstructionTwo::Bts)
    } else if text_is(name, "cmp") {
        Some(InstructionTwo::Cmp)
    } else if text_is(name, "mov") {
        Some(InstructionTwo::Mov)
    } else if text_is(name, "movz") {
        Some(InstructionTwo::Movz)
    } else if text_is(name, "rta") {
        Some(InstructionTwo::Rta)
    } else if text_is(name, "in") {
        Some(InstructionTwo::In)
    } else if text_is(name, "out") {
        Some(InstructionTwo::Out)
    } else {
        None
    }
}

/// The right operand of an instruction with two operands, as it is encoded.
fn make_right_operand(instruction: InstructionTwo, rhs: AstNode) -> (result: AstNode)
    ensures
        result@ == right_operand(instruction, rhs@),
{
    match instruction {
        InstructionTwo::Rta => make_relative(rhs),
        InstructionTwo::Sla
        | InstructionTwo::Sra
        | InstructionTwo::Srl
        | InstructionTwo::Rol
        | InstructionTwo::Ror
        | InstructionTwo::Bse
        | InstructionTwo::Bcl
        | InstructionTwo::Bts => match node_value(&rhs) {
            Some(value) => AstNode::Immediate8((value % 256) as u8),
            None => rhs,
        },
        _ => rhs,
    }
}

/// The instruction with the given operands that is named.
pub fn parse_instruction_two(
    pair: &Pair,
    lhs: AstNode,
    rhs: AstNode,
    size: Size,
    condition: Condition,
) -> (result: Result<AstNode, ParseError>)
    ensures
        result_view(result) == two_node(pair@.text, lhs@, rhs@, size, condition),
{
    let instruction = match instruction_two(pair.as_str()) {
        Some(instruction) => instruction,
        None => {
            return Err(ParseError::Unsupported);
        },
    };
    let left = match instruction {
        InstructionTwo::Rta => make_relative(lhs),
        _ => lhs,
    };
    let right = make_right_operand(instruction, rhs);
    Ok(
        AstNode::OperationTwo(
            OperationTwo {
                size,
                condition,
                instruction,
                lhs: Box::new(left),
                rhs: Box::new(right),
            },
        ),
    )
}

} // verus!
