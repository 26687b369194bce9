//! From the parse tree of a statement to the statement.

use crate::ast::{AstNode, Condition, LabelKind, NodeView, Size};
use crate::builder::{
    parse_condition, parse_incdec_amount, parse_instruction_incdec, parse_instruction_one,
    parse_instruction_two, parse_instruction_zero, parse_operand, parse_size, ParseError,
};
use crate::text::{text_is, trim};
use crate::tree::{Pair, Rule, Tree};
use crate::{ast, builder, text, tree};
use vstd::prelude::*;

verus! {

/// A constant: the part with the number `at` holds its name, the next one its value.
pub open spec fn constant_of(tree: Tree, at: int) -> Result<NodeView, ParseError> {
    match tree.child(at) {
        None => Err(ParseError::Malformed),
        Some(name_part) => match (name_part.child(0), tree.child(at + 1)) {
            (Some(name), Some(value)) => match builder::operand_of(value, false, Size::Word) {
                Ok(NodeView::Immediate32(address)) => Ok(
                    NodeView::Constant { name: name.text, address },
                ),
                Ok(_) => Err(ParseError::ConstantNotImmediate),
                Err(error) => Err(error),
            },
            _ => Err(ParseError::Malformed),
        },
    }
}

/// The kind of a label that is marked with a kind.
pub open spec fn label_kind_of(tree: Tree) -> Option<LabelKind> {
    match tree.child(0) {
        Some(part) => match part.rule {
            Rule::LabelExternal => Some(LabelKind::External),
            Rule::LabelGlobal => Some(LabelKind::Global),
            _ => None,
        },
        None => None,
    }
}

/// The definition of a label: its name, or its kind and its name.
pub open spec fn label_of(first: Tree, second: Option<Tree>) -> Result<NodeView, ParseError> {
    if first.rule == Rule::LabelKind {
        match (label_kind_of(first), second) {
            (Some(kind), Some(name)) => Ok(NodeView::LabelDefine { name: name.text, kind }),
            _ => Err(ParseError::Malformed),
        }
    } else {
        Ok(NodeView::LabelDefine { name: first.text, kind: LabelKind::Internal })
    }
}

/// A single value of the given size: a number is cut down to that size.
pub open spec fn data_value(value: NodeView, size: Size) -> Result<NodeView, ParseError> {
    match value {
        NodeView::Immediate32(word) => Ok(
            match size {
                Size::Byte => NodeView::DataByte((word % 256) as u8),
                Size::Half => NodeView::DataHalf((word % 65536) as u16),
                Size::Word => NodeView::DataWord(word),
            },
        ),
        NodeView::LabelOperand { name, is_relative, .. } => Ok(
            NodeView::LabelOperand { name, size, is_relative },
        ),
        _ => Err(ParseError::DataNotImmediate),
    }
}

/// A word that is written out, in the part with the number `i`.
pub open spec fn word_part(tree: Tree, i: int, otherwise: ParseError, size: Size) -> Result<
    u32,
    ParseError,
> {
    match tree.child(i) {
        None => Err(ParseError::Malformed),
        Some(part) => match builder::operand_of(part, false, size) {
            Ok(NodeView::Immediate32(word)) => Ok(word),
            Ok(_) => Err(otherwise),
            Err(error) => Err(error),
        },
    }
}

/// The text between quotes.
pub open spec fn quoted_of(tree: Tree) -> Result<Seq<char>, ParseError> {
    match tree.child(0) {
        Some(quoted) => match quoted.child(0) {
            Some(body) => Ok(body.text),
            None => Err(ParseError::Malformed),
        },
        None => Err(ParseError::Malformed),
    }
}

/// The size of the value of `data.8`, `data.16` and `data.32`.
pub open spec fn data_size(rule: Rule) -> Option<Size> {
    match rule {
        Rule::DataByte => Some(Size::Byte),
        Rule::DataHalf => Some(Size::Half),
        Rule::DataWord => Some(Size::Word),
        _ => None,
    }
}

/// A piece of data.
pub open spec fn data_of(tree: Tree) -> Result<NodeView, ParseError> {
    match data_size(tree.rule) {
        Some(size) => match tree.child(0) {
            None => Err(ParseError::Malformed),
            Some(part) => match builder::operand_of(part, false, Size::Word) {
                Ok(value) => data_value(value, size),
                Err(error) => Err(error),
            },
        },
        None => match tree.rule {
            Rule::DataStr => match quoted_of(tree) {
                Ok(string) => Ok(NodeView::DataStr(string)),
                Err(error) => Err(error),
            },
            Rule::DataStrZero => match quoted_of(tree) {
                Ok(string) => Ok(NodeView::DataStrZero(string)),
                Err(error) => Err(error),
            },
            Rule::DataFill => match word_part(tree, 0, ParseError::DataNotImmediate, Size::Word) {
                Err(error) => Err(error),
                Ok(value) => match word_part(tree, 1, ParseError::DataNotImmediate, Size::Word) {
                    Err(error) => Err(error),
                    Ok(size) => Ok(NodeView::DataFill { value: (value % 256) as u8, size }),
                },
            },
            _ => Err(ParseError::Malformed),
        },
    }
}

/// The switch that turns optimization on or off.
pub open spec fn opt_of(tree: Tree) -> Result<NodeView, ParseError> {
    if tree.text == "opton"@ {
        Ok(NodeView::Optimize(true))
    } else if tree.text == "optoff"@ {
        Ok(NodeView::Optimize(false))
    } else {
        Err(ParseError::Unsupported)
    }
}

/// A new origin. Its value has the size of the instruction before it, and only a
/// word is an address.
pub open spec fn origin_of(tree: Tree, size: Size) -> Result<NodeView, ParseError> {
    match tree.rule {
        Rule::OriginNoPadding => match word_part(tree, 0, ParseError::OriginNotImmediate, size) {
            Ok(address) => Ok(NodeView::Origin(address)),
            Err(error) => Err(error),
        },
        Rule::OriginPadding => match word_part(tree, 0, ParseError::OriginNotImmediate, size) {
            Ok(address) => Ok(NodeView::OriginPadded(address)),
            Err(error) => Err(error),
        },
        _ => Err(ParseError::Malformed),
    }
}

/// A binary file to be read, by its path without white space around it.
pub open spec fn include_of(tree: Tree, optional: bool) -> Result<NodeView, ParseError> {
    match tree.child(0) {
        Some(part) => Ok(NodeView::IncludeBinary { path: text::trimmed(part.text), optional }),
        None => Err(ParseError::Malformed),
    }
}

/// The size of an instruction and the number of the part after it: a word, where no
/// size is given.
pub open spec fn size_of(tree: Tree) -> Result<(Size, int), ParseError> {
    match tree.child(1) {
        Some(part) => if part.rule == Rule::Size {
            match builder::size_named(part.text) {
                Some(size) => Ok((size, 2)),
                None => Err(ParseError::Unsupported),
            }
        } else {
            Ok((Size::Word, 1))
        },
        None => Ok((Size::Word, 1)),
    }
}

/// The result of a statement, with the size that the next one starts with.
pub open spec fn with_size(result: Result<NodeView, ParseError>, size: Size) -> Result<
    (NodeView, Size),
    ParseError,
> {
    match result {
        Ok(node) => Ok((node, size)),
        Err(error) => Err(error),
    }
}

/// An instruction under a condition, and the size that the next statement starts
/// with.
pub open spec fn instruction_of(tree: Tree, condition: Condition) -> Result<
    (NodeView, Size),
    ParseError,
>
    decreases tree,
{
    match (tree.rule, tree.child(0), size_of(tree)) {
        (Rule::InstructionConditional, Some(name), Ok((size, at))) => match name.rule {
            Rule::InstructionZero => with_size(
                builder::zero_node(name.text, size, condition),
                size,
            ),
            Rule::InstructionOne => if at < tree.inner.len() {
                match statement_of(tree.inner[at], size) {
                    Err(error) => Err(error),
                    Ok((operand, after)) => with_size(
                        builder::one_node(name.text, operand, size, condition),
                        after,
                    ),
                }
            } else {
                Err(ParseError::Malformed)
            },
            Rule::InstructionIncDec => if at < tree.inner.len() {
                match statement_of(tree.inner[at], size) {
                    Err(error) => Err(error),
                    Ok((lhs, after)) => {
                        let step = match tree.child(at + 1) {
                            Some(amount) => builder::step_of(amount),
                            None => Ok(NodeView::Immediate8(0)),
                        };
                        match step {
                            Err(error) => Err(error),
                            Ok(rhs) => with_size(
                                builder::incdec_node(name.text, lhs, rhs, size, condition),
                                after,
                            ),
                        }
                    },
                }
            } else {
                Err(ParseError::Malformed)
            },
            Rule::InstructionTwo => if at + 1 < tree.inner.len() {
                match statement_of(tree.inner[at], size) {
                    Err(error) => Err(error),
                    Ok((lhs, between)) => match statement_of(tree.inner[at + 1], between) {
                        Err(error) => Err(error),
                        Ok((rhs, after)) => with_size(
                            builder::two_node(name.text, lhs, rhs, size, condition),
                            after,
                        ),
                    },
                }
            } else {
                Err(ParseError::Malformed)
            },
            _ => Err(ParseError::Malformed),
        },
        (Rule::InstructionConditional, Some(name), Err(error)) => if name.rule
            == Rule::InstructionZero || name.rule == Rule::InstructionOne || name.rule
            == Rule::InstructionIncDec || name.rule == Rule::InstructionTwo {
            Err(error)
        } else {
            Err(ParseError::Malformed)
        },
        _ => Err(ParseError::Malformed),
    }
}

/// The statement or the operand that a part of a parse tree stands for, where the
/// size that is left from the statement before is `size`; and the size that is left
/// after it.
pub open spec fn statement_of(tree: Tree, size: Size) -> Result<(NodeView, Size), ParseError>
    decreases tree,
{
    if tree.inner.len() == 0 {
        Err(ParseError::Malformed)
    } else {
        let first = tree.inner[0];
        let condition = if first.rule == Rule::Condition {
            builder::condition_named(first.text)
        } else {
            Some(Condition::Always)
        };
        let at: int = if first.rule == Rule::Condition {
            1
        } else {
            0
        };
        if condition is None {
            Err(ParseError::Unsupported)
        } else if tree.rule == Rule::Constant {
            with_size(constant_of(tree, at), Size::Word)
        } else if at >= tree.inner.len() {
            Err(ParseError::Malformed)
        } else {
            let part = tree.inner[at];
            match tree.rule {
                Rule::Assembly => statement_of(part, size),
                Rule::Instruction => instruction_of(part, condition->0),
                Rule::Operand => with_size(
                    builder::operand_of(part, first.rule == Rule::OperandValuePtr, size),
                    size,
                ),
                Rule::Label => with_size(label_of(part, tree.child(at + 1)), size),
                Rule::Data => with_size(data_of(part), Size::Word),
                Rule::Opt => with_size(opt_of(part), size),
                Rule::Origin => with_size(origin_of(part, size), size),
                Rule::IncludeBin => with_size(include_of(part, false), size),
                Rule::IncludeBinOptional => with_size(include_of(part, true), size),
                _ => Err(ParseError::Malformed),
            }
        }
    }
}

/// Parses a constant: the part with the number `at` holds its name, the next one its
/// value.
pub fn parse_constant(pair: &Pair, at: usize) -> (result: Result<AstNode, ParseError>)
    requires
        at < usize::MAX,
    ensures
        builder::result_view(result) == constant_of(pair@, at as int),
{
    let name = match pair.child(at) {
        None => {
            return Err(ParseError::Malformed);
        },
        Some(name_part) => match name_part.child(0) {
            None => {
                return Err(ParseError::Malformed);
            },
            Some(name) => name,
        },
    };
    match pair.child(at + 1) {
        None => Err(ParseError::Malformed),
        Some(value) => match parse_operand(value, false, Size::Word) {
            Ok(AstNode::Immediate32(address)) => Ok(
                AstNode::Constant { name: name.as_str().clone(), address },
            ),
            Ok(_) => Err(ParseError::ConstantNotImmediate),
            Err(error) => Err(error),
        },
    }
}

/// Parses the definition of a label: its name, or its kind and its name.
pub fn parse_label(pair: &Pair, next_pair: Option<&Pair>) -> (result: Result<AstNode, ParseError>)
    ensures
        builder::result_view(result) == label_of(
            pair@,
            match next_pair {
                Some(next) => Some(next@),
                None => None,
            },
        ),
{
    if pair.as_rule() == Rule::LabelKind {
        let kind = match pair.child(0) {
            Some(part) => match part.as_rule() {
                Rule::LabelExternal => LabelKind::External,
                Rule::LabelGlobal => LabelKind::Global,
                _ => {
                    return Err(ParseError::Malformed);
                },
            },
            None => {
                return Err(ParseError::Malformed);
            },
        };
        match next_pair {
            Some(name) => Ok(AstNode::LabelDefine { name: name.as_str().clone(), kind }),
            None => Err(ParseError::Malformed),
        }
    } else {
        Ok(AstNode::LabelDefine { name: pair.as_str().clone(), kind: LabelKind::Internal })
    }
}

/// A single value of the given size.
fn sized_data(value: AstNode, size: Size) -> (result: Result<AstNode, ParseError>)
    ensures
        builder::result_view(result) == data_value(value@, size),
{
    match value {
        AstNode::Immediate32(word) => match size {
            Size::Byte => Ok(AstNode::DataByte((word % 256) as u8)),
            Size::Half => Ok(AstNode::DataHalf((word % 65536) as u16)),
            Size::Word => Ok(AstNode::DataWord(word)),
        },
        AstNode::LabelOperand { name, is_relative, .. } => Ok(
            AstNode::LabelOperand { name, size, is_relative },
        ),
        _ => Err(ParseError::DataNotImmediate),
    }
}

/// A single value of the given size, in the first part.
fn parse_data_value(pair: &Pair, size: Size) -> (result: Result<AstNode, ParseError>)
    requires
        data_size(pair@.rule) == Some(size),
    ensures
        builder::result_view(result) == data_of(pair@),
{
    match pair.child(0) {
        None => Err(ParseError::Malformed),
        Some(part) => match parse_operand(part, false, Size::Word) {
            Ok(value) => sized_data(value, size),
            Err(error) => Err(error),
        },
    }
}

/// A word that is written out, in the part with the number `i`.
fn parse_word_part(pair: &Pair, i: usize, otherwise: ParseError, size: Size) -> (result: Result<
    u32,
    ParseError,
>)
    ensures
        result == word_part(pair@, i as int, otherwise, size),
{
    match pair.child(i) {
        None => Err(ParseError::Malformed),
        Some(part) => match parse_operand(part, false, size) {
            Ok(AstNode::Immediate32(word)) => Ok(word),
            Ok(_) => Err(otherwise),
            Err(error) => Err(error),
        },
    }
}

/// The text between quotes.
fn parse_quoted(pair: &Pair) -> (result: Result<String, ParseError>)
    ensures
        match result {
            Ok(string) => quoted_of(pair@) == Ok::<Seq<char>, ParseError>(string@),
            Err(error) => quoted_of(pair@) == Err::<Seq<char>, ParseError>(error),
        },
{
    match pair.child(0) {
        Some(quoted) => match quoted.child(0) {
            Some(body) => Ok(body.as_str().clone()),
            None => Err(ParseError::Malformed),
        },
        None => Err(ParseError::Malformed),
    }
}

/// Parses a piece of data.
pub fn parse_data(pair: &Pair) -> (result: Result<AstNode, ParseError>)
    ensures
        builder::result_view(result) == data_of(pair@),
{
    match pair.as_rule() {
        Rule::DataByte => parse_data_value(pair, Size::Byte),
        Rule::DataHalf => parse_data_value(pair, Size::Half),
        Rule::DataWord => parse_data_value(pair, Size::Word),
        Rule::DataStr => match parse_quoted(pair) {
            Ok(string) => Ok(AstNode::DataStr(string)),
            Err(error) => Err(error),
        },
        Rule::DataStrZero => match parse_quoted(pair) {
            Ok(string) => Ok(AstNode::DataStrZero(string)),
            Err(error) => Err(error),
        },
        Rule::DataFill => match parse_word_part(pair, 0, ParseError::DataNotImmediate, Size::Word) {
            Err(error) => Err(error),
            Ok(value) => match parse_word_part(pair, 1, ParseError::DataNotImmediate, Size::Word) {
                Err(error) => Err(error),
                Ok(size) => Ok(AstNode::DataFill { value: (value % 256) as u8, size }),
            },
        },
        _ => Err(ParseError::Malformed),
    }
}

/// Parses the switch that turns optimization on or off.
pub fn parse_opt(pair: &Pair) -> (result: Result<AstNode, ParseError>)
    ensures
        builder::result_view(result) == opt_of(pair@),
{
    let name = pair.as_str();
    if text_is(name, "opton") {
        Ok(AstNode::Optimize(true))
    } else if text_is(name, "optoff") {
        Ok(AstNode::Optimize(false))
    } else {
        Err(ParseError::Unsupported)
    }
}

/// Parses a new origin, whose value has the size `size`.
pub fn parse_origin(pair: &Pair, size: Size) -> (result: Result<AstNode, ParseError>)
    ensures
        builder::result_view(result) == origin_of(pair@, size),
{
    match pair.as_rule() {
        Rule::OriginNoPadding => match parse_word_part(
            pair,
            0,
            ParseError::OriginNotImmediate,
            size,
        ) {
            Ok(address) => Ok(AstNode::Origin(address)),
            Err(error) => Err(error),
        },
        Rule::OriginPadding => match parse_word_part(
            pair,
            0,
            ParseError::OriginNotImmediate,
            size,
        ) {
            Ok(address) => Ok(AstNode::OriginPadded(address)),
            Err(error) => Err(error),
        },
        _ => Err(ParseError::Malformed),
    }
}

/// Parses the name of a binary file to be read.
pub fn include_binary_file(pair: &Pair, optional: bool) -> (result: Result<AstNode, ParseError>)
    ensures
        builder::result_view(result) == include_of(pair@, optional),
{
    match pair.child(0) {
        Some(part) => Ok(
            AstNode::IncludeBinary { path: trim(part.as_str().as_str()), optional },
        ),
        None => Err(ParseError::Malformed),
    }
}

/// The mathematical form of a statement and of the size that is left after it.
pub open spec fn sized_view(result: Result<(AstNode, Size), ParseError>) -> Result<
    (NodeView, Size),
    ParseError,
> {
    match result {
        Ok((node, size)) => Ok((node@, size)),
        Err(error) => Err(error),
    }
}

/// The result of a statement, with the size that the next one starts with.
fn keep_size(result: Result<AstNode, ParseError>, size: Size) -> (sized: Result<
    (AstNode, Size),
    ParseError,
>)
    ensures
        sized_view(sized) == with_size(builder::result_view(result), size),
{
    match result {
        Ok(node) => Ok((node, size)),
        Err(error) => Err(error),
    }
}

/// The size of an instruction and the number of the part after it.
fn parse_instruction_size(pair: &Pair) -> (result: Result<(Size, usize), ParseError>)
    ensures
        match result {
            Ok((size, at)) => size_of(pair@) == Ok::<(Size, int), ParseError>((size, at as int))
                && at <= 2,
            Err(error) => size_of(pair@) == Err::<(Size, int), ParseError>(error),
        },
{
    match pair.child(1) {
        Some(part) => if part.as_rule() == Rule::Size {
            match parse_size(part) {
                Ok(size) => Ok((size, 2)),
                Err(error) => Err(error),
            }
        } else {
            Ok((Size::Word, 1))
        },
        None => Ok((Size::Word, 1)),
    }
}

/// Parses an instruction under a condition.
pub fn parse_instruction(pair: &Pair, condition: Condition) -> (result: Result<
    (AstNode, Size),
    ParseError,
>)
    ensures
        sized_view(result) == instruction_of(pair@, condition),
    decreases pair,
{
    if pair.as_rule() != Rule::InstructionConditional {
        return Err(ParseError::Malformed);
    }
    let name = match pair.child(0) {
        Some(name) => name,
        None => {
            return Err(ParseError::Malformed);
        },
    };
    match name.as_rule() {
        Rule::InstructionZero
        | Rule::InstructionOne
        | Rule::InstructionIncDec
        | Rule::InstructionTwo => {},
        _ => {
            return Err(ParseError::Malformed);
        },
    }
    let (size, at) = match parse_instruction_size(pair) {
        Ok(found) => found,
        Err(error) => {
            return Err(error);
        },
    };
    if name.as_rule() == Rule::InstructionZero {
        return keep_size(parse_instruction_zero(name, size, condition), size);
    }
    let first = match pair.child(at) {
        Some(first) => first,
        None => {
            return Err(ParseError::Malformed);
        },
    };
    let second = pair.child(at + 1);
    if name.as_rule() == Rule::InstructionTwo && second.is_none() {
        return Err(ParseError::Malformed);
    }
    let (lhs, between) = match build_ast_from_expression(first, size) {
        Ok(found) => found,
        Err(error) => {
            return Err(error);
        },
    };
    match name.as_rule() {
        Rule::InstructionOne => keep_size(
            parse_instruction_one(name, lhs, size, condition),
            between,
        ),
        Rule::InstructionIncDec => {
            let rhs = match second {
                Some(amount) => match parse_incdec_amount(amount) {
                    Ok(rhs) => rhs,
                    Err(error) => {
                        return Err(error);
                    },
                },
                None => AstNode::Immediate8(0),
            };
            keep_size(parse_instruction_incdec(name, lhs, rhs, size, condition), between)
        },
        _ => match second {
            None => Err(ParseError::Malformed),
            Some(operand) => match build_ast_from_expression(operand, between) {
                Ok((rhs, after)) => keep_size(
                    parse_instruction_two(name, lhs, rhs, size, condition),
                    after,
                ),
                Err(error) => Err(error),
            },
        },
    }
}

/// Builds the statement or the operand that a part of a parse tree stands for. Where
/// an immediate value has no size of its own, it has the size `current_size` that is
/// left from the statement before; the size that is left now is returned too.
pub fn build_ast_from_expression(pair: &Pair, current_size: Size) -> (result: Result<
    (AstNode, Size),
    ParseError,
>)
    ensures
        sized_view(result) == statement_of(pair@, current_size),
    decreases pair,
{
    let first = match pair.child(0) {
        Some(first) => first,
        None => {
            return Err(ParseError::Malformed);
        },
    };
    let mut condition = Condition::Always;
    let mut at: usize = 0;
    if first.as_rule() == Rule::Condition {
        condition = match parse_condition(first) {
            Ok(named) => named,
            Err(error) => {
                return Err(error);
            },
        };
        at = 1;
    }
    let is_pointer = first.as_rule() == Rule::OperandValuePtr;
    if pair.as_rule() == Rule::Constant {
        return keep_size(parse_constant(pair, at), Size::Word);
    }
    let part = match pair.child(at) {
        Some(part) => part,
        None => {
            return Err(ParseError::Malformed);
        },
    };
    match pair.as_rule() {
        Rule::Assembly => build_ast_from_expression(part, current_size),
        Rule::Instruction => parse_instruction(part, condition),
        Rule::Operand => keep_size(parse_operand(part, is_pointer, current_size), current_size),
        Rule::Label => keep_size(parse_label(part, pair.child(at + 1)), current_size),
        Rule::Data => keep_size(parse_data(part), Size::Word),
        Rule::Opt => keep_size(parse_opt(part), current_size),
        Rule::Origin => keep_size(parse_origin(part, current_size), current_size),
        Rule::IncludeBin => keep_size(include_binary_file(part, false), current_size),
        Rule::IncludeBinOptional => keep_size(include_binary_file(part, true), current_size),
        _ => Err(ParseError::Malformed),
    }
}

/// The statements that the parts of a program stand for, up to the end of the input.
/// Each starts with the size that the one before it leaves.
pub open spec fn program_of(parts: Seq<Tree>, size: Size) -> Result<Seq<NodeView>, ParseError>
    decreases parts.len(),
{
    if parts.len() == 0 || parts[0].rule == Rule::EndOfInput {
        Ok(Seq::empty())
    } else {
        match statement_of(parts[0], size) {
            Err(error) => Err(error),
            Ok((node, after)) => before(seq![node], program_of(parts.drop_first(), after)),
        }
    }
}

/// The statements `nodes` and those that follow.
pub open spec fn before(nodes: Seq<NodeView>, rest: Result<Seq<NodeView>, ParseError>) -> Result<
    Seq<NodeView>,
    ParseError,
> {
    match rest {
        Ok(more) => Ok(nodes + more),
        Err(error) => Err(error),
    }
}

/// The mathematical form of the statements of a program.
pub open spec fn program_view(result: Result<Vec<AstNode>, ParseError>) -> Result<
    Seq<NodeView>,
    ParseError,
> {
    match result {
        Ok(nodes) => Ok(ast::node_views(nodes@)),
        Err(error) => Err(error),
    }
}

/// Builds the statements that the parts of a program stand for.
pub fn build_program(parts: &Vec<Pair>) -> (result: Result<Vec<AstNode>, ParseError>)
    ensures
        program_view(result) == program_of(tree::trees(parts@), Size::Word),
{
    let mut nodes: Vec<AstNode> = Vec::new();
    let mut size = Size::Word;
    let mut i: usize = 0;
    let ghost all = tree::trees(parts@);
    let ghost whole = program_of(all, Size::Word);
    proof {
        assert(all.skip(0) =~= all);
        assert(ast::node_views(nodes@) =~= Seq::empty());
        if whole is Ok {
            assert(Seq::empty() + whole->Ok_0 =~= whole->Ok_0);
        }
    }
    while i < parts.len() && parts[i].as_rule() != Rule::EndOfInput
        invariant
            i <= parts@.len(),
            all == tree::trees(parts@),
            whole == program_of(all, Size::Word),
            whole == before(ast::node_views(nodes@), program_of(all.skip(i as int), size)),
        decreases parts@.len() - i,
    {
        assert(all.skip(i as int)[0] == parts@[i as int]@);
        assert(all.skip(i as int).drop_first() =~= all.skip(i + 1));
        let ghost done = ast::node_views(nodes@);
        match build_ast_from_expression(&parts[i], size) {
            Ok((node, after)) => {
                let ghost view = node@;
                nodes.push(node);
                proof {
                    assert(ast::node_views(nodes@) =~= done + seq![view]);
                    let rest = program_of(all.skip(i + 1), after);
                    if rest is Ok {
                        assert(done + (seq![view] + rest->Ok_0) =~= (done + seq![view])
                            + rest->Ok_0);
                    }
                }
                size = after;
            },
            Err(error) => {
                return Err(error);
            },
        }
        i = i + 1;
    }
    proof {
        assert(ast::node_views(nodes@) + Seq::<NodeView>::empty() =~= ast::node_views(nodes@));
        if i < parts@.len() {
            assert(all.skip(i as int)[0] == parts@[i as int]@);
        }
    }
    Ok(nodes)
}

} // verus!
