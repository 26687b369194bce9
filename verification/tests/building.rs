//! From parse trees to statements.

use fox32asm::ast::{
    AstNode, Condition, InstructionIncDec, InstructionOne, InstructionTwo, InstructionZero,
    LabelKind, OperationIncDec, OperationOne, OperationTwo, OperationZero, Size,
};
use fox32asm::builder::{
    immediate_to_astnode, parse_condition, parse_immediate, parse_incdec_amount,
    parse_instruction_incdec, parse_instruction_one, parse_instruction_two,
    parse_instruction_zero, parse_operand, parse_register, parse_size, ParseError,
};
use fox32asm::numbers::{parse_number, remove_underscores};
use fox32asm::statements::{
    build_ast_from_expression, include_binary_file, parse_constant, parse_data,
    parse_instruction, parse_label, parse_opt, parse_origin,
};
use fox32asm::text::trim;
use fox32asm::tree::{Pair, Rule};

fn leaf(rule: Rule, text: &str) -> Pair {
    Pair::new(rule, text.to_string(), vec![])
}

fn node(rule: Rule, inner: Vec<Pair>) -> Pair {
    Pair::new(rule, String::new(), inner)
}

fn decimal(text: &str) -> Pair {
    node(Rule::OperandValue, vec![leaf(Rule::ImmediateDec, text)])
}

fn register(text: &str) -> Pair {
    node(Rule::Register, vec![leaf(Rule::RegisterNum, text)])
}

#[test]
fn pairs_and_their_parts() {
    let pair = node(Rule::Operand, vec![decimal("5"), leaf(Rule::LabelName, "x")]);
    assert_eq!(pair.as_rule(), Rule::Operand);
    assert_eq!(pair.as_str(), "");
    assert_eq!(pair.child(1).unwrap().as_str(), "x");
    assert!(pair.child(2).is_none());
}

#[test]
fn sizes_conditions_and_steps_by_name() {
    assert_eq!(parse_size(&leaf(Rule::Size, ".8")), Ok(Size::Byte));
    assert_eq!(parse_size(&leaf(Rule::Size, ".16")), Ok(Size::Half));
    assert_eq!(parse_size(&leaf(Rule::Size, ".32")), Ok(Size::Word));
    assert_eq!(parse_size(&leaf(Rule::Size, ".64")), Err(ParseError::Unsupported));
    assert_eq!(parse_condition(&leaf(Rule::Condition, "ifgt")), Ok(Condition::GreaterThan));
    assert_eq!(parse_condition(&leaf(Rule::Condition, "if")), Err(ParseError::Unsupported));
    assert_eq!(
        parse_incdec_amount(&leaf(Rule::IncDecAmount, "8")),
        Ok(AstNode::Immediate8(3))
    );
    assert_eq!(
        parse_incdec_amount(&leaf(Rule::IncDecAmount, "3")),
        Err(ParseError::Unsupported)
    );
}

#[test]
fn immediate_values_of_each_size() {
    assert_eq!(immediate_to_astnode(0x12345, Size::Byte, false), AstNode::Immediate8(0x45));
    assert_eq!(immediate_to_astnode(0x12345, Size::Half, false), AstNode::Immediate16(0x2345));
    assert_eq!(immediate_to_astnode(0x12345, Size::Word, false), AstNode::Immediate32(0x12345));
    assert_eq!(immediate_to_astnode(0x12345, Size::Byte, true), AstNode::ImmediatePointer(0x12345));
}

#[test]
fn immediate_values_from_trees() {
    let hex = node(Rule::ImmediateHex, vec![leaf(Rule::BodyHex, "fF_0")]);
    assert_eq!(parse_immediate(&hex), Ok(0xFF0));
    let bin = node(Rule::ImmediateBin, vec![leaf(Rule::BodyBin, "1_1")]);
    assert_eq!(parse_immediate(&bin), Ok(3));
    let wrong = node(Rule::ImmediateBin, vec![leaf(Rule::BodyBin, "12")]);
    assert_eq!(parse_immediate(&wrong), Err(ParseError::InvalidNumber));
    assert_eq!(parse_immediate(&leaf(Rule::ImmediateDec, "1_0")), Ok(10));
    // a plus sign may stand before the digits
    assert_eq!(parse_immediate(&leaf(Rule::ImmediateDec, "+7")), Ok(7));
    assert_eq!(parse_immediate(&leaf(Rule::ImmediateDec, "-7")), Err(ParseError::InvalidNumber));
    let letter = node(Rule::ImmediateChar, vec![leaf(Rule::BodyChar, "Az")]);
    assert_eq!(parse_immediate(&letter), Ok(0x41));
    let empty = node(Rule::ImmediateChar, vec![leaf(Rule::BodyChar, "")]);
    assert_eq!(parse_immediate(&empty), Err(ParseError::Malformed));
    assert_eq!(parse_immediate(&leaf(Rule::ImmediateHex, "0x1")), Err(ParseError::Malformed));
    assert_eq!(parse_immediate(&leaf(Rule::Label, "x")), Err(ParseError::Malformed));
}

#[test]
fn registers_by_number_and_name() {
    assert_eq!(parse_register(&register("0")), Ok(0));
    assert_eq!(parse_register(&register("sp")), Ok(32));
    assert_eq!(parse_register(&register("esp")), Ok(33));
    assert_eq!(parse_register(&register("fp")), Ok(34));
    assert_eq!(parse_register(&register("34")), Ok(34));
    assert_eq!(parse_register(&register("35")), Err(ParseError::RegisterOutOfRange));
    assert_eq!(parse_register(&register("256")), Err(ParseError::InvalidNumber));
    assert_eq!(parse_register(&leaf(Rule::Register, "r0")), Err(ParseError::Malformed));
}

#[test]
fn operands_from_trees() {
    assert_eq!(parse_operand(&decimal("300"), false, Size::Byte), Ok(AstNode::Immediate8(44)));
    let value = node(Rule::OperandValue, vec![register("3")]);
    assert_eq!(parse_operand(&value, false, Size::Word), Ok(AstNode::Register(3)));
    let pointer = node(Rule::OperandValuePtr, vec![decimal("300")]);
    assert_eq!(
        parse_operand(&pointer, true, Size::Byte),
        Ok(AstNode::ImmediatePointer(300))
    );
    let offset = node(Rule::PointerOffset, vec![leaf(Rule::ImmediateDec, "257")]);
    let pointer = node(Rule::OperandValuePtr, vec![register("3"), offset]);
    assert_eq!(
        parse_operand(&pointer, true, Size::Word),
        Ok(AstNode::RegisterPointerOffset(3, 1))
    );
    let pointer = node(Rule::OperandValuePtr, vec![register("3"), node(Rule::PointerOffset, vec![])]);
    assert_eq!(parse_operand(&pointer, true, Size::Word), Err(ParseError::Malformed));
    // a register by itself is memory at that register
    assert_eq!(
        parse_operand(&register("3"), false, Size::Word),
        Ok(AstNode::RegisterPointer(3))
    );
    assert_eq!(
        parse_operand(&leaf(Rule::Label, "x"), false, Size::Word),
        Err(ParseError::Malformed)
    );
    assert_eq!(
        parse_operand(&leaf(Rule::OperandValuePtr, "x"), true, Size::Word),
        Err(ParseError::Malformed)
    );
}

#[test]
fn instructions_by_name() {
    assert_eq!(
        parse_instruction_zero(&leaf(Rule::InstructionZero, "mcl"), Size::Byte, Condition::Carry),
        Ok(AstNode::OperationZero(OperationZero {
            size: Size::Byte,
            condition: Condition::Carry,
            instruction: InstructionZero::Mcl,
        }))
    );
    assert_eq!(
        parse_instruction_zero(&leaf(Rule::InstructionZero, "mov"), Size::Byte, Condition::Carry),
        Err(ParseError::Unsupported)
    );
    assert_eq!(
        parse_instruction_one(
            &leaf(Rule::InstructionOne, "rloop"),
            AstNode::Register(1),
            Size::Word,
            Condition::Always,
        ),
        Ok(AstNode::OperationOne(OperationOne {
            size: Size::Word,
            condition: Condition::Always,
            instruction: InstructionOne::Rloop,
            operand: Box::new(AstNode::Register(1)),
        }))
    );
    assert_eq!(
        parse_instruction_one(
            &leaf(Rule::InstructionOne, "nop"),
            AstNode::Register(1),
            Size::Word,
            Condition::Always,
        ),
        Err(ParseError::Unsupported)
    );
    assert_eq!(
        parse_instruction_incdec(
            &leaf(Rule::InstructionIncDec, "inc"),
            AstNode::Register(1),
            AstNode::Immediate8(2),
            Size::Word,
            Condition::Always,
        ),
        Ok(AstNode::OperationIncDec(OperationIncDec {
            size: Size::Word,
            condition: Condition::Always,
            instruction: InstructionIncDec::Inc,
            lhs: Box::new(AstNode::Register(1)),
            rhs: Box::new(AstNode::Immediate8(2)),
        }))
    );
    assert_eq!(
        parse_instruction_incdec(
            &leaf(Rule::InstructionIncDec, "increase"),
            AstNode::Register(1),
            AstNode::Immediate8(2),
            Size::Word,
            Condition::Always,
        ),
        Err(ParseError::Unsupported)
    );
    assert_eq!(
        parse_instruction_two(
            &leaf(Rule::InstructionTwo, "rol"),
            AstNode::Register(1),
            AstNode::Immediate32(0x101),
            Size::Word,
            Condition::Always,
        ),
        Ok(AstNode::OperationTwo(OperationTwo {
            size: Size::Word,
            condition: Condition::Always,
            instruction: InstructionTwo::Rol,
            lhs: Box::new(AstNode::Register(1)),
            rhs: Box::new(AstNode::Immediate8(1)),
        }))
    );
    assert_eq!(
        parse_instruction_two(
            &leaf(Rule::InstructionTwo, "swap"),
            AstNode::Register(1),
            AstNode::Register(2),
            Size::Word,
            Condition::Always,
        ),
        Err(ParseError::Unsupported)
    );
}

#[test]
fn instructions_from_trees() {
    let operand = node(Rule::Operand, vec![decimal("9")]);
    let tree = node(
        Rule::InstructionConditional,
        vec![leaf(Rule::InstructionOne, "push"), leaf(Rule::Size, ".8"), operand],
    );
    assert_eq!(
        parse_instruction(&tree, Condition::Zero),
        Ok((
            AstNode::OperationOne(OperationOne {
                size: Size::Byte,
                condition: Condition::Zero,
                instruction: InstructionOne::Push,
                operand: Box::new(AstNode::Immediate8(9)),
            }),
            Size::Byte,
        ))
    );
    let tree = node(Rule::InstructionConditional, vec![leaf(Rule::InstructionOne, "push")]);
    assert_eq!(parse_instruction(&tree, Condition::Zero), Err(ParseError::Malformed));
    let tree = node(
        Rule::InstructionConditional,
        vec![leaf(Rule::InstructionZero, "nop"), leaf(Rule::Size, ".9")],
    );
    assert_eq!(parse_instruction(&tree, Condition::Zero), Err(ParseError::Unsupported));
    assert_eq!(
        parse_instruction(&leaf(Rule::Label, "x"), Condition::Zero),
        Err(ParseError::Malformed)
    );
}

#[test]
fn statements_from_trees() {
    let label = node(Rule::Label, vec![leaf(Rule::LabelName, "x")]);
    assert_eq!(
        build_ast_from_expression(&label, Size::Half),
        Ok((
            AstNode::LabelDefine { name: "x".to_string(), kind: LabelKind::Internal },
            Size::Half,
        ))
    );
    // an assembly stands for its first statement
    let assembly = node(Rule::Assembly, vec![label]);
    assert!(build_ast_from_expression(&assembly, Size::Half).is_ok());
    assert_eq!(
        build_ast_from_expression(&leaf(Rule::Label, ""), Size::Word),
        Err(ParseError::Malformed)
    );
    let unknown = node(Rule::BodyText, vec![leaf(Rule::LabelName, "x")]);
    assert_eq!(build_ast_from_expression(&unknown, Size::Word), Err(ParseError::Malformed));
    let condition = node(Rule::Instruction, vec![leaf(Rule::Condition, "never")]);
    assert_eq!(build_ast_from_expression(&condition, Size::Word), Err(ParseError::Unsupported));
}

#[test]
fn directives_from_trees() {
    let constant = node(
        Rule::Constant,
        vec![node(Rule::ConstantName, vec![leaf(Rule::LabelName, "A")]), decimal("4")],
    );
    assert_eq!(
        parse_constant(&constant, 0),
        Ok(AstNode::Constant { name: "A".to_string(), address: 4 })
    );
    assert_eq!(parse_constant(&constant, 1), Err(ParseError::Malformed));

    let kind = node(Rule::LabelKind, vec![leaf(Rule::LabelGlobal, "global")]);
    let name = leaf(Rule::LabelName, "x");
    assert_eq!(
        parse_label(&kind, Some(&name)),
        Ok(AstNode::LabelDefine { name: "x".to_string(), kind: LabelKind::Global })
    );
    assert_eq!(parse_label(&kind, None), Err(ParseError::Malformed));
    assert_eq!(
        parse_label(&leaf(Rule::LabelKind, "local"), Some(&name)),
        Err(ParseError::Malformed)
    );

    assert_eq!(
        parse_data(&node(Rule::DataHalf, vec![decimal("65537")])),
        Ok(AstNode::DataHalf(1))
    );
    assert_eq!(
        parse_data(&node(Rule::DataFill, vec![decimal("1")])),
        Err(ParseError::Malformed)
    );
    assert_eq!(parse_data(&leaf(Rule::DataStr, "")), Err(ParseError::Malformed));
    assert_eq!(parse_data(&leaf(Rule::Data, "")), Err(ParseError::Malformed));

    assert_eq!(parse_opt(&leaf(Rule::OptSwitch, "optoff")), Ok(AstNode::Optimize(false)));
    assert_eq!(parse_opt(&leaf(Rule::OptSwitch, "opt")), Err(ParseError::Unsupported));

    let origin = node(Rule::OriginPadding, vec![decimal("8")]);
    assert_eq!(parse_origin(&origin, Size::Word), Ok(AstNode::OriginPadded(8)));
    assert_eq!(parse_origin(&origin, Size::Half), Err(ParseError::OriginNotImmediate));
    assert_eq!(parse_origin(&leaf(Rule::Origin, ""), Size::Word), Err(ParseError::Malformed));

    let quoted = node(Rule::QuotedText, vec![leaf(Rule::BodyText, " a.bin ")]);
    assert_eq!(
        include_binary_file(&quoted, true),
        Ok(AstNode::IncludeBinary { path: "a.bin".to_string(), optional: true })
    );
    assert_eq!(
        include_binary_file(&leaf(Rule::QuotedText, ""), true),
        Err(ParseError::Malformed)
    );
}

#[test]
fn text_without_underscores() {
    assert_eq!(remove_underscores("__1_2__"), "12");
    assert_eq!(remove_underscores(""), "");
}

#[test]
fn numbers_with_a_limit() {
    assert_eq!(parse_number(&"255".to_string(), 10, 255), Some(255));
    assert_eq!(parse_number(&"256".to_string(), 10, 255), None);
    assert_eq!(parse_number(&"+zZ".to_string(), 36, 2000), Some(1295));
    assert_eq!(parse_number(&"+".to_string(), 10, 255), None);
    assert_eq!(parse_number(&String::new(), 10, 255), None);
    assert_eq!(parse_number(&"0000000000000000001".to_string(), 2, 1), Some(1));
    assert_eq!(parse_number(&"99999999999999999999".to_string(), 10, u32::MAX), None);
    // the addresses of the printed table read back
    assert_eq!(parse_number(&"ABCDEF01".to_string(), 16, u32::MAX), Some(0xABCDEF01));
}

#[test]
fn white_space_is_trimmed_at_both_ends() {
    assert_eq!(trim(" \t\u{b}\u{85}a b\u{2003}\u{2028}\r\n"), "a b");
    assert_eq!(trim("\u{200b}a"), "\u{200b}a");
    assert_eq!(trim("  \n "), "");
}
