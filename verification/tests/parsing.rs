//! From source text to statements.

use fox32asm::ast::{
    AstNode, Condition, InstructionIncDec, InstructionOne, InstructionTwo, InstructionZero,
    LabelKind, OperationIncDec, OperationOne, OperationTwo, OperationZero, Size,
};
use fox32asm::builder::ParseError;
use fox32asm::program::parse;

fn one(source: &str) -> AstNode {
    let mut nodes = parse(source).unwrap();
    assert_eq!(nodes.len(), 1);
    nodes.pop().unwrap()
}

fn error(source: &str) -> ParseError {
    parse(source).unwrap_err()
}

fn label(name: &str, size: Size, is_relative: bool) -> AstNode {
    AstNode::LabelOperand { name: name.to_string(), size, is_relative }
}

#[test]
fn labels_with_and_without_kind() {
    let define = |name: &str, kind: LabelKind| AstNode::LabelDefine {
        name: name.to_string(),
        kind,
    };
    assert_eq!(one("start:"), define("start", LabelKind::Internal));
    assert_eq!(one("global start:"), define("start", LabelKind::Global));
    assert_eq!(one("extern start :"), define("start", LabelKind::External));
    assert_eq!(one("global:"), define("global", LabelKind::Internal));
    assert_eq!(one("_r1_2:"), define("_r1_2", LabelKind::Internal));
}

#[test]
fn names_of_instructions_can_name_labels() {
    assert_eq!(
        parse("nop: nop").unwrap(),
        vec![
            AstNode::LabelDefine { name: "nop".to_string(), kind: LabelKind::Internal },
            AstNode::OperationZero(OperationZero {
                size: Size::Word,
                condition: Condition::Always,
                instruction: InstructionZero::Nop,
            }),
        ]
    );
}

#[test]
fn instructions_with_conditions_and_sizes() {
    assert_eq!(
        one("ifnz ret.16"),
        AstNode::OperationZero(OperationZero {
            size: Size::Half,
            condition: Condition::NotZero,
            instruction: InstructionZero::Ret,
        })
    );
    assert_eq!(
        one("call.8 200"),
        AstNode::OperationOne(OperationOne {
            size: Size::Byte,
            condition: Condition::Always,
            instruction: InstructionOne::Call,
            operand: Box::new(AstNode::Immediate8(200)),
        })
    );
    assert_eq!(
        one("dec.8 [7], 4"),
        AstNode::OperationIncDec(OperationIncDec {
            size: Size::Byte,
            condition: Condition::Always,
            instruction: InstructionIncDec::Dec,
            lhs: Box::new(AstNode::ImmediatePointer(7)),
            rhs: Box::new(AstNode::Immediate8(2)),
        })
    );
    assert_eq!(
        one("cmp.16 [rfp + 3] , here"),
        AstNode::OperationTwo(OperationTwo {
            size: Size::Half,
            condition: Condition::Always,
            instruction: InstructionTwo::Cmp,
            lhs: Box::new(AstNode::RegisterPointerOffset(34, 3)),
            rhs: Box::new(label("here", Size::Half, false)),
        })
    );
}

#[test]
fn relative_jumps_take_relative_labels() {
    for (name, instruction) in [
        ("rjmp", InstructionOne::Rjmp),
        ("rcall", InstructionOne::Rcall),
        ("rloop", InstructionOne::Rloop),
    ] {
        assert_eq!(
            one(&format!("{} there", name)),
            AstNode::OperationOne(OperationOne {
                size: Size::Word,
                condition: Condition::Always,
                instruction,
                operand: Box::new(label("there", Size::Word, true)),
            })
        );
        assert_eq!(
            one(&format!("{} [there]", name)),
            AstNode::OperationOne(OperationOne {
                size: Size::Word,
                condition: Condition::Always,
                instruction,
                operand: Box::new(AstNode::LabelOperandPointer {
                    name: "there".to_string(),
                    is_relative: true,
                }),
            })
        );
    }
    assert_eq!(
        one("jmp there"),
        AstNode::OperationOne(OperationOne {
            size: Size::Word,
            condition: Condition::Always,
            instruction: InstructionOne::Jmp,
            operand: Box::new(label("there", Size::Word, false)),
        })
    );
}

#[test]
fn numbers_in_all_bases() {
    assert_eq!(one("data.32 0b1010_0101"), AstNode::DataWord(0xA5));
    assert_eq!(one("data.32 0xDEAD_beef"), AstNode::DataWord(0xDEADBEEF));
    assert_eq!(one("data.32 4_294_967_295"), AstNode::DataWord(0xFFFFFFFF));
    assert_eq!(one("data.16 65536"), AstNode::DataHalf(0));
    assert_eq!(one("data.8 511"), AstNode::DataByte(255));
    assert_eq!(one("data.32 'z'"), AstNode::DataWord(0x7A));
    // only the low byte of a character counts
    assert_eq!(one("data.32 '\u{141}'"), AstNode::DataWord(0x41));
}

#[test]
fn directives() {
    assert_eq!(
        one("const LIMIT : 0x20"),
        AstNode::Constant { name: "LIMIT".to_string(), address: 0x20 }
    );
    assert_eq!(one("data.str \"a b\""), AstNode::DataStr("a b".to_string()));
    assert_eq!(one("data.strz \"\""), AstNode::DataStrZero(String::new()));
    assert_eq!(one("data.fill 0x1AB, 9"), AstNode::DataFill { value: 0xAB, size: 9 });
    assert_eq!(one("data.8 here"), label("here", Size::Byte, false));
    assert_eq!(one("data.16 here"), label("here", Size::Half, false));
    assert_eq!(one("data.32 here"), label("here", Size::Word, false));
    assert_eq!(one("org 0x400"), AstNode::Origin(0x400));
    assert_eq!(one("org.pad 0x400"), AstNode::OriginPadded(0x400));
    assert_eq!(one("opton"), AstNode::Optimize(true));
    assert_eq!(one("optoff"), AstNode::Optimize(false));
}

#[test]
fn binary_files_by_their_trimmed_path() {
    assert_eq!(
        one("#include_bin \" font.raw\t\""),
        AstNode::IncludeBinary { path: "font.raw".to_string(), optional: false }
    );
    assert_eq!(
        one("#include_bin_optional \"\u{3000}a b\u{a0}\""),
        AstNode::IncludeBinary { path: "a b".to_string(), optional: true }
    );
}

#[test]
fn comments_and_blanks_do_not_matter() {
    let plain = parse("here: mov r0, [r1+2] inc r0, 4").unwrap();
    let spread =
        parse("here ; a label\n :mov ; move\r\n r0,[ r1\t+ ;\n2 ]inc r0 , 4;end").unwrap();
    assert_eq!(plain, spread);
}

#[test]
fn the_place_where_no_statement_matches() {
    assert_eq!(error("nop\n  frob r0"), ParseError::Syntax(6));
    assert_eq!(error("mov r0"), ParseError::Syntax(0));
    assert_eq!(error("mov r0 r1"), ParseError::Syntax(0));
    assert_eq!(error("push [r0"), ParseError::Syntax(0));
    assert_eq!(error("push 0b12"), ParseError::Syntax(0));
    assert_eq!(error("push 12ab"), ParseError::Syntax(0));
    assert_eq!(error("push 'ab'"), ParseError::Syntax(0));
    assert_eq!(error("inc r0, 3"), ParseError::Syntax(0));
    assert_eq!(error("data.str \"open"), ParseError::Syntax(0));
    assert_eq!(error("data.64 1"), ParseError::Syntax(0));
    assert_eq!(error("nop mov.64 r0, r1"), ParseError::Syntax(4));
    assert_eq!(error("#include_bin path"), ParseError::Syntax(0));
    assert_eq!(error("1st:"), ParseError::Syntax(0));
}

#[test]
fn numbers_that_are_too_large_or_empty() {
    assert_eq!(error("push 4294967296"), ParseError::InvalidNumber);
    assert_eq!(error("push 0x1_0000_0000"), ParseError::InvalidNumber);
    assert_eq!(error("push 0b_"), ParseError::InvalidNumber);
    assert_eq!(error("push r256"), ParseError::InvalidNumber);
    assert_eq!(error("push [r0+0x123456789]"), ParseError::InvalidNumber);
}

#[test]
fn registers_that_do_not_exist() {
    assert_eq!(error("push r35"), ParseError::RegisterOutOfRange);
    assert_eq!(error("push [r255]"), ParseError::RegisterOutOfRange);
}

#[test]
fn values_that_are_not_immediate() {
    assert_eq!(error("const A: r0"), ParseError::ConstantNotImmediate);
    assert_eq!(error("const A: other"), ParseError::ConstantNotImmediate);
    assert_eq!(error("data.8 r0"), ParseError::DataNotImmediate);
    assert_eq!(error("data.fill here, 3"), ParseError::DataNotImmediate);
    assert_eq!(error("data.fill 3, here"), ParseError::DataNotImmediate);
    assert_eq!(error("org here"), ParseError::OriginNotImmediate);
}

#[test]
fn an_origin_has_the_size_of_the_instruction_before() {
    assert_eq!(error("nop.8 org 0x100"), ParseError::OriginNotImmediate);
    assert!(parse("nop.8 data.8 0 org 0x100").is_ok());
    assert!(parse("nop.8 nop org 0x100").is_ok());
    assert_eq!(error("nop.16 here: opton org.pad 0x100"), ParseError::OriginNotImmediate);
}

#[test]
fn the_first_error_counts() {
    assert_eq!(error("push r99 push 0b_"), ParseError::RegisterOutOfRange);
    assert_eq!(error("mov 0b_, r99"), ParseError::InvalidNumber);
    // text that does not match is found before anything else
    assert_eq!(error("push r99 !"), ParseError::Syntax(9));
}
