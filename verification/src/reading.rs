//! What reading a program keeps of what is written in it: conditions, numbers of bits and
//! text.

use crate::ast::{
    Condition, IncDecView, InstructionTwo, NodeView, OneView, OperationZero, Size, TwoView,
};
use crate::builder::ParseError;
use crate::numerals::{Gap, Numeral};
use crate::operands::{Operand, Value};
use crate::processor::Operation;
use crate::source::{Operands, Source};
use crate::words::When;
use crate::{decoding, emit, encode, numerals, operands, program, source, words};
use vstd::prelude::*;

verus! {

/// An instruction with another condition, and otherwise the same.
pub open spec fn under(node: NodeView, condition: Condition) -> NodeView {
    match node {
        NodeView::OperationZero(op) => NodeView::OperationZero(OperationZero { condition, ..op }),
        NodeView::OperationOne(op) => NodeView::OperationOne(OneView { condition, ..op }),
        NodeView::OperationIncDec(op) => NodeView::OperationIncDec(IncDecView { condition, ..op }),
        NodeView::OperationTwo(op) => NodeView::OperationTwo(TwoView { condition, ..op }),
        _ => node,
    }
}

/// A condition in front of an instruction changes nothing but the condition under which
/// it is executed, which is that of the word; without one it is always executed.
pub proof fn law_condition_is_the_one_written(
    when: When,
    operation: Operation,
    size: Option<Size>,
    given: Operands,
    gap: Seq<Gap>,
)
    requires
        numerals::is_gaps(gap),
        source::takes(operation, given),
    ensures
        ({
            let bare = source::instruction_text(operation, size, given, gap);
            let text = words::when_text(when) + (seq![' '] + numerals::gap_text(gap)) + bare;
            match program::parsed(bare) {
                Err(error) => program::parsed(text) == Err::<Seq<NodeView>, ParseError>(error),
                Ok(nodes) => {
                    &&& nodes.len() == 1
                    &&& encode::is_operation(nodes[0])
                    &&& nodes[0] == under(nodes[0], Condition::Always)
                    &&& program::parsed(text) == Ok::<Seq<NodeView>, ParseError>(
                        seq![
                            under(
                                nodes[0],
                                match when {
                                    When::Ifz => Condition::Zero,
                                    When::Ifnz => Condition::NotZero,
                                    When::Ifc | When::Iflt => Condition::Carry,
                                    When::Ifnc | When::Ifgteq => Condition::NotCarry,
                                    When::Ifgt => Condition::GreaterThan,
                                    When::Iflteq => Condition::LessThanEqualTo,
                                },
                            ),
                        ],
                    )
                },
            }
        }),
{
    let plain = Source::Instruction { when: None, operation, size, given };
    let conditional = Source::Instruction { when: Some(when), operation, size, given };
    let bare = source::instruction_text(operation, size, given, gap);
    source::law_statement_reads_as_written(plain, gap);
    source::law_statement_reads_as_written(conditional, gap);
    assert(source::source_text(plain, gap) =~= bare);
    source::lemma_wide(gap);
    assert(source::source_text(conditional, gap) =~= words::when_text(when) + (seq![' ']
        + numerals::gap_text(gap)) + bare);
}

/// The condition of an instruction is in bits 4 to 6 of its first byte, as a number from
/// 0 to 6.
pub proof fn law_condition_is_in_the_first_byte(node: NodeView)
    requires
        encode::is_encodable(node),
        decoding::has_valid_step(node),
    ensures
        emit::statement_bytes(node)[0] / 16 % 8 == match node {
            NodeView::OperationZero(op) => condition_number(op.condition),
            NodeView::OperationOne(op) => condition_number(op.condition),
            NodeView::OperationIncDec(op) => condition_number(op.condition),
            NodeView::OperationTwo(op) => condition_number(op.condition),
            _ => 7,
        },
{
    let byte = encode::control_byte(node);
    assert(emit::statement_bytes(node)[0] == byte);
    decoding::law_control_byte_decodes(node);
    assert(byte & 0x70 == 16 * (byte / 16 % 8)) by (bit_vector);
}

/// The number of a condition in an instruction.
pub open spec fn condition_number(condition: Condition) -> u8 {
    match condition {
        Condition::Always => 0,
        Condition::Zero => 1,
        Condition::NotZero => 2,
        Condition::Carry => 3,
        Condition::NotCarry => 4,
        Condition::GreaterThan => 5,
        Condition::LessThanEqualTo => 6,
    }
}

/// Whether an instruction takes the number of a bit, or a number of bits, on its right.
pub open spec fn takes_bit_number(instruction: InstructionTwo) -> bool {
    ||| instruction is Sla
    ||| instruction is Sra
    ||| instruction is Srl
    ||| instruction is Rol
    ||| instruction is Ror
    ||| instruction is Bse
    ||| instruction is Bcl
    ||| instruction is Bts
}

/// A number on the right of an instruction is cut down to the size of the instruction;
/// where it counts bits it is cut down to a byte, whatever the size of the instruction.
pub proof fn law_number_on_the_right(
    when: Option<When>,
    instruction: InstructionTwo,
    size: Option<Size>,
    left: Value,
    number: Numeral,
    gap: Seq<Gap>,
)
    requires
        numerals::is_gaps(gap),
        operands::is_register(left),
        operands::register_meaning(left) is Ok,
    ensures
        ({
            let written = Source::Instruction {
                when,
                operation: Operation::Two(instruction),
                size,
                given: Operands::Double(
                    Operand::Plain(left),
                    Operand::Plain(Value::Number(number)),
                ),
            };
            let result = program::parsed(source::source_text(written, gap));
            match numerals::numeral_value(number) {
                Err(error) => result == Err::<Seq<NodeView>, ParseError>(error),
                Ok(n) => {
                    &&& result matches Ok(nodes)
                    &&& nodes.len() == 1
                    &&& nodes[0] matches NodeView::OperationTwo(op)
                    &&& op.instruction == instruction
                    &&& op.size == match size {
                        None => Size::Word,
                        Some(z) => z,
                    }
                    &&& *op.rhs == if takes_bit_number(instruction) || op.size is Byte {
                        NodeView::Immediate8((n % 256) as u8)
                    } else if op.size is Half {
                        NodeView::Immediate16((n % 65536) as u16)
                    } else {
                        NodeView::Immediate32(n)
                    }
                    &&& takes_bit_number(instruction) ==> emit::statement_bytes(nodes[0]).len() == 4
                        && emit::statement_bytes(nodes[0])[2] == n % 256
                },
            }
        }),
{
    let given = Operands::Double(Operand::Plain(left), Operand::Plain(Value::Number(number)));
    let written = Source::Instruction {
        when,
        operation: Operation::Two(instruction),
        size,
        given,
    };
    source::law_statement_reads_as_written(written, gap);
    if let Ok(nodes) = program::parsed(source::source_text(written, gap)) {
        if let NodeView::OperationTwo(op) = nodes[0] {
            decoding::lemma_two_operands(*op.rhs, *op.lhs, emit::has_offsets(nodes[0]));
        }
    }
}

/// The text between the quotes of `data.str` and `data.strz` is kept, character by
/// character, whatever it holds but a quote.
pub proof fn law_text_is_kept(text: Seq<char>, gap: Seq<Gap>)
    requires
        numerals::is_gaps(gap),
        forall|k: int| 0 <= k < text.len() ==> #[trigger] text[k] != '"',
    ensures
        program::parsed(
            "data.str"@ + numerals::gap_text(gap) + seq!['"'] + text + seq!['"'],
        ) == Ok::<Seq<NodeView>, ParseError>(seq![NodeView::DataStr(text)]),
        program::parsed(
            "data.strz"@ + numerals::gap_text(gap) + seq!['"'] + text + seq!['"'],
        ) == Ok::<Seq<NodeView>, ParseError>(seq![NodeView::DataStrZero(text)]),
        emit::statement_bytes(NodeView::DataStr(text)) == vstd::utf8::encode_utf8(text),
        emit::statement_bytes(NodeView::DataStrZero(text)) == vstd::utf8::encode_utf8(text)
            + seq![0u8],
{
    lemma_text_source(text, false, gap);
    lemma_text_source(text, true, gap);
    assert(vstd::utf8::encode_utf8(text).push(0) =~= vstd::utf8::encode_utf8(text) + seq![0u8]);
}

#[verifier::spinoff_prover]
proof fn lemma_text_source(text: Seq<char>, zero: bool, gap: Seq<Gap>)
    requires
        numerals::is_gaps(gap),
        source::is_quotable(text),
    ensures
        program::parsed(
            (if zero {
                "data.strz"@
            } else {
                "data.str"@
            }) + numerals::gap_text(gap) + seq!['"'] + text + seq!['"'],
        ) == Ok::<Seq<NodeView>, ParseError>(
            seq![
                if zero {
                    NodeView::DataStrZero(text)
                } else {
                    NodeView::DataStr(text)
                },
            ],
        ),
{
    let written = Source::Text { text, zero };
    let g = numerals::gap_text(gap);
    source::law_statement_reads_as_written(written, gap);
    let kind = if zero {
        "strz"@
    } else {
        "str"@
    };
    let word = if zero {
        "data.strz"@
    } else {
        "data.str"@
    };
    assert("data"@ + (seq!['.'] + kind) =~= word) by {
        reveal_strlit("data");
        reveal_strlit("str");
        reveal_strlit("strz");
        reveal_strlit("data.str");
        reveal_strlit("data.strz");
    }
    let quoted = source::quoted_text(text);
    assert("data"@ + (seq!['.'] + (kind + (g + quoted))) =~= "data"@ + (seq!['.'] + kind) + g
        + quoted);
    assert(word + g + quoted =~= word + g + seq!['"'] + text + seq!['"']);
}

} // verus!
