//! Statements as they are written in a program, and what they stand for.

use crate::ast::{
    Condition, IncDecView, InstructionOne, InstructionTwo, LabelKind, NodeView, OneView,
    OperationZero, Size, TwoView,
};
use crate::builder::ParseError;
use crate::numerals::Gap;
use crate::operands::{Operand, Value};
use crate::processor::Operation;
use crate::tree::{Rule, Tree};
use crate::words::When;
use crate::{builder, grammar, lexer, numerals, operands, program, statements, text, words};
use vstd::prelude::*;

verus! {

/// The operands of an instruction as they are written.
pub enum Operands {
    Absent,
    Single(Operand),
    Stepped(Operand, Option<Step>),
    Double(Operand, Operand),
}

/// The steps of an increment or decrement.
pub enum Step {
    By1,
    By2,
    By4,
    By8,
}

pub open spec fn step_text(step: Step) -> Seq<char> {
    match step {
        Step::By1 => "1"@,
        Step::By2 => "2"@,
        Step::By4 => "4"@,
        Step::By8 => "8"@,
    }
}

/// The encoding of a step; without one it is 1.
pub open spec fn step_code(step: Option<Step>) -> u8 {
    match step {
        None => 0,
        Some(Step::By1) => 0,
        Some(Step::By2) => 1,
        Some(Step::By4) => 2,
        Some(Step::By8) => 3,
    }
}

pub open spec fn size_text(size: Size) -> Seq<char> {
    match size {
        Size::Byte => ".8"@,
        Size::Half => ".16"@,
        Size::Word => ".32"@,
    }
}

/// Whether an instruction takes such operands, and they can be written.
pub open spec fn takes(operation: Operation, given: Operands) -> bool {
    match (operation, given) {
        (Operation::Zero(_), Operands::Absent) => true,
        (Operation::One(_), Operands::Single(operand)) => operands::is_operand(operand),
        (Operation::IncDec(_), Operands::Stepped(operand, _)) => operands::is_operand(operand),
        (Operation::Two(_), Operands::Double(lhs, rhs)) => operands::is_operand(lhs)
            && operands::is_operand(rhs),
        _ => false,
    }
}

/// A gap that is not empty.
pub open spec fn wide(gap: Seq<Gap>) -> Seq<Gap> {
    seq![Gap::Blank(' ')] + gap
}

/// A comma and what follows it.
pub open spec fn after_comma(gap: Seq<Gap>, rest: Seq<char>) -> Seq<char> {
    numerals::gap_text(gap) + (seq![','] + (numerals::gap_text(gap) + rest))
}

/// The text of operands.
pub open spec fn operands_text(given: Operands, gap: Seq<Gap>) -> Seq<char> {
    let w = numerals::gap_text(wide(gap));
    match given {
        Operands::Absent => seq![],
        Operands::Single(operand) => w + operands::operand_text(operand, gap),
        Operands::Stepped(operand, None) => w + operands::operand_text(operand, gap),
        Operands::Stepped(operand, Some(step)) => w + (operands::operand_text(operand, gap)
            + after_comma(gap, step_text(step))),
        Operands::Double(lhs, rhs) => w + (operands::operand_text(lhs, gap) + after_comma(
            gap,
            operands::operand_text(rhs, gap),
        )),
    }
}

/// The text of the size of an instruction, where it has one.
pub open spec fn size_part(size: Option<Size>, gap: Seq<Gap>) -> Seq<char> {
    match size {
        None => seq![],
        Some(z) => numerals::gap_text(gap) + size_text(z),
    }
}

/// The text of an instruction without its condition.
pub open spec fn instruction_text(
    operation: Operation,
    size: Option<Size>,
    given: Operands,
    gap: Seq<Gap>,
) -> Seq<char> {
    words::operation_text(operation) + (size_part(size, gap) + operands_text(given, gap))
}

/// An operand, where it is a label with an address relative to the instruction.
pub open spec fn made_relative(operand: NodeView) -> NodeView {
    match operand {
        NodeView::LabelOperand { name, size, is_relative } => NodeView::LabelOperand {
            name,
            size,
            is_relative: true,
        },
        NodeView::LabelOperandPointer { name, is_relative } => NodeView::LabelOperandPointer {
            name,
            is_relative: true,
        },
        _ => operand,
    }
}

/// A number of bits, or of a bit: a byte, where it is an immediate value.
pub open spec fn as_bit_number(operand: NodeView) -> NodeView {
    match operand {
        NodeView::Immediate8(n) => NodeView::Immediate8(n),
        NodeView::Immediate16(n) => NodeView::Immediate8((n % 256) as u8),
        NodeView::Immediate32(n) => NodeView::Immediate8((n % 256) as u8),
        _ => operand,
    }
}

/// What an instruction stands for under a condition: an instruction without a size works
/// on words.
pub open spec fn instruction_meaning(
    operation: Operation,
    size: Option<Size>,
    given: Operands,
    condition: Condition,
) -> Result<NodeView, ParseError> {
    let z = match size {
        Some(named) => named,
        None => Size::Word,
    };
    match (operation, given) {
        (Operation::Zero(instruction), Operands::Absent) => Ok(
            NodeView::OperationZero(OperationZero { size: z, condition, instruction }),
        ),
        (Operation::One(instruction), Operands::Single(written)) => match operands::operand_meaning(
            written,
            z,
        ) {
            Err(error) => Err(error),
            Ok(operand) => Ok(
                NodeView::OperationOne(
                    OneView {
                        size: z,
                        condition,
                        instruction,
                        operand: Box::new(
                            match instruction {
                                InstructionOne::Rjmp
                                | InstructionOne::Rcall
                                | InstructionOne::Rloop => made_relative(operand),
                                _ => operand,
                            },
                        ),
                    },
                ),
            ),
        },
        (Operation::IncDec(instruction), Operands::Stepped(written, step)) =>
            match operands::operand_meaning(written, z) {
            Err(error) => Err(error),
            Ok(operand) => Ok(
                NodeView::OperationIncDec(
                    IncDecView {
                        size: z,
                        condition,
                        instruction,
                        lhs: Box::new(operand),
                        rhs: Box::new(NodeView::Immediate8(step_code(step))),
                    },
                ),
            ),
        },
        (Operation::Two(instruction), Operands::Double(left, right)) =>
            match operands::operand_meaning(left, z) {
            Err(error) => Err(error),
            Ok(lhs) => match operands::operand_meaning(right, z) {
                Err(error) => Err(error),
                Ok(rhs) => Ok(
                    NodeView::OperationTwo(
                        TwoView {
                            size: z,
                            condition,
                            instruction,
                            lhs: Box::new(
                                match instruction {
                                    InstructionTwo::Rta => made_relative(lhs),
                                    _ => lhs,
                                },
                            ),
                            rhs: Box::new(
                                match instruction {
                                    InstructionTwo::Rta => made_relative(rhs),
                                    InstructionTwo::Sla
                                    | InstructionTwo::Sra
                                    | InstructionTwo::Srl
                                    | InstructionTwo::Rol
                                    | InstructionTwo::Ror
                                    | InstructionTwo::Bse
                                    | InstructionTwo::Bcl
                                    | InstructionTwo::Bts => as_bit_number(rhs),
                                    _ => rhs,
                                },
                            ),
                        },
                    ),
                ),
            },
        },
        _ => Err(ParseError::Malformed),
    }
}

/// Whether a statement cannot go on at `j`: neither the word, nor with a size, a further
/// operand or a colon behind blanks.
pub open spec fn ends_at(s: Seq<char>, j: int) -> bool {
    let next = lexer::skip_blanks(s, j);
    &&& numerals::word_stops(s, j)
    &&& !lexer::symbol_at(s, next, '.')
    &&& !lexer::symbol_at(s, next, ',')
    &&& !lexer::symbol_at(s, next, ':')
}

/// A gap that is not empty starts with a space.
pub proof fn lemma_wide(gap: Seq<Gap>)
    requires
        numerals::is_gaps(gap),
    ensures
        numerals::is_gaps(wide(gap)),
        wide(gap).len() > 0,
        numerals::gap_text(wide(gap)) == seq![' '] + numerals::gap_text(gap),
{
    assert(wide(gap).drop_first() =~= gap);
    assert forall|k: int| 0 <= k < wide(gap).len() implies numerals::is_gap(
        #[trigger] wide(gap)[k],
    ) by {
        if k > 0 {
            assert(wide(gap)[k] == gap[k - 1]);
        }
    }
}

/// The first character of an operand.
pub proof fn lemma_operand_start(operand: Operand, gap: Seq<Gap>)
    requires
        operands::is_operand(operand),
    ensures
        operands::operand_text(operand, gap).len() > 0,
        ({
            let c = operands::operand_text(operand, gap)[0];
            numerals::is_word_char(c) || c == '\'' || c == '['
        }),
{
    if let Operand::Plain(value) = operand {
        operands::lemma_value_chars(value);
    }
}

/// What stands behind a gap is found.
pub proof fn lemma_behind_gap(s: Seq<char>, i: int, gap: Seq<Gap>, rest: Seq<char>)
    requires
        numerals::is_gaps(gap),
        rest.len() > 0,
        numerals::stands_at(s, i, numerals::gap_text(gap) + rest),
        rest[0] != ' ' && rest[0] != '\t' && rest[0] != '\r' && rest[0] != '\n' && rest[0] != ';',
    ensures
        lexer::skip_blanks(s, i) == i + numerals::gap_text(gap).len(),
        numerals::stands_at(s, i + numerals::gap_text(gap).len(), rest),
        s[i + numerals::gap_text(gap).len()] == rest[0],
        gap.len() > 0 || !numerals::is_word_char(rest[0]) ==> numerals::word_stops(s, i),
{
    let g = numerals::gap_text(gap);
    numerals::lemma_stands(s, i, g, rest);
    numerals::lemma_standing_char(s, i + g.len(), rest, 0);
    numerals::lemma_gap(s, i, gap);
    if gap.len() > 0 {
        numerals::lemma_gap_stops_word(s, i, gap);
    } else {
        assert(g.len() == 0);
    }
}

/// A comma behind a gap, and what follows it.
pub proof fn lemma_after_comma(s: Seq<char>, i: int, gap: Seq<Gap>, rest: Seq<char>)
    requires
        numerals::is_gaps(gap),
        rest.len() > 0,
        numerals::stands_at(s, i, after_comma(gap, rest)),
        rest[0] != ' ' && rest[0] != '\t' && rest[0] != '\r' && rest[0] != '\n' && rest[0] != ';',
    ensures
        ({
            let comma = i + numerals::gap_text(gap).len();
            let next = comma + 1 + numerals::gap_text(gap).len();
            &&& lexer::skip_blanks(s, i) == comma
            &&& lexer::symbol_at(s, comma, ',')
            &&& lexer::skip_blanks(s, comma + 1) == next
            &&& numerals::stands_at(s, next, rest)
            &&& next + rest.len() == i + after_comma(gap, rest).len()
            &&& numerals::word_stops(s, i)
        }),
{
    let g = numerals::gap_text(gap);
    let second = seq![','] + (g + rest);
    assert(second[0] == ',');
    lemma_behind_gap(s, i, gap, second);
    numerals::lemma_stands(s, i + g.len(), seq![','], g + rest);
    lemma_behind_gap(s, i + g.len() + 1, gap, rest);
}

/// The size of an instruction is read.
proof fn lemma_size(s: Seq<char>, i: int, size: Size)
    requires
        numerals::stands_at(s, i, size_text(size)),
        numerals::word_stops(s, i + size_text(size).len()),
    ensures
        grammar::size_at(s, i) == Some(
            (
                grammar::leaf(Rule::Size, s, i, i + size_text(size).len()),
                i + size_text(size).len(),
            ),
        ),
        builder::size_named(s.subrange(i, i + size_text(size).len())) == Some(size),
{
    words::lemma_letters();
    let text = size_text(size);
    let number = text.drop_first();
    assert(text =~= seq!['.'] + number);
    numerals::lemma_stands(s, i, seq!['.'], number);
    numerals::lemma_standing_char(s, i, text, 0);
    assert forall|k: int| 0 <= k < number.len() implies numerals::is_word_char(
        #[trigger] number[k],
    ) by {
        assert(number[k] == text[k + 1]);
        if k == 0 {
        } else {
        }
    }
    numerals::lemma_word(s, i + 1, number);
    assert(".8"@ != ".16"@ && ".8"@ != ".32"@ && ".16"@ != ".32"@);
}

/// The name of an instruction and its size are read.
pub proof fn lemma_head(
    s: Seq<char>,
    i: int,
    operation: Operation,
    size: Option<Size>,
    gap: Seq<Gap>,
    rest: Seq<char>,
)
    requires
        numerals::is_gaps(gap),
        numerals::stands_at(
            s,
            i,
            words::operation_text(operation) + (size_part(size, gap) + rest),
        ),
        ({
            let end = i + words::operation_text(operation).len() + size_part(size, gap).len();
            &&& numerals::word_stops(s, end)
            &&& !lexer::symbol_at(s, lexer::skip_blanks(s, end), '.')
            &&& !lexer::symbol_at(s, lexer::skip_blanks(s, end), ':')
        }),
    ensures
        ({
            let name = words::operation_text(operation);
            let rule = words::operation_rule(operation);
            let end = i + name.len() + size_part(size, gap).len();
            &&& lexer::word_at(s, i) == name
            &&& lexer::word_end(s, i) == i + name.len()
            &&& !lexer::symbol_at(s, lexer::skip_blanks(s, i + name.len()), ':')
            &&& grammar::head_at(s, i, rule).1 == end
            &&& grammar::head_at(s, i, rule).0.len() == if size is Some {
                2int
            } else {
                1
            }
            &&& grammar::head_at(s, i, rule).0[0] == grammar::leaf(rule, s, i, i + name.len())
            &&& size matches Some(z) ==> {
                let part = grammar::head_at(s, i, rule).0[1];
                part.rule == Rule::Size && builder::size_named(part.text) == Some(z)
            }
            &&& numerals::stands_at(s, end, rest)
        }),
{
    let name = words::operation_text(operation);
    let g = numerals::gap_text(gap);
    words::lemma_operation_text(operation);
    numerals::lemma_stands(s, i, name, size_part(size, gap) + rest);
    let after = i + name.len();
    numerals::lemma_stands(s, after, size_part(size, gap), rest);
    match size {
        None => {
            assert(size_part(size, gap).len() == 0);
            numerals::lemma_word(s, i, name);
        },
        Some(z) => {
            words::lemma_letters();
            lemma_behind_gap(s, after, gap, size_text(z));
            numerals::lemma_word(s, i, name);
            lemma_size(s, after + g.len(), z);
        },
    }
}

proof fn lemma_step(step: Step)
    ensures
        builder::step_named(step_text(step)) == Some(step_code(Some(step))),
{
    words::lemma_letters();
}

/// The operands of an instruction are read.
#[verifier::rlimit(60)]
#[verifier::spinoff_prover]
proof fn lemma_operands(
    s: Seq<char>,
    i: int,
    operation: Operation,
    given: Operands,
    gap: Seq<Gap>,
    size: Size,
)
    requires
        numerals::is_gaps(gap),
        takes(operation, given),
        numerals::stands_at(s, i, operands_text(given, gap)),
        ends_at(s, i + operands_text(given, gap).len()),
    ensures
        numerals::word_stops(s, i),
        !lexer::symbol_at(s, lexer::skip_blanks(s, i), '.'),
        !lexer::symbol_at(s, lexer::skip_blanks(s, i), ':'),
        grammar::operands_at(s, i, words::operation_rule(operation)) matches Some((parts, end)) && {
            &&& end == i + operands_text(given, gap).len()
            &&& match given {
                Operands::Absent => parts.len() == 0,
                Operands::Single(operand) => {
                    &&& parts.len() == 1
                    &&& reads_as(parts[0], operand, size)
                },
                Operands::Stepped(operand, step) => {
                    &&& parts.len() == (if step is Some {
                        2int
                    } else {
                        1
                    })
                    &&& reads_as(parts[0], operand, size)
                    &&& step is Some ==> builder::step_of(parts[1]) == Ok::<NodeView, ParseError>(
                        NodeView::Immediate8(step_code(step)),
                    )
                },
                Operands::Double(lhs, rhs) => {
                    &&& parts.len() == 2
                    &&& reads_as(parts[0], lhs, size)
                    &&& reads_as(parts[1], rhs, size)
                },
            }
        },
{
    let w = numerals::gap_text(wide(gap));
    lemma_wide(gap);
    match given {
        Operands::Absent => {},
        Operands::Single(operand) => {
            lemma_operand_start(operand, gap);
            let text = operands::operand_text(operand, gap);
            lemma_behind_gap(s, i, wide(gap), text);
            operands::lemma_operand(s, i + w.len(), operand, gap, size);
        },
        Operands::Stepped(operand, None) => {
            lemma_operand_start(operand, gap);
            let text = operands::operand_text(operand, gap);
            lemma_behind_gap(s, i, wide(gap), text);
            operands::lemma_operand(s, i + w.len(), operand, gap, size);
        },
        Operands::Stepped(operand, Some(step)) => {
            lemma_operand_start(operand, gap);
            let text = operands::operand_text(operand, gap);
            let rest = after_comma(gap, step_text(step));
            assert((text + rest)[0] == text[0]);
            lemma_behind_gap(s, i, wide(gap), text + rest);
            numerals::lemma_stands(s, i + w.len(), text, rest);
            words::lemma_key_word(step_text(step));
            let end = i + w.len() + text.len();
            lemma_after_comma(s, end, gap, step_text(step));
            operands::lemma_operand(s, i + w.len(), operand, gap, size);
            let g = numerals::gap_text(gap);
            let next = end + g.len() + 1 + g.len();
            numerals::lemma_word(s, next, step_text(step));
            lemma_step(step);
        },
        Operands::Double(lhs, rhs) => {
            lemma_operand_start(lhs, gap);
            lemma_operand_start(rhs, gap);
            let text = operands::operand_text(lhs, gap);
            let other = operands::operand_text(rhs, gap);
            let rest = after_comma(gap, other);
            assert((text + rest)[0] == text[0]);
            lemma_behind_gap(s, i, wide(gap), text + rest);
            numerals::lemma_stands(s, i + w.len(), text, rest);
            let end = i + w.len() + text.len();
            lemma_after_comma(s, end, gap, other);
            operands::lemma_operand(s, i + w.len(), lhs, gap, size);
            let g = numerals::gap_text(gap);
            operands::lemma_operand(s, end + g.len() + 1 + g.len(), rhs, gap, size);
        },
    }
}

/// Whether a part of a parse tree is the tree of an operand that is written so.
pub open spec fn reads_as(tree: Tree, operand: Operand, size: Size) -> bool {
    &&& tree.rule == Rule::Operand
    &&& statements::statement_of(tree, size) == statements::with_size(
        operands::operand_meaning(operand, size),
        size,
    )
}

/// An instruction without its condition is read as what it stands for.
proof fn lemma_conditional(
    s: Seq<char>,
    i: int,
    operation: Operation,
    size: Option<Size>,
    given: Operands,
    gap: Seq<Gap>,
    condition: Condition,
)
    requires
        numerals::is_gaps(gap),
        takes(operation, given),
        numerals::stands_at(s, i, instruction_text(operation, size, given, gap)),
        ends_at(s, i + instruction_text(operation, size, given, gap).len()),
    ensures
        ({
            let name = words::operation_text(operation);
            let z = match size {
                Some(named) => named,
                None => Size::Word,
            };
            &&& lexer::word_at(s, i) == name
            &&& lexer::word_end(s, i) == i + name.len()
            &&& !lexer::symbol_at(s, lexer::skip_blanks(s, i + name.len()), ':')
            &&& grammar::conditional_at(s, i) matches Some((tree, end))
            &&& end == i + instruction_text(operation, size, given, gap).len()
            &&& tree.rule == Rule::InstructionConditional
            &&& statements::instruction_of(tree, condition) == statements::with_size(
                instruction_meaning(operation, size, given, condition),
                z,
            )
        }),
{
    let name = words::operation_text(operation);
    let rule = words::operation_rule(operation);
    let rest = operands_text(given, gap);
    let z = match size {
        Some(named) => named,
        None => Size::Word,
    };
    let at = i + name.len() + size_part(size, gap).len();
    words::lemma_operation_text(operation);
    numerals::lemma_stands(s, i, name, size_part(size, gap) + rest);
    numerals::lemma_stands(s, i + name.len(), size_part(size, gap), rest);
    lemma_operands(s, at, operation, given, gap, z);
    lemma_head(s, i, operation, size, gap, rest);
    let (head, _) = grammar::head_at(s, i, rule);
    let (parts, end) = grammar::operands_at(s, at, rule)->0;
    let (tree, _) = grammar::conditional_at(s, i)->0;
    assert(tree.inner == head + parts);
    assert(tree.inner[0] == head[0]);
    assert(s.subrange(i, i + name.len()) == name);
    assert(tree.inner[0].text == name);
    assert(tree.child(0) == Some(tree.inner[0]));
    if head.len() == 2 {
        assert(tree.inner[1] == head[1]);
    } else if parts.len() > 0 {
        assert(tree.inner[1] == parts[0]);
    }
    assert(statements::size_of(tree) == Ok::<(Size, int), ParseError>((z, head.len() as int)));
    if parts.len() > 0 {
        assert(tree.inner[head.len() as int] == parts[0]);
    }
    if parts.len() > 1 {
        assert(tree.inner[head.len() as int + 1] == parts[1]);
        assert(tree.child(head.len() as int + 1) == Some(parts[1]));
    } else {
        assert(tree.child(head.len() as int + 1) is None);
    }
    lemma_meaning(tree, operation, size, given, condition, head, parts);
}

/// The meaning of an instruction from the meanings of its parts.
proof fn lemma_meaning(
    tree: Tree,
    operation: Operation,
    size: Option<Size>,
    given: Operands,
    condition: Condition,
    head: Seq<Tree>,
    parts: Seq<Tree>,
)
    requires
        takes(operation, given),
        tree.rule == Rule::InstructionConditional,
        tree.inner == head + parts,
        head.len() > 0,
        head[0].rule == words::operation_rule(operation),
        head[0].text == words::operation_text(operation),
        ({
            let z = match size {
                Some(named) => named,
                None => Size::Word,
            };
            &&& statements::size_of(tree) == Ok::<(Size, int), ParseError>((z, head.len() as int))
            &&& match given {
                Operands::Absent => parts.len() == 0,
                Operands::Single(operand) => {
                    &&& parts.len() == 1
                    &&& reads_as(parts[0], operand, z)
                },
                Operands::Stepped(operand, step) => {
                    &&& parts.len() == (if step is Some {
                        2int
                    } else {
                        1
                    })
                    &&& reads_as(parts[0], operand, z)
                    &&& step is Some ==> builder::step_of(parts[1]) == Ok::<NodeView, ParseError>(
                        NodeView::Immediate8(step_code(step)),
                    )
                },
                Operands::Double(lhs, rhs) => {
                    &&& parts.len() == 2
                    &&& reads_as(parts[0], lhs, z)
                    &&& reads_as(parts[1], rhs, z)
                },
            }
        }),
    ensures
        statements::instruction_of(tree, condition) == statements::with_size(
            instruction_meaning(operation, size, given, condition),
            match size {
                Some(named) => named,
                None => Size::Word,
            },
        ),
{
    words::lemma_operation_text(operation);
    reveal_with_fuel(statements::instruction_of, 2);
    assert(tree.child(0) == Some(head[0]));
    if parts.len() > 0 {
        assert(tree.inner[head.len() as int] == parts[0]);
    }
    if parts.len() > 1 {
        assert(tree.inner[head.len() as int + 1] == parts[1]);
    }
}

/// The text of a condition, where there is one.
pub open spec fn when_part(when: Option<When>, gap: Seq<Gap>) -> Seq<char> {
    match when {
        None => seq![],
        Some(w) => words::when_text(w) + numerals::gap_text(wide(gap)),
    }
}

/// The condition of an instruction: without one it is always executed.
pub open spec fn when_condition(when: Option<When>) -> Condition {
    match when {
        None => Condition::Always,
        Some(w) => words::when_meaning(w),
    }
}

/// A statement as it is written.
#[allow(inconsistent_fields)]
pub enum Source {
    Instruction {
        when: Option<When>,
        operation: Operation,
        size: Option<Size>,
        given: Operands,
    },
    Label { kind: LabelKind, name: Seq<char> },
    Constant { name: Seq<char>, value: Value },
    Data { size: Size, value: Value },
    Text { text: Seq<char>, zero: bool },
    Fill { value: Value, count: Value },
    Switch(bool),
    Origin { padded: bool, value: Value },
    Binary { lead: Seq<char>, path: Seq<char>, trail: Seq<char>, optional: bool },
}

/// Whether a text can stand between quotes.
pub open spec fn is_quotable(text: Seq<char>) -> bool {
    forall|k: int| 0 <= k < text.len() ==> #[trigger] text[k] != '"'
}

/// The characters that are white space.
pub open spec fn is_white_char(c: char) -> bool {
    let code = c as int;
    code == 0x09 || code == 0x0A || code == 0x0B || code == 0x0C || code == 0x0D || code == 0x20
        || code == 0x85 || code == 0xA0 || code == 0x1680 || code == 0x2000 || code == 0x2001
        || code == 0x2002 || code == 0x2003 || code == 0x2004 || code == 0x2005 || code == 0x2006
        || code == 0x2007 || code == 0x2008 || code == 0x2009 || code == 0x200A || code == 0x2028
        || code == 0x2029 || code == 0x202F || code == 0x205F || code == 0x3000
}

/// Whether a text is white space alone.
pub open spec fn is_white(text: Seq<char>) -> bool {
    forall|k: int| 0 <= k < text.len() ==> is_white_char(#[trigger] text[k])
}

/// Whether a text neither starts nor ends with white space.
pub open spec fn is_trim(text: Seq<char>) -> bool {
    text.len() > 0 ==> !is_white_char(text[0]) && !is_white_char(text.last())
}

/// White space is what is listed as such.
pub proof fn law_white_space(c: char)
    ensures
        text::is_whitespace(c) == is_white_char(c),
{
    let code = c as u32;
    assert(code == c as int);
    if text::is_whitespace(c) {
        assert(code <= 0x0D || code == 0x20 || code >= 0x85);
    }
}

/// Trimming takes away the white space around a text, and nothing else.
pub proof fn law_trimming(lead: Seq<char>, text: Seq<char>, trail: Seq<char>)
    requires
        is_white(lead),
        is_white(trail),
        is_trim(text),
    ensures
        text::trimmed(lead + text + trail) == text,
{
    lemma_trim_start(lead, text + trail);
    assert(lead + text + trail =~= lead + (text + trail));
    if text.len() > 0 {
        law_white_space(text[0]);
        assert((text + trail)[0] == text[0]);
        assert(text::trimmed_start(text + trail) == text + trail);
        lemma_trim_end(text, trail);
    } else {
        assert(text + trail =~= trail);
        lemma_trim_start(trail, seq![]);
        assert(trail + seq![] =~= trail);
        assert(text::trimmed_start(seq![]) =~= seq![]);
        assert(text =~= seq![]);
    }
}

/// White space at the start is trimmed away.
pub proof fn lemma_trim_start(lead: Seq<char>, rest: Seq<char>)
    requires
        is_white(lead),
    ensures
        text::trimmed_start(lead + rest) == text::trimmed_start(rest),
    decreases lead.len(),
{
    if lead.len() > 0 {
        let fewer = lead.drop_first();
        assert(is_white_char(lead[0]));
        law_white_space(lead[0]);
        assert((lead + rest)[0] == lead[0]);
        assert((lead + rest).drop_first() =~= fewer + rest);
        assert forall|k: int| 0 <= k < fewer.len() implies is_white_char(#[trigger] fewer[k]) by {
            assert(fewer[k] == lead[k + 1]);
        }
        lemma_trim_start(fewer, rest);
    } else {
        assert(lead + rest =~= rest);
    }
}

proof fn lemma_trim_end(text: Seq<char>, trail: Seq<char>)
    requires
        is_white(trail),
        text.len() > 0,
        !is_white_char(text.last()),
    ensures
        text::trimmed_end(text + trail) == text,
    decreases trail.len(),
{
    law_white_space(text.last());
    if trail.len() > 0 {
        law_white_space(trail[trail.len() - 1]);
        let fewer = trail.drop_last();
        assert(is_white_char(trail[trail.len() - 1]));
        assert((text + trail).last() == trail[trail.len() - 1]);
        assert((text + trail).drop_last() =~= text + fewer);
        assert forall|k: int| 0 <= k < fewer.len() implies is_white_char(#[trigger] fewer[k]) by {
            assert(fewer[k] == trail[k]);
        }
        lemma_trim_end(text, fewer);
    } else {
        assert(text + trail =~= text);
    }
}

/// Whether a statement can be written.
pub open spec fn is_source(source: Source) -> bool {
    match source {
        Source::Instruction { operation, given, .. } => takes(operation, given),
        Source::Label { name, .. } => operands::is_name(name),
        Source::Constant { name, value } => operands::is_name(name) && operands::is_value(value),
        Source::Data { value, .. } => operands::is_value(value),
        Source::Text { text, .. } => is_quotable(text),
        Source::Fill { value, count } => operands::is_value(value) && operands::is_value(count),
        Source::Switch(_) => true,
        Source::Origin { value, .. } => operands::is_value(value),
        Source::Binary { lead, path, trail, .. } => is_quotable(lead + path + trail) && is_white(lead)
            && is_white(trail) && is_trim(path),
    }
}

/// The text between quotes.
pub open spec fn quoted_text(text: Seq<char>) -> Seq<char> {
    seq!['"'] + (text + seq!['"'])
}

/// The text of a statement, with the same gap wherever there may be one.
pub open spec fn source_text(source: Source, gap: Seq<Gap>) -> Seq<char> {
    let g = numerals::gap_text(gap);
    let w = numerals::gap_text(wide(gap));
    match source {
        Source::Instruction { when, operation, size, given } => when_part(when, gap)
            + instruction_text(operation, size, given, gap),
        Source::Label { kind, name } => match kind {
            LabelKind::Internal => name + (g + seq![':']),
            LabelKind::External => "extern"@ + (w + (name + (g + seq![':']))),
            LabelKind::Global => "global"@ + (w + (name + (g + seq![':']))),
        },
        Source::Constant { name, value } => "const"@ + (w + (name + (g + (seq![':'] + (g
            + operands::value_text(value)))))),
        Source::Data { size, value } => "data"@ + (size_text(size) + (w + operands::value_text(
            value,
        ))),
        Source::Text { text, zero } => "data"@ + (seq!['.'] + ((if zero {
            "strz"@
        } else {
            "str"@
        }) + (g + quoted_text(text)))),
        Source::Fill { value, count } => "data"@ + (seq!['.'] + ("fill"@ + (w + (
        operands::value_text(value) + after_comma(gap, operands::value_text(count)))))),
        Source::Switch(on) => if on {
            "opton"@
        } else {
            "optoff"@
        },
        Source::Origin { padded, value } => if padded {
            "org"@ + (seq!['.'] + ("pad"@ + (w + operands::value_text(value))))
        } else {
            "org"@ + (w + operands::value_text(value))
        },
        Source::Binary { lead, path, trail, optional } => seq!['#'] + ((if optional {
            "include_bin_optional"@
        } else {
            "include_bin"@
        }) + (g + quoted_text(lead + path + trail))),
    }
}

/// The size that a statement leaves for an origin behind it: instructions leave their
/// own, data and constants a word, and others what they found.
pub open spec fn size_after(source: Source, size: Size) -> Size {
    match source {
        Source::Instruction { size: Some(z), .. } => z,
        Source::Instruction { size: None, .. } => Size::Word,
        Source::Constant { .. }
        | Source::Data { .. }
        | Source::Text { .. }
        | Source::Fill { .. } => Size::Word,
        _ => size,
    }
}

/// A word that is written out.
pub open spec fn word_meaning(value: Value, otherwise: ParseError) -> Result<u32, ParseError> {
    if operands::is_number(value) {
        operands::immediate_meaning(value)
    } else if operands::is_register(value) {
        match operands::register_meaning(value) {
            Ok(_) => Err(otherwise),
            Err(error) => Err(error),
        }
    } else {
        Err(otherwise)
    }
}

/// What a statement stands for, behind a statement that left the given size.
pub open spec fn meaning(source: Source, size: Size) -> Result<NodeView, ParseError> {
    match source {
        Source::Instruction { when, operation, size: z, given } => instruction_meaning(
            operation,
            z,
            given,
            when_condition(when),
        ),
        Source::Label { kind, name } => Ok(NodeView::LabelDefine { name, kind }),
        Source::Constant { name, value } => match word_meaning(
            value,
            ParseError::ConstantNotImmediate,
        ) {
            Ok(address) => Ok(NodeView::Constant { name, address }),
            Err(error) => Err(error),
        },
        Source::Data { size: z, value } => if value is Label {
            Ok(
                NodeView::LabelOperand {
                    name: operands::value_text(value),
                    size: z,
                    is_relative: false,
                },
            )
        } else {
            match word_meaning(value, ParseError::DataNotImmediate) {
                Ok(n) => Ok(
                    match z {
                        Size::Byte => NodeView::DataByte((n % 256) as u8),
                        Size::Half => NodeView::DataHalf((n % 65536) as u16),
                        Size::Word => NodeView::DataWord(n),
                    },
                ),
                Err(error) => Err(error),
            }
        },
        Source::Text { text, zero } => Ok(
            if zero {
                NodeView::DataStrZero(text)
            } else {
                NodeView::DataStr(text)
            },
        ),
        Source::Fill { value, count } => match word_meaning(value, ParseError::DataNotImmediate) {
            Err(error) => Err(error),
            Ok(n) => match word_meaning(count, ParseError::DataNotImmediate) {
                Err(error) => Err(error),
                Ok(times) => Ok(NodeView::DataFill { value: (n % 256) as u8, size: times }),
            },
        },
        Source::Switch(on) => Ok(NodeView::Optimize(on)),
        Source::Origin { padded, value } => match word_meaning(
            value,
            ParseError::OriginNotImmediate,
        ) {
            Err(error) => Err(error),
            Ok(address) => if size is Word {
                Ok(
                    if padded {
                        NodeView::OriginPadded(address)
                    } else {
                        NodeView::Origin(address)
                    },
                )
            } else {
                Err(ParseError::OriginNotImmediate)
            },
        },
        Source::Binary { path, optional, .. } => Ok(NodeView::IncludeBinary { path, optional }),
    }
}

/// Whether a statement is read at a place as what it stands for.
pub open spec fn is_read(s: Seq<char>, i: int, source: Source, gap: Seq<Gap>, size: Size) -> bool {
    &&& program::statement_at(s, i) matches Some((tree, end))
    &&& end == i + source_text(source, gap).len()
    &&& tree.rule != Rule::EndOfInput
    &&& statements::statement_of(tree, size) == statements::with_size(
        meaning(source, size),
        size_after(source, size),
    )
}

/// At a word that starts no directive stands an instruction, if anything.
pub proof fn lemma_only_instruction(s: Seq<char>, i: int)
    requires
        words::starts_no_directive(lexer::word_at(s, i)),
        !lexer::symbol_at(s, lexer::skip_blanks(s, lexer::word_end(s, i)), ':'),
        0 <= i < s.len(),
        s[i] != '#',
    ensures
        program::statement_at(s, i) == grammar::instruction_at(s, i),
{
    reveal(program::statement_at);
}

/// An instruction without a condition is read as what it stands for.
#[verifier::spinoff_prover]
proof fn lemma_unconditional(
    s: Seq<char>,
    i: int,
    operation: Operation,
    size: Option<Size>,
    given: Operands,
    gap: Seq<Gap>,
    before: Size,
)
    requires
        numerals::is_gaps(gap),
        takes(operation, given),
        numerals::stands_at(s, i, instruction_text(operation, size, given, gap)),
        ends_at(s, i + instruction_text(operation, size, given, gap).len()),
    ensures
        program::statement_at(s, i) matches Some((tree, end)) && {
            &&& end == i + instruction_text(operation, size, given, gap).len()
            &&& tree.rule == Rule::Instruction
            &&& statements::statement_of(tree, before) == statements::with_size(
                instruction_meaning(operation, size, given, Condition::Always),
                match size {
                    Some(named) => named,
                    None => Size::Word,
                },
            )
        },
{
    let text = instruction_text(operation, size, given, gap);
    let name = words::operation_text(operation);
    words::lemma_operation_text(operation);
    lemma_conditional(s, i, operation, size, given, gap, Condition::Always);
    assert(text[0] == name[0]);
    numerals::lemma_standing_char(s, i, text, 0);
    assert(numerals::is_word_char(name[0]));
    lemma_only_instruction(s, i);
    let (tree, _) = grammar::instruction_at(s, i)->0;
    assert(tree.inner.len() == 1);
    lemma_statement_of_instruction(tree, before);
}

/// What the tree of an instruction stands for.
proof fn lemma_statement_of_instruction(tree: Tree, before: Size)
    requires
        tree.rule == Rule::Instruction,
        tree.inner.len() == 1 && tree.inner[0].rule == Rule::InstructionConditional
            || tree.inner.len() == 2 && tree.inner[0].rule == Rule::Condition
            && builder::condition_named(tree.inner[0].text) is Some,
    ensures
        tree.inner.len() == 1 ==> statements::statement_of(tree, before)
            == statements::instruction_of(tree.inner[0], Condition::Always),
        tree.inner.len() == 2 ==> statements::statement_of(tree, before)
            == statements::instruction_of(
            tree.inner[1],
            builder::condition_named(tree.inner[0].text)->0,
        ),
{
}

/// An instruction under a condition is read as what it stands for.
#[verifier::spinoff_prover]
proof fn lemma_under_condition(
    s: Seq<char>,
    i: int,
    when: When,
    operation: Operation,
    size: Option<Size>,
    given: Operands,
    gap: Seq<Gap>,
    before: Size,
)
    requires
        numerals::is_gaps(gap),
        takes(operation, given),
        numerals::stands_at(
            s,
            i,
            words::when_text(when) + (numerals::gap_text(wide(gap)) + instruction_text(
                operation,
                size,
                given,
                gap,
            )),
        ),
        ends_at(
            s,
            i + words::when_text(when).len() + numerals::gap_text(wide(gap)).len()
                + instruction_text(operation, size, given, gap).len(),
        ),
    ensures
        program::statement_at(s, i) matches Some((tree, end)) && {
            &&& end == i + words::when_text(when).len() + numerals::gap_text(wide(gap)).len()
                + instruction_text(operation, size, given, gap).len()
            &&& tree.rule == Rule::Instruction
            &&& statements::statement_of(tree, before) == statements::with_size(
                instruction_meaning(operation, size, given, words::when_meaning(when)),
                match size {
                    Some(named) => named,
                    None => Size::Word,
                },
            )
        },
{
    let text = instruction_text(operation, size, given, gap);
    let name = words::operation_text(operation);
    let word = words::when_text(when);
    let w = numerals::gap_text(wide(gap));
    words::lemma_operation_text(operation);
    words::lemma_when(when);
    lemma_wide(gap);
    numerals::lemma_stands(s, i, word, w + text);
    assert(text[0] == name[0]);
    assert(numerals::is_word_char(name[0]));
    lemma_behind_gap(s, i + word.len(), wide(gap), text);
    let at = i + word.len() + w.len();
    lemma_conditional(s, at, operation, size, given, gap, words::when_meaning(when));
    numerals::lemma_word(s, i, word);
    numerals::lemma_standing_char(s, i, word, 0);
    assert(numerals::is_word_char(word[0]));
    lemma_only_instruction(s, i);
    let (tree, _) = grammar::instruction_at(s, i)->0;
    assert(tree.inner[0].text == word);
    lemma_statement_of_instruction(tree, before);
}

/// An instruction is read as what it stands for.
proof fn lemma_instruction(
    s: Seq<char>,
    i: int,
    when: Option<When>,
    operation: Operation,
    size: Option<Size>,
    given: Operands,
    gap: Seq<Gap>,
    before: Size,
)
    requires
        numerals::is_gaps(gap),
        takes(operation, given),
        numerals::stands_at(
            s,
            i,
            source_text(Source::Instruction { when, operation, size, given }, gap),
        ),
        ends_at(
            s,
            i + source_text(Source::Instruction { when, operation, size, given }, gap).len(),
        ),
    ensures
        is_read(s, i, Source::Instruction { when, operation, size, given }, gap, before),
{
    let text = instruction_text(operation, size, given, gap);
    match when {
        None => {
            assert(when_part(when, gap) + text =~= text);
            lemma_unconditional(s, i, operation, size, given, gap, before);
        },
        Some(w) => {
            let blank = numerals::gap_text(wide(gap));
            assert(when_part(when, gap) + text =~= words::when_text(w) + (blank + text));
            lemma_under_condition(s, i, w, operation, size, given, gap, before);
        },
    }
}

/// Text in quotes is read as it stands there.
proof fn lemma_quoted(s: Seq<char>, i: int, text: Seq<char>)
    requires
        is_quotable(text),
        numerals::stands_at(s, i, quoted_text(text)),
    ensures
        program::quoted_at(s, i) matches Some((tree, end)) && {
            &&& end == i + quoted_text(text).len()
            &&& tree.rule == Rule::QuotedText
            &&& tree.inner.len() == 1
            &&& tree.inner[0].text == text
        },
{
    numerals::lemma_stands(s, i, seq!['"'], text + seq!['"']);
    numerals::lemma_standing_char(s, i, seq!['"'], 0);
    numerals::lemma_find(s, i + 1, text, '"');
    numerals::lemma_stands(s, i + 1, text, seq!['"']);
}

/// What is read behind the name of a label: a gap and a colon.
proof fn lemma_colon(s: Seq<char>, i: int, gap: Seq<Gap>, rest: Seq<char>)
    requires
        numerals::is_gaps(gap),
        numerals::stands_at(s, i, numerals::gap_text(gap) + (seq![':'] + rest)),
    ensures
        ({
            let colon = i + numerals::gap_text(gap).len();
            &&& numerals::word_stops(s, i)
            &&& lexer::skip_blanks(s, i) == colon
            &&& lexer::symbol_at(s, colon, ':')
            &&& numerals::stands_at(s, colon + 1, rest)
        }),
{
    let tail = seq![':'] + rest;
    assert(tail[0] == ':');
    lemma_behind_gap(s, i, gap, tail);
    numerals::lemma_stands(s, i + numerals::gap_text(gap).len(), seq![':'], rest);
}

/// A label without a kind is read.
#[verifier::spinoff_prover]
proof fn lemma_plain_label(s: Seq<char>, i: int, name: Seq<char>, gap: Seq<Gap>, before: Size)
    requires
        numerals::is_gaps(gap),
        operands::is_name(name),
        numerals::stands_at(s, i, name + (numerals::gap_text(gap) + seq![':'])),
    ensures
        program::statement_at(s, i) matches Some((tree, end)) && {
            &&& end == i + name.len() + numerals::gap_text(gap).len() + 1
            &&& tree.rule == Rule::Label
            &&& statements::statement_of(tree, before) == Ok::<(NodeView, Size), ParseError>(
                (NodeView::LabelDefine { name, kind: LabelKind::Internal }, before),
            )
        },
{
    reveal(program::statement_at);
    let g = numerals::gap_text(gap);
    numerals::lemma_stands(s, i, name, g + seq![':']);
    assert(g + seq![':'] =~= g + (seq![':'] + seq![]));
    lemma_colon(s, i + name.len(), gap, seq![]);
    operands::lemma_label(s, i, name);
    let colon = i + name.len() + g.len();
    assert(lexer::word_end(s, colon) == colon);
    assert(lexer::word_at(s, colon).len() == 0);
    assert(program::marked_label_at(s, i) is None);
    let (tree, _) = program::label_at(s, i)->0;
    assert(tree.inner[0].rule == Rule::LabelName);
    assert(tree.inner[0].text == name);
}

/// A label with a kind is read.
#[verifier::spinoff_prover]
proof fn lemma_marked_label(
    s: Seq<char>,
    i: int,
    mark: Seq<char>,
    kind: LabelKind,
    name: Seq<char>,
    gap: Seq<Gap>,
    before: Size,
)
    requires
        numerals::is_gaps(gap),
        operands::is_name(name),
        mark == "extern"@ && kind is External || mark == "global"@ && kind is Global,
        numerals::stands_at(
            s,
            i,
            mark + (numerals::gap_text(wide(gap)) + (name + (numerals::gap_text(gap)
                + seq![':']))),
        ),
    ensures
        program::statement_at(s, i) matches Some((tree, end)) && {
            &&& end == i + mark.len() + numerals::gap_text(wide(gap)).len() + name.len()
                + numerals::gap_text(gap).len() + 1
            &&& tree.rule == Rule::Label
            &&& statements::statement_of(tree, before) == Ok::<(NodeView, Size), ParseError>(
                (NodeView::LabelDefine { name, kind }, before),
            )
        },
{
    reveal(program::statement_at);
    let g = numerals::gap_text(gap);
    let w = numerals::gap_text(wide(gap));
    let rest = name + (g + seq![':']);
    lemma_wide(gap);
    words::lemma_key_word(mark);
    numerals::lemma_stands(s, i, mark, w + rest);
    assert(rest[0] == name[0]);
    assert(numerals::is_word_char(name[0]));
    lemma_behind_gap(s, i + mark.len(), wide(gap), rest);
    numerals::lemma_word(s, i, mark);
    let at = i + mark.len() + w.len();
    numerals::lemma_stands(s, at, name, g + seq![':']);
    assert(g + seq![':'] =~= g + (seq![':'] + seq![]));
    lemma_colon(s, at + name.len(), gap, seq![]);
    operands::lemma_label(s, at, name);
    words::lemma_letters();
    let (tree, _) = program::label_at(s, i)->0;
    assert(tree.inner[0].rule == Rule::LabelKind);
    assert(tree.inner[1].text == name);
    assert(tree.child(1) == Some(tree.inner[1]));
    assert(tree.inner[0].child(0) == Some(tree.inner[0].inner[0]));
}

/// The value of a directive, behind a gap, is read.
proof fn lemma_value_behind(
    s: Seq<char>,
    i: int,
    value: Value,
    gap: Seq<Gap>,
    size: Size,
)
    requires
        numerals::is_gaps(gap),
        operands::is_value(value),
        numerals::stands_at(s, i, numerals::gap_text(gap) + operands::value_text(value)),
        numerals::word_stops(
            s,
            i + numerals::gap_text(gap).len() + operands::value_text(value).len(),
        ),
    ensures
        gap.len() > 0 ==> numerals::word_stops(s, i),
        lexer::skip_blanks(s, i) == i + numerals::gap_text(gap).len(),
        ({
            let c = s[i + numerals::gap_text(gap).len()];
            c != ':' && c != '.'
        }),
        grammar::value_at(s, i + numerals::gap_text(gap).len()) matches Some((tree, end)) && {
            &&& end == i + numerals::gap_text(gap).len() + operands::value_text(value).len()
            &&& tree.rule == Rule::OperandValue
            &&& builder::operand_of(tree, false, size) == operands::value_meaning(value, size)
        },
{
    operands::lemma_value_chars(value);
    lemma_behind_gap(s, i, gap, operands::value_text(value));
    operands::lemma_value(s, i + numerals::gap_text(gap).len(), value, size);
}

/// A constant is read.
#[verifier::spinoff_prover]
proof fn lemma_constant(
    s: Seq<char>,
    i: int,
    name: Seq<char>,
    value: Value,
    gap: Seq<Gap>,
    before: Size,
)
    requires
        numerals::is_gaps(gap),
        operands::is_name(name),
        operands::is_value(value),
        numerals::stands_at(s, i, source_text(Source::Constant { name, value }, gap)),
        ends_at(s, i + source_text(Source::Constant { name, value }, gap).len()),
    ensures
        is_read(s, i, Source::Constant { name, value }, gap, before),
{
    reveal(program::statement_at);
    let g = numerals::gap_text(gap);
    let w = numerals::gap_text(wide(gap));
    let last = g + operands::value_text(value);
    let rest = name + (g + (seq![':'] + last));
    lemma_wide(gap);
    words::lemma_key_word("const"@);
    numerals::lemma_stands(s, i, "const"@, w + rest);
    assert(rest[0] == name[0]);
    assert(numerals::is_word_char(name[0]));
    let start = i + "const"@.len();
    lemma_behind_gap(s, start, wide(gap), rest);
    numerals::lemma_word(s, i, "const"@);
    let at = start + w.len();
    numerals::lemma_stands(s, at, name, g + (seq![':'] + last));
    lemma_colon(s, at + name.len(), gap, last);
    operands::lemma_label(s, at, name);
    let colon = at + name.len() + g.len();
    lemma_value_behind(s, colon + 1, value, gap, Size::Word);
    assert(program::label_at(s, i) is None);
    let (tree, end) = program::constant_at(s, i)->0;
    assert(tree.inner[0].rule == Rule::ConstantName);
    assert(tree.inner[0].child(0) == Some(tree.inner[0].inner[0]));
    assert(tree.inner[0].inner[0].text == name);
    assert(tree.child(1) == Some(tree.inner[1]));
    assert(tree.child(0) == Some(tree.inner[0]));
}

/// The start of a piece of data is read.
pub proof fn lemma_data_start(s: Seq<char>, i: int, kind: Seq<char>, rest: Seq<char>)
    requires
        kind == "8"@ || kind == "16"@ || kind == "32"@ || kind == "str"@ || kind == "strz"@ || kind
            == "fill"@,
        numerals::stands_at(s, i, "data"@ + (seq!['.'] + (kind + rest))),
        numerals::word_stops(s, i + 5 + kind.len()),
    ensures
        "data"@.len() == 4,
        lexer::word_at(s, i) == "data"@,
        lexer::word_end(s, i) == i + 4,
        lexer::symbol_at(s, i + 4, '.'),
        lexer::skip_blanks(s, i + 4) == i + 4,
        lexer::word_at(s, i + 5) == kind,
        lexer::word_end(s, i + 5) == i + 5 + kind.len(),
        numerals::stands_at(s, i + 5 + kind.len(), rest),
        program::label_at(s, i) is None,
        program::constant_at(s, i) is None,
{
    words::lemma_letters();
    words::lemma_key_word("data"@);
    words::lemma_key_word(kind);
    let tail = seq!['.'] + (kind + rest);
    numerals::lemma_stands(s, i, "data"@, tail);
    numerals::lemma_stands(s, i + 4, seq!['.'], kind + rest);
    numerals::lemma_standing_char(s, i + 4, seq!['.'], 0);
    numerals::lemma_word(s, i, "data"@);
    numerals::lemma_stands(s, i + 5, kind, rest);
    numerals::lemma_word(s, i + 5, kind);
}

/// The rule for each kind of data.
proof fn lemma_data_rules()
    ensures
        program::data_rule("8"@) == Some(Rule::DataByte),
        program::data_rule("16"@) == Some(Rule::DataHalf),
        program::data_rule("32"@) == Some(Rule::DataWord),
        program::data_rule("str"@) == Some(Rule::DataStr),
        program::data_rule("strz"@) == Some(Rule::DataStrZero),
        program::data_rule("fill"@) == Some(Rule::DataFill),
        ".8"@ == seq!['.'] + "8"@,
        ".16"@ == seq!['.'] + "16"@,
        ".32"@ == seq!['.'] + "32"@,
{
    words::lemma_letters();
    assert(".8"@ =~= seq!['.'] + "8"@);
    assert(".16"@ =~= seq!['.'] + "16"@);
    assert(".32"@ =~= seq!['.'] + "32"@);
}

/// A single value is read.
#[verifier::spinoff_prover]
proof fn lemma_data(
    s: Seq<char>,
    i: int,
    size: Size,
    value: Value,
    gap: Seq<Gap>,
    before: Size,
)
    requires
        numerals::is_gaps(gap),
        operands::is_value(value),
        numerals::stands_at(s, i, source_text(Source::Data { size, value }, gap)),
        ends_at(s, i + source_text(Source::Data { size, value }, gap).len()),
    ensures
        is_read(s, i, Source::Data { size, value }, gap, before),
{
    reveal(program::statement_at);
    let w = numerals::gap_text(wide(gap));
    let rest = w + operands::value_text(value);
    let kind = match size {
        Size::Byte => "8"@,
        Size::Half => "16"@,
        Size::Word => "32"@,
    };
    lemma_wide(gap);
    lemma_data_rules();
    assert(size_text(size) + rest =~= seq!['.'] + (kind + rest));
    numerals::lemma_stands(s, i, "data"@, seq!['.'] + (kind + rest));
    numerals::lemma_stands(s, i + "data"@.len(), seq!['.'], kind + rest);
    numerals::lemma_stands(s, i + "data"@.len() + 1, kind, rest);
    let start = i + "data"@.len() + 1 + kind.len();
    lemma_value_behind(s, start, value, wide(gap), Size::Word);
    words::lemma_letters();
    lemma_data_start(s, i, kind, rest);
    let (tree, end) = program::data_at(s, i)->0;
    let part = tree.inner[0];
    assert(part.inner.len() == 1);
    assert(part.child(0) == Some(part.inner[0]));
}

/// Text is read.
#[verifier::spinoff_prover]
proof fn lemma_text(
    s: Seq<char>,
    i: int,
    text: Seq<char>,
    zero: bool,
    gap: Seq<Gap>,
    before: Size,
)
    requires
        numerals::is_gaps(gap),
        is_quotable(text),
        numerals::stands_at(s, i, source_text(Source::Text { text, zero }, gap)),
    ensures
        is_read(s, i, Source::Text { text, zero }, gap, before),
{
    reveal(program::statement_at);
    let g = numerals::gap_text(gap);
    let rest = g + quoted_text(text);
    let kind = if zero {
        "strz"@
    } else {
        "str"@
    };
    lemma_data_rules();
    numerals::lemma_stands(s, i, "data"@, seq!['.'] + (kind + rest));
    numerals::lemma_stands(s, i + "data"@.len(), seq!['.'], kind + rest);
    numerals::lemma_stands(s, i + "data"@.len() + 1, kind, rest);
    let start = i + "data"@.len() + 1 + kind.len();
    assert(quoted_text(text)[0] == '"');
    lemma_behind_gap(s, start, gap, quoted_text(text));
    words::lemma_letters();
    lemma_data_start(s, i, kind, rest);
    lemma_quoted(s, start + g.len(), text);
    let (tree, end) = program::data_at(s, i)->0;
    let part = tree.inner[0];
    assert(part.inner.len() == 1);
    assert(part.child(0) == Some(part.inner[0]));
    assert(part.inner[0].child(0) == Some(part.inner[0].inner[0]));
}

/// A fill is read.
#[verifier::spinoff_prover]
proof fn lemma_fill(
    s: Seq<char>,
    i: int,
    value: Value,
    count: Value,
    gap: Seq<Gap>,
    before: Size,
)
    requires
        numerals::is_gaps(gap),
        operands::is_value(value),
        operands::is_value(count),
        numerals::stands_at(s, i, source_text(Source::Fill { value, count }, gap)),
        ends_at(s, i + source_text(Source::Fill { value, count }, gap).len()),
    ensures
        is_read(s, i, Source::Fill { value, count }, gap, before),
{
    reveal(program::statement_at);
    let g = numerals::gap_text(gap);
    let w = numerals::gap_text(wide(gap));
    let first = operands::value_text(value);
    let second = operands::value_text(count);
    let tail = after_comma(gap, second);
    let rest = w + (first + tail);
    lemma_wide(gap);
    lemma_data_rules();
    words::lemma_letters();
    numerals::lemma_stands(s, i, "data"@, seq!['.'] + ("fill"@ + rest));
    numerals::lemma_stands(s, i + 4, seq!['.'], "fill"@ + rest);
    numerals::lemma_stands(s, i + 5, "fill"@, rest);
    operands::lemma_value_chars(value);
    operands::lemma_value_chars(count);
    assert((first + tail)[0] == first[0]);
    lemma_behind_gap(s, i + 9, wide(gap), first + tail);
    lemma_data_start(s, i, "fill"@, rest);
    let at = i + 9 + w.len();
    numerals::lemma_stands(s, at, first, tail);
    lemma_after_comma(s, at + first.len(), gap, second);
    operands::lemma_value(s, at, value, Size::Word);
    let next = at + first.len() + g.len() + 1 + g.len();
    operands::lemma_value(s, next, count, Size::Word);
    let (tree, end) = program::data_at(s, i)->0;
    let part = tree.inner[0];
    assert(part.child(0) == Some(part.inner[0]));
    assert(part.child(1) == Some(part.inner[1]));
}

/// A switch is read.
#[verifier::spinoff_prover]
proof fn lemma_switch(s: Seq<char>, i: int, on: bool, gap: Seq<Gap>, before: Size)
    requires
        numerals::stands_at(s, i, source_text(Source::Switch(on), gap)),
        ends_at(s, i + source_text(Source::Switch(on), gap).len()),
    ensures
        is_read(s, i, Source::Switch(on), gap, before),
{
    reveal(program::statement_at);
    let word = source_text(Source::Switch(on), gap);
    words::lemma_letters();
    words::lemma_key_word(word);
    numerals::lemma_word(s, i, word);
    assert(program::label_at(s, i) is None);
    let (tree, _) = program::opt_at(s, i)->0;
    assert(tree.inner[0].text == word);
    assert(tree.inner[0].rule == Rule::OptSwitch);
}

/// An origin is read.
#[verifier::spinoff_prover]
proof fn lemma_origin(
    s: Seq<char>,
    i: int,
    padded: bool,
    value: Value,
    gap: Seq<Gap>,
    before: Size,
)
    requires
        numerals::is_gaps(gap),
        operands::is_value(value),
        numerals::stands_at(s, i, source_text(Source::Origin { padded, value }, gap)),
        ends_at(s, i + source_text(Source::Origin { padded, value }, gap).len()),
    ensures
        is_read(s, i, Source::Origin { padded, value }, gap, before),
{
    reveal(program::statement_at);
    let w = numerals::gap_text(wide(gap));
    let rest = w + operands::value_text(value);
    lemma_wide(gap);
    words::lemma_letters();
    words::lemma_key_word("org"@);
    words::lemma_key_word("pad"@);
    if padded {
        let tail = seq!['.'] + ("pad"@ + rest);
        numerals::lemma_stands(s, i, "org"@, tail);
        numerals::lemma_stands(s, i + 3, seq!['.'], "pad"@ + rest);
        numerals::lemma_standing_char(s, i + 3, seq!['.'], 0);
        numerals::lemma_stands(s, i + 4, "pad"@, rest);
        lemma_value_behind(s, i + 7, value, wide(gap), before);
        numerals::lemma_word(s, i, "org"@);
        numerals::lemma_word(s, i + 4, "pad"@);
        assert(lexer::skip_blanks(s, i + 3) == i + 3);
    } else {
        numerals::lemma_stands(s, i, "org"@, rest);
        numerals::lemma_stands(s, i + 3, w, operands::value_text(value));
        lemma_value_behind(s, i + 3, value, wide(gap), before);
        numerals::lemma_word(s, i, "org"@);
        numerals::lemma_standing_char(s, i + 3, w, 0);
        assert(w[0] == ' ');
    }
    assert(program::label_at(s, i) is None);
    let (tree, _) = program::origin_at(s, i)->0;
    let part = tree.inner[0];
    assert(part.rule == if padded {
        Rule::OriginPadding
    } else {
        Rule::OriginNoPadding
    });
    assert(part.inner.len() == 1);
    assert(part.child(0) == Some(part.inner[0]));
}

/// A binary file is read.
#[verifier::spinoff_prover]
proof fn lemma_binary(s: Seq<char>, i: int, source: Source, gap: Seq<Gap>, before: Size)
    requires
        numerals::is_gaps(gap),
        source is Binary,
        is_source(source),
        numerals::stands_at(s, i, source_text(source, gap)),
    ensures
        is_read(s, i, source, gap, before),
{
    if let Source::Binary { lead, path, trail, optional } = source {
        reveal(program::statement_at);
        let g = numerals::gap_text(gap);
        let word = if optional {
            "include_bin_optional"@
        } else {
            "include_bin"@
        };
        let text = quoted_text(lead + path + trail);
        words::lemma_key_word(word);
        numerals::lemma_stands(s, i, seq!['#'], word + (g + text));
        numerals::lemma_standing_char(s, i, seq!['#'], 0);
        numerals::lemma_stands(s, i + 1, word, g + text);
        assert(text[0] == '"');
        lemma_behind_gap(s, i + 1 + word.len(), gap, text);
        numerals::lemma_word(s, i + 1, word);
        lemma_quoted(s, i + 1 + word.len() + g.len(), lead + path + trail);
        law_trimming(lead, path, trail);
        assert(lexer::word_end(s, i) == i);
        assert(lexer::word_at(s, i).len() == 0);
        words::lemma_letters();
        let (tree, _) = program::binary_at(s, i)->0;
        assert(tree.inner[0].rule == Rule::QuotedText);
        assert(tree.inner[0].child(0) == Some(tree.inner[0].inner[0]));
    }
}

/// A statement is read as what it stands for.
pub proof fn lemma_statement(s: Seq<char>, i: int, source: Source, gap: Seq<Gap>, before: Size)
    requires
        numerals::is_gaps(gap),
        is_source(source),
        numerals::stands_at(s, i, source_text(source, gap)),
        ends_at(s, i + source_text(source, gap).len()),
    ensures
        is_read(s, i, source, gap, before),
{
    match source {
        Source::Instruction { when, operation, size, given } => {
            lemma_instruction(s, i, when, operation, size, given, gap, before);
        },
        Source::Label { kind, name } => match kind {
            LabelKind::Internal => lemma_plain_label(s, i, name, gap, before),
            LabelKind::External => lemma_marked_label(
                s,
                i,
                "extern"@,
                kind,
                name,
                gap,
                before,
            ),
            LabelKind::Global => lemma_marked_label(s, i, "global"@, kind, name, gap, before),
        },
        Source::Constant { name, value } => lemma_constant(s, i, name, value, gap, before),
        Source::Data { size, value } => lemma_data(s, i, size, value, gap, before),
        Source::Text { text, zero } => lemma_text(s, i, text, zero, gap, before),
        Source::Fill { value, count } => lemma_fill(s, i, value, count, gap, before),
        Source::Switch(on) => lemma_switch(s, i, on, gap, before),
        Source::Origin { padded, value } => lemma_origin(s, i, padded, value, gap, before),
        Source::Binary { .. } => lemma_binary(s, i, source, gap, before),
    }
}

/// A statement starts with a word, or with the sign before the name of a binary file.
pub proof fn lemma_source_start(source: Source, gap: Seq<Gap>)
    requires
        is_source(source),
    ensures
        source_text(source, gap).len() > 0,
        numerals::is_word_char(source_text(source, gap)[0]) || source_text(source, gap)[0] == '#',
{
    let text = source_text(source, gap);
    words::lemma_letters();
    match source {
        Source::Instruction { when, operation, size, given } => {
            words::lemma_operation_text(operation);
            let own = instruction_text(operation, size, given, gap);
            assert(own[0] == words::operation_text(operation)[0]);
            assert(numerals::is_word_char(words::operation_text(operation)[0]));
            match when {
                None => {
                    assert(text =~= own);
                },
                Some(w) => {
                    words::lemma_when(w);
                    assert(text[0] == words::when_text(w)[0]);
                    assert(numerals::is_word_char(words::when_text(w)[0]));
                },
            }
        },
        Source::Label { name, .. } => {
            assert(numerals::is_word_char(name[0]));
        },
        _ => {},
    }
}

/// What stands between statements: the end of a line, and a gap.
pub open spec fn line_end(gap: Seq<Gap>) -> Seq<Gap> {
    seq![Gap::Blank('\n')] + gap
}

/// The text of statements one after the other.
pub open spec fn lines_text(sources: Seq<Source>, gap: Seq<Gap>) -> Seq<char>
    decreases sources.len(),
{
    if sources.len() == 0 {
        seq![]
    } else {
        source_text(sources[0], gap) + (numerals::gap_text(line_end(gap)) + lines_text(
            sources.drop_first(),
            gap,
        ))
    }
}

/// What statements one after the other stand for, up to the first error.
pub open spec fn program_meaning(sources: Seq<Source>, size: Size) -> Result<
    Seq<NodeView>,
    ParseError,
>
    decreases sources.len(),
{
    if sources.len() == 0 {
        Ok(seq![])
    } else {
        match meaning(sources[0], size) {
            Err(error) => Err(error),
            Ok(node) => match program_meaning(
                sources.drop_first(),
                size_after(sources[0], size),
            ) {
                Err(error) => Err(error),
                Ok(more) => Ok(seq![node] + more),
            },
        }
    }
}

proof fn lemma_lines(
    s: Seq<char>,
    i: int,
    sources: Seq<Source>,
    gap: Seq<Gap>,
    size: Size,
)
    requires
        numerals::is_gaps(gap),
        forall|k: int| 0 <= k < sources.len() ==> is_source(#[trigger] sources[k]),
        numerals::stands_at(s, i, lines_text(sources, gap)),
        lexer::skip_blanks(s, i + lines_text(sources, gap).len()) == s.len(),
    ensures
        sources.len() > 0 ==> i < s.len() && (numerals::is_word_char(s[i]) || s[i] == '#'),
        program::statements_at(s, i) matches Ok(parts) && statements::program_of(parts, size)
            == program_meaning(sources, size),
    decreases sources.len(),
{
    if sources.len() == 0 {
    } else {
        let source = sources[0];
        let rest = sources.drop_first();
        let text = source_text(source, gap);
        let between = line_end(gap);
        let w = numerals::gap_text(between);
        let tail = lines_text(rest, gap);
        assert(is_source(sources[0]));
        assert forall|k: int| 0 <= k < rest.len() implies is_source(#[trigger] rest[k]) by {
            assert(rest[k] == sources[k + 1]);
        }
        numerals::lemma_stands(s, i, text, w + tail);
        let end = i + text.len();
        numerals::lemma_stands(s, end, w, tail);
        let next = end + w.len();
        lemma_lines(s, next, rest, gap, size_after(source, size));
        assert(numerals::is_gaps(between)) by {
            assert forall|k: int| 0 <= k < between.len() implies numerals::is_gap(
                #[trigger] between[k],
            ) by {
                if k > 0 {
                    assert(between[k] == gap[k - 1]);
                }
            }
        }
        numerals::lemma_gap_skipped(s, end, between);
        numerals::lemma_gap_stops_word(s, end, between);
        lemma_source_start(source, gap);
        numerals::lemma_standing_char(s, i, text, 0);
        assert(lexer::skip_blanks(s, i) == i);
        lemma_statement(s, i, source, gap, size);
        program::law_blanks_do_not_matter(s, end);
        program::law_blanks_do_not_matter(s, next);
        let (tree, j) = program::statement_at(s, i)->0;
        let more = program::statements_at(s, next)->Ok_0;
        let parts = program::statements_at(s, i)->Ok_0;
        assert(parts == seq![tree] + more);
        assert(parts.drop_first() =~= more);
        assert(parts[0] == tree);
    }
}

/// A program is read as what is written in it: every statement stands for its meaning,
/// whatever blanks and comments lie between its parts, and the first error is reported.
pub proof fn law_program_reads_as_written(sources: Seq<Source>, gap: Seq<Gap>)
    requires
        numerals::is_gaps(gap),
        forall|k: int| 0 <= k < sources.len() ==> is_source(#[trigger] sources[k]),
    ensures
        program::parsed(numerals::gap_text(gap) + lines_text(sources, gap)) == program_meaning(
            sources,
            Size::Word,
        ),
{
    let g = numerals::gap_text(gap);
    let tail = lines_text(sources, gap);
    let s = g + tail;
    assert(s.subrange(0, s.len() as int) =~= s);
    numerals::lemma_stands(s, 0, g, tail);
    lemma_lines(s, g.len() as int, sources, gap, Size::Word);
    numerals::lemma_gap(s, 0, gap);
    program::law_blanks_do_not_matter(s, 0);
}

/// A comment may stand at the end of a program without a line feed behind it.
pub proof fn law_comment_at_the_end(sources: Seq<Source>, gap: Seq<Gap>, comment: Seq<char>)
    requires
        numerals::is_gaps(gap),
        forall|k: int| 0 <= k < sources.len() ==> is_source(#[trigger] sources[k]),
        forall|k: int| 0 <= k < comment.len() ==> #[trigger] comment[k] != '\n',
    ensures
        program::parsed(
            numerals::gap_text(gap) + lines_text(sources, gap) + (seq![';'] + comment),
        ) == program_meaning(sources, Size::Word),
{
    let g = numerals::gap_text(gap);
    let lines = lines_text(sources, gap);
    let last = seq![';'] + comment;
    let s = g + lines + last;
    let stop = g.len() + lines.len() as int;
    assert(s.subrange(0, stop) =~= g + lines);
    numerals::lemma_stands(s, 0, g, lines);
    assert(s[stop] == ';');
    lexer::lemma_find_char(s, stop + 1, '\n');
    let end = lexer::find_char(s, stop + 1, '\n');
    assert(end == s.len()) by {
        if end < s.len() {
            assert(s[end] == comment[end - stop - 1]);
        }
    }
    assert(lexer::skip_blanks(s, stop) == lexer::skip_blanks(s, end));
    lemma_lines(s, g.len() as int, sources, gap, Size::Word);
    numerals::lemma_gap_skipped(s, 0, gap);
    program::law_blanks_do_not_matter(s, 0);
    program::law_blanks_do_not_matter(s, g.len() as int);
}

/// A single statement is read as what it stands for.
pub proof fn law_statement_reads_as_written(source: Source, gap: Seq<Gap>)
    requires
        numerals::is_gaps(gap),
        is_source(source),
    ensures
        program::parsed(source_text(source, gap)) == match meaning(source, Size::Word) {
            Ok(node) => Ok::<Seq<NodeView>, ParseError>(seq![node]),
            Err(error) => Err(error),
        },
{
    let s = source_text(source, gap);
    assert(s.subrange(0, s.len() as int) =~= s);
    lemma_source_start(source, gap);
    assert(lexer::skip_blanks(s, 0) == 0);
    lemma_statement(s, 0, source, gap, Size::Word);
    let (tree, j) = program::statement_at(s, 0)->0;
    let more = program::statements_at(s, j)->Ok_0;
    assert(more.len() == 1);
    let parts = program::statements_at(s, 0)->Ok_0;
    assert(parts == seq![tree] + more);
    assert(parts.drop_first() =~= more);
    reveal_with_fuel(statements::program_of, 3);
    if let Ok(node) = meaning(source, Size::Word) {
        assert(seq![node] + Seq::<NodeView>::empty() =~= seq![node]);
    }
}

} // verus!
